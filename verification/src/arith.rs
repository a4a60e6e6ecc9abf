use vstd::prelude::*;

use crate::error::{ErrorV, ShellError};
use crate::lexer::{char_at, is_digit, is_ident_cont, is_ident_start};
use crate::num::{
    all_digits, int_text, int_to_string, law_int_text_reads_back, lemma_nat_text_value, nat_text,
    parse_i64, parse_in_range,
};
use crate::shell::{Shell, Table, lookup};
use crate::text::{chars_of, owned, push_text, string_of_range, str_eq};

verus! {

/// What the expansions of a word read from the shell.
pub struct EnvV {
    pub vars: Table,
    pub last_status: i32,
    pub last_bg_pid: Option<i32>,
}

pub open spec fn env_of(shell: &Shell) -> EnvV {
    EnvV { vars: shell.vars(), last_status: shell.last_status, last_bg_pid: shell.last_bg_pid }
}

/// The value of a parameter: `$?` the last status, `$!` the last
/// background process id (empty when there is none), any other name
/// its variable (empty when unset).
pub open spec fn param_text(name: Seq<char>, env: EnvV) -> Seq<char> {
    if name == "?"@ {
        int_text(env.last_status as int)
    } else if name == "!"@ {
        match env.last_bg_pid {
            Some(p) => int_text(p as int),
            None => Seq::empty(),
        }
    } else {
        match lookup(env.vars, name) {
            Some(v) => v,
            None => Seq::empty(),
        }
    }
}

/// The value of a parameter, as text.
pub fn param_value(name: &str, shell: &Shell) -> (r: String)
    ensures
        r@ == param_text(name@, env_of(shell)),
{
    if str_eq(name, "?") {
        return int_to_string(shell.last_status as i128);
    }
    if str_eq(name, "!") {
        return match shell.last_bg_pid {
            Some(p) => int_to_string(p as i128),
            None => String::new(),
        };
    }
    match shell.get_var(name) {
        Some(v) => owned(v),
        None => String::new(),
    }
}

// ---------------------------------------------------------------------------
// Whitespace and trimming
// ---------------------------------------------------------------------------

/// The characters that Unicode calls white space.
pub open spec fn is_white(c: char) -> bool {
    c == '\t' || c == '\n' || c == '\x0B' || c == '\x0C' || c == '\r' || c == ' ' || c == '\u{85}'
        || c == '\u{A0}' || c == '\u{1680}' || ('\u{2000}' <= c && c <= '\u{200A}') || c
        == '\u{2028}' || c == '\u{2029}' || c == '\u{202F}' || c == '\u{205F}' || c == '\u{3000}'
}

pub fn is_white_space(c: char) -> (r: bool)
    ensures
        r == is_white(c),
{
    c == '\t' || c == '\n' || c == '\x0B' || c == '\x0C' || c == '\r' || c == ' ' || c == '\u{85}'
        || c == '\u{A0}' || c == '\u{1680}' || ('\u{2000}' <= c && c <= '\u{200A}') || c
        == '\u{2028}' || c == '\u{2029}' || c == '\u{202F}' || c == '\u{205F}' || c == '\u{3000}'
}

/// Where a string starts once its leading white space is skipped.
pub open spec fn trim_lo(s: Seq<char>, i: int) -> int
    decreases s.len() - i,
{
    if 0 <= i < s.len() && is_white(s[i]) {
        trim_lo(s, i + 1)
    } else {
        i
    }
}

/// Where a string ends once its trailing white space is dropped, not
/// going below `lo`.
pub open spec fn trim_hi(s: Seq<char>, lo: int, j: int) -> int
    decreases j - lo,
{
    if lo < j && j <= s.len() && is_white(s[j - 1]) {
        trim_hi(s, lo, j - 1)
    } else {
        j
    }
}

/// A string without its leading and trailing white space.
pub open spec fn trimmed(s: Seq<char>) -> Seq<char> {
    let lo = trim_lo(s, 0);
    s.subrange(lo, trim_hi(s, lo, s.len() as int))
}

/// The bounds of `s` once trimmed.
pub fn trim_bounds(s: &Vec<char>) -> (r: (usize, usize))
    ensures
        r.0 as int == trim_lo(s@, 0),
        r.1 as int == trim_hi(s@, r.0 as int, s@.len() as int),
        r.0 <= r.1 <= s@.len(),
{
    let mut lo = 0usize;
    while lo < s.len() && is_white_space(s[lo])
        invariant
            lo <= s@.len(),
            trim_lo(s@, 0) == trim_lo(s@, lo as int),
        decreases s@.len() - lo,
    {
        lo += 1;
    }
    let mut hi = s.len();
    while hi > lo && is_white_space(s[hi - 1])
        invariant
            lo <= hi <= s@.len(),
            trim_hi(s@, lo as int, s@.len() as int) == trim_hi(s@, lo as int, hi as int),
        decreases hi - lo,
    {
        hi -= 1;
    }
    (lo, hi)
}

// ---------------------------------------------------------------------------
// Arithmetic: the grammar and its values
// ---------------------------------------------------------------------------

pub type ArithR = Result<(i64, int), ErrorV>;

pub open spec fn arith_err(msg: Seq<char>) -> ErrorV {
    ErrorV::Eval { message: msg }
}

/// Skips blanks, tabs and newlines.
pub open spec fn ws_end(s: Seq<char>, i: int) -> int
    decreases s.len() - i,
{
    if 0 <= i < s.len() && (s[i] == ' ' || s[i] == '\t' || s[i] == '\n') {
        ws_end(s, i + 1)
    } else {
        i
    }
}

pub proof fn lemma_ws_end(s: Seq<char>, i: int)
    requires
        0 <= i <= s.len(),
    ensures
        i <= ws_end(s, i) <= s.len(),
    decreases s.len() - i,
{
    if i < s.len() && (s[i] == ' ' || s[i] == '\t' || s[i] == '\n') {
        lemma_ws_end(s, i + 1);
    }
}

/// Division that truncates toward zero.
pub open spec fn trunc_div(a: int, b: int) -> int {
    let q = (if a < 0 {
        -a
    } else {
        a
    }) / (if b < 0 {
        -b
    } else {
        b
    });
    if (a < 0) != (b < 0) {
        -q
    } else {
        q
    }
}

/// `i64::wrapping_div`: the truncated quotient, where `MIN / -1` wraps
/// to `MIN`.
pub open spec fn wrap_div(a: i64, b: i64) -> i64 {
    if a == i64::MIN && b == -1 {
        i64::MIN
    } else {
        trunc_div(a as int, b as int) as i64
    }
}

/// `i64::wrapping_rem`: the remainder of the truncated division, `0` for
/// `MIN % -1`.
pub open spec fn wrap_rem(a: i64, b: i64) -> i64 {
    if a == i64::MIN && b == -1 {
        0
    } else {
        (a - b * trunc_div(a as int, b as int)) as i64
    }
}

pub open spec fn bool_val(b: bool) -> i64 {
    if b {
        1
    } else {
        0
    }
}

pub open spec fn a_stuck() -> ArithR {
    Err(arith_err(Seq::empty()))
}

pub open spec fn a_expr(s: Seq<char>, i: int, env: EnvV) -> ArithR
    decreases s.len() - i, 8int,
{
    a_or(s, i, env)
}

pub open spec fn a_or(s: Seq<char>, i: int, env: EnvV) -> ArithR
    decreases s.len() - i, 7int,
{
    match a_and(s, i, env) {
        Err(e) => Err(e),
        Ok((v, q)) => if i <= q <= s.len() {
            a_or_loop(s, q, env, v)
        } else {
            a_stuck()
        },
    }
}

pub open spec fn a_or_loop(s: Seq<char>, i: int, env: EnvV, left: i64) -> ArithR
    decreases s.len() - i, 0int,
{
    let q = ws_end(s, i);
    if i >= 0 && char_at(s, q) == Some('|') && char_at(s, q + 1) == Some('|') {
        proof {
            lemma_ws_end(s, i);
        }
        match a_and(s, q + 2, env) {
            Err(e) => Err(e),
            Ok((r, q2)) => if q + 2 <= q2 <= s.len() {
                a_or_loop(s, q2, env, bool_val(left != 0 || r != 0))
            } else {
                a_stuck()
            },
        }
    } else {
        Ok((left, q))
    }
}

pub open spec fn a_and(s: Seq<char>, i: int, env: EnvV) -> ArithR
    decreases s.len() - i, 6int,
{
    match a_rel(s, i, env) {
        Err(e) => Err(e),
        Ok((v, q)) => if i <= q <= s.len() {
            a_and_loop(s, q, env, v)
        } else {
            a_stuck()
        },
    }
}

pub open spec fn a_and_loop(s: Seq<char>, i: int, env: EnvV, left: i64) -> ArithR
    decreases s.len() - i, 0int,
{
    let q = ws_end(s, i);
    if i >= 0 && char_at(s, q) == Some('&') && char_at(s, q + 1) == Some('&') {
        proof {
            lemma_ws_end(s, i);
        }
        match a_rel(s, q + 2, env) {
            Err(e) => Err(e),
            Ok((r, q2)) => if q + 2 <= q2 <= s.len() {
                a_and_loop(s, q2, env, bool_val(left != 0 && r != 0))
            } else {
                a_stuck()
            },
        }
    } else {
        Ok((left, q))
    }
}

/// The comparison operator at `q`, if any, as its length and its meaning.
pub open spec fn rel_op(s: Seq<char>, q: int) -> Option<(int, int)> {
    let a = char_at(s, q);
    let b = char_at(s, q + 1);
    if a == Some('=') && b == Some('=') {
        Some((2, 0))
    } else if a == Some('!') && b == Some('=') {
        Some((2, 1))
    } else if a == Some('<') && b == Some('=') {
        Some((2, 2))
    } else if a == Some('>') && b == Some('=') {
        Some((2, 3))
    } else if a == Some('<') {
        Some((1, 4))
    } else if a == Some('>') {
        Some((1, 5))
    } else {
        None
    }
}

pub open spec fn rel_apply(op: int, l: i64, r: i64) -> i64 {
    if op == 0 {
        bool_val(l == r)
    } else if op == 1 {
        bool_val(l != r)
    } else if op == 2 {
        bool_val(l <= r)
    } else if op == 3 {
        bool_val(l >= r)
    } else if op == 4 {
        bool_val(l < r)
    } else {
        bool_val(l > r)
    }
}

pub open spec fn a_rel(s: Seq<char>, i: int, env: EnvV) -> ArithR
    decreases s.len() - i, 5int,
{
    match a_add(s, i, env) {
        Err(e) => Err(e),
        Ok((v, q)) => if i <= q <= s.len() {
            a_rel_loop(s, q, env, v)
        } else {
            a_stuck()
        },
    }
}

pub open spec fn a_rel_loop(s: Seq<char>, i: int, env: EnvV, left: i64) -> ArithR
    decreases s.len() - i, 0int,
{
    let q = ws_end(s, i);
    match rel_op(s, q) {
        Some((w, op)) => if i >= 0 {
            proof {
                lemma_ws_end(s, i);
            }
            match a_add(s, q + w, env) {
                Err(e) => Err(e),
                Ok((r, q2)) => if q + w <= q2 <= s.len() {
                    a_rel_loop(s, q2, env, rel_apply(op, left, r))
                } else {
                    a_stuck()
                },
            }
        } else {
            a_stuck()
        },
        None => Ok((left, q)),
    }
}

pub open spec fn a_add(s: Seq<char>, i: int, env: EnvV) -> ArithR
    decreases s.len() - i, 4int,
{
    match a_mul(s, i, env) {
        Err(e) => Err(e),
        Ok((v, q)) => if i <= q <= s.len() {
            a_add_loop(s, q, env, v)
        } else {
            a_stuck()
        },
    }
}

pub open spec fn a_add_loop(s: Seq<char>, i: int, env: EnvV, left: i64) -> ArithR
    decreases s.len() - i, 0int,
{
    let q = ws_end(s, i);
    let c = char_at(s, q);
    if i >= 0 && (c == Some('+') || c == Some('-')) {
        proof {
            lemma_ws_end(s, i);
        }
        match a_mul(s, q + 1, env) {
            Err(e) => Err(e),
            Ok((r, q2)) => if q + 1 <= q2 <= s.len() {
                a_add_loop(
                    s,
                    q2,
                    env,
                    if c == Some('+') {
                        vstd::wrapping::i64_specs::wrapping_add(left, r)
                    } else {
                        vstd::wrapping::i64_specs::wrapping_sub(left, r)
                    },
                )
            } else {
                a_stuck()
            },
        }
    } else {
        Ok((left, q))
    }
}

pub open spec fn a_mul(s: Seq<char>, i: int, env: EnvV) -> ArithR
    decreases s.len() - i, 3int,
{
    match a_unary(s, i, env) {
        Err(e) => Err(e),
        Ok((v, q)) => if i <= q <= s.len() {
            a_mul_loop(s, q, env, v)
        } else {
            a_stuck()
        },
    }
}

pub open spec fn a_mul_loop(s: Seq<char>, i: int, env: EnvV, left: i64) -> ArithR
    decreases s.len() - i, 0int,
{
    let q = ws_end(s, i);
    let c = char_at(s, q);
    if i >= 0 && (c == Some('*') || c == Some('/') || c == Some('%')) {
        proof {
            lemma_ws_end(s, i);
        }
        match a_unary(s, q + 1, env) {
            Err(e) => Err(e),
            Ok((r, q2)) => if !(q + 1 <= q2 <= s.len()) {
                a_stuck()
            } else if c == Some('*') {
                a_mul_loop(s, q2, env, vstd::wrapping::i64_specs::wrapping_mul(left, r))
            } else if r == 0 {
                Err(arith_err("division by zero"@))
            } else if c == Some('/') {
                a_mul_loop(s, q2, env, wrap_div(left, r))
            } else {
                a_mul_loop(s, q2, env, wrap_rem(left, r))
            },
        }
    } else {
        Ok((left, q))
    }
}

pub open spec fn a_unary(s: Seq<char>, i: int, env: EnvV) -> ArithR
    decreases s.len() - i, 2int,
{
    let q = ws_end(s, i);
    let c = char_at(s, q);
    if i < 0 {
        a_stuck()
    } else if c == Some('-') || c == Some('+') || c == Some('!') {
        proof {
            lemma_ws_end(s, i);
        }
        match a_unary(s, q + 1, env) {
            Err(e) => Err(e),
            Ok((v, q2)) => Ok(
                (
                    if c == Some('-') {
                        vstd::wrapping::i64_specs::wrapping_sub(0, v)
                    } else if c == Some('+') {
                        v
                    } else {
                        bool_val(v == 0)
                    },
                    q2,
                ),
            ),
        }
    } else if c == Some('(') {
        proof {
            lemma_ws_end(s, i);
        }
        match a_expr(s, q + 1, env) {
            Err(e) => Err(e),
            Ok((v, q2)) => {
                let q3 = ws_end(s, q2);
                if char_at(s, q3) != Some(')') {
                    Err(arith_err("missing ')' in arithmetic"@))
                } else {
                    Ok((v, q3 + 1))
                }
            },
        }
    } else {
        a_primary(s, i, env)
    }
}

/// The end of the run of characters from `i` on that satisfy `pred`.
pub open spec fn digits_end(s: Seq<char>, i: int) -> int
    decreases s.len() - i,
{
    if 0 <= i < s.len() && is_digit(s[i]) {
        digits_end(s, i + 1)
    } else {
        i
    }
}

pub open spec fn name_end(s: Seq<char>, i: int) -> int
    decreases s.len() - i,
{
    if 0 <= i < s.len() && is_ident_cont(s[i]) {
        name_end(s, i + 1)
    } else {
        i
    }
}

pub open spec fn a_primary(s: Seq<char>, i: int, env: EnvV) -> ArithR {
    let q = ws_end(s, i);
    match char_at(s, q) {
        Some(c) => if is_digit(c) {
            let e = digits_end(s, q);
            match parse_in_range(s.subrange(q, e), i64::MIN as int, i64::MAX as int) {
                Some(v) => Ok((v as i64, e)),
                None => Err(arith_err("bad number"@)),
            }
        } else if is_ident_start(c) {
            let e = name_end(s, q);
            let name = s.subrange(q, e);
            match parse_in_range(
                trimmed(param_text(name, env)),
                i64::MIN as int,
                i64::MAX as int,
            ) {
                Some(v) => Ok((v as i64, e)),
                None => Err(arith_err("unset or bad variable: "@ + name)),
            }
        } else {
            Err(arith_err("bad arithmetic expression"@))
        },
        None => Err(arith_err("empty arithmetic expression"@)),
    }
}

/// The value of an arithmetic expression: the whole text must be used.
pub open spec fn arith_value(s: Seq<char>, env: EnvV) -> Result<i64, ErrorV> {
    match a_expr(s, 0, env) {
        Err(e) => Err(e),
        Ok((v, q)) => if ws_end(s, q) < s.len() {
            Err(arith_err("bad arithmetic syntax"@))
        } else {
            Ok(v)
        },
    }
}

pub open spec fn ares(r: Result<i64, ShellError>, pos: usize) -> ArithR {
    match r {
        Ok(v) => Ok((v, pos as int)),
        Err(e) => Err(e@),
    }
}

/// A recursive-descent evaluator over the characters of an expression.
struct ArithParser<'a> {
    chars: Vec<char>,
    pos: usize,
    shell: &'a Shell,
}

impl<'a> ArithParser<'a> {
    spec fn src(&self) -> Seq<char> {
        self.chars@
    }

    spec fn env(&self) -> EnvV {
        env_of(self.shell)
    }

    fn peek(&self) -> (r: Option<char>)
        ensures
            r == char_at(self.chars@, self.pos as int),
    {
        if self.pos < self.chars.len() {
            Some(self.chars[self.pos])
        } else {
            None
        }
    }

    fn peek_at(&self, k: usize) -> (r: Option<char>)
        requires
            self.pos <= self.chars@.len(),
            k <= 2,
        ensures
            r == char_at(self.chars@, self.pos + k),
    {
        if k < self.chars.len() - self.pos {
            Some(self.chars[self.pos + k])
        } else {
            None
        }
    }

    fn bump(&mut self, k: usize)
        requires
            old(self).pos + k <= old(self).chars@.len(),
        ensures
            final(self).chars == old(self).chars,
            final(self).shell == old(self).shell,
            final(self).pos == old(self).pos + k,
    {
        let n = self.chars.len();
        assert(n == self.chars@.len());
        self.pos = self.pos + k;
    }

    fn skip_ws(&mut self)
        requires
            old(self).pos <= old(self).chars@.len(),
        ensures
            final(self).chars == old(self).chars,
            final(self).shell == old(self).shell,
            final(self).pos == ws_end(old(self).chars@, old(self).pos as int),
            old(self).pos <= final(self).pos <= old(self).chars@.len(),
    {
        while self.pos < self.chars.len() && (self.chars[self.pos] == ' '
            || self.chars[self.pos] == '\t' || self.chars[self.pos] == '\n')
            invariant
                self.chars == old(self).chars,
                self.shell == old(self).shell,
                old(self).pos <= self.pos <= self.chars@.len(),
                ws_end(self.chars@, old(self).pos as int) == ws_end(self.chars@, self.pos as int),
            decreases self.chars@.len() - self.pos,
        {
            self.pos += 1;
        }
    }

    fn parse_expr(&mut self) -> (r: Result<i64, ShellError>)
        requires
            old(self).pos <= old(self).chars@.len(),
        ensures
            final(self).chars == old(self).chars,
            final(self).shell == old(self).shell,
            ares(r, final(self).pos) == a_expr(old(self).src(), old(self).pos as int, old(self).env()),
            r is Ok ==> old(self).pos <= final(self).pos <= old(self).chars@.len(),
        decreases old(self).chars@.len() - old(self).pos, 8int,
    {
        self.parse_or()
    }

    #[verifier::rlimit(40)]
    fn parse_or(&mut self) -> (r: Result<i64, ShellError>)
        requires
            old(self).pos <= old(self).chars@.len(),
        ensures
            final(self).chars == old(self).chars,
            final(self).shell == old(self).shell,
            ares(r, final(self).pos) == a_or(old(self).src(), old(self).pos as int, old(self).env()),
            r is Ok ==> old(self).pos <= final(self).pos <= old(self).chars@.len(),
        decreases old(self).chars@.len() - old(self).pos, 7int,
    {
        let ghost s = self.src();
        let ghost env = self.env();
        let ghost p0 = self.pos as int;
        let mut left = match self.parse_and() {
            Ok(v) => v,
            Err(e) => return Err(e),
        };
        loop
            invariant
                self.chars == old(self).chars,
                self.shell == old(self).shell,
                s == self.src(),
                env == self.env(),
                p0 == old(self).pos,
                p0 <= self.pos <= self.chars@.len(),
                a_or(s, p0, env) == a_or_loop(s, self.pos as int, env, left),
            decreases self.chars@.len() - self.pos,
        {
            self.skip_ws();
            if self.peek() == Some('|') && self.peek_at(1) == Some('|') {
                self.bump(2);
                let right = match self.parse_and() {
                    Ok(v) => v,
                    Err(e) => return Err(e),
                };
                left = if left != 0 || right != 0 {
                    1
                } else {
                    0
                };
            } else {
                return Ok(left);
            }
        }
    }

    #[verifier::rlimit(40)]
    fn parse_and(&mut self) -> (r: Result<i64, ShellError>)
        requires
            old(self).pos <= old(self).chars@.len(),
        ensures
            final(self).chars == old(self).chars,
            final(self).shell == old(self).shell,
            ares(r, final(self).pos) == a_and(old(self).src(), old(self).pos as int, old(self).env()),
            r is Ok ==> old(self).pos <= final(self).pos <= old(self).chars@.len(),
        decreases old(self).chars@.len() - old(self).pos, 6int,
    {
        let ghost s = self.src();
        let ghost env = self.env();
        let ghost p0 = self.pos as int;
        let mut left = match self.parse_relation() {
            Ok(v) => v,
            Err(e) => return Err(e),
        };
        loop
            invariant
                self.chars == old(self).chars,
                self.shell == old(self).shell,
                s == self.src(),
                env == self.env(),
                p0 == old(self).pos,
                p0 <= self.pos <= self.chars@.len(),
                a_and(s, p0, env) == a_and_loop(s, self.pos as int, env, left),
            decreases self.chars@.len() - self.pos,
        {
            self.skip_ws();
            if self.peek() == Some('&') && self.peek_at(1) == Some('&') {
                self.bump(2);
                let right = match self.parse_relation() {
                    Ok(v) => v,
                    Err(e) => return Err(e),
                };
                left = if left != 0 && right != 0 {
                    1
                } else {
                    0
                };
            } else {
                return Ok(left);
            }
        }
    }

    #[verifier::rlimit(40)]
    fn parse_relation(&mut self) -> (r: Result<i64, ShellError>)
        requires
            old(self).pos <= old(self).chars@.len(),
        ensures
            final(self).chars == old(self).chars,
            final(self).shell == old(self).shell,
            ares(r, final(self).pos) == a_rel(old(self).src(), old(self).pos as int, old(self).env()),
            r is Ok ==> old(self).pos <= final(self).pos <= old(self).chars@.len(),
        decreases old(self).chars@.len() - old(self).pos, 5int,
    {
        let ghost s = self.src();
        let ghost env = self.env();
        let ghost p0 = self.pos as int;
        let mut left = match self.parse_add() {
            Ok(v) => v,
            Err(e) => return Err(e),
        };
        loop
            invariant
                self.chars == old(self).chars,
                self.shell == old(self).shell,
                s == self.src(),
                env == self.env(),
                p0 == old(self).pos,
                p0 <= self.pos <= self.chars@.len(),
                a_rel(s, p0, env) == a_rel_loop(s, self.pos as int, env, left),
            decreases self.chars@.len() - self.pos,
        {
            self.skip_ws();
            let a = self.peek();
            let b = self.peek_at(1);
            let (width, op): (usize, u8) = if a == Some('=') && b == Some('=') {
                (2, 0)
            } else if a == Some('!') && b == Some('=') {
                (2, 1)
            } else if a == Some('<') && b == Some('=') {
                (2, 2)
            } else if a == Some('>') && b == Some('=') {
                (2, 3)
            } else if a == Some('<') {
                (1, 4)
            } else if a == Some('>') {
                (1, 5)
            } else {
                return Ok(left);
            };
            assert(rel_op(s, self.pos as int) == Some((width as int, op as int)));
            self.bump(width);
            let r = match self.parse_add() {
                Ok(v) => v,
                Err(e) => return Err(e),
            };
            left = match op {
                0 => (left == r) as i64,
                1 => (left != r) as i64,
                2 => (left <= r) as i64,
                3 => (left >= r) as i64,
                4 => (left < r) as i64,
                _ => (left > r) as i64,
            };
        }
    }

    #[verifier::rlimit(40)]
    fn parse_add(&mut self) -> (r: Result<i64, ShellError>)
        requires
            old(self).pos <= old(self).chars@.len(),
        ensures
            final(self).chars == old(self).chars,
            final(self).shell == old(self).shell,
            ares(r, final(self).pos) == a_add(old(self).src(), old(self).pos as int, old(self).env()),
            r is Ok ==> old(self).pos <= final(self).pos <= old(self).chars@.len(),
        decreases old(self).chars@.len() - old(self).pos, 4int,
    {
        let ghost s = self.src();
        let ghost env = self.env();
        let ghost p0 = self.pos as int;
        let mut left = match self.parse_mul() {
            Ok(v) => v,
            Err(e) => return Err(e),
        };
        loop
            invariant
                self.chars == old(self).chars,
                self.shell == old(self).shell,
                s == self.src(),
                env == self.env(),
                p0 == old(self).pos,
                p0 <= self.pos <= self.chars@.len(),
                a_add(s, p0, env) == a_add_loop(s, self.pos as int, env, left),
            decreases self.chars@.len() - self.pos,
        {
            self.skip_ws();
            match self.peek() {
                Some('+') => {
                    self.bump(1);
                    let r = match self.parse_mul() {
                        Ok(v) => v,
                        Err(e) => return Err(e),
                    };
                    left = left.wrapping_add(r);
                },
                Some('-') => {
                    self.bump(1);
                    let r = match self.parse_mul() {
                        Ok(v) => v,
                        Err(e) => return Err(e),
                    };
                    left = left.wrapping_sub(r);
                },
                _ => return Ok(left),
            }
        }
    }

    #[verifier::rlimit(40)]
    fn parse_mul(&mut self) -> (r: Result<i64, ShellError>)
        requires
            old(self).pos <= old(self).chars@.len(),
        ensures
            final(self).chars == old(self).chars,
            final(self).shell == old(self).shell,
            ares(r, final(self).pos) == a_mul(old(self).src(), old(self).pos as int, old(self).env()),
            r is Ok ==> old(self).pos <= final(self).pos <= old(self).chars@.len(),
        decreases old(self).chars@.len() - old(self).pos, 3int,
    {
        let ghost s = self.src();
        let ghost env = self.env();
        let ghost p0 = self.pos as int;
        let mut left = match self.parse_unary() {
            Ok(v) => v,
            Err(e) => return Err(e),
        };
        loop
            invariant
                self.chars == old(self).chars,
                self.shell == old(self).shell,
                s == self.src(),
                env == self.env(),
                p0 == old(self).pos,
                p0 <= self.pos <= self.chars@.len(),
                a_mul(s, p0, env) == a_mul_loop(s, self.pos as int, env, left),
            decreases self.chars@.len() - self.pos,
        {
            self.skip_ws();
            match self.peek() {
                Some('*') => {
                    self.bump(1);
                    let r = match self.parse_unary() {
                        Ok(v) => v,
                        Err(e) => return Err(e),
                    };
                    left = left.wrapping_mul(r);
                },
                Some('/') => {
                    self.bump(1);
                    let r = match self.parse_unary() {
                        Ok(v) => v,
                        Err(e) => return Err(e),
                    };
                    if r == 0 {
                        return Err(ShellError::eval("division by zero"));
                    }
                    left = wrapping_div(left, r);
                },
                Some('%') => {
                    self.bump(1);
                    let r = match self.parse_unary() {
                        Ok(v) => v,
                        Err(e) => return Err(e),
                    };
                    if r == 0 {
                        return Err(ShellError::eval("division by zero"));
                    }
                    left = wrapping_rem(left, r);
                },
                _ => return Ok(left),
            }
        }
    }

    fn parse_unary(&mut self) -> (r: Result<i64, ShellError>)
        requires
            old(self).pos <= old(self).chars@.len(),
        ensures
            final(self).chars == old(self).chars,
            final(self).shell == old(self).shell,
            ares(r, final(self).pos) == a_unary(old(self).src(), old(self).pos as int, old(self).env()),
            r is Ok ==> old(self).pos <= final(self).pos <= old(self).chars@.len(),
        decreases old(self).chars@.len() - old(self).pos, 2int,
    {
        let ghost s = self.src();
        let ghost p0 = self.pos as int;
        self.skip_ws();
        match self.peek() {
            Some('-') => {
                self.bump(1);
                match self.parse_unary() {
                    Ok(v) => Ok(0i64.wrapping_sub(v)),
                    Err(e) => Err(e),
                }
            },
            Some('+') => {
                self.bump(1);
                self.parse_unary()
            },
            Some('!') => {
                self.bump(1);
                match self.parse_unary() {
                    Ok(v) => Ok(
                        if v == 0 {
                            1
                        } else {
                            0
                        },
                    ),
                    Err(e) => Err(e),
                }
            },
            Some('(') => {
                self.bump(1);
                let v = match self.parse_expr() {
                    Ok(v) => v,
                    Err(e) => return Err(e),
                };
                self.skip_ws();
                if self.peek() != Some(')') {
                    return Err(ShellError::eval("missing ')' in arithmetic"));
                }
                self.bump(1);
                Ok(v)
            },
            _ => {
                assert(ws_end(s, self.pos as int) == self.pos) by {
                    lemma_ws_idempotent(s, p0);
                }
                self.parse_primary()
            },
        }
    }

    fn parse_primary(&mut self) -> (r: Result<i64, ShellError>)
        requires
            old(self).pos <= old(self).chars@.len(),
        ensures
            final(self).chars == old(self).chars,
            final(self).shell == old(self).shell,
            ares(r, final(self).pos) == a_primary(old(self).src(), old(self).pos as int, old(self).env()),
            r is Ok ==> old(self).pos <= final(self).pos <= old(self).chars@.len(),
    {
        self.skip_ws();
        let ghost s = self.src();
        let q = self.pos;
        match self.peek() {
            Some(c) => {
                if crate::lexer::is_ascii_digit(c) {
                    while self.pos < self.chars.len() && crate::lexer::is_ascii_digit(
                        self.chars[self.pos],
                    )
                        invariant
                            self.chars == old(self).chars,
                            self.shell == old(self).shell,
                            s == self.src(),
                            q <= self.pos <= self.chars@.len(),
                            digits_end(s, q as int) == digits_end(s, self.pos as int),
                        decreases self.chars@.len() - self.pos,
                    {
                        self.pos += 1;
                    }
                    match parse_i64(&self.chars, q, self.pos) {
                        Some(v) => Ok(v),
                        None => Err(ShellError::eval("bad number")),
                    }
                } else if crate::lexer::is_ascii_alpha(c) || c == '_' {
                    while self.pos < self.chars.len() && crate::lexer::is_identifier_cont(
                        self.chars[self.pos],
                    )
                        invariant
                            self.chars == old(self).chars,
                            self.shell == old(self).shell,
                            s == self.src(),
                            q <= self.pos <= self.chars@.len(),
                            name_end(s, q as int) == name_end(s, self.pos as int),
                        decreases self.chars@.len() - self.pos,
                    {
                        self.pos += 1;
                    }
                    let name = string_of_range(&self.chars, q, self.pos);
                    let value = param_value(name.as_str(), self.shell);
                    let vchars = chars_of(value.as_str());
                    let (lo, hi) = trim_bounds(&vchars);
                    proof {
                        assert(vchars@.subrange(lo as int, hi as int) =~= trimmed(value@));
                    }
                    match parse_i64(&vchars, lo, hi) {
                        Some(v) => Ok(v),
                        None => {
                            let mut msg = owned("unset or bad variable: ");
                            push_text(&mut msg, name.as_str());
                            Err(ShellError::eval(msg.as_str()))
                        },
                    }
                } else {
                    Err(ShellError::eval("bad arithmetic expression"))
                }
            },
            None => Err(ShellError::eval("empty arithmetic expression")),
        }
    }
}

proof fn lemma_ws_idempotent(s: Seq<char>, i: int)
    requires
        0 <= i <= s.len(),
    ensures
        ws_end(s, ws_end(s, i)) == ws_end(s, i),
    decreases s.len() - i,
{
    if i < s.len() && (s[i] == ' ' || s[i] == '\t' || s[i] == '\n') {
        lemma_ws_idempotent(s, i + 1);
    }
}

/// `i64::wrapping_div`.
pub fn wrapping_div(a: i64, b: i64) -> (r: i64)
    requires
        b != 0,
    ensures
        r == wrap_div(a, b),
{
    if a == i64::MIN && b == -1 {
        return i64::MIN;
    }
    let ma: u128 = if a < 0 {
        (-(a as i128)) as u128
    } else {
        a as u128
    };
    let mb: u128 = if b < 0 {
        (-(b as i128)) as u128
    } else {
        b as u128
    };
    let q: u128 = ma / mb;
    assert(q <= ma) by (nonlinear_arith)
        requires
            q == ma / mb,
            mb >= 1,
    ;
    assert(mb == 1 ==> q == ma) by (nonlinear_arith)
        requires
            q == ma / mb,
    ;
    assert(mb >= 2 ==> q <= ma / 2) by (nonlinear_arith)
        requires
            q == ma / mb,
    ;
    let v: i128 = if (a < 0) != (b < 0) {
        -(q as i128)
    } else {
        q as i128
    };
    assert(trunc_div(a as int, b as int) == v);
    v as i64
}

/// `i64::wrapping_rem`.
pub fn wrapping_rem(a: i64, b: i64) -> (r: i64)
    requires
        b != 0,
    ensures
        r == wrap_rem(a, b),
{
    if a == i64::MIN && b == -1 {
        return 0;
    }
    let ma: u128 = if a < 0 {
        (-(a as i128)) as u128
    } else {
        a as u128
    };
    let mb: u128 = if b < 0 {
        (-(b as i128)) as u128
    } else {
        b as u128
    };
    let m: u128 = ma % mb;
    let ghost q = ma / mb;
    assert(ma == mb * q + m && m < mb) by (nonlinear_arith)
        requires
            mb > 0,
            m == ma % mb,
            q == ma / mb,
    ;
    let v: i128 = if a < 0 {
        -(m as i128)
    } else {
        m as i128
    };
    let ghost t = trunc_div(a as int, b as int);
    assert(t == if (a < 0) != (b < 0) {
        -(q as int)
    } else {
        q as int
    });
    assert(v == (a as int) - (b as int) * t) by (nonlinear_arith)
        requires
            ma == mb * q + m,
            ma == (if a < 0 {
                -(a as int)
            } else {
                a as int
            }),
            mb == (if b < 0 {
                -(b as int)
            } else {
                b as int
            }),
            t == (if (a < 0) != (b < 0) {
                -(q as int)
            } else {
                q as int
            }),
            v == (if a < 0 {
                -(m as int)
            } else {
                m as int
            }),
    ;
    v as i64
}

/// Evaluates an arithmetic expression with the variables of the shell.
pub fn eval_arith(expr: &str, shell: &Shell) -> (r: Result<i64, ShellError>)
    ensures
        match r {
            Ok(v) => arith_value(expr@, env_of(shell)) == Ok::<i64, ErrorV>(v),
            Err(e) => arith_value(expr@, env_of(shell)) == Err::<i64, ErrorV>(e@),
        },
{
    let mut parser = ArithParser { chars: chars_of(expr), pos: 0, shell };
    let v = match parser.parse_expr() {
        Ok(v) => v,
        Err(e) => return Err(e),
    };
    parser.skip_ws();
    if parser.peek().is_some() {
        return Err(ShellError::eval("bad arithmetic syntax"));
    }
    Ok(v)
}


/// Arithmetic fails only with an evaluation error.
pub open spec fn eval_only(r: ArithR) -> bool {
    r matches Err(e) ==> e is Eval
}

proof fn lemma_expr_errors(s: Seq<char>, i: int, env: EnvV)
    ensures
        eval_only(a_expr(s, i, env)),
    decreases s.len() - i, 8int,
{
    lemma_or_errors(s, i, env);
}

proof fn lemma_or_errors(s: Seq<char>, i: int, env: EnvV)
    ensures
        eval_only(a_or(s, i, env)),
    decreases s.len() - i, 7int,
{
    lemma_and_errors(s, i, env);
    if let Ok((v, q)) = a_and(s, i, env) {
        if i <= q <= s.len() {
            lemma_or_loop_errors(s, q, env, v);
        }
    }
}

proof fn lemma_or_loop_errors(s: Seq<char>, i: int, env: EnvV, left: i64)
    ensures
        eval_only(a_or_loop(s, i, env, left)),
    decreases s.len() - i, 0int,
{
    if 0 <= i <= s.len() {
        lemma_ws_end(s, i);
    }
    let q = ws_end(s, i);
    if i >= 0 && char_at(s, q) == Some('|') && char_at(s, q + 1) == Some('|') {
        lemma_and_errors(s, q + 2, env);
        if let Ok((r, q2)) = a_and(s, q + 2, env) {
            if q + 2 <= q2 <= s.len() {
                lemma_or_loop_errors(s, q2, env, bool_val(left != 0 || r != 0));
            }
        }
    }
}

proof fn lemma_and_errors(s: Seq<char>, i: int, env: EnvV)
    ensures
        eval_only(a_and(s, i, env)),
    decreases s.len() - i, 6int,
{
    lemma_rel_errors(s, i, env);
    if let Ok((v, q)) = a_rel(s, i, env) {
        if i <= q <= s.len() {
            lemma_and_loop_errors(s, q, env, v);
        }
    }
}

proof fn lemma_and_loop_errors(s: Seq<char>, i: int, env: EnvV, left: i64)
    ensures
        eval_only(a_and_loop(s, i, env, left)),
    decreases s.len() - i, 0int,
{
    if 0 <= i <= s.len() {
        lemma_ws_end(s, i);
    }
    let q = ws_end(s, i);
    if i >= 0 && char_at(s, q) == Some('&') && char_at(s, q + 1) == Some('&') {
        lemma_rel_errors(s, q + 2, env);
        if let Ok((r, q2)) = a_rel(s, q + 2, env) {
            if q + 2 <= q2 <= s.len() {
                lemma_and_loop_errors(s, q2, env, bool_val(left != 0 && r != 0));
            }
        }
    }
}

proof fn lemma_rel_errors(s: Seq<char>, i: int, env: EnvV)
    ensures
        eval_only(a_rel(s, i, env)),
    decreases s.len() - i, 5int,
{
    lemma_add_errors(s, i, env);
    if let Ok((v, q)) = a_add(s, i, env) {
        if i <= q <= s.len() {
            lemma_rel_loop_errors(s, q, env, v);
        }
    }
}

proof fn lemma_rel_loop_errors(s: Seq<char>, i: int, env: EnvV, left: i64)
    ensures
        eval_only(a_rel_loop(s, i, env, left)),
    decreases s.len() - i, 0int,
{
    if 0 <= i <= s.len() {
        lemma_ws_end(s, i);
    }
    let q = ws_end(s, i);
    if let Some((w, op)) = rel_op(s, q) {
        if i >= 0 {
            assert(q < s.len());
            lemma_add_errors(s, q + w, env);
            if let Ok((r, q2)) = a_add(s, q + w, env) {
                if q + w <= q2 <= s.len() {
                    lemma_rel_loop_errors(s, q2, env, rel_apply(op, left, r));
                }
            }
        }
    }
}

proof fn lemma_add_errors(s: Seq<char>, i: int, env: EnvV)
    ensures
        eval_only(a_add(s, i, env)),
    decreases s.len() - i, 4int,
{
    lemma_mul_errors(s, i, env);
    if let Ok((v, q)) = a_mul(s, i, env) {
        if i <= q <= s.len() {
            lemma_add_loop_errors(s, q, env, v);
        }
    }
}

proof fn lemma_add_loop_errors(s: Seq<char>, i: int, env: EnvV, left: i64)
    ensures
        eval_only(a_add_loop(s, i, env, left)),
    decreases s.len() - i, 0int,
{
    if 0 <= i <= s.len() {
        lemma_ws_end(s, i);
    }
    let q = ws_end(s, i);
    let c = char_at(s, q);
    if i >= 0 && (c == Some('+') || c == Some('-')) {
        lemma_mul_errors(s, q + 1, env);
        if let Ok((r, q2)) = a_mul(s, q + 1, env) {
            if q + 1 <= q2 <= s.len() {
                lemma_add_loop_errors(
                    s,
                    q2,
                    env,
                    if c == Some('+') {
                        vstd::wrapping::i64_specs::wrapping_add(left, r)
                    } else {
                        vstd::wrapping::i64_specs::wrapping_sub(left, r)
                    },
                );
            }
        }
    }
}

proof fn lemma_mul_errors(s: Seq<char>, i: int, env: EnvV)
    ensures
        eval_only(a_mul(s, i, env)),
    decreases s.len() - i, 3int,
{
    lemma_unary_errors(s, i, env);
    if let Ok((v, q)) = a_unary(s, i, env) {
        if i <= q <= s.len() {
            lemma_mul_loop_errors(s, q, env, v);
        }
    }
}

proof fn lemma_mul_loop_errors(s: Seq<char>, i: int, env: EnvV, left: i64)
    ensures
        eval_only(a_mul_loop(s, i, env, left)),
    decreases s.len() - i, 0int,
{
    if 0 <= i <= s.len() {
        lemma_ws_end(s, i);
    }
    let q = ws_end(s, i);
    let c = char_at(s, q);
    if i >= 0 && (c == Some('*') || c == Some('/') || c == Some('%')) {
        lemma_unary_errors(s, q + 1, env);
        if let Ok((r, q2)) = a_unary(s, q + 1, env) {
            if q + 1 <= q2 <= s.len() {
                lemma_mul_loop_errors(s, q2, env, vstd::wrapping::i64_specs::wrapping_mul(left, r));
                if r != 0 {
                    lemma_mul_loop_errors(s, q2, env, wrap_div(left, r));
                    lemma_mul_loop_errors(s, q2, env, wrap_rem(left, r));
                }
            }
        }
    }
}

proof fn lemma_unary_errors(s: Seq<char>, i: int, env: EnvV)
    ensures
        eval_only(a_unary(s, i, env)),
    decreases s.len() - i, 2int,
{
    if 0 <= i <= s.len() {
        lemma_ws_end(s, i);
    }
    let q = ws_end(s, i);
    let c = char_at(s, q);
    if i >= 0 {
        if c == Some('-') || c == Some('+') || c == Some('!') {
            lemma_unary_errors(s, q + 1, env);
        } else if c == Some('(') {
            lemma_expr_errors(s, q + 1, env);
        }
    }
}

/// An arithmetic expression fails only with an evaluation error (a
/// division by zero, a bad number or variable, a syntax error).
pub proof fn law_arith_fails_with_eval_errors(s: Seq<char>, env: EnvV)
    ensures
        arith_value(s, env) matches Err(e) ==> e is Eval,
{
    lemma_expr_errors(s, 0, env);
}


proof fn lemma_digits_end_at(s: Seq<char>, i: int, m: int)
    requires
        0 <= i <= m <= s.len(),
        forall|j: int| i <= j < m ==> is_digit(#[trigger] s[j]),
        m == s.len() || !is_digit(s[m]),
    ensures
        digits_end(s, i) == m,
    decreases m - i,
{
    if i < m {
        lemma_digits_end_at(s, i + 1, m);
    }
}

/// The decimal text of a non-negative number starts with a digit, and of a
/// negative one with `-`.
proof fn lemma_int_text_shape(v: int)
    ensures
        int_text(v).len() > 0,
        v >= 0 ==> all_digits(int_text(v)),
        v < 0 ==> int_text(v)[0] == '-' && all_digits(int_text(v).drop_first()),
        is_digit(int_text(v)[0]) || int_text(v)[0] == '-',
{
    if v >= 0 {
        lemma_nat_text_value(v as nat);
        assert(is_digit(int_text(v)[0]));
    } else {
        lemma_nat_text_value((-v) as nat);
        assert(int_text(v).drop_first() =~= nat_text((-v) as nat));
    }
}

/// A number written at `i` (in decimal, with `-` when negative) and not
/// followed by a digit is read as itself.
proof fn lemma_unary_number(s: Seq<char>, i: int, v: int, env: EnvV)
    requires
        i64::MIN < v <= i64::MAX,
        0 <= i,
        i + int_text(v).len() <= s.len(),
        s.subrange(i, i + int_text(v).len()) == int_text(v),
        i + int_text(v).len() == s.len() || !is_digit(s[i + int_text(v).len()]),
    ensures
        a_unary(s, i, env) == Ok::<(i64, int), ErrorV>((v as i64, i + int_text(v).len())),
    decreases if v < 0 {
        1int
    } else {
        0int
    },
{
    let t = int_text(v);
    let m = i + t.len();
    lemma_int_text_shape(v);
    assert(s[i] == t[0]);
    if v >= 0 {
        assert forall|j: int| i <= j < m implies is_digit(#[trigger] s[j]) by {
            assert(s[j] == t[j - i]);
        }
        lemma_digits_end_at(s, i, m);
        assert(ws_end(s, i) == i);
        law_int_text_reads_back(v);
        assert(a_primary(s, i, env) == Ok::<(i64, int), ErrorV>((v as i64, m)));
    } else {
        let w = -v;
        let t2 = int_text(w);
        assert(t2 =~= t.drop_first());
        assert(s.subrange(i + 1, i + 1 + t2.len()) =~= t2) by {
            assert forall|j: int| 0 <= j < t2.len() implies s.subrange(
                i + 1,
                i + 1 + t2.len(),
            )[j] == t2[j] by {
                assert(s[i + 1 + j] == t[j + 1]);
            }
        }
        lemma_unary_number(s, i + 1, w, env);
        assert(ws_end(s, i) == i);
        assert(vstd::wrapping::i64_specs::wrapping_sub(0, w as i64) == v as i64);
    }
}

/// The status of the relation `a o b` written without blanks, once the
/// operator `o` at the end of `a` is known to the parser.
proof fn lemma_relation_text(a: int, b: int, o: Seq<char>, code: int, env: EnvV)
    requires
        i64::MIN < a <= i64::MAX,
        i64::MIN < b <= i64::MAX,
        o.len() > 0,
        !is_digit(o[0]) && o[0] != ' ' && o[0] != '\t' && o[0] != '\n',
        o[0] != '*' && o[0] != '/' && o[0] != '%' && o[0] != '+' && o[0] != '-',
        rel_op(int_text(a) + o + int_text(b), int_text(a).len() as int) == Some((o.len() as int, code)),
    ensures
        arith_value(int_text(a) + o + int_text(b), env) == Ok::<i64, ErrorV>(
            rel_apply(code, a as i64, b as i64),
        ),
{
    let ta = int_text(a);
    let tb = int_text(b);
    let s = ta + o + tb;
    let l1 = ta.len() as int;
    let w = o.len() as int;
    let n = s.len() as int;
    lemma_int_text_shape(a);
    lemma_int_text_shape(b);
    assert(s.subrange(0, l1) =~= ta);
    assert(s[l1] == o[0]);
    lemma_unary_number(s, 0, a, env);
    assert(s.subrange(l1 + w, n) =~= tb);
    assert(n == l1 + w + tb.len());
    lemma_unary_number(s, l1 + w, b, env);
    assert(ws_end(s, l1) == l1);
    assert(ws_end(s, n) == n);
    let av = a as i64;
    let bv = b as i64;
    assert(a_mul_loop(s, l1, env, av) == Ok::<(i64, int), ErrorV>((av, l1)));
    assert(a_mul(s, 0, env) == Ok::<(i64, int), ErrorV>((av, l1)));
    assert(a_add_loop(s, l1, env, av) == Ok::<(i64, int), ErrorV>((av, l1)));
    assert(a_add(s, 0, env) == Ok::<(i64, int), ErrorV>((av, l1)));
    assert(a_mul_loop(s, n, env, bv) == Ok::<(i64, int), ErrorV>((bv, n)));
    assert(a_mul(s, l1 + w, env) == Ok::<(i64, int), ErrorV>((bv, n)));
    assert(a_add_loop(s, n, env, bv) == Ok::<(i64, int), ErrorV>((bv, n)));
    assert(a_add(s, l1 + w, env) == Ok::<(i64, int), ErrorV>((bv, n)));
    let r = rel_apply(code, av, bv);
    assert(rel_op(s, n) is None);
    assert(a_rel_loop(s, n, env, r) == Ok::<(i64, int), ErrorV>((r, n)));
    assert(a_rel_loop(s, l1, env, av) == Ok::<(i64, int), ErrorV>((r, n)));
    assert(a_rel(s, 0, env) == Ok::<(i64, int), ErrorV>((r, n)));
    assert(a_and_loop(s, n, env, r) == Ok::<(i64, int), ErrorV>((r, n)));
    assert(a_and(s, 0, env) == Ok::<(i64, int), ErrorV>((r, n)));
    assert(a_or_loop(s, n, env, r) == Ok::<(i64, int), ErrorV>((r, n)));
    assert(a_or(s, 0, env) == Ok::<(i64, int), ErrorV>((r, n)));
    assert(a_expr(s, 0, env) == Ok::<(i64, int), ErrorV>((r, n)));
}

/// Comparisons in arithmetic expansion give 1 when the relation holds
/// between the two numbers and 0 when it does not: `a<=b`, `a<b`, `a>=b`,
/// `a>b`, `a==b` and `a!=b`, for every pair of numbers that can be written
/// (all of `i64` but its least value, whose digits alone overflow).
pub proof fn law_comparisons(a: int, b: int, env: EnvV)
    requires
        i64::MIN < a <= i64::MAX,
        i64::MIN < b <= i64::MAX,
    ensures
        arith_value(int_text(a) + "<="@ + int_text(b), env) == Ok::<i64, ErrorV>(
            if a <= b {
                1
            } else {
                0
            },
        ),
        arith_value(int_text(a) + "<"@ + int_text(b), env) == Ok::<i64, ErrorV>(
            if a < b {
                1
            } else {
                0
            },
        ),
        arith_value(int_text(a) + ">="@ + int_text(b), env) == Ok::<i64, ErrorV>(
            if a >= b {
                1
            } else {
                0
            },
        ),
        arith_value(int_text(a) + ">"@ + int_text(b), env) == Ok::<i64, ErrorV>(
            if a > b {
                1
            } else {
                0
            },
        ),
        arith_value(int_text(a) + "=="@ + int_text(b), env) == Ok::<i64, ErrorV>(
            if a == b {
                1
            } else {
                0
            },
        ),
        arith_value(int_text(a) + "!="@ + int_text(b), env) == Ok::<i64, ErrorV>(
            if a != b {
                1
            } else {
                0
            },
        ),
{
    reveal_strlit("<=");
    reveal_strlit("<");
    reveal_strlit(">=");
    reveal_strlit(">");
    reveal_strlit("==");
    reveal_strlit("!=");
    lemma_int_text_shape(b);
    let ta = int_text(a);
    let tb = int_text(b);
    let l1 = ta.len() as int;
    assert(tb[0] != '=');
    let s1 = ta + "<="@ + tb;
    assert(s1[l1] == '<' && s1[l1 + 1] == '=');
    lemma_relation_text(a, b, "<="@, 2, env);
    let s2 = ta + "<"@ + tb;
    assert(s2[l1] == '<' && s2[l1 + 1] == tb[0]);
    lemma_relation_text(a, b, "<"@, 4, env);
    let s3 = ta + ">="@ + tb;
    assert(s3[l1] == '>' && s3[l1 + 1] == '=');
    lemma_relation_text(a, b, ">="@, 3, env);
    let s4 = ta + ">"@ + tb;
    assert(s4[l1] == '>' && s4[l1 + 1] == tb[0]);
    lemma_relation_text(a, b, ">"@, 5, env);
    let s5 = ta + "=="@ + tb;
    assert(s5[l1] == '=' && s5[l1 + 1] == '=');
    lemma_relation_text(a, b, "=="@, 0, env);
    let s6 = ta + "!="@ + tb;
    assert(s6[l1] == '!' && s6[l1 + 1] == '=');
    lemma_relation_text(a, b, "!="@, 1, env);
}

/// A product level that reads the whole text is the value of the text.
proof fn lemma_whole_from_mul(s: Seq<char>, v: i64, env: EnvV)
    requires
        a_mul(s, 0, env) == Ok::<(i64, int), ErrorV>((v, s.len() as int)),
    ensures
        arith_value(s, env) == Ok::<i64, ErrorV>(v),
{
    let n = s.len() as int;
    assert(ws_end(s, n) == n);
    assert(a_add_loop(s, n, env, v) == Ok::<(i64, int), ErrorV>((v, n)));
    lemma_whole_from_add(s, v, env);
}

/// A sum level that reads the whole text is the value of the text.
proof fn lemma_whole_from_add(s: Seq<char>, v: i64, env: EnvV)
    requires
        a_add(s, 0, env) == Ok::<(i64, int), ErrorV>((v, s.len() as int)),
    ensures
        arith_value(s, env) == Ok::<i64, ErrorV>(v),
{
    let n = s.len() as int;
    assert(ws_end(s, n) == n);
    assert(rel_op(s, n) is None);
    assert(a_rel_loop(s, n, env, v) == Ok::<(i64, int), ErrorV>((v, n)));
    assert(a_rel(s, 0, env) == Ok::<(i64, int), ErrorV>((v, n)));
    assert(a_and_loop(s, n, env, v) == Ok::<(i64, int), ErrorV>((v, n)));
    assert(a_and(s, 0, env) == Ok::<(i64, int), ErrorV>((v, n)));
    assert(a_or_loop(s, n, env, v) == Ok::<(i64, int), ErrorV>((v, n)));
    assert(a_or(s, 0, env) == Ok::<(i64, int), ErrorV>((v, n)));
}

/// The two numbers of `a o b`, read by the unary level.
proof fn lemma_operands(a: int, b: int, o: Seq<char>, env: EnvV)
    requires
        i64::MIN < a <= i64::MAX,
        i64::MIN < b <= i64::MAX,
        o.len() > 0,
        !is_digit(o[0]) && o[0] != ' ' && o[0] != '\t' && o[0] != '\n',
    ensures
        a_unary(int_text(a) + o + int_text(b), 0, env) == Ok::<(i64, int), ErrorV>(
            (a as i64, int_text(a).len() as int),
        ),
        a_unary(int_text(a) + o + int_text(b), (int_text(a).len() + o.len()) as int, env) == Ok::<
            (i64, int),
            ErrorV,
        >((b as i64, (int_text(a) + o + int_text(b)).len() as int)),
        ws_end(int_text(a) + o + int_text(b), int_text(a).len() as int) == int_text(a).len(),
        (int_text(a) + o + int_text(b))[int_text(a).len() as int] == o[0],
{
    let ta = int_text(a);
    let tb = int_text(b);
    let s = ta + o + tb;
    let l1 = ta.len() as int;
    let w = o.len() as int;
    let n = s.len() as int;
    lemma_int_text_shape(a);
    lemma_int_text_shape(b);
    assert(s.subrange(0, l1) =~= ta);
    assert(s[l1] == o[0]);
    lemma_unary_number(s, 0, a, env);
    assert(s.subrange(l1 + w, n) =~= tb);
    lemma_unary_number(s, l1 + w, b, env);
}

/// Sums and differences in arithmetic expansion: `a+b` is `a + b` and
/// `a-b` is `a - b` whenever the result fits in 64 bits.
pub proof fn law_sums(a: int, b: int, env: EnvV)
    requires
        i64::MIN < a <= i64::MAX,
        i64::MIN < b <= i64::MAX,
    ensures
        i64::MIN <= a + b <= i64::MAX ==> arith_value(int_text(a) + "+"@ + int_text(b), env)
            == Ok::<i64, ErrorV>((a + b) as i64),
        i64::MIN <= a - b <= i64::MAX ==> arith_value(int_text(a) + "-"@ + int_text(b), env)
            == Ok::<i64, ErrorV>((a - b) as i64),
{
    reveal_strlit("+");
    reveal_strlit("-");
    let ta = int_text(a);
    let tb = int_text(b);
    let l1 = ta.len() as int;
    let (av, bv) = (a as i64, b as i64);
    let s1 = ta + "+"@ + tb;
    let n1 = s1.len() as int;
    lemma_operands(a, b, "+"@, env);
    assert(a_mul_loop(s1, l1, env, av) == Ok::<(i64, int), ErrorV>((av, l1)));
    assert(a_mul(s1, 0, env) == Ok::<(i64, int), ErrorV>((av, l1)));
    assert(ws_end(s1, n1) == n1);
    assert(a_mul_loop(s1, n1, env, bv) == Ok::<(i64, int), ErrorV>((bv, n1)));
    assert(a_mul(s1, l1 + 1, env) == Ok::<(i64, int), ErrorV>((bv, n1)));
    let sum = vstd::wrapping::i64_specs::wrapping_add(av, bv);
    assert(a_add_loop(s1, n1, env, sum) == Ok::<(i64, int), ErrorV>((sum, n1)));
    assert(a_add_loop(s1, l1, env, av) == Ok::<(i64, int), ErrorV>((sum, n1)));
    lemma_whole_from_add(s1, sum, env);
    let s2 = ta + "-"@ + tb;
    let n2 = s2.len() as int;
    lemma_operands(a, b, "-"@, env);
    assert(a_mul_loop(s2, l1, env, av) == Ok::<(i64, int), ErrorV>((av, l1)));
    assert(a_mul(s2, 0, env) == Ok::<(i64, int), ErrorV>((av, l1)));
    assert(ws_end(s2, n2) == n2);
    assert(a_mul_loop(s2, n2, env, bv) == Ok::<(i64, int), ErrorV>((bv, n2)));
    assert(a_mul(s2, l1 + 1, env) == Ok::<(i64, int), ErrorV>((bv, n2)));
    let dif = vstd::wrapping::i64_specs::wrapping_sub(av, bv);
    assert(a_add_loop(s2, n2, env, dif) == Ok::<(i64, int), ErrorV>((dif, n2)));
    assert(a_add_loop(s2, l1, env, av) == Ok::<(i64, int), ErrorV>((dif, n2)));
    lemma_whole_from_add(s2, dif, env);
}

/// Products, quotients and remainders in arithmetic expansion: `a*b` is
/// `a * b` when it fits in 64 bits; for `a >= 0` and `b > 0`, `a/b` and
/// `a%b` are the quotient and remainder of dividing `a` by `b`; dividing by
/// zero fails.
pub proof fn law_products(a: int, b: int, env: EnvV)
    requires
        i64::MIN < a <= i64::MAX,
        i64::MIN < b <= i64::MAX,
    ensures
        i64::MIN <= a * b <= i64::MAX ==> arith_value(int_text(a) + "*"@ + int_text(b), env)
            == Ok::<i64, ErrorV>((a * b) as i64),
        a >= 0 && b > 0 ==> arith_value(int_text(a) + "/"@ + int_text(b), env) == Ok::<
            i64,
            ErrorV,
        >((a / b) as i64),
        a >= 0 && b > 0 ==> arith_value(int_text(a) + "%"@ + int_text(b), env) == Ok::<
            i64,
            ErrorV,
        >((a % b) as i64),
        b == 0 ==> arith_value(int_text(a) + "/"@ + int_text(b), env) == Err::<i64, ErrorV>(
            ErrorV::Eval { message: "division by zero"@ },
        ),
        b == 0 ==> arith_value(int_text(a) + "%"@ + int_text(b), env) == Err::<i64, ErrorV>(
            ErrorV::Eval { message: "division by zero"@ },
        ),
{
    reveal_strlit("*");
    reveal_strlit("/");
    reveal_strlit("%");
    let ta = int_text(a);
    let tb = int_text(b);
    let l1 = ta.len() as int;
    let (av, bv) = (a as i64, b as i64);
    let s1 = ta + "*"@ + tb;
    let n1 = s1.len() as int;
    lemma_operands(a, b, "*"@, env);
    assert(ws_end(s1, n1) == n1);
    let prod = vstd::wrapping::i64_specs::wrapping_mul(av, bv);
    assert(a_mul_loop(s1, n1, env, prod) == Ok::<(i64, int), ErrorV>((prod, n1)));
    assert(a_mul_loop(s1, l1, env, av) == Ok::<(i64, int), ErrorV>((prod, n1)));
    assert(a_mul(s1, 0, env) == Ok::<(i64, int), ErrorV>((prod, n1)));
    lemma_whole_from_mul(s1, prod, env);
    if i64::MIN <= a * b <= i64::MAX {
        let p = a * b;
        assert(av * bv == p);
        if p >= 0 {
            assert(p % 0x1_0000_0000_0000_0000int == p) by (nonlinear_arith)
                requires
                    0 <= p < 0x1_0000_0000_0000_0000int,
            ;
        } else {
            assert(p % 0x1_0000_0000_0000_0000int == p + 0x1_0000_0000_0000_0000int) by (
            nonlinear_arith)
                requires
                    -0x1_0000_0000_0000_0000int <= p < 0,
            ;
        }
        assert(prod == p as i64);
    }
    let s2 = ta + "/"@ + tb;
    let n2 = s2.len() as int;
    lemma_operands(a, b, "/"@, env);
    assert(ws_end(s2, n2) == n2);
    let s3 = ta + "%"@ + tb;
    let n3 = s3.len() as int;
    lemma_operands(a, b, "%"@, env);
    assert(ws_end(s3, n3) == n3);
    if b == 0 {
        assert(a_mul(s2, 0, env) == Err::<(i64, int), ErrorV>(arith_err("division by zero"@)));
        assert(a_mul(s3, 0, env) == Err::<(i64, int), ErrorV>(arith_err("division by zero"@)));
    } else if a >= 0 && b > 0 {
        let q = wrap_div(av, bv);
        assert(trunc_div(a, b) == a / b);
        assert(q == (a / b) as i64);
        assert(a_mul_loop(s2, n2, env, q) == Ok::<(i64, int), ErrorV>((q, n2)));
        assert(a_mul_loop(s2, l1, env, av) == Ok::<(i64, int), ErrorV>((q, n2)));
        assert(a_mul(s2, 0, env) == Ok::<(i64, int), ErrorV>((q, n2)));
        lemma_whole_from_mul(s2, q, env);
        let r = wrap_rem(av, bv);
        assert(a - b * (a / b) == a % b) by (nonlinear_arith)
            requires
                b > 0,
        ;
        assert(r == (a % b) as i64);
        assert(a_mul_loop(s3, n3, env, r) == Ok::<(i64, int), ErrorV>((r, n3)));
        assert(a_mul_loop(s3, l1, env, av) == Ok::<(i64, int), ErrorV>((r, n3)));
        assert(a_mul(s3, 0, env) == Ok::<(i64, int), ErrorV>((r, n3)));
        lemma_whole_from_mul(s3, r, env);
    }
}

/// Logical operators in arithmetic expansion: `a&&b` is 1 when both
/// numbers are non-zero and 0 otherwise; `a||b` is 1 when either is.
pub proof fn law_logical(a: int, b: int, env: EnvV)
    requires
        i64::MIN < a <= i64::MAX,
        i64::MIN < b <= i64::MAX,
    ensures
        arith_value(int_text(a) + "&&"@ + int_text(b), env) == Ok::<i64, ErrorV>(
            if a != 0 && b != 0 {
                1
            } else {
                0
            },
        ),
        arith_value(int_text(a) + "||"@ + int_text(b), env) == Ok::<i64, ErrorV>(
            if a != 0 || b != 0 {
                1
            } else {
                0
            },
        ),
{
    reveal_strlit("&&");
    reveal_strlit("||");
    let ta = int_text(a);
    let tb = int_text(b);
    let l1 = ta.len() as int;
    let (av, bv) = (a as i64, b as i64);
    // a && b
    let s1 = ta + "&&"@ + tb;
    let n1 = s1.len() as int;
    lemma_operands(a, b, "&&"@, env);
    assert(s1[l1 + 1] == '&');
    assert(ws_end(s1, n1) == n1);
    assert(a_mul_loop(s1, l1, env, av) == Ok::<(i64, int), ErrorV>((av, l1)));
    assert(a_mul(s1, 0, env) == Ok::<(i64, int), ErrorV>((av, l1)));
    assert(a_add_loop(s1, l1, env, av) == Ok::<(i64, int), ErrorV>((av, l1)));
    assert(a_add(s1, 0, env) == Ok::<(i64, int), ErrorV>((av, l1)));
    assert(rel_op(s1, l1) is None);
    assert(a_rel_loop(s1, l1, env, av) == Ok::<(i64, int), ErrorV>((av, l1)));
    assert(a_rel(s1, 0, env) == Ok::<(i64, int), ErrorV>((av, l1)));
    assert(a_mul_loop(s1, n1, env, bv) == Ok::<(i64, int), ErrorV>((bv, n1)));
    assert(a_mul(s1, l1 + 2, env) == Ok::<(i64, int), ErrorV>((bv, n1)));
    assert(a_add_loop(s1, n1, env, bv) == Ok::<(i64, int), ErrorV>((bv, n1)));
    assert(a_add(s1, l1 + 2, env) == Ok::<(i64, int), ErrorV>((bv, n1)));
    assert(rel_op(s1, n1) is None);
    assert(a_rel_loop(s1, n1, env, bv) == Ok::<(i64, int), ErrorV>((bv, n1)));
    assert(a_rel(s1, l1 + 2, env) == Ok::<(i64, int), ErrorV>((bv, n1)));
    let r1 = bool_val(av != 0 && bv != 0);
    assert(a_and_loop(s1, n1, env, r1) == Ok::<(i64, int), ErrorV>((r1, n1)));
    assert(a_and_loop(s1, l1, env, av) == Ok::<(i64, int), ErrorV>((r1, n1)));
    assert(a_and(s1, 0, env) == Ok::<(i64, int), ErrorV>((r1, n1)));
    assert(a_or_loop(s1, n1, env, r1) == Ok::<(i64, int), ErrorV>((r1, n1)));
    assert(a_or(s1, 0, env) == Ok::<(i64, int), ErrorV>((r1, n1)));
    // a || b
    let s2 = ta + "||"@ + tb;
    let n2 = s2.len() as int;
    lemma_operands(a, b, "||"@, env);
    assert(s2[l1 + 1] == '|');
    assert(ws_end(s2, n2) == n2);
    assert(a_mul_loop(s2, l1, env, av) == Ok::<(i64, int), ErrorV>((av, l1)));
    assert(a_mul(s2, 0, env) == Ok::<(i64, int), ErrorV>((av, l1)));
    assert(a_add_loop(s2, l1, env, av) == Ok::<(i64, int), ErrorV>((av, l1)));
    assert(a_add(s2, 0, env) == Ok::<(i64, int), ErrorV>((av, l1)));
    assert(rel_op(s2, l1) is None);
    assert(a_rel_loop(s2, l1, env, av) == Ok::<(i64, int), ErrorV>((av, l1)));
    assert(a_rel(s2, 0, env) == Ok::<(i64, int), ErrorV>((av, l1)));
    assert(a_and_loop(s2, l1, env, av) == Ok::<(i64, int), ErrorV>((av, l1)));
    assert(a_and(s2, 0, env) == Ok::<(i64, int), ErrorV>((av, l1)));
    assert(a_mul_loop(s2, n2, env, bv) == Ok::<(i64, int), ErrorV>((bv, n2)));
    assert(a_mul(s2, l1 + 2, env) == Ok::<(i64, int), ErrorV>((bv, n2)));
    assert(a_add_loop(s2, n2, env, bv) == Ok::<(i64, int), ErrorV>((bv, n2)));
    assert(a_add(s2, l1 + 2, env) == Ok::<(i64, int), ErrorV>((bv, n2)));
    assert(rel_op(s2, n2) is None);
    assert(a_rel_loop(s2, n2, env, bv) == Ok::<(i64, int), ErrorV>((bv, n2)));
    assert(a_rel(s2, l1 + 2, env) == Ok::<(i64, int), ErrorV>((bv, n2)));
    assert(a_and_loop(s2, n2, env, bv) == Ok::<(i64, int), ErrorV>((bv, n2)));
    assert(a_and(s2, l1 + 2, env) == Ok::<(i64, int), ErrorV>((bv, n2)));
    let r2 = bool_val(av != 0 || bv != 0);
    assert(a_or_loop(s2, n2, env, r2) == Ok::<(i64, int), ErrorV>((r2, n2)));
    assert(a_or_loop(s2, l1, env, av) == Ok::<(i64, int), ErrorV>((r2, n2)));
    assert(a_or(s2, 0, env) == Ok::<(i64, int), ErrorV>((r2, n2)));
}

/// `!a` is 1 when `a` is 0 and 0 otherwise, and `(a)` is `a`.
pub proof fn law_not_and_parentheses(a: int, env: EnvV)
    requires
        i64::MIN < a <= i64::MAX,
    ensures
        arith_value(seq!['!'] + int_text(a), env) == Ok::<i64, ErrorV>(
            if a == 0 {
                1
            } else {
                0
            },
        ),
        arith_value(seq!['('] + int_text(a) + seq![')'], env) == Ok::<i64, ErrorV>(a as i64),
{
    let ta = int_text(a);
    let av = a as i64;
    lemma_int_text_shape(a);
    // !a
    let s1 = seq!['!'] + ta;
    let n1 = s1.len() as int;
    assert(s1.subrange(1, n1) =~= ta);
    lemma_unary_number(s1, 1, a, env);
    assert(ws_end(s1, 0) == 0);
    let r = bool_val(av == 0);
    assert(a_unary(s1, 0, env) == Ok::<(i64, int), ErrorV>((r, n1)));
    assert(ws_end(s1, n1) == n1);
    assert(a_mul_loop(s1, n1, env, r) == Ok::<(i64, int), ErrorV>((r, n1)));
    assert(a_mul(s1, 0, env) == Ok::<(i64, int), ErrorV>((r, n1)));
    lemma_whole_from_mul(s1, r, env);
    // (a)
    let s2 = seq!['('] + ta + seq![')'];
    let n2 = s2.len() as int;
    let e = n2 - 1;
    assert(s2.subrange(1, e) =~= ta);
    assert(s2[e] == ')');
    lemma_unary_number(s2, 1, a, env);
    assert(ws_end(s2, e) == e);
    assert(a_mul_loop(s2, e, env, av) == Ok::<(i64, int), ErrorV>((av, e)));
    assert(a_mul(s2, 1, env) == Ok::<(i64, int), ErrorV>((av, e)));
    assert(a_add_loop(s2, e, env, av) == Ok::<(i64, int), ErrorV>((av, e)));
    assert(a_add(s2, 1, env) == Ok::<(i64, int), ErrorV>((av, e)));
    assert(rel_op(s2, e) is None);
    assert(a_rel_loop(s2, e, env, av) == Ok::<(i64, int), ErrorV>((av, e)));
    assert(a_rel(s2, 1, env) == Ok::<(i64, int), ErrorV>((av, e)));
    assert(a_and_loop(s2, e, env, av) == Ok::<(i64, int), ErrorV>((av, e)));
    assert(a_and(s2, 1, env) == Ok::<(i64, int), ErrorV>((av, e)));
    assert(a_or_loop(s2, e, env, av) == Ok::<(i64, int), ErrorV>((av, e)));
    assert(a_or(s2, 1, env) == Ok::<(i64, int), ErrorV>((av, e)));
    assert(a_expr(s2, 1, env) == Ok::<(i64, int), ErrorV>((av, e)));
    assert(ws_end(s2, 0) == 0);
    assert(a_unary(s2, 0, env) == Ok::<(i64, int), ErrorV>((av, n2)));
    assert(ws_end(s2, n2) == n2);
    assert(a_mul_loop(s2, n2, env, av) == Ok::<(i64, int), ErrorV>((av, n2)));
    assert(a_mul(s2, 0, env) == Ok::<(i64, int), ErrorV>((av, n2)));
    lemma_whole_from_mul(s2, av, env);
}

} // verus!
