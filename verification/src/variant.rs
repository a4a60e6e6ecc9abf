use vstd::prelude::*;

use crate::arith::{
    EnvV, arith_value, env_of, eval_arith, law_arith_fails_with_eval_errors, name_end, param_text,
    param_value,
};
use crate::ast::strings_view;
use crate::error::{ErrorV, ShellError};
use crate::fields::Expanded;
use crate::lexer::{
    brace_close, is_digit, is_ident_cont, is_ident_start, lemma_brace_close_bounds,
    lemma_paren_close_bounds, paren_close,
};
use crate::num::{decimal_value, int_text, int_to_string, law_int_text_reads_back, nat_text};
use crate::shell::{
    Shell, assign, find_from, law_lookup_after_assign, lemma_find_from, lookup,
};
use crate::text::{chars_of, push_char, push_text, string_of_range};

verus! {

/// `n` copies of the flag `f`.
pub open spec fn flags(n: nat, f: bool) -> Seq<bool> {
    Seq::new(n, |_i: int| f)
}

/// The length of a text in UTF-8 bytes.
pub open spec fn byte_len(v: Seq<char>) -> nat {
    vstd::utf8::encode_utf8(v).len()
}

/// What a `$` at some position stands for: an error, a command
/// substitution whose output is not known yet, a plain `$`, or a value
/// taking `m` characters (and the number of substitution outputs used).
pub enum DollarV {
    Fail(ErrorV),
    Need(Seq<char>),
    Literal,
    Got(int, Seq<char>, int),
}

pub open spec fn eval_err(msg: Seq<char>) -> ErrorV {
    ErrorV::Eval { message: msg }
}

/// The expansion that starts with the `$` at `start`; `subs` holds the
/// outputs of the first command substitutions, of which `k` are used.
#[verifier::opaque]
pub open spec fn dollar(s: Seq<char>, start: int, env: EnvV, subs: Seq<Seq<char>>, k: int) -> DollarV {
    let n = s.len() as int;
    if start + 1 < n && s[start + 1] == '(' {
        if start + 2 < n && s[start + 2] == '(' {
            let i = paren_close(s, start + 3, 1);
            if i >= n {
                DollarV::Fail(eval_err("unfinished arithmetic expansion"@))
            } else {
                match arith_value(s.subrange(start + 3, i), env) {
                    Err(e) => DollarV::Fail(e),
                    Ok(v) => DollarV::Got(i - start + 2, int_text(v as int), k),
                }
            }
        } else {
            let i = paren_close(s, start + 2, 1);
            if i >= n {
                DollarV::Fail(eval_err("unfinished command substitution"@))
            } else if 0 <= k < subs.len() {
                DollarV::Got(i - start + 1, subs[k], k + 1)
            } else {
                DollarV::Need(s.subrange(start + 2, i))
            }
        }
    } else if start + 1 < n && s[start + 1] == '{' {
        let i = brace_close(s, start + 2, 1);
        if i >= n {
            DollarV::Fail(eval_err("unclosed ${"@))
        } else {
            DollarV::Got(i - start + 1, param_text(s.subrange(start + 2, i), env), k)
        }
    } else if start + 1 < n && s[start + 1] == '?' {
        DollarV::Got(2, int_text(env.last_status as int), k)
    } else if start + 1 < n && s[start + 1] == '!' {
        DollarV::Got(2, param_text("!"@, env), k)
    } else if start + 1 < n && is_digit(s[start + 1]) {
        DollarV::Got(2, param_text(s.subrange(start + 1, start + 2), env), k)
    } else if start + 1 < n && is_ident_start(s[start + 1]) {
        let e = name_end(s, start + 1);
        DollarV::Got(e - start, param_text(s.subrange(start + 1, e), env), k)
    } else {
        DollarV::Literal
    }
}

pub proof fn lemma_name_end(s: Seq<char>, i: int)
    requires
        0 <= i <= s.len(),
    ensures
        i <= name_end(s, i) <= s.len(),
    decreases s.len() - i,
{
    if i < s.len() && is_ident_cont(s[i]) {
        lemma_name_end(s, i + 1);
    }
}

pub proof fn lemma_dollar(s: Seq<char>, start: int, env: EnvV, subs: Seq<Seq<char>>, k: int)
    requires
        0 <= start < s.len(),
    ensures
        dollar(s, start, env, subs, k) matches DollarV::Got(m, _, k2) ==> 2 <= m && start + m
            <= s.len() + 1 && k <= k2 <= k + 1,
{
    reveal(dollar);
    let n = s.len() as int;
    if start + 3 <= n {
        lemma_paren_close_bounds(s, start + 3, 1);
    }
    if start + 2 <= n {
        lemma_paren_close_bounds(s, start + 2, 1);
        lemma_brace_close_bounds(s, start + 2, 1);
    }
    if start + 1 < n && is_ident_start(s[start + 1]) {
        lemma_name_end(s, start + 2);
        assert(is_ident_cont(s[start + 1]));
        assert(name_end(s, start + 1) == name_end(s, start + 2));
    }
}

/// The first single quote from `i` on, or the end.
pub open spec fn squote_end(s: Seq<char>, i: int) -> int
    decreases s.len() - i,
{
    if 0 <= i < s.len() && s[i] != '\'' {
        squote_end(s, i + 1)
    } else {
        i
    }
}

pub proof fn lemma_squote_end(s: Seq<char>, i: int)
    requires
        0 <= i <= s.len(),
    ensures
        i <= squote_end(s, i) <= s.len(),
    decreases s.len() - i,
{
    if i < s.len() && s[i] != '\'' {
        lemma_squote_end(s, i + 1);
    }
}

/// The outcome of expanding a word: its text with one quoting flag per
/// unit, the command of a substitution whose output is needed first, or
/// an error.
pub enum VarStepV {
    Done(Seq<char>, Seq<bool>, int),
    Need(Seq<char>),
    Fail(ErrorV),
}

/// Expands from `i` on, outside double quotes.
pub open spec fn vx(
    s: Seq<char>,
    i: int,
    env: EnvV,
    subs: Seq<Seq<char>>,
    k: int,
    text: Seq<char>,
    q: Seq<bool>,
) -> VarStepV
    decreases s.len() + 1 - i,
{
    let n = s.len() as int;
    if i < 0 || i >= n {
        VarStepV::Done(text, q, k)
    } else {
        let c = s[i];
        if c == '\'' {
            let j = squote_end(s, i + 1);
            proof {
                lemma_squote_end(s, i + 1);
            }
            if j >= n {
                VarStepV::Fail(eval_err("unclosed single quote"@))
            } else {
                vx(
                    s,
                    j + 1,
                    env,
                    subs,
                    k,
                    text + s.subrange(i + 1, j),
                    q + flags((j - i - 1) as nat, true),
                )
            }
        } else if c == '"' {
            dq(s, i + 1, env, subs, k, text, q)
        } else if c == '\\' && i + 1 < n {
            vx(s, i + 2, env, subs, k, text.push(s[i + 1]), q.push(true))
        } else if c == '$' {
            proof {
                lemma_dollar(s, i, env, subs, k);
            }
            match dollar(s, i, env, subs, k) {
                DollarV::Fail(e) => VarStepV::Fail(e),
                DollarV::Need(x) => VarStepV::Need(x),
                DollarV::Literal => vx(s, i + 1, env, subs, k, text.push('$'), q.push(false)),
                DollarV::Got(m, v, k2) => vx(
                    s,
                    i + m,
                    env,
                    subs,
                    k2,
                    text + v,
                    q + flags(byte_len(v), false),
                ),
            }
        } else {
            vx(s, i + 1, env, subs, k, text.push(c), q.push(false))
        }
    }
}

/// Expands from `i` on, inside double quotes.
pub open spec fn dq(
    s: Seq<char>,
    i: int,
    env: EnvV,
    subs: Seq<Seq<char>>,
    k: int,
    text: Seq<char>,
    q: Seq<bool>,
) -> VarStepV
    decreases s.len() + 1 - i,
{
    let n = s.len() as int;
    if i < 0 || i >= n {
        VarStepV::Fail(eval_err("unclosed double quote"@))
    } else {
        let c = s[i];
        if c == '"' {
            vx(s, i + 1, env, subs, k, text, q)
        } else if c == '\\' && i + 1 < n && (s[i + 1] == '$' || s[i + 1] == '\\' || s[i + 1]
            == '"') {
            dq(s, i + 2, env, subs, k, text.push(s[i + 1]), q.push(true))
        } else if c == '$' {
            proof {
                lemma_dollar(s, i, env, subs, k);
            }
            match dollar(s, i, env, subs, k) {
                DollarV::Fail(e) => VarStepV::Fail(e),
                DollarV::Need(x) => VarStepV::Need(x),
                DollarV::Literal => dq(s, i + 1, env, subs, k, text.push('$'), q.push(true)),
                DollarV::Got(m, v, k2) => dq(
                    s,
                    i + m,
                    env,
                    subs,
                    k2,
                    text + v,
                    q + flags(byte_len(v), true),
                ),
            }
        } else {
            dq(s, i + 1, env, subs, k, text.push(c), q.push(true))
        }
    }
}

/// The expansion of one brace variant of a word, given the outputs of
/// command substitutions, of which the first `k` are used already.
pub open spec fn expand_variant_spec(
    raw: Seq<char>,
    env: EnvV,
    subs: Seq<Seq<char>>,
    k: int,
) -> VarStepV {
    vx(raw, 0, env, subs, k, Seq::empty(), Seq::empty())
}

/// A word expanded, or the command of the next substitution to run.
pub enum VariantStep {
    Done(Expanded, usize),
    NeedSubstitution(String),
}

pub open spec fn variant_view(r: Result<VariantStep, ShellError>) -> VarStepV {
    match r {
        Ok(VariantStep::Done(e, k)) => VarStepV::Done(e.text@, e.quoted@, k as int),
        Ok(VariantStep::NeedSubstitution(x)) => VarStepV::Need(x@),
        Err(e) => VarStepV::Fail(e@),
    }
}

/// What `expand_dollar` did: nothing (the `$` stands for itself), an
/// expansion ending before the given position, or a substitution whose
/// output is needed.
pub enum Dollar {
    Literal,
    Next(usize),
    NeedSubstitution(String),
}

/// Appends `n` copies of the flag `f`.
fn push_flags(q: &mut Vec<bool>, n: usize, f: bool)
    ensures
        final(q)@ == old(q)@ + flags(n as nat, f),
{
    let ghost q0 = q@;
    let mut i = 0usize;
    while i < n
        invariant
            i <= n,
            q@ == q0 + flags(i as nat, f),
        decreases n - i,
    {
        q.push(f);
        i += 1;
        assert(q@ =~= q0 + flags(i as nat, f));
    }
}

/// Appends a value and its flags.
fn push_value(text: &mut String, quoted: &mut Vec<bool>, value: &str, f: bool)
    ensures
        final(text)@ == old(text)@ + value@,
        final(quoted)@ == old(quoted)@ + flags(byte_len(value@), f),
{
    push_text(text, value);
    let bytes = value.as_bytes();
    push_flags(quoted, bytes.len(), f);
}

/// Expands the `$` at `start`, appending its value to `text` and its flags
/// to `quoted`; `k` counts the substitution outputs of `subs` used.
fn expand_dollar(
    chars: &Vec<char>,
    start: usize,
    shell: &Shell,
    subs: &Vec<String>,
    k: &mut usize,
    text: &mut String,
    quoted: &mut Vec<bool>,
    in_dquote: bool,
) -> (r: Result<Dollar, ShellError>)
    requires
        start < chars@.len(),
        *old(k) <= subs@.len(),
    ensures
        ({
            let d = dollar(chars@, start as int, env_of(shell), strings_view(subs@), *old(k) as int);
            match r {
                Err(e) => d == DollarV::Fail(e@),
                Ok(Dollar::NeedSubstitution(x)) => d == DollarV::Need(x@),
                Ok(Dollar::Literal) => d == DollarV::Literal && final(text)@ == old(text)@
                    && final(quoted)@ == old(quoted)@ && *final(k) == *old(k),
                Ok(Dollar::Next(j)) => d matches DollarV::Got(m, v, k2) && start < j <= chars@.len()
                    && (j == start + m || (j == chars@.len() && start + m >= chars@.len()))
                    && final(text)@ == old(text)@ + v && final(quoted)@ == old(quoted)@ + flags(
                    byte_len(v),
                    in_dquote,
                ) && *final(k) == k2,
            }
        }),
        *old(k) <= *final(k) <= subs@.len(),
{
    let n = chars.len();
    proof {
        reveal(dollar);
        lemma_dollar(chars@, start as int, env_of(shell), strings_view(subs@), *k as int);
    }
    if start + 1 < n && chars[start + 1] == '(' {
        if start + 2 < n && chars[start + 2] == '(' {
            let i = close_paren_from(chars, start + 3);
            if i >= n {
                return Err(ShellError::eval("unfinished arithmetic expansion"));
            }
            let expr = string_of_range(chars, start + 3, i);
            let value = match eval_arith(expr.as_str(), shell) {
                Ok(v) => v,
                Err(e) => return Err(e),
            };
            let vtext = int_to_string(value as i128);
            push_value(text, quoted, vtext.as_str(), in_dquote);
            if i + 1 >= n {
                return Ok(Dollar::Next(n));
            }
            return Ok(Dollar::Next(i + 2));
        }
        let i = close_paren_from(chars, start + 2);
        if i >= n {
            return Err(ShellError::eval("unfinished command substitution"));
        }
        if *k < subs.len() {
            let value = &subs[*k];
            push_value(text, quoted, value.as_str(), in_dquote);
            *k = *k + 1;
            return Ok(Dollar::Next(i + 1));
        }
        return Ok(Dollar::NeedSubstitution(string_of_range(chars, start + 2, i)));
    }
    if start + 1 < n && chars[start + 1] == '{' {
        let i = close_brace_from(chars, start + 2);
        if i >= n {
            return Err(ShellError::eval("unclosed ${"));
        }
        let name = string_of_range(chars, start + 2, i);
        let value = param_value(name.as_str(), shell);
        push_value(text, quoted, value.as_str(), in_dquote);
        return Ok(Dollar::Next(i + 1));
    }
    if start + 1 < n && chars[start + 1] == '?' {
        let value = int_to_string(shell.last_status as i128);
        push_value(text, quoted, value.as_str(), in_dquote);
        return Ok(Dollar::Next(start + 2));
    }
    if start + 1 < n && chars[start + 1] == '!' {
        let value = param_value("!", shell);
        push_value(text, quoted, value.as_str(), in_dquote);
        return Ok(Dollar::Next(start + 2));
    }
    if start + 1 < n {
        let c = chars[start + 1];
        let name_len = if crate::lexer::is_ascii_digit(c) {
            1
        } else if crate::lexer::is_ascii_alpha(c) || c == '_' {
            read_ident_len(chars, start + 1)
        } else {
            return Ok(Dollar::Literal);
        };
        proof {
            if is_ident_start(c) {
                assert(is_ident_cont(c));
            }
        }
        let name = string_of_range(chars, start + 1, start + 1 + name_len);
        let value = param_value(name.as_str(), shell);
        push_value(text, quoted, value.as_str(), in_dquote);
        return Ok(Dollar::Next(start + 1 + name_len));
    }
    Ok(Dollar::Literal)
}

fn close_paren_from(chars: &Vec<char>, start: usize) -> (r: usize)
    requires
        1 <= start <= chars@.len(),
    ensures
        r == paren_close(chars@, start as int, 1),
        start <= r <= chars@.len(),
{
    let mut depth: usize = 1;
    let mut i = start;
    while i < chars.len()
        invariant
            1 <= start <= i <= chars@.len(),
            1 <= depth <= i - start + 1,
            paren_close(chars@, start as int, 1) == paren_close(chars@, i as int, depth as int),
        decreases chars@.len() - i,
    {
        match chars[i] {
            '(' => depth += 1,
            ')' => {
                if depth == 1 {
                    return i;
                }
                depth -= 1;
            },
            _ => {},
        }
        i += 1;
    }
    i
}

fn close_brace_from(chars: &Vec<char>, start: usize) -> (r: usize)
    requires
        1 <= start <= chars@.len(),
    ensures
        r == brace_close(chars@, start as int, 1),
        start <= r <= chars@.len(),
{
    let mut depth: usize = 1;
    let mut i = start;
    while i < chars.len()
        invariant
            1 <= start <= i <= chars@.len(),
            1 <= depth <= i - start + 1,
            brace_close(chars@, start as int, 1) == brace_close(chars@, i as int, depth as int),
        decreases chars@.len() - i,
    {
        match chars[i] {
            '{' => depth += 1,
            '}' => {
                if depth == 1 {
                    return i;
                }
                depth -= 1;
            },
            _ => {},
        }
        i += 1;
    }
    i
}

/// The length of the identifier characters from `start` on.
pub fn read_ident_len(chars: &Vec<char>, start: usize) -> (r: usize)
    requires
        start <= chars@.len(),
    ensures
        start + r == name_end(chars@, start as int),
        start + r <= chars@.len(),
{
    let mut i = start;
    while i < chars.len() && crate::lexer::is_identifier_cont(chars[i])
        invariant
            start <= i <= chars@.len(),
            name_end(chars@, start as int) == name_end(chars@, i as int),
        decreases chars@.len() - i,
    {
        i += 1;
    }
    i - start
}

/// Copies the characters from `start` up to the next single quote (or the
/// end) as quoted text; returns where it stopped.
fn single_quoted_run(chars: &Vec<char>, start: usize, text: &mut String, quoted: &mut Vec<bool>) -> (j: usize)
    requires
        start <= chars@.len(),
    ensures
        j as int == squote_end(chars@, start as int),
        start <= j <= chars@.len(),
        final(text)@ == old(text)@ + chars@.subrange(start as int, j as int),
        final(quoted)@ == old(quoted)@ + flags((j - start) as nat, true),
{
    let ghost s = chars@;
    let ghost t0 = text@;
    let ghost q0 = quoted@;
    let mut i = start;
    assert(text@ =~= t0 + s.subrange(start as int, start as int));
    assert(quoted@ =~= q0 + flags(0, true));
    while i < chars.len() && chars[i] != '\''
        invariant
            start <= i <= chars@.len(),
            s == chars@,
            squote_end(s, start as int) == squote_end(s, i as int),
            text@ == t0 + s.subrange(start as int, i as int),
            quoted@ == q0 + flags((i - start) as nat, true),
        decreases chars@.len() - i,
    {
        push_char(text, chars[i]);
        quoted.push(true);
        i += 1;
        assert(s.subrange(start as int, i as int) =~= s.subrange(start as int, i - 1).push(
            s[i - 1],
        ));
        assert(text@ =~= t0 + s.subrange(start as int, i as int));
        assert(quoted@ =~= q0 + flags((i - start) as nat, true));
    }
    i
}

/// Past the end, an expansion outside double quotes is complete.
pub proof fn lemma_vx_end(
    s: Seq<char>,
    i: int,
    env: EnvV,
    subs: Seq<Seq<char>>,
    k: int,
    text: Seq<char>,
    q: Seq<bool>,
)
    requires
        i >= s.len(),
    ensures
        vx(s, i, env, subs, k, text, q) == VarStepV::Done(text, q, k),
{
}

/// Past the end, a double-quoted part is unclosed.
pub proof fn lemma_dq_end(
    s: Seq<char>,
    i: int,
    env: EnvV,
    subs: Seq<Seq<char>>,
    k: int,
    text: Seq<char>,
    q: Seq<bool>,
)
    requires
        i >= s.len(),
    ensures
        dq(s, i, env, subs, k, text, q) == VarStepV::Fail(eval_err("unclosed double quote"@)),
{
}

/// Where a double-quoted part ended: at the position after its closing
/// quote, or at a command substitution whose output is needed.
pub enum QuotedEnd {
    After(usize),
    NeedSubstitution(String),
}

/// Expands a double-quoted part from `start` (just after its opening
/// quote) up to its closing quote.
fn double_quoted_run(
    chars: &Vec<char>,
    start: usize,
    shell: &Shell,
    subs: &Vec<String>,
    k: &mut usize,
    text: &mut String,
    quoted: &mut Vec<bool>,
) -> (r: Result<QuotedEnd, ShellError>)
    requires
        start <= chars@.len(),
        *old(k) <= subs@.len(),
    ensures
        *old(k) <= *final(k) <= subs@.len(),
        ({
            let before = dq(
                chars@,
                start as int,
                env_of(shell),
                strings_view(subs@),
                *old(k) as int,
                old(text)@,
                old(quoted)@,
            );
            match r {
                Ok(QuotedEnd::After(j)) => start < j <= chars@.len() && before == vx(
                    chars@,
                    j as int,
                    env_of(shell),
                    strings_view(subs@),
                    *final(k) as int,
                    final(text)@,
                    final(quoted)@,
                ),
                Ok(QuotedEnd::NeedSubstitution(x)) => before == VarStepV::Need(x@),
                Err(e) => before == VarStepV::Fail(e@),
            }
        }),
{
    let n = chars.len();
    let ghost s = chars@;
    let ghost env = env_of(shell);
    let ghost sv = strings_view(subs@);
    let ghost k0 = *k as int;
    let ghost t0 = text@;
    let ghost q0 = quoted@;
    let mut i = start;
    loop
        invariant
            n == chars@.len(),
            s == chars@,
            start <= i <= n,
            *k <= subs@.len(),
            env == env_of(shell),
            sv == strings_view(subs@),
            k0 == *old(k) as int,
            k0 <= *k,
            t0 == old(text)@,
            q0 == old(quoted)@,
            dq(s, start as int, env, sv, k0, t0, q0) == dq(s, i as int, env, sv, *k as int, text@, quoted@),
        decreases n - i,
    {
        if i >= n {
            return Err(ShellError::eval("unclosed double quote"));
        }
        let d = chars[i];
        if d == '"' {
            return Ok(QuotedEnd::After(i + 1));
        }
        if d == '\\' && i + 1 < n && (chars[i + 1] == '$' || chars[i + 1] == '\\' || chars[i + 1]
            == '"') {
            push_char(text, chars[i + 1]);
            quoted.push(true);
            i += 2;
            continue;
        }
        if d == '$' {
            proof {
                lemma_dollar(s, i as int, env, sv, *k as int);
            }
            let ghost kb = *k as int;
            match expand_dollar(chars, i, shell, subs, k, text, quoted, true) {
                Err(e) => return Err(e),
                Ok(Dollar::NeedSubstitution(x)) => {
                    return Ok(QuotedEnd::NeedSubstitution(x));
                },
                Ok(Dollar::Literal) => {
                    push_char(text, '$');
                    quoted.push(true);
                    i += 1;
                },
                Ok(Dollar::Next(j)) => {
                    proof {
                        if let DollarV::Got(m, v, k2) = dollar(s, i as int, env, sv, kb) {
                            if i + m >= n {
                                lemma_dq_end(s, i + m, env, sv, k2, text@, quoted@);
                                lemma_dq_end(s, j as int, env, sv, k2, text@, quoted@);
                            }
                        }
                    }
                    i = j;
                },
            }
            continue;
        }
        push_char(text, d);
        quoted.push(true);
        i += 1;
    }
}

/// Expands quotes, parameters, arithmetic and command substitutions in one
/// brace variant of a word. `subs` holds the outputs of command
/// substitutions run so far, of which the first `start` belong to earlier
/// variants; the others are used in turn, and the number used in all comes
/// back. When a substitution beyond those is met, its command comes back so
/// that the caller can run it and call again with its output.
pub fn expand_variant(raw: &str, shell: &Shell, subs: &Vec<String>, start: usize) -> (r: Result<
    VariantStep,
    ShellError,
>)
    requires
        start <= subs@.len(),
    ensures
        variant_view(r) == expand_variant_spec(
            raw@,
            env_of(shell),
            strings_view(subs@),
            start as int,
        ),
        r matches Ok(VariantStep::Done(_, k)) ==> start <= k <= subs@.len(),
{
    let chars = chars_of(raw);
    let n = chars.len();
    let ghost s = chars@;
    let ghost env = env_of(shell);
    let ghost sv = strings_view(subs@);
    let mut text = String::new();
    let mut quoted: Vec<bool> = Vec::new();
    let mut k: usize = start;
    let mut i = 0usize;
    assert(text@ =~= Seq::<char>::empty());
    assert(quoted@ =~= Seq::<bool>::empty());

    while i < n
        invariant
            n == chars@.len(),
            s == chars@,
            s == raw@,
            i <= n,
            start <= k <= subs@.len(),
            env == env_of(shell),
            sv == strings_view(subs@),
            expand_variant_spec(raw@, env, sv, start as int) == vx(
                s,
                i as int,
                env,
                sv,
                k as int,
                text@,
                quoted@,
            ),
        decreases n - i,
    {
        let c = chars[i];
        if c == '\'' {
            let j = single_quoted_run(&chars, i + 1, &mut text, &mut quoted);
            if j >= n {
                return Err(ShellError::eval("unclosed single quote"));
            }
            i = j + 1;
            continue;
        }
        if c == '"' {
            match double_quoted_run(&chars, i + 1, shell, subs, &mut k, &mut text, &mut quoted) {
                Err(e) => return Err(e),
                Ok(QuotedEnd::NeedSubstitution(x)) => {
                    return Ok(VariantStep::NeedSubstitution(x));
                },
                Ok(QuotedEnd::After(j)) => {
                    i = j;
                },
            }
            continue;
        }
        if c == '\\' && i + 1 < n {
            push_char(&mut text, chars[i + 1]);
            quoted.push(true);
            i += 2;
            continue;
        }
        if c == '$' {
            proof {
                lemma_dollar(s, i as int, env, sv, k as int);
            }
            let ghost kb = k as int;
            match expand_dollar(&chars, i, shell, subs, &mut k, &mut text, &mut quoted, false) {
                Err(e) => return Err(e),
                Ok(Dollar::NeedSubstitution(x)) => {
                    return Ok(VariantStep::NeedSubstitution(x));
                },
                Ok(Dollar::Literal) => {
                    push_char(&mut text, '$');
                    quoted.push(false);
                    i += 1;
                },
                Ok(Dollar::Next(j)) => {
                    proof {
                        if let DollarV::Got(m, v, k2) = dollar(s, i as int, env, sv, kb) {
                            if i + m >= n {
                                lemma_vx_end(s, i + m, env, sv, k2, text@, quoted@);
                                lemma_vx_end(s, j as int, env, sv, k2, text@, quoted@);
                            }
                        }
                    }
                    i = j;
                },
            }
            continue;
        }
        push_char(&mut text, c);
        quoted.push(false);
        i += 1;
    }
    Ok(VariantStep::Done(Expanded { text, quoted }, k))
}

proof fn lemma_squote_end_at(s: Seq<char>, i: int, k: int)
    requires
        0 <= i <= k < s.len(),
        s[k] == '\'',
        forall|m: int| i <= m < k ==> s[m] != '\'',
    ensures
        squote_end(s, i) == k,
    decreases k - i,
{
    if i < k {
        lemma_squote_end_at(s, i + 1, k);
    }
}

/// A single-quoted text expands to itself, every character quoted.
pub proof fn law_single_quotes_are_literal(t: Seq<char>, env: EnvV, subs: Seq<Seq<char>>, k: int)
    requires
        !t.contains('\''),
    ensures
        expand_variant_spec(seq!['\''] + t + seq!['\''], env, subs, k) == VarStepV::Done(
            t,
            flags(t.len(), true),
            k,
        ),
{
    let s = seq!['\''] + t + seq!['\''];
    let n = s.len() as int;
    assert forall|m: int| 1 <= m < n - 1 implies s[m] != '\'' by {
        assert(s[m] == t[m - 1]);
        if t[m - 1] == '\'' {
            assert(t.contains('\''));
        }
    }
    lemma_squote_end_at(s, 1, n - 1);
    assert(s.subrange(1, n - 1) =~= t);
    let e = Seq::<char>::empty();
    let q = Seq::<bool>::empty();
    assert(e + t =~= t);
    assert(q + flags(t.len(), true) =~= flags(t.len(), true));
    assert(vx(s, 0, env, subs, k, e, q) == vx(s, n, env, subs, k, e + t, q + flags(t.len(), true)));
}

proof fn lemma_name_end_at(s: Seq<char>, i: int)
    requires
        0 <= i <= s.len(),
        forall|m: int| i <= m < s.len() ==> is_ident_cont(#[trigger] s[m]),
    ensures
        name_end(s, i) == s.len(),
    decreases s.len() - i,
{
    if i < s.len() {
        lemma_name_end_at(s, i + 1);
    }
}

/// `$NAME`, for a name made of a letter or `_` and then letters, digits
/// and `_`, expands to the value of `NAME` (empty when unset), unquoted.
pub proof fn law_parameter_expands_to_its_value(
    name: Seq<char>,
    env: EnvV,
    subs: Seq<Seq<char>>,
    k: int,
)
    requires
        name.len() > 0,
        is_ident_start(name[0]),
        forall|m: int| 0 <= m < name.len() ==> is_ident_cont(#[trigger] name[m]),
    ensures
        expand_variant_spec(seq!['$'] + name, env, subs, k) == VarStepV::Done(
            param_text(name, env),
            flags(byte_len(param_text(name, env)), false),
            k,
        ),
{
    reveal(dollar);
    let s = seq!['$'] + name;
    let n = s.len() as int;
    assert forall|m: int| 1 <= m < n implies is_ident_cont(#[trigger] s[m]) by {
        assert(s[m] == name[m - 1]);
    }
    lemma_name_end_at(s, 1);
    assert(s[1] == name[0]);
    assert(!is_digit(s[1]));
    assert(s.subrange(1, n) =~= name);
    let v = param_text(name, env);
    assert(dollar(s, 0, env, subs, k) == DollarV::Got(n, v, k));
    let e = Seq::<char>::empty();
    let q = Seq::<bool>::empty();
    assert(e + v =~= v);
    assert(q + flags(byte_len(v), false) =~= flags(byte_len(v), false));
    assert(vx(s, 0, env, subs, k, e, q) == vx(s, n, env, subs, k, e + v, q + flags(byte_len(v), false)));
}

pub proof fn lemma_dollar_extend(
    s: Seq<char>,
    i: int,
    env: EnvV,
    subs: Seq<Seq<char>>,
    more: Seq<Seq<char>>,
    k: int,
)
    requires
        !(dollar(s, i, env, subs, k) is Need),
    ensures
        dollar(s, i, env, subs + more, k) == dollar(s, i, env, subs, k),
{
    reveal(dollar);
    if 0 <= k < subs.len() {
        assert((subs + more)[k] == subs[k]);
    }
}

proof fn lemma_vx_extend(
    s: Seq<char>,
    i: int,
    env: EnvV,
    subs: Seq<Seq<char>>,
    more: Seq<Seq<char>>,
    k: int,
    text: Seq<char>,
    q: Seq<bool>,
)
    requires
        !(vx(s, i, env, subs, k, text, q) is Need),
    ensures
        vx(s, i, env, subs + more, k, text, q) == vx(s, i, env, subs, k, text, q),
    decreases s.len() + 1 - i, 1int,
{
    let n = s.len() as int;
    if 0 <= i < n {
        let c = s[i];
        if c == '\'' {
            let j = squote_end(s, i + 1);
            lemma_squote_end(s, i + 1);
            if j < n {
                lemma_vx_extend(
                    s,
                    j + 1,
                    env,
                    subs,
                    more,
                    k,
                    text + s.subrange(i + 1, j),
                    q + flags((j - i - 1) as nat, true),
                );
            }
        } else if c == '"' {
            lemma_dq_extend(s, i + 1, env, subs, more, k, text, q);
        } else if c == '\\' && i + 1 < n {
            lemma_vx_extend(s, i + 2, env, subs, more, k, text.push(s[i + 1]), q.push(true));
        } else if c == '$' {
            lemma_dollar(s, i, env, subs, k);
            if !(dollar(s, i, env, subs, k) is Need) {
                lemma_dollar_extend(s, i, env, subs, more, k);
                match dollar(s, i, env, subs, k) {
                    DollarV::Literal => lemma_vx_extend(
                        s,
                        i + 1,
                        env,
                        subs,
                        more,
                        k,
                        text.push('$'),
                        q.push(false),
                    ),
                    DollarV::Got(m, v, k2) => lemma_vx_extend(
                        s,
                        i + m,
                        env,
                        subs,
                        more,
                        k2,
                        text + v,
                        q + flags(byte_len(v), false),
                    ),
                    _ => {},
                }
            }
        } else {
            lemma_vx_extend(s, i + 1, env, subs, more, k, text.push(c), q.push(false));
        }
    }
}

proof fn lemma_dq_extend(
    s: Seq<char>,
    i: int,
    env: EnvV,
    subs: Seq<Seq<char>>,
    more: Seq<Seq<char>>,
    k: int,
    text: Seq<char>,
    q: Seq<bool>,
)
    requires
        !(dq(s, i, env, subs, k, text, q) is Need),
    ensures
        dq(s, i, env, subs + more, k, text, q) == dq(s, i, env, subs, k, text, q),
    decreases s.len() + 1 - i, 0int,
{
    let n = s.len() as int;
    if 0 <= i < n {
        let c = s[i];
        if c == '"' {
            lemma_vx_extend(s, i + 1, env, subs, more, k, text, q);
        } else if c == '\\' && i + 1 < n && (s[i + 1] == '$' || s[i + 1] == '\\' || s[i + 1]
            == '"') {
            lemma_dq_extend(s, i + 2, env, subs, more, k, text.push(s[i + 1]), q.push(true));
        } else if c == '$' {
            lemma_dollar(s, i, env, subs, k);
            if !(dollar(s, i, env, subs, k) is Need) {
                lemma_dollar_extend(s, i, env, subs, more, k);
                match dollar(s, i, env, subs, k) {
                    DollarV::Literal => lemma_dq_extend(
                        s,
                        i + 1,
                        env,
                        subs,
                        more,
                        k,
                        text.push('$'),
                        q.push(true),
                    ),
                    DollarV::Got(m, v, k2) => lemma_dq_extend(
                        s,
                        i + m,
                        env,
                        subs,
                        more,
                        k2,
                        text + v,
                        q + flags(byte_len(v), true),
                    ),
                    _ => {},
                }
            }
        } else {
            lemma_dq_extend(s, i + 1, env, subs, more, k, text.push(c), q.push(true));
        }
    }
}

/// Substitution outputs beyond those a variant uses change nothing: when
/// its expansion needs no further output, more outputs give the same
/// result.
pub proof fn law_extra_outputs_are_not_read(
    raw: Seq<char>,
    env: EnvV,
    subs: Seq<Seq<char>>,
    more: Seq<Seq<char>>,
    k: int,
)
    requires
        !(expand_variant_spec(raw, env, subs, k) is Need),
    ensures
        expand_variant_spec(raw, env, subs + more, k) == expand_variant_spec(raw, env, subs, k),
{
    lemma_vx_extend(raw, 0, env, subs, more, k, Seq::empty(), Seq::empty());
}

/// Every value that expansion can substitute is ASCII: the values of the
/// variables and the outputs of command substitutions.
pub open spec fn ascii_values(env: EnvV, subs: Seq<Seq<char>>) -> bool {
    &&& forall|i: int| 0 <= i < env.vars.len() ==> vstd::utf8::is_ascii_chars(#[trigger] env.vars[i].1)
    &&& forall|k: int| 0 <= k < subs.len() ==> vstd::utf8::is_ascii_chars(#[trigger] subs[k])
}

proof fn lemma_nat_text_ascii(n: nat)
    ensures
        vstd::utf8::is_ascii_chars(nat_text(n)),
    decreases n,
{
    let d = ('0' as int + n % 10) as char;
    assert(d as int == '0' as int + n % 10);
    if n >= 10 {
        lemma_nat_text_ascii(n / 10);
        let t = nat_text(n / 10);
        assert forall|i: int| 0 <= i < nat_text(n).len() implies '\0' <= #[trigger] nat_text(n)[i]
            <= '\u{7f}' by {
            if i < t.len() {
                assert(nat_text(n)[i] == t[i]);
            }
        }
    }
}

proof fn lemma_int_text_ascii(v: int)
    ensures
        vstd::utf8::is_ascii_chars(int_text(v)),
{
    if v < 0 {
        lemma_nat_text_ascii((-v) as nat);
        let t = int_text(v);
        assert forall|i: int| 0 <= i < t.len() implies '\0' <= #[trigger] t[i] <= '\u{7f}' by {
            if i > 0 {
                assert(t[i] == nat_text((-v) as nat)[i - 1]);
            }
        }
    } else {
        lemma_nat_text_ascii(v as nat);
    }
}

proof fn lemma_param_ascii(name: Seq<char>, env: EnvV, subs: Seq<Seq<char>>)
    requires
        ascii_values(env, subs),
    ensures
        vstd::utf8::is_ascii_chars(param_text(name, env)),
{
    lemma_int_text_ascii(env.last_status as int);
    if let Some(p) = env.last_bg_pid {
        lemma_int_text_ascii(p as int);
    }
    lemma_find_from(env.vars, name, 0);
    if let Some(i) = find_from(env.vars, name, 0) {
        assert(vstd::utf8::is_ascii_chars(env.vars[i].1));
    }
}

proof fn lemma_dollar_ascii(s: Seq<char>, i: int, env: EnvV, subs: Seq<Seq<char>>, k: int)
    requires
        ascii_values(env, subs),
    ensures
        dollar(s, i, env, subs, k) matches DollarV::Got(_, v, _) ==> vstd::utf8::is_ascii_chars(v),
{
    reveal(dollar);
    if let DollarV::Got(_, v, _) = dollar(s, i, env, subs, k) {
        let n = s.len() as int;
        if i + 1 < n && s[i + 1] == '(' && i + 2 < n && s[i + 2] == '(' {
            let c = crate::lexer::paren_close(s, i + 3, 1);
            if let Ok(x) = arith_value(s.subrange(i + 3, c), env) {
                lemma_int_text_ascii(x as int);
            }
        } else if i + 1 < n && s[i + 1] == '(' {
        } else if i + 1 < n && s[i + 1] == '?' {
            lemma_int_text_ascii(env.last_status as int);
        } else {
            let e = name_end(s, i + 1);
            let c = crate::lexer::brace_close(s, i + 2, 1);
            lemma_param_ascii(s.subrange(i + 2, c), env, subs);
            lemma_param_ascii("!"@, env, subs);
            lemma_param_ascii(s.subrange(i + 1, i + 2), env, subs);
            lemma_param_ascii(s.subrange(i + 1, e), env, subs);
        }
    }
}

proof fn lemma_ascii_len(v: Seq<char>)
    requires
        vstd::utf8::is_ascii_chars(v),
    ensures
        byte_len(v) == v.len(),
{
    vstd::utf8::is_ascii_chars_encode_utf8(v);
}

proof fn lemma_vx_flags(
    s: Seq<char>,
    i: int,
    env: EnvV,
    subs: Seq<Seq<char>>,
    k: int,
    text: Seq<char>,
    q: Seq<bool>,
)
    requires
        ascii_values(env, subs),
        text.len() == q.len(),
    ensures
        vx(s, i, env, subs, k, text, q) matches VarStepV::Done(t, f, _) ==> t.len() == f.len(),
    decreases s.len() + 1 - i, 1int,
{
    let n = s.len() as int;
    if 0 <= i < n {
        let c = s[i];
        if c == '\'' {
            let j = squote_end(s, i + 1);
            lemma_squote_end(s, i + 1);
            if j < n {
                lemma_vx_flags(
                    s,
                    j + 1,
                    env,
                    subs,
                    k,
                    text + s.subrange(i + 1, j),
                    q + flags((j - i - 1) as nat, true),
                );
            }
        } else if c == '"' {
            lemma_dq_flags(s, i + 1, env, subs, k, text, q);
        } else if c == '\\' && i + 1 < n {
            lemma_vx_flags(s, i + 2, env, subs, k, text.push(s[i + 1]), q.push(true));
        } else if c == '$' {
            lemma_dollar(s, i, env, subs, k);
            lemma_dollar_ascii(s, i, env, subs, k);
            match dollar(s, i, env, subs, k) {
                DollarV::Literal => lemma_vx_flags(
                    s,
                    i + 1,
                    env,
                    subs,
                    k,
                    text.push('$'),
                    q.push(false),
                ),
                DollarV::Got(m, v, k2) => {
                    lemma_ascii_len(v);
                    lemma_vx_flags(s, i + m, env, subs, k2, text + v, q + flags(byte_len(v), false));
                },
                _ => {},
            }
        } else {
            lemma_vx_flags(s, i + 1, env, subs, k, text.push(c), q.push(false));
        }
    }
}

proof fn lemma_dq_flags(
    s: Seq<char>,
    i: int,
    env: EnvV,
    subs: Seq<Seq<char>>,
    k: int,
    text: Seq<char>,
    q: Seq<bool>,
)
    requires
        ascii_values(env, subs),
        text.len() == q.len(),
    ensures
        dq(s, i, env, subs, k, text, q) matches VarStepV::Done(t, f, _) ==> t.len() == f.len(),
    decreases s.len() + 1 - i, 0int,
{
    let n = s.len() as int;
    if 0 <= i < n {
        let c = s[i];
        if c == '"' {
            lemma_vx_flags(s, i + 1, env, subs, k, text, q);
        } else if c == '\\' && i + 1 < n && (s[i + 1] == '$' || s[i + 1] == '\\' || s[i + 1]
            == '"') {
            lemma_dq_flags(s, i + 2, env, subs, k, text.push(s[i + 1]), q.push(true));
        } else if c == '$' {
            lemma_dollar(s, i, env, subs, k);
            lemma_dollar_ascii(s, i, env, subs, k);
            match dollar(s, i, env, subs, k) {
                DollarV::Literal => lemma_dq_flags(
                    s,
                    i + 1,
                    env,
                    subs,
                    k,
                    text.push('$'),
                    q.push(true),
                ),
                DollarV::Got(m, v, k2) => {
                    lemma_ascii_len(v);
                    lemma_dq_flags(s, i + m, env, subs, k2, text + v, q + flags(byte_len(v), true));
                },
                _ => {},
            }
        } else {
            lemma_dq_flags(s, i + 1, env, subs, k, text.push(c), q.push(true));
        }
    }
}

/// When every value substituted is ASCII, an expanded word has exactly one
/// quoting flag per character. (A non-ASCII value gets one flag per byte of
/// its UTF-8 encoding.)
pub proof fn law_one_flag_per_character(
    raw: Seq<char>,
    env: EnvV,
    subs: Seq<Seq<char>>,
    k: int,
)
    requires
        ascii_values(env, subs),
    ensures
        expand_variant_spec(raw, env, subs, k) matches VarStepV::Done(t, f, _) ==> t.len()
            == f.len(),
{
    lemma_vx_flags(raw, 0, env, subs, k, Seq::empty(), Seq::empty());
}

/// A `$` stands for itself exactly when nothing that starts an expansion
/// follows it: no `(`, `{`, `?`, `!`, digit, letter or `_`. Otherwise the
/// expansion takes at least the `$` and the character after it, and no more
/// than the rest of the word (its end past the word only for an unfinished
/// `$((`, which then fails).
pub proof fn law_dollar_forms(s: Seq<char>, i: int, env: EnvV, subs: Seq<Seq<char>>, k: int)
    requires
        0 <= i < s.len(),
    ensures
        dollar(s, i, env, subs, k) is Literal <==> (i + 1 >= s.len() || !(s[i + 1] == '('
            || s[i + 1] == '{' || s[i + 1] == '?' || s[i + 1] == '!' || is_digit(s[i + 1])
            || is_ident_start(s[i + 1]))),
        dollar(s, i, env, subs, k) matches DollarV::Got(m, _, k2) ==> 2 <= m && i + m <= s.len()
            + 1 && k <= k2 <= k + 1,
{
    reveal(dollar);
    lemma_dollar(s, i, env, subs, k);
}


/// Every flag of `q` is `f`.
pub open spec fn all_flags(q: Seq<bool>, f: bool) -> bool {
    forall|j: int| 0 <= j < q.len() ==> #[trigger] q[j] == f
}

/// No quote and no backslash from `i` on.
pub open spec fn quote_free_from(s: Seq<char>, i: int) -> bool {
    forall|j: int| i <= j < s.len() ==> #[trigger] s[j] != '\'' && s[j] != '"' && s[j] != '\\'
}

proof fn lemma_flags_all(q: Seq<bool>, n: nat, f: bool)
    requires
        all_flags(q, f),
    ensures
        all_flags(q + flags(n, f), f),
        all_flags(q.push(f), f),
{
    let r = q + flags(n, f);
    assert forall|j: int| 0 <= j < r.len() implies #[trigger] r[j] == f by {
        if j < q.len() {
            assert(r[j] == q[j]);
        } else {
            assert(r[j] == flags(n, f)[j - q.len()]);
        }
    }
    let p = q.push(f);
    assert forall|j: int| 0 <= j < p.len() implies #[trigger] p[j] == f by {
        if j < q.len() {
            assert(p[j] == q[j]);
        }
    }
}

proof fn lemma_vx_unquoted(
    s: Seq<char>,
    i: int,
    env: EnvV,
    subs: Seq<Seq<char>>,
    k: int,
    text: Seq<char>,
    q: Seq<bool>,
)
    requires
        0 <= i,
        quote_free_from(s, i),
        all_flags(q, false),
    ensures
        vx(s, i, env, subs, k, text, q) matches VarStepV::Done(_, f, _) ==> all_flags(f, false),
    decreases s.len() + 1 - i,
{
    let n = s.len() as int;
    if i < n {
        let c = s[i];
        assert(c != '\'' && c != '"' && c != '\\');
        lemma_flags_all(q, 0, false);
        if c == '$' {
            lemma_dollar(s, i, env, subs, k);
            match dollar(s, i, env, subs, k) {
                DollarV::Literal => lemma_vx_unquoted(
                    s,
                    i + 1,
                    env,
                    subs,
                    k,
                    text.push('$'),
                    q.push(false),
                ),
                DollarV::Got(m, v, k2) => {
                    lemma_flags_all(q, byte_len(v), false);
                    lemma_vx_unquoted(s, i + m, env, subs, k2, text + v, q + flags(byte_len(v), false));
                },
                _ => {},
            }
        } else {
            lemma_vx_unquoted(s, i + 1, env, subs, k, text.push(c), q.push(false));
        }
    }
}

/// A word without quotes and backslashes expands with every flag unset:
/// its literal characters and the values of its expansions are all
/// unquoted.
pub proof fn law_quote_free_word_is_unquoted(
    raw: Seq<char>,
    env: EnvV,
    subs: Seq<Seq<char>>,
    k: int,
)
    requires
        quote_free_from(raw, 0),
    ensures
        expand_variant_spec(raw, env, subs, k) matches VarStepV::Done(_, f, _) ==> all_flags(
            f,
            false,
        ),
{
    lemma_vx_unquoted(raw, 0, env, subs, k, Seq::empty(), Seq::empty());
}

proof fn lemma_dq_quoted(
    s: Seq<char>,
    i: int,
    env: EnvV,
    subs: Seq<Seq<char>>,
    k: int,
    text: Seq<char>,
    q: Seq<bool>,
)
    requires
        1 <= i,
        s.len() >= 2,
        s[s.len() - 1] == '"',
        forall|j: int| 1 <= j < s.len() - 1 ==> #[trigger] s[j] != '"',
        all_flags(q, true),
    ensures
        dq(s, i, env, subs, k, text, q) matches VarStepV::Done(_, f, _) ==> all_flags(f, true),
    decreases s.len() + 1 - i,
{
    let n = s.len() as int;
    if i < n {
        let c = s[i];
        lemma_flags_all(q, 0, true);
        if c == '"' {
            assert(i == n - 1);
            assert(vx(s, i + 1, env, subs, k, text, q) == VarStepV::Done(text, q, k));
        } else if c == '\\' && i + 1 < n && (s[i + 1] == '$' || s[i + 1] == '\\' || s[i + 1]
            == '"') {
            lemma_dq_quoted(s, i + 2, env, subs, k, text.push(s[i + 1]), q.push(true));
        } else if c == '$' {
            lemma_dollar(s, i, env, subs, k);
            match dollar(s, i, env, subs, k) {
                DollarV::Literal => lemma_dq_quoted(
                    s,
                    i + 1,
                    env,
                    subs,
                    k,
                    text.push('$'),
                    q.push(true),
                ),
                DollarV::Got(m, v, k2) => {
                    lemma_flags_all(q, byte_len(v), true);
                    lemma_dq_quoted(s, i + m, env, subs, k2, text + v, q + flags(byte_len(v), true));
                },
                _ => {},
            }
        } else {
            lemma_dq_quoted(s, i + 1, env, subs, k, text.push(c), q.push(true));
        }
    }
}

/// A word that is one double-quoted string expands with every flag set:
/// its characters, its escapes and the values of its expansions are all
/// quoted, and the quotes themselves are dropped.
pub proof fn law_double_quoted_word_is_quoted(
    inner: Seq<char>,
    env: EnvV,
    subs: Seq<Seq<char>>,
    k: int,
)
    requires
        !inner.contains('"'),
    ensures
        expand_variant_spec(seq!['"'] + inner + seq!['"'], env, subs, k) matches VarStepV::Done(
            _,
            f,
            _,
        ) ==> all_flags(f, true),
{
    let s = seq!['"'] + inner + seq!['"'];
    let n = s.len() as int;
    assert forall|j: int| 1 <= j < n - 1 implies #[trigger] s[j] != '"' by {
        assert(s[j] == inner[j - 1]);
        if inner[j - 1] == '"' {
            assert(inner.contains('"'));
        }
    }
    assert(all_flags(Seq::<bool>::empty(), true));
    lemma_dq_quoted(s, 1, env, subs, k, Seq::empty(), Seq::empty());
    assert(vx(s, 0, env, subs, k, Seq::empty(), Seq::empty()) == dq(
        s,
        1,
        env,
        subs,
        k,
        Seq::empty(),
        Seq::empty(),
    ));
}

/// When every value that can be substituted is ASCII, the value of a `$`
/// expansion has as many bytes as characters, so that the flags appended
/// for it (one per byte) are one per character.
pub proof fn law_dollar_value_flags(s: Seq<char>, i: int, env: EnvV, subs: Seq<Seq<char>>, k: int)
    requires
        ascii_values(env, subs),
    ensures
        dollar(s, i, env, subs, k) matches DollarV::Got(_, v, _) ==> byte_len(v) == v.len(),
{
    lemma_dollar_ascii(s, i, env, subs, k);
    if let DollarV::Got(_, v, _) = dollar(s, i, env, subs, k) {
        lemma_ascii_len(v);
    }
}

proof fn lemma_dollar_fails(s: Seq<char>, i: int, env: EnvV, subs: Seq<Seq<char>>, k: int)
    ensures
        dollar(s, i, env, subs, k) matches DollarV::Fail(e) ==> e is Eval,
{
    reveal(dollar);
    if i + 3 <= s.len() {
        let c = crate::lexer::paren_close(s, i + 3, 1);
        law_arith_fails_with_eval_errors(s.subrange(i + 3, c), env);
    }
}

proof fn lemma_vx_fails(
    s: Seq<char>,
    i: int,
    env: EnvV,
    subs: Seq<Seq<char>>,
    k: int,
    text: Seq<char>,
    q: Seq<bool>,
)
    ensures
        vx(s, i, env, subs, k, text, q) matches VarStepV::Fail(e) ==> e is Eval,
    decreases s.len() + 1 - i, 1int,
{
    let n = s.len() as int;
    if 0 <= i < n {
        let c = s[i];
        if c == '\'' {
            let j = squote_end(s, i + 1);
            lemma_squote_end(s, i + 1);
            if j < n {
                lemma_vx_fails(
                    s,
                    j + 1,
                    env,
                    subs,
                    k,
                    text + s.subrange(i + 1, j),
                    q + flags((j - i - 1) as nat, true),
                );
            }
        } else if c == '"' {
            lemma_dq_fails(s, i + 1, env, subs, k, text, q);
        } else if c == '\\' && i + 1 < n {
            lemma_vx_fails(s, i + 2, env, subs, k, text.push(s[i + 1]), q.push(true));
        } else if c == '$' {
            lemma_dollar(s, i, env, subs, k);
            lemma_dollar_fails(s, i, env, subs, k);
            match dollar(s, i, env, subs, k) {
                DollarV::Literal => lemma_vx_fails(
                    s,
                    i + 1,
                    env,
                    subs,
                    k,
                    text.push('$'),
                    q.push(false),
                ),
                DollarV::Got(m, v, k2) => lemma_vx_fails(
                    s,
                    i + m,
                    env,
                    subs,
                    k2,
                    text + v,
                    q + flags(byte_len(v), false),
                ),
                _ => {},
            }
        } else {
            lemma_vx_fails(s, i + 1, env, subs, k, text.push(c), q.push(false));
        }
    }
}

proof fn lemma_dq_fails(
    s: Seq<char>,
    i: int,
    env: EnvV,
    subs: Seq<Seq<char>>,
    k: int,
    text: Seq<char>,
    q: Seq<bool>,
)
    ensures
        dq(s, i, env, subs, k, text, q) matches VarStepV::Fail(e) ==> e is Eval,
    decreases s.len() + 1 - i, 0int,
{
    let n = s.len() as int;
    if 0 <= i < n {
        let c = s[i];
        if c == '"' {
            lemma_vx_fails(s, i + 1, env, subs, k, text, q);
        } else if c == '\\' && i + 1 < n && (s[i + 1] == '$' || s[i + 1] == '\\' || s[i + 1]
            == '"') {
            lemma_dq_fails(s, i + 2, env, subs, k, text.push(s[i + 1]), q.push(true));
        } else if c == '$' {
            lemma_dollar(s, i, env, subs, k);
            lemma_dollar_fails(s, i, env, subs, k);
            match dollar(s, i, env, subs, k) {
                DollarV::Literal => lemma_dq_fails(
                    s,
                    i + 1,
                    env,
                    subs,
                    k,
                    text.push('$'),
                    q.push(true),
                ),
                DollarV::Got(m, v, k2) => lemma_dq_fails(
                    s,
                    i + m,
                    env,
                    subs,
                    k2,
                    text + v,
                    q + flags(byte_len(v), true),
                ),
                _ => {},
            }
        } else {
            lemma_dq_fails(s, i + 1, env, subs, k, text.push(c), q.push(true));
        }
    }
}

/// Expanding a word fails only with an evaluation error: an unclosed
/// quote, `${` or `$(`, or a failed arithmetic expansion.
pub proof fn law_expansion_fails_with_eval_errors(
    raw: Seq<char>,
    env: EnvV,
    subs: Seq<Seq<char>>,
    k: int,
)
    ensures
        expand_variant_spec(raw, env, subs, k) matches VarStepV::Fail(e) ==> e is Eval,
{
    lemma_vx_fails(raw, 0, env, subs, k, Seq::empty(), Seq::empty());
}

proof fn lemma_dq_plain_run(
    s: Seq<char>,
    i: int,
    env: EnvV,
    subs: Seq<Seq<char>>,
    k: int,
    text: Seq<char>,
    q: Seq<bool>,
)
    requires
        1 <= i <= s.len() - 1,
        s[s.len() - 1] == '"',
        forall|j: int| i <= j < s.len() - 1 ==> #[trigger] s[j] != '"' && s[j] != '\\' && s[j] != '$',
    ensures
        dq(s, i, env, subs, k, text, q) == VarStepV::Done(
            text + s.subrange(i, s.len() - 1),
            q + flags((s.len() - 1 - i) as nat, true),
            k,
        ),
    decreases s.len() - i,
{
    let n = s.len() as int;
    if i == n - 1 {
        assert(text + s.subrange(i, n - 1) =~= text);
        assert(q + flags(0, true) =~= q);
        assert(vx(s, n, env, subs, k, text, q) == VarStepV::Done(text, q, k));
    } else {
        let c = s[i];
        assert(c != '"' && c != '\\' && c != '$');
        lemma_dq_plain_run(s, i + 1, env, subs, k, text.push(c), q.push(true));
        assert(text.push(c) + s.subrange(i + 1, n - 1) =~= text + s.subrange(i, n - 1));
        assert(q.push(true) + flags((n - 1 - (i + 1)) as nat, true) =~= q + flags(
            (n - 1 - i) as nat,
            true,
        ));
    }
}

/// Inside double quotes, a backslash before `$`, `\` or `"` stands for
/// that character alone, quoted: `"\$NAME"` expands to the text `$NAME`
/// whatever `NAME` holds (and likewise `"\\..."`, `"\"..."`).
pub proof fn law_escape_in_double_quotes(
    b: char,
    x: Seq<char>,
    env: EnvV,
    subs: Seq<Seq<char>>,
    k: int,
)
    requires
        b == '$' || b == '\\' || b == '"',
        forall|j: int| 0 <= j < x.len() ==> #[trigger] x[j] != '"' && x[j] != '\\' && x[j] != '$',
    ensures
        expand_variant_spec(seq!['"', '\\', b] + x + seq!['"'], env, subs, k) == VarStepV::Done(
            seq![b] + x,
            flags(x.len() + 1, true),
            k,
        ),
{
    let s = seq!['"', '\\', b] + x + seq!['"'];
    let n = s.len() as int;
    assert forall|j: int| 3 <= j < n - 1 implies #[trigger] s[j] != '"' && s[j] != '\\' && s[j]
        != '$' by {
        assert(s[j] == x[j - 3]);
    }
    let e = Seq::<char>::empty();
    let f = Seq::<bool>::empty();
    assert(vx(s, 0, env, subs, k, e, f) == dq(s, 1, env, subs, k, e, f));
    assert(dq(s, 1, env, subs, k, e, f) == dq(s, 3, env, subs, k, e.push(b), f.push(true)));
    lemma_dq_plain_run(s, 3, env, subs, k, e.push(b), f.push(true));
    assert(e.push(b) + s.subrange(3, n - 1) =~= seq![b] + x);
    assert(f.push(true) + flags((n - 1 - 3) as nat, true) =~= flags(x.len() + 1, true));
}

/// After `NAME=value`, `$NAME` expands to `value`, unquoted; an unset
/// variable expands to nothing.
pub proof fn law_assigned_variable_expands_to_its_value(
    name: Seq<char>,
    value: Seq<char>,
    env: EnvV,
    subs: Seq<Seq<char>>,
    k: int,
)
    requires
        name.len() > 0,
        is_ident_start(name[0]),
        forall|m: int| 0 <= m < name.len() ==> is_ident_cont(#[trigger] name[m]),
    ensures
        expand_variant_spec(
            seq!['$'] + name,
            EnvV { vars: assign(env.vars, name, value), ..env },
            subs,
            k,
        ) == VarStepV::Done(value, flags(byte_len(value), false), k),
        lookup(env.vars, name) is None ==> expand_variant_spec(seq!['$'] + name, env, subs, k)
            == VarStepV::Done(Seq::empty(), Seq::empty(), k),
{
    reveal_strlit("?");
    reveal_strlit("!");
    assert(name != "?"@) by {
        assert(name[0] != '?');
    }
    assert(name != "!"@) by {
        assert(name[0] != '!');
    }
    let env2 = EnvV { vars: assign(env.vars, name, value), ..env };
    law_lookup_after_assign(env.vars, name, value);
    assert(param_text(name, env2) == value);
    law_parameter_expands_to_its_value(name, env2, subs, k);
    law_parameter_expands_to_its_value(name, env, subs, k);
    if lookup(env.vars, name) is None {
        assert(param_text(name, env) =~= Seq::<char>::empty());
        assert(vstd::utf8::encode_utf8(Seq::<char>::empty()) =~= Seq::<u8>::empty()) by {
            vstd::utf8::is_ascii_chars_encode_utf8(Seq::<char>::empty());
        }
        assert(flags(0, false) =~= Seq::<bool>::empty());
    }
}

/// `$?` expands to the decimal text of the last status: the text reads
/// back as that number.
pub proof fn law_status_parameter(env: EnvV, subs: Seq<Seq<char>>, k: int)
    ensures
        expand_variant_spec(seq!['$', '?'], env, subs, k) matches VarStepV::Done(t, _, k2) && k2
            == k && decimal_value(t) == Some(env.last_status as int),
{
    reveal(dollar);
    let s = seq!['$', '?'];
    let v = int_text(env.last_status as int);
    assert(dollar(s, 0, env, subs, k) == DollarV::Got(2, v, k));
    let e = Seq::<char>::empty();
    let q = Seq::<bool>::empty();
    assert(e + v =~= v);
    assert(vx(s, 2, env, subs, k, e + v, q + flags(byte_len(v), false)) == VarStepV::Done(
        e + v,
        q + flags(byte_len(v), false),
        k,
    ));
    law_int_text_reads_back(env.last_status as int);
}

} // verus!
