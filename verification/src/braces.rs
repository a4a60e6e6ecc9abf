use vstd::prelude::*;

use crate::ast::strings_view;
use crate::lexer::is_alpha;
use crate::num::{int_text, law_int_text_reads_back, nat_text, parse_i64, parse_in_range};
use crate::text::{chars_of, owned, push_text, string_of_range};

verus! {

/// Where a scan of a word stands: inside single quotes, inside double
/// quotes, just after a backslash.
#[derive(Clone, Copy)]
pub struct Quote {
    pub sq: bool,
    pub dq: bool,
    pub esc: bool,
}

/// The state at the start of a scan.
pub open spec fn clear() -> Quote {
    Quote { sq: false, dq: false, esc: false }
}

/// The state after reading `c`.
pub open spec fn next_quote(st: Quote, c: char) -> Quote {
    if st.esc {
        Quote { esc: false, ..st }
    } else if c == '\\' && !st.sq {
        Quote { esc: true, ..st }
    } else if c == '\'' && !st.dq {
        Quote { sq: !st.sq, ..st }
    } else if c == '"' && !st.sq {
        Quote { dq: !st.dq, ..st }
    } else {
        st
    }
}

/// `c`, read in state `st`, is an unquoted character that quoting leaves
/// alone.
pub open spec fn active(st: Quote, c: char) -> bool {
    !st.esc && !st.sq && !st.dq && c != '\\' && c != '\'' && c != '"'
}

/// The character before position `i` is a `$`.
pub open spec fn after_dollar(s: Seq<char>, i: int) -> bool {
    0 < i <= s.len() && s[i - 1] == '$'
}

fn step_quote(st: Quote, c: char) -> (r: Quote)
    ensures
        r == next_quote(st, c),
{
    if st.esc {
        Quote { esc: false, ..st }
    } else if c == '\\' && !st.sq {
        Quote { esc: true, ..st }
    } else if c == '\'' && !st.dq {
        Quote { sq: !st.sq, ..st }
    } else if c == '"' && !st.sq {
        Quote { dq: !st.dq, ..st }
    } else {
        st
    }
}

fn is_active(st: Quote, c: char) -> (r: bool)
    ensures
        r == active(st, c),
{
    !st.esc && !st.sq && !st.dq && c != '\\' && c != '\'' && c != '"'
}

fn follows_dollar(chars: &Vec<char>, i: usize) -> (r: bool)
    requires
        i <= chars@.len(),
    ensures
        r == after_dollar(chars@, i as int),
{
    i > 0 && chars[i - 1] == '$'
}

/// The first position from `i` on, scanning in state `st`, of an unquoted
/// `target` (a `{` right after a `$` does not count); the length when
/// there is none.
pub open spec fn first_unquoted(s: Seq<char>, target: char, i: int, st: Quote) -> int
    decreases s.len() - i,
{
    if i < 0 || i >= s.len() {
        s.len() as int
    } else if active(st, s[i]) && s[i] == target && !(target == '{' && after_dollar(s, i)) {
        i
    } else {
        first_unquoted(s, target, i + 1, next_quote(st, s[i]))
    }
}

pub proof fn lemma_first_unquoted(s: Seq<char>, target: char, i: int, st: Quote)
    requires
        0 <= i <= s.len(),
    ensures
        i <= first_unquoted(s, target, i, st) <= s.len(),
        first_unquoted(s, target, i, st) < s.len() ==> s[first_unquoted(s, target, i, st)]
            == target && !(target == '{' && after_dollar(s, first_unquoted(s, target, i, st))),
    decreases s.len() - i,
{
    if i < s.len() {
        lemma_first_unquoted(s, target, i + 1, next_quote(st, s[i]));
    }
}

/// The position of the first unquoted `target` of the word.
pub fn find_unquoted_char(chars: &Vec<char>, target: char) -> (r: Option<usize>)
    ensures
        match r {
            Some(i) => i < chars@.len() && i == first_unquoted(chars@, target, 0, clear()),
            None => first_unquoted(chars@, target, 0, clear()) == chars@.len(),
        },
{
    let mut st = Quote { sq: false, dq: false, esc: false };
    let mut i: usize = 0;
    while i < chars.len()
        invariant
            i <= chars@.len(),
            first_unquoted(chars@, target, 0, clear()) == first_unquoted(chars@, target, i as int, st),
        decreases chars@.len() - i,
    {
        let c = chars[i];
        if is_active(st, c) && c == target && !(target == '{' && follows_dollar(chars, i)) {
            return Some(i);
        }
        st = step_quote(st, c);
        i += 1;
    }
    None
}

/// An unquoted `{` that opens a group at `i`.
pub open spec fn opens_at(s: Seq<char>, i: int, st: Quote) -> bool {
    active(st, s[i]) && s[i] == '{' && !after_dollar(s, i)
}

/// An unquoted `}` at `i`.
pub open spec fn closes_at(s: Seq<char>, i: int, st: Quote) -> bool {
    active(st, s[i]) && s[i] == '}'
}

/// The position of the `}` that brings the depth `d` (before position
/// `i`) down to zero; the length when there is none.
pub open spec fn match_from(s: Seq<char>, i: int, st: Quote, d: int) -> int
    decreases s.len() - i,
{
    if i < 0 || i >= s.len() {
        s.len() as int
    } else if opens_at(s, i, st) {
        match_from(s, i + 1, st, d + 1)
    } else if closes_at(s, i, st) {
        if d - 1 == 0 {
            i
        } else {
            match_from(s, i + 1, st, d - 1)
        }
    } else {
        match_from(s, i + 1, next_quote(st, s[i]), d)
    }
}

pub proof fn lemma_match_from(s: Seq<char>, i: int, st: Quote, d: int)
    requires
        0 <= i <= s.len(),
    ensures
        i <= match_from(s, i, st, d) <= s.len(),
    decreases s.len() - i,
{
    if i < s.len() {
        if opens_at(s, i, st) {
            lemma_match_from(s, i + 1, st, d + 1);
        } else if closes_at(s, i, st) {
            if d - 1 != 0 {
                lemma_match_from(s, i + 1, st, d - 1);
            }
        } else {
            lemma_match_from(s, i + 1, next_quote(st, s[i]), d);
        }
    }
}

/// Between `i` and `hi`, no unquoted `}` comes at depth zero.
pub open spec fn closes_ok(s: Seq<char>, i: int, hi: int, st: Quote, d: int) -> bool
    decreases hi - i,
{
    if i < 0 || i >= hi || i >= s.len() {
        true
    } else if opens_at(s, i, st) {
        closes_ok(s, i + 1, hi, st, d + 1)
    } else if closes_at(s, i, st) {
        d >= 1 && closes_ok(s, i + 1, hi, st, d - 1)
    } else {
        closes_ok(s, i + 1, hi, next_quote(st, s[i]), d)
    }
}

/// Inside a group that `match_from` closes, the depth counted from its
/// inside never goes below zero.
pub proof fn lemma_match_closes(s: Seq<char>, i: int, st: Quote, d: int)
    requires
        0 <= i <= s.len(),
        d >= 1,
        match_from(s, i, st, d) < s.len(),
    ensures
        closes_ok(s, i, match_from(s, i, st, d), st, d - 1),
    decreases s.len() - i,
{
    let m = match_from(s, i, st, d);
    if i < s.len() {
        if opens_at(s, i, st) {
            lemma_match_closes(s, i + 1, st, d + 1);
            lemma_match_from(s, i + 1, st, d + 1);
        } else if closes_at(s, i, st) {
            if d - 1 != 0 {
                lemma_match_closes(s, i + 1, st, d - 1);
                lemma_match_from(s, i + 1, st, d - 1);
            }
        } else {
            lemma_match_closes(s, i + 1, next_quote(st, s[i]), d);
            lemma_match_from(s, i + 1, next_quote(st, s[i]), d);
        }
    }
}

/// The position of the `}` matching the `{` at `open`.
pub fn find_matching_brace(chars: &Vec<char>, open: usize) -> (r: Option<usize>)
    requires
        open < chars@.len(),
        chars@[open as int] == '{',
        !after_dollar(chars@, open as int),
    ensures
        match r {
            Some(i) => open < i < chars@.len() && i == match_from(chars@, open as int, clear(), 0),
            None => match_from(chars@, open as int, clear(), 0) == chars@.len(),
        },
{
    let mut st = Quote { sq: false, dq: false, esc: false };
    let mut depth: usize = 0;
    let mut i: usize = open;
    while i < chars.len()
        invariant
            open <= i <= chars@.len(),
            chars@[open as int] == '{',
            !after_dollar(chars@, open as int),
            match_from(chars@, open as int, clear(), 0) == match_from(
                chars@,
                i as int,
                st,
                depth as int,
            ),
            i == open ==> depth == 0 && st == clear(),
            i > open ==> depth >= 1 && depth <= i - open,
        decreases chars@.len() - i,
    {
        let c = chars[i];
        if is_active(st, c) && c == '{' && !follows_dollar(chars, i) {
            depth += 1;
        } else if is_active(st, c) && c == '}' {
            if depth == 1 {
                return Some(i);
            }
            depth -= 1;
        } else {
            st = step_quote(st, c);
        }
        i += 1;
    }
    None
}

/// Splits `s[lo..hi]` at the unquoted commas outside inner groups, the
/// scan standing at `i` with the part under way starting at `start`.
pub open spec fn commas_from(
    s: Seq<char>,
    i: int,
    hi: int,
    st: Quote,
    d: int,
    start: int,
    parts: Seq<Seq<char>>,
) -> Seq<Seq<char>>
    decreases hi - i,
{
    if i < 0 || i >= hi || i >= s.len() {
        parts.push(s.subrange(start, hi))
    } else if opens_at(s, i, st) {
        commas_from(s, i + 1, hi, st, d + 1, start, parts)
    } else if closes_at(s, i, st) {
        commas_from(s, i + 1, hi, st, d - 1, start, parts)
    } else if active(st, s[i]) && s[i] == ',' && d == 0 {
        commas_from(s, i + 1, hi, st, d, i + 1, parts.push(s.subrange(start, i)))
    } else {
        commas_from(s, i + 1, hi, next_quote(st, s[i]), d, start, parts)
    }
}

/// The parts of the group body `s[lo..hi]` between its top-level commas.
pub fn split_top_commas(chars: &Vec<char>, lo: usize, hi: usize) -> (r: Vec<String>)
    requires
        lo <= hi <= chars@.len(),
        closes_ok(chars@, lo as int, hi as int, clear(), 0),
    ensures
        strings_view(r@) == commas_from(
            chars@,
            lo as int,
            hi as int,
            clear(),
            0,
            lo as int,
            Seq::empty(),
        ),
{
    let ghost s = chars@;
    let mut parts: Vec<String> = Vec::new();
    let mut st = Quote { sq: false, dq: false, esc: false };
    let mut depth: usize = 0;
    let mut start = lo;
    let mut i = lo;
    assert(strings_view(parts@) =~= Seq::<Seq<char>>::empty());
    while i < hi
        invariant
            lo <= start <= i <= hi <= chars@.len(),
            s == chars@,
            depth <= i - lo,
            closes_ok(s, i as int, hi as int, st, depth as int),
            commas_from(s, lo as int, hi as int, clear(), 0, lo as int, Seq::empty())
                == commas_from(
                s,
                i as int,
                hi as int,
                st,
                depth as int,
                start as int,
                strings_view(parts@),
            ),
        decreases hi - i,
    {
        let c = chars[i];
        if is_active(st, c) && c == '{' && !follows_dollar(chars, i) {
            depth += 1;
        } else if is_active(st, c) && c == '}' {
            depth -= 1;
        } else if is_active(st, c) && c == ',' && depth == 0 {
            let part = string_of_range(chars, start, i);
            let ghost before = strings_view(parts@);
            parts.push(part);
            assert(strings_view(parts@) =~= before.push(s.subrange(start as int, i as int)));
            start = i + 1;
        } else {
            st = step_quote(st, c);
        }
        i += 1;
    }
    let last = string_of_range(chars, start, hi);
    let ghost before = strings_view(parts@);
    parts.push(last);
    assert(strings_view(parts@) =~= before.push(s.subrange(start as int, hi as int)));
    parts
}

/// The first position from `i` on where two dots follow each other; the
/// length when there is none.
pub open spec fn first_dots(s: Seq<char>, i: int) -> int
    decreases s.len() - i,
{
    if i < 0 || i + 1 >= s.len() {
        s.len() as int
    } else if s[i] == '.' && s[i + 1] == '.' {
        i
    } else {
        first_dots(s, i + 1)
    }
}

pub proof fn lemma_first_dots(s: Seq<char>, i: int)
    requires
        0 <= i,
    ensures
        first_dots(s, i) == s.len() || (i <= first_dots(s, i) && first_dots(s, i) + 1 < s.len()),
    decreases s.len() - i,
{
    if i + 1 < s.len() && !(s[i] == '.' && s[i + 1] == '.') {
        lemma_first_dots(s, i + 1);
    }
}

/// A text cut around its first `..`.
pub open spec fn dots_split(s: Seq<char>) -> Option<(Seq<char>, Seq<char>)> {
    let d = first_dots(s, 0);
    if d < s.len() {
        Some((s.subrange(0, d), s.subrange(d + 2, s.len() as int)))
    } else {
        None
    }
}

/// Cuts a text around its first `..`.
pub fn split_once_dots(part: &str) -> (r: Option<(String, String)>)
    ensures
        match r {
            Some((a, b)) => dots_split(part@) == Some((a@, b@)),
            None => dots_split(part@) is None,
        },
{
    let chars = chars_of(part);
    let n = chars.len();
    proof {
        lemma_first_dots(chars@, 0);
    }
    let mut i: usize = 0;
    while i < n && i + 1 < n
        invariant
            n == chars@.len(),
            chars@ == part@,
            first_dots(chars@, 0) == first_dots(chars@, i as int),
        decreases n - i,
    {
        if chars[i] == '.' && chars[i + 1] == '.' {
            let a = string_of_range(&chars, 0, i);
            let b = string_of_range(&chars, i + 2, n);
            assert(first_dots(chars@, i as int) == i);
            assert(chars@ == part@);
            return Some((a, b));
        }
        i += 1;
    }
    None
}

/// The numbers from `a` to `b`, counting up or down, as decimal texts.
pub open spec fn number_words(a: int, b: int) -> Seq<Seq<char>> {
    if a <= b {
        Seq::new((b - a + 1) as nat, |k: int| int_text(a + k))
    } else {
        Seq::new((a - b + 1) as nat, |k: int| int_text(a - k))
    }
}

pub open spec fn is_lower(c: char) -> bool {
    'a' <= c && c <= 'z'
}

/// The letters from `a` to `b`, each as a text of its own.
pub open spec fn letter_words(a: char, b: char) -> Seq<Seq<char>> {
    Seq::new((b as int - a as int + 1) as nat, |k: int| seq![(a as int + k) as char])
}

pub open spec fn as_i64(s: Seq<char>) -> Option<int> {
    parse_in_range(s, i64::MIN as int, i64::MAX as int)
}

pub open spec fn dist(a: int, b: int) -> int {
    if a <= b {
        b - a
    } else {
        a - b
    }
}

/// The longest span a numeric range may have.
pub const MAX_BRACE_RANGE: i64 = 100_000;

/// The words a range `first..last` stands for: numbers when both ends
/// are numbers less than the span limit apart, letters of one case when
/// both ends are single letters in order.
pub open spec fn range_words(first: Seq<char>, last: Seq<char>) -> Option<Seq<Seq<char>>> {
    match (as_i64(first), as_i64(last)) {
        (Some(a), Some(b)) => if dist(a, b) >= MAX_BRACE_RANGE {
            None
        } else {
            Some(number_words(a, b))
        },
        _ => if first.len() == 1 && last.len() == 1 && is_alpha(first[0]) && is_alpha(last[0])
            && first[0] <= last[0] && is_lower(first[0]) == is_lower(last[0]) {
            Some(letter_words(first[0], last[0]))
        } else {
            None
        },
    }
}

/// A numeric range whose counting would step past the bounds of `i64`.
pub open spec fn range_overflows(first: Seq<char>, last: Seq<char>) -> bool {
    match (as_i64(first), as_i64(last)) {
        (Some(a), Some(b)) => dist(a, b) < MAX_BRACE_RANGE && ((a <= b && b == i64::MAX) || (a
            > b && b == i64::MIN)),
        _ => false,
    }
}

/// The words of the range `first..last`, if it is one.
pub fn expand_range(first: &str, last: &str) -> (r: Option<Vec<String>>)
    requires
        !range_overflows(first@, last@),
    ensures
        match r {
            Some(v) => range_words(first@, last@) == Some(strings_view(v@)),
            None => range_words(first@, last@) is None,
        },
{
    let fc = chars_of(first);
    let lc = chars_of(last);
    let pa = parse_i64(&fc, 0, fc.len());
    let pb = parse_i64(&lc, 0, lc.len());
    assert(fc@.subrange(0, fc@.len() as int) =~= first@);
    assert(lc@.subrange(0, lc@.len() as int) =~= last@);
    if let (Some(a), Some(b)) = (pa, pb) {
        let span: i128 = if a <= b {
            b as i128 - a as i128
        } else {
            a as i128 - b as i128
        };
        if span >= MAX_BRACE_RANGE as i128 {
            return None;
        }
        let mut out: Vec<String> = Vec::new();
        let ghost words = number_words(a as int, b as int);
        if a <= b {
            let mut v = a;
            while v <= b
                invariant
                    a <= v <= b + 1,
                    b < i64::MAX,
                    words == number_words(a as int, b as int),
                    strings_view(out@) == words.take(v - a),
                decreases b as int + 1 - v as int,
            {
                let ghost before = strings_view(out@);
                let w = crate::num::int_to_string(v as i128);
                out.push(w);
                assert(strings_view(out@) =~= before.push(w@));
                assert(words[v - a] == int_text(v as int));
                assert(words.take(v - a + 1) =~= words.take(v - a).push(words[v - a]));
                v += 1;
            }
            assert(words.take(v - a) =~= words);
        } else {
            let mut v = a;
            while v >= b
                invariant
                    b - 1 <= v <= a,
                    b > i64::MIN,
                    words == number_words(a as int, b as int),
                    a > b,
                    strings_view(out@) == words.take(a - v),
                decreases v as int + 1 - b as int,
            {
                let ghost before = strings_view(out@);
                let w = crate::num::int_to_string(v as i128);
                out.push(w);
                assert(strings_view(out@) =~= before.push(w@));
                assert(words[a - v] == int_text(v as int));
                assert(words.take(a - v + 1) =~= words.take(a - v).push(words[a - v]));
                v -= 1;
            }
            assert(words.take(a - v) =~= words);
        }
        return Some(out);
    }
    if fc.len() == 1 && lc.len() == 1 {
        let a = fc[0];
        let b = lc[0];
        if crate::lexer::is_ascii_alpha(a) && crate::lexer::is_ascii_alpha(b) && a <= b && ('a'
            <= a && a <= 'z') == ('a' <= b && b <= 'z') {
            let ghost words = letter_words(a, b);
            let mut out: Vec<String> = Vec::new();
            let lo = a as u32;
            let hi = b as u32;
            let mut v = lo;
            while v <= hi
                invariant
                    lo <= v <= hi + 1,
                    lo == a as u32,
                    hi == b as u32,
                    hi <= 'z' as u32,
                    words == letter_words(a, b),
                    strings_view(out@) == words.take(v - lo),
                decreases hi as int + 1 - v as int,
            {
                let c = (v as u8) as char;
                let mut w = String::new();
                crate::text::push_char(&mut w, c);
                assert(w@ =~= seq![(a as int + (v - lo)) as char]);
                let ghost before = strings_view(out@);
                out.push(w);
                assert(strings_view(out@) =~= before.push(w@));
                assert(words.take(v - lo + 1) =~= words.take(v - lo).push(words[v - lo]));
                v += 1;
            }
            assert(words.take(v - lo) =~= words);
            return Some(out);
        }
    }
    None
}

/// The words a group body stands for, given its parts between top-level
/// commas: a range when there are two parts, or one part holding `..`;
/// otherwise the parts themselves.
pub open spec fn alternatives(parts: Seq<Seq<char>>) -> Seq<Seq<char>> {
    if parts.len() == 2 {
        match range_words(parts[0], parts[1]) {
            Some(r) => r,
            None => parts,
        }
    } else if parts.len() == 1 {
        match dots_split(parts[0]) {
            Some((a, b)) => match range_words(a, b) {
                Some(r) => r,
                None => parts,
            },
            None => parts,
        }
    } else {
        parts
    }
}

/// The parts of a group body form a range that overflows.
pub open spec fn alternatives_overflow(parts: Seq<Seq<char>>) -> bool {
    ||| parts.len() == 2 && range_overflows(parts[0], parts[1])
    ||| parts.len() == 1 && (match dots_split(parts[0]) {
        Some((a, b)) => range_overflows(a, b),
        None => false,
    })
}

fn choose_alternatives(parts: Vec<String>) -> (r: Vec<String>)
    requires
        !alternatives_overflow(strings_view(parts@)),
    ensures
        strings_view(r@) == alternatives(strings_view(parts@)),
{
    if parts.len() == 2 {
        match expand_range(parts[0].as_str(), parts[1].as_str()) {
            Some(r) => r,
            None => parts,
        }
    } else if parts.len() == 1 {
        match split_once_dots(parts[0].as_str()) {
            Some((a, b)) => match expand_range(a.as_str(), b.as_str()) {
                Some(r) => r,
                None => parts,
            },
            None => parts,
        }
    } else {
        parts
    }
}

/// The first group of a word: its `{` and its matching `}`.
pub open spec fn group_open(s: Seq<char>) -> int {
    first_unquoted(s, '{', 0, clear())
}

pub open spec fn group_close(s: Seq<char>) -> int {
    match_from(s, group_open(s), clear(), 0)
}

pub open spec fn has_group(s: Seq<char>) -> bool {
    group_open(s) < s.len() && group_close(s) < s.len()
}

/// The words that the first group of a word stands for.
pub open spec fn group_alts(s: Seq<char>) -> Seq<Seq<char>> {
    alternatives(
        commas_from(s, group_open(s) + 1, group_close(s), clear(), 0, group_open(s) + 1, Seq::empty()),
    )
}

pub open spec fn group_overflows(s: Seq<char>) -> bool {
    alternatives_overflow(
        commas_from(s, group_open(s) + 1, group_close(s), clear(), 0, group_open(s) + 1, Seq::empty()),
    )
}

/// The word with its first group replaced by `alt`.
pub open spec fn rebuild(s: Seq<char>, alt: Seq<char>) -> Seq<char> {
    s.subrange(0, group_open(s)) + alt + s.subrange(group_close(s) + 1, s.len() as int)
}

/// The number of `{` characters of a text.
pub open spec fn brace_count(s: Seq<char>) -> nat
    decreases s.len(),
{
    if s.len() == 0 {
        0
    } else {
        brace_count(s.drop_last()) + if s.last() == '{' {
            1nat
        } else {
            0nat
        }
    }
}

pub proof fn lemma_count_add(a: Seq<char>, b: Seq<char>)
    ensures
        brace_count(a + b) == brace_count(a) + brace_count(b),
    decreases b.len(),
{
    if b.len() == 0 {
        assert(a + b =~= a);
    } else {
        lemma_count_add(a, b.drop_last());
        assert((a + b).drop_last() =~= a + b.drop_last());
    }
}

pub proof fn lemma_count_window(s: Seq<char>, i: int, j: int, lo: int, hi: int)
    requires
        0 <= lo <= i <= j <= hi <= s.len(),
    ensures
        brace_count(s.subrange(i, j)) <= brace_count(s.subrange(lo, hi)),
{
    assert(s.subrange(lo, hi) =~= s.subrange(lo, i) + s.subrange(i, j) + s.subrange(j, hi));
    lemma_count_add(s.subrange(lo, i) + s.subrange(i, j), s.subrange(j, hi));
    lemma_count_add(s.subrange(lo, i), s.subrange(i, j));
}

pub proof fn lemma_count_push(x: Seq<char>, c: char)
    ensures
        brace_count(x.push(c)) == brace_count(x) + if c == '{' {
            1nat
        } else {
            0nat
        },
{
    assert(x.push(c).drop_last() =~= x);
}

pub proof fn lemma_count_single(c: char)
    ensures
        brace_count(seq![c]) == if c == '{' {
            1nat
        } else {
            0nat
        },
{
    lemma_count_push(Seq::empty(), c);
    assert(Seq::<char>::empty().push(c) =~= seq![c]);
}

pub proof fn lemma_nat_text_count(n: nat)
    ensures
        brace_count(nat_text(n)) == 0,
    decreases n,
{
    let c = ('0' as int + n % 10) as char;
    assert(c as int == '0' as int + n % 10);
    if n >= 10 {
        lemma_nat_text_count(n / 10);
        lemma_count_push(nat_text(n / 10), c);
    } else {
        lemma_count_single(c);
    }
}

pub proof fn lemma_int_text_count(v: int)
    ensures
        brace_count(int_text(v)) == 0,
{
    if v < 0 {
        lemma_nat_text_count((-v) as nat);
        lemma_count_add(seq!['-'], nat_text((-v) as nat));
        lemma_count_single('-');
    } else {
        lemma_nat_text_count(v as nat);
    }
}

/// The words of a range hold no `{`.
pub proof fn lemma_range_words_count(first: Seq<char>, last: Seq<char>)
    ensures
        range_words(first, last) matches Some(r) ==> forall|j: int|
            0 <= j < r.len() ==> brace_count(#[trigger] r[j]) == 0,
{
    if let Some(r) = range_words(first, last) {
        assert forall|j: int| 0 <= j < r.len() implies brace_count(#[trigger] r[j]) == 0 by {
            match (as_i64(first), as_i64(last)) {
                (Some(a), Some(b)) => {
                    if a <= b {
                        lemma_int_text_count(a + j);
                    } else {
                        lemma_int_text_count(a - j);
                    }
                },
                _ => {
                    let c = (first[0] as int + j) as char;
                    assert(c as int == first[0] as int + j);
                    assert(r[j] == seq![c]);
                    lemma_count_single(c);
                },
            }
        }
    }
}

/// Each part between the top-level commas is a piece of the group body.
pub proof fn lemma_commas_count(
    s: Seq<char>,
    lo: int,
    i: int,
    hi: int,
    st: Quote,
    d: int,
    start: int,
    parts: Seq<Seq<char>>,
)
    requires
        0 <= lo <= start <= i <= hi <= s.len(),
        forall|j: int|
            0 <= j < parts.len() ==> brace_count(#[trigger] parts[j]) <= brace_count(
                s.subrange(lo, hi),
            ),
    ensures
        forall|j: int|
            0 <= j < commas_from(s, i, hi, st, d, start, parts).len() ==> brace_count(
                #[trigger] commas_from(s, i, hi, st, d, start, parts)[j],
            ) <= brace_count(s.subrange(lo, hi)),
    decreases hi - i,
{
    let w = brace_count(s.subrange(lo, hi));
    if i >= hi {
        lemma_count_window(s, start, hi, lo, hi);
        let r = parts.push(s.subrange(start, hi));
        assert(commas_from(s, i, hi, st, d, start, parts) == r);
        assert forall|j: int| 0 <= j < r.len() implies brace_count(#[trigger] r[j]) <= w by {
            if j < parts.len() {
                assert(r[j] == parts[j]);
            }
        }
    } else if opens_at(s, i, st) {
        lemma_commas_count(s, lo, i + 1, hi, st, d + 1, start, parts);
        assert(commas_from(s, i, hi, st, d, start, parts) == commas_from(s, i + 1, hi, st, d + 1, start, parts));
    } else if closes_at(s, i, st) {
        lemma_commas_count(s, lo, i + 1, hi, st, d - 1, start, parts);
        assert(commas_from(s, i, hi, st, d, start, parts) == commas_from(s, i + 1, hi, st, d - 1, start, parts));
    } else if active(st, s[i]) && s[i] == ',' && d == 0 {
        lemma_count_window(s, start, i, lo, hi);
        let p2 = parts.push(s.subrange(start, i));
        assert forall|j: int| 0 <= j < p2.len() implies brace_count(#[trigger] p2[j]) <= w by {
            if j < parts.len() {
                assert(p2[j] == parts[j]);
            }
        }
        lemma_commas_count(s, lo, i + 1, hi, st, d, i + 1, p2);
        assert(commas_from(s, i, hi, st, d, start, parts) == commas_from(s, i + 1, hi, st, d, i + 1, p2));
    } else {
        lemma_commas_count(s, lo, i + 1, hi, next_quote(st, s[i]), d, start, parts);
        assert(commas_from(s, i, hi, st, d, start, parts) == commas_from(s, i + 1, hi, next_quote(st, s[i]), d, start, parts));
    }
}

/// Facts about the first group of a word.
pub proof fn lemma_group(s: Seq<char>)
    requires
        has_group(s),
    ensures
        s[group_open(s)] == '{',
        !after_dollar(s, group_open(s)),
        group_open(s) < group_close(s),
        group_close(s) == match_from(s, group_open(s) + 1, clear(), 1),
        closes_ok(s, group_open(s) + 1, group_close(s), clear(), 0),
{
    let o = group_open(s);
    lemma_first_unquoted(s, '{', 0, clear());
    lemma_match_from(s, o + 1, clear(), 1);
    lemma_match_closes(s, o + 1, clear(), 1);
}

/// Replacing the first group by one of its words removes at least one `{`.
pub proof fn lemma_rebuild_count(s: Seq<char>, k: int)
    requires
        has_group(s),
        0 <= k < group_alts(s).len(),
    ensures
        brace_count(rebuild(s, group_alts(s)[k])) < brace_count(s),
{
    let o = group_open(s);
    let c = group_close(s);
    lemma_group(s);
    let parts = commas_from(s, o + 1, c, clear(), 0, o + 1, Seq::empty());
    lemma_commas_count(s, o + 1, o + 1, c, clear(), 0, o + 1, Seq::empty());
    let alt = group_alts(s)[k];
    assert(brace_count(alt) <= brace_count(s.subrange(o + 1, c))) by {
        if parts.len() == 2 {
            lemma_range_words_count(parts[0], parts[1]);
        } else if parts.len() == 1 {
            if let Some((a, b)) = dots_split(parts[0]) {
                lemma_range_words_count(a, b);
            }
        }
    }
    let n = s.len() as int;
    assert(s =~= s.subrange(0, o) + s.subrange(o, o + 1) + s.subrange(o + 1, c) + s.subrange(
        c,
        n,
    ));
    lemma_count_add(s.subrange(0, o) + s.subrange(o, o + 1) + s.subrange(o + 1, c), s.subrange(c, n));
    lemma_count_add(s.subrange(0, o) + s.subrange(o, o + 1), s.subrange(o + 1, c));
    lemma_count_add(s.subrange(0, o), s.subrange(o, o + 1));
    assert(s.subrange(o, o + 1).drop_last() =~= Seq::<char>::empty());
    lemma_count_window(s, c + 1, n, c, n);
    lemma_count_add(s.subrange(0, o) + alt, s.subrange(c + 1, n));
    lemma_count_add(s.subrange(0, o), alt);
}

/// The words a word stands for after brace expansion, in order.
pub open spec fn brace_words(s: Seq<char>) -> Seq<Seq<char>>
    decreases brace_count(s), 1int, 0int,
{
    if has_group(s) {
        alt_words(s, 0)
    } else {
        seq![s]
    }
}

/// The words of the first group's words from the `k`-th on.
pub open spec fn alt_words(s: Seq<char>, k: int) -> Seq<Seq<char>>
    decreases brace_count(s), 0int, group_alts(s).len() - k,
{
    if !has_group(s) || k < 0 || k >= group_alts(s).len() {
        Seq::empty()
    } else {
        proof {
            lemma_rebuild_count(s, k);
        }
        brace_words(rebuild(s, group_alts(s)[k])) + alt_words(s, k + 1)
    }
}

/// No group met while expanding the word is a range that overflows.
pub open spec fn brace_safe(s: Seq<char>) -> bool
    decreases brace_count(s), 1int, 0int,
{
    if has_group(s) {
        !group_overflows(s) && alts_safe(s, 0)
    } else {
        true
    }
}

pub open spec fn alts_safe(s: Seq<char>, k: int) -> bool
    decreases brace_count(s), 0int, group_alts(s).len() - k,
{
    if !has_group(s) || k < 0 || k >= group_alts(s).len() {
        true
    } else {
        proof {
            lemma_rebuild_count(s, k);
        }
        brace_safe(rebuild(s, group_alts(s)[k])) && alts_safe(s, k + 1)
    }
}

/// The first group of a word found by scanning: its `{`, its `}`, the
/// text before and after it, and the words it stands for.
struct Group {
    open: usize,
    close: usize,
    prefix: String,
    tail: String,
    parts: Vec<String>,
}

fn first_group(chars: &Vec<char>) -> (r: Option<Group>)
    ensures
        match r {
            Some(g) => has_group(chars@) && g.open == group_open(chars@) && g.close == group_close(
                chars@,
            ) && g.prefix@ == chars@.subrange(0, g.open as int) && g.tail@ == chars@.subrange(
                g.close + 1,
                chars@.len() as int,
            ) && strings_view(g.parts@) == commas_from(
                chars@,
                g.open + 1,
                g.close as int,
                clear(),
                0,
                g.open + 1,
                Seq::empty(),
            ),
            None => !has_group(chars@),
        },
{
    let open = match find_unquoted_char(chars, '{') {
        Some(i) => i,
        None => return None,
    };
    proof {
        lemma_first_unquoted(chars@, '{', 0, clear());
    }
    let close = match find_matching_brace(chars, open) {
        Some(i) => i,
        None => return None,
    };
    let n = chars.len();
    proof {
        lemma_group(chars@);
    }
    let prefix = string_of_range(chars, 0, open);
    let tail = string_of_range(chars, close + 1, n);
    let parts = split_top_commas(chars, open + 1, close);
    Some(Group { open, close, prefix, tail, parts })
}

/// Appends to `out` the words that `raw` stands for after brace
/// expansion: the first unquoted group is replaced by each of its words in
/// turn, and each result is expanded again.
pub fn brace_expand_into(raw: &str, out: &mut Vec<String>)
    requires
        brace_safe(raw@),
    ensures
        strings_view(final(out)@) == strings_view(old(out)@) + brace_words(raw@),
    decreases brace_count(raw@),
{
    let chars = chars_of(raw);
    let ghost s = raw@;
    let group = match first_group(&chars) {
        Some(g) => g,
        None => {
            let ghost before = strings_view(out@);
            out.push(owned(raw));
            assert(strings_view(out@) =~= before + brace_words(s));
            return;
        },
    };
    let alts = choose_alternatives(group.parts);
    let ghost out0 = strings_view(out@);
    let mut k: usize = 0;
    assert(out0 + brace_words(s) =~= strings_view(out@) + alt_words(s, 0));
    while k < alts.len()
        invariant
            s == raw@,
            has_group(s),
            brace_safe(s),
            strings_view(alts@) == group_alts(s),
            group.prefix@ == s.subrange(0, group_open(s)),
            group.tail@ == s.subrange(group_close(s) + 1, s.len() as int),
            k <= alts@.len(),
            alts_safe(s, k as int),
            out0 + brace_words(s) == strings_view(out@) + alt_words(s, k as int),
        decreases alts@.len() - k,
    {
        let mut rebuilt = String::new();
        push_text(&mut rebuilt, group.prefix.as_str());
        push_text(&mut rebuilt, alts[k].as_str());
        push_text(&mut rebuilt, group.tail.as_str());
        proof {
            assert(rebuilt@ =~= rebuild(s, group_alts(s)[k as int]));
            lemma_rebuild_count(s, k as int);
        }
        let ghost before = strings_view(out@);
        brace_expand_into(rebuilt.as_str(), out);
        assert(strings_view(out@) + alt_words(s, k + 1) =~= before + alt_words(s, k as int));
        k += 1;
    }
    assert(alt_words(s, k as int) =~= Seq::<Seq<char>>::empty());
    assert(out0 + brace_words(s) =~= strings_view(out@));
}

/// The words that `raw` stands for after brace expansion.
pub fn brace_expand(raw: &str) -> (r: Vec<String>)
    requires
        brace_safe(raw@),
    ensures
        strings_view(r@) == brace_words(raw@),
{
    let mut out: Vec<String> = Vec::new();
    brace_expand_into(raw, &mut out);
    assert(strings_view(out@) =~= Seq::<Seq<char>>::empty() + brace_words(raw@));
    out
}

/// Tells whether brace expansion of `raw` meets no numeric range that
/// would count past the bounds of `i64`.
pub fn brace_expansion_safe(raw: &str) -> (r: bool)
    ensures
        r == brace_safe(raw@),
    decreases brace_count(raw@),
{
    let chars = chars_of(raw);
    let ghost s = raw@;
    let group = match first_group(&chars) {
        Some(g) => g,
        None => return true,
    };
    if parts_overflow(&group.parts) {
        return false;
    }
    let alts = choose_alternatives(group.parts);
    let mut k: usize = 0;
    while k < alts.len()
        invariant
            s == raw@,
            has_group(s),
            !group_overflows(s),
            strings_view(alts@) == group_alts(s),
            group.prefix@ == s.subrange(0, group_open(s)),
            group.tail@ == s.subrange(group_close(s) + 1, s.len() as int),
            k <= alts@.len(),
            alts_safe(s, 0) == alts_safe(s, k as int),
        decreases alts@.len() - k,
    {
        let mut rebuilt = String::new();
        push_text(&mut rebuilt, group.prefix.as_str());
        push_text(&mut rebuilt, alts[k].as_str());
        push_text(&mut rebuilt, group.tail.as_str());
        proof {
            assert(rebuilt@ =~= rebuild(s, group_alts(s)[k as int]));
            lemma_rebuild_count(s, k as int);
        }
        if !brace_expansion_safe(rebuilt.as_str()) {
            return false;
        }
        k += 1;
    }
    true
}

fn range_overflows_check(first: &str, last: &str) -> (r: bool)
    ensures
        r == range_overflows(first@, last@),
{
    let fc = chars_of(first);
    let lc = chars_of(last);
    let pa = parse_i64(&fc, 0, fc.len());
    let pb = parse_i64(&lc, 0, lc.len());
    assert(fc@.subrange(0, fc@.len() as int) =~= first@);
    assert(lc@.subrange(0, lc@.len() as int) =~= last@);
    match (pa, pb) {
        (Some(a), Some(b)) => {
            let span: i128 = if a <= b {
                b as i128 - a as i128
            } else {
                a as i128 - b as i128
            };
            span < MAX_BRACE_RANGE as i128 && ((a <= b && b == i64::MAX) || (a > b && b
                == i64::MIN))
        },
        _ => false,
    }
}

fn parts_overflow(parts: &Vec<String>) -> (r: bool)
    ensures
        r == alternatives_overflow(strings_view(parts@)),
{
    if parts.len() == 2 {
        range_overflows_check(parts[0].as_str(), parts[1].as_str())
    } else if parts.len() == 1 {
        match split_once_dots(parts[0].as_str()) {
            Some((a, b)) => range_overflows_check(a.as_str(), b.as_str()),
            None => false,
        }
    } else {
        false
    }
}

/// A word without any `{` is left as it is by brace expansion.
pub proof fn law_word_without_braces_is_kept(s: Seq<char>)
    requires
        !s.contains('{'),
    ensures
        brace_words(s) == seq![s],
        brace_safe(s),
{
    lemma_first_unquoted(s, '{', 0, clear());
    let o = first_unquoted(s, '{', 0, clear());
    if o < s.len() {
        assert(s[o] == '{');
        assert(s.contains('{'));
    }
}

/// The range between the decimal texts of two `i64` values lists the
/// numbers from the first to the last, counting up or down by one, as
/// decimal texts, when they are less than the span limit apart; otherwise
/// it is no range.
pub proof fn law_number_range(a: i64, b: i64)
    ensures
        dist(a as int, b as int) < MAX_BRACE_RANGE ==> range_words(int_text(a as int), int_text(
            b as int,
        )) == Some(number_words(a as int, b as int)),
        dist(a as int, b as int) >= MAX_BRACE_RANGE ==> range_words(
            int_text(a as int),
            int_text(b as int),
        ) is None,
        number_words(a as int, b as int).len() == dist(a as int, b as int) + 1,
        forall|k: int|
            0 <= k < number_words(a as int, b as int).len() ==> #[trigger] number_words(
                a as int,
                b as int,
            )[k] == int_text(
                if a <= b {
                    a + k
                } else {
                    a - k
                },
            ),
{
    law_int_text_reads_back(a as int);
    law_int_text_reads_back(b as int);
}

/// The range between two single letters of one case, the first not after
/// the second, lists the letters between them.
pub proof fn law_letter_range(x: char, y: char)
    requires
        is_alpha(x),
        is_alpha(y),
        x <= y,
        is_lower(x) == is_lower(y),
    ensures
        range_words(seq![x], seq![y]) == Some(letter_words(x, y)),
        letter_words(x, y).len() == y as int - x as int + 1,
{
    assert(as_i64(seq![x]) is None) by {
        assert(!crate::lexer::is_digit(x));
        assert(!crate::num::all_digits(seq![x]));
    }
}

/// Parts joined back with commas between them.
pub open spec fn join_commas(ps: Seq<Seq<char>>) -> Seq<char>
    decreases ps.len(),
{
    if ps.len() == 0 {
        Seq::empty()
    } else if ps.len() == 1 {
        ps[0]
    } else {
        join_commas(ps.drop_last()) + seq![','] + ps.last()
    }
}

/// The parts done so far, each followed by its comma.
pub open spec fn joined_before(ps: Seq<Seq<char>>) -> Seq<char> {
    if ps.len() == 0 {
        Seq::empty()
    } else {
        join_commas(ps) + seq![',']
    }
}

proof fn lemma_commas_join(
    s: Seq<char>,
    lo: int,
    i: int,
    hi: int,
    st: Quote,
    d: int,
    start: int,
    parts: Seq<Seq<char>>,
)
    requires
        0 <= lo <= start <= i <= hi <= s.len(),
        joined_before(parts) == s.subrange(lo, start),
    ensures
        commas_from(s, i, hi, st, d, start, parts).len() >= 1,
        join_commas(commas_from(s, i, hi, st, d, start, parts)) == s.subrange(lo, hi),
    decreases hi - i,
{
    if i >= hi {
        let r = parts.push(s.subrange(start, hi));
        assert(r.drop_last() =~= parts);
        if parts.len() == 0 {
            assert(start == lo);
        } else {
            assert(join_commas(r) == join_commas(parts) + seq![','] + s.subrange(start, hi));
        }
        assert(s.subrange(lo, start) + s.subrange(start, hi) =~= s.subrange(lo, hi));
    } else if opens_at(s, i, st) {
        lemma_commas_join(s, lo, i + 1, hi, st, d + 1, start, parts);
    } else if closes_at(s, i, st) {
        lemma_commas_join(s, lo, i + 1, hi, st, d - 1, start, parts);
    } else if active(st, s[i]) && s[i] == ',' && d == 0 {
        let p2 = parts.push(s.subrange(start, i));
        assert(p2.drop_last() =~= parts);
        if parts.len() == 0 {
            assert(start == lo);
            assert(join_commas(p2) == s.subrange(start, i));
        } else {
            assert(join_commas(p2) == join_commas(parts) + seq![','] + s.subrange(start, i));
        }
        assert(s.subrange(lo, start) + s.subrange(start, i) + seq![','] =~= s.subrange(lo, i + 1));
        lemma_commas_join(s, lo, i + 1, hi, st, d, i + 1, p2);
    } else {
        lemma_commas_join(s, lo, i + 1, hi, next_quote(st, s[i]), d, start, parts);
    }
}

/// The parts of a group body, joined back with commas, give the body; there
/// is always at least one part.
pub proof fn law_parts_join_back(s: Seq<char>, lo: int, hi: int)
    requires
        0 <= lo <= hi <= s.len(),
    ensures
        commas_from(s, lo, hi, clear(), 0, lo, Seq::empty()).len() >= 1,
        join_commas(commas_from(s, lo, hi, clear(), 0, lo, Seq::empty())) == s.subrange(lo, hi),
{
    assert(s.subrange(lo, lo) =~= Seq::<char>::empty());
    lemma_commas_join(s, lo, lo, hi, clear(), 0, lo, Seq::empty());
}


/// The quoting state and brace depth that scanning from `lo` has reached
/// at `i`.
pub open spec fn scan_state(s: Seq<char>, lo: int, i: int) -> (Quote, int)
    decreases i - lo,
{
    if i <= lo {
        (clear(), 0)
    } else {
        let (st, d) = scan_state(s, lo, i - 1);
        let j = i - 1;
        if opens_at(s, j, st) {
            (st, d + 1)
        } else if closes_at(s, j, st) {
            (st, d - 1)
        } else if active(st, s[j]) && s[j] == ',' && d == 0 {
            (st, d)
        } else {
            (next_quote(st, s[j]), d)
        }
    }
}

/// The character at `i` is a comma outside quotes, escapes and nested
/// braces, scanning from `lo`.
pub open spec fn top_comma(s: Seq<char>, lo: int, i: int) -> bool {
    let (st, d) = scan_state(s, lo, i);
    !opens_at(s, i, st) && !closes_at(s, i, st) && active(st, s[i]) && s[i] == ',' && d == 0
}

/// The number of top-level commas in `s[i..hi]`.
pub open spec fn top_commas(s: Seq<char>, lo: int, i: int, hi: int) -> nat
    decreases hi - i,
{
    if i >= hi {
        0
    } else {
        (if top_comma(s, lo, i) {
            1nat
        } else {
            0nat
        }) + top_commas(s, lo, i + 1, hi)
    }
}

proof fn lemma_parts_count(
    s: Seq<char>,
    lo: int,
    i: int,
    hi: int,
    start: int,
    parts: Seq<Seq<char>>,
)
    requires
        0 <= lo <= i <= hi <= s.len(),
    ensures
        ({
            let (st, d) = scan_state(s, lo, i);
            commas_from(s, i, hi, st, d, start, parts).len() == parts.len() + 1 + top_commas(
                s,
                lo,
                i,
                hi,
            )
        }),
    decreases hi - i,
{
    let (st, d) = scan_state(s, lo, i);
    if i < hi {
        assert(scan_state(s, lo, i + 1) == (if opens_at(s, i, st) {
            (st, d + 1)
        } else if closes_at(s, i, st) {
            (st, d - 1)
        } else if active(st, s[i]) && s[i] == ',' && d == 0 {
            (st, d)
        } else {
            (next_quote(st, s[i]), d)
        }));
        lemma_parts_count(s, lo, i + 1, hi, start, parts);
        lemma_parts_count(s, lo, i + 1, hi, i + 1, parts.push(s.subrange(start, i)));
    }
}

/// A group body splits into one part more than it has top-level commas:
/// every comma outside quotes, escapes and nested braces separates two
/// parts, and no other character does.
pub proof fn law_one_part_per_top_comma(s: Seq<char>, lo: int, hi: int)
    requires
        0 <= lo <= hi <= s.len(),
    ensures
        commas_from(s, lo, hi, clear(), 0, lo, Seq::empty()).len() == 1 + top_commas(
            s,
            lo,
            lo,
            hi,
        ),
{
    lemma_parts_count(s, lo, lo, hi, lo, Seq::empty());
}

proof fn lemma_no_top_commas(s: Seq<char>, lo: int, a: int, b: int)
    requires
        forall|j: int| a <= j < b ==> !#[trigger] top_comma(s, lo, j),
    ensures
        top_commas(s, lo, a, b) == 0,
    decreases b - a,
{
    if a < b {
        lemma_no_top_commas(s, lo, a + 1, b);
    }
}

/// Scanning a piece that starts in the clear state, not after a `$`, is
/// scanning the whole text from the piece's start.
proof fn lemma_scan_local(s: Seq<char>, lo: int, a: int, b: int, j: int)
    requires
        0 <= lo <= a <= b <= s.len(),
        0 <= j <= b - a,
        scan_state(s, lo, a) == (clear(), 0int),
        a == 0 || s[a - 1] != '$',
    ensures
        scan_state(s.subrange(a, b), 0, j) == scan_state(s, lo, a + j),
        j < b - a ==> (top_comma(s.subrange(a, b), 0, j) == top_comma(s, lo, a + j)),
    decreases j,
{
    let p = s.subrange(a, b);
    if j > 0 {
        lemma_scan_local(s, lo, a, b, j - 1);
        assert(p[j - 1] == s[a + j - 1]);
        assert(after_dollar(p, j - 1) == after_dollar(s, a + j - 1));
    }
    if j < b - a {
        assert(p[j] == s[a + j]);
        assert(after_dollar(p, j) == after_dollar(s, a + j));
    }
}

/// No part holds a top-level comma of its own.
pub open spec fn unsplit_parts(ps: Seq<Seq<char>>) -> bool {
    forall|k: int| 0 <= k < ps.len() ==> top_commas(#[trigger] ps[k], 0, 0, ps[k].len() as int) == 0
}

proof fn lemma_parts_unsplit(
    s: Seq<char>,
    lo: int,
    i: int,
    hi: int,
    start: int,
    parts: Seq<Seq<char>>,
)
    requires
        0 <= lo <= start <= i <= hi <= s.len(),
        scan_state(s, lo, start) == (clear(), 0int),
        start == 0 || s[start - 1] != '$',
        forall|j: int| start <= j < i ==> !#[trigger] top_comma(s, lo, j),
        unsplit_parts(parts),
    ensures
        unsplit_parts(
            commas_from(s, i, hi, scan_state(s, lo, i).0, scan_state(s, lo, i).1, start, parts),
        ),
    decreases hi - i,
{
    let (st, d) = scan_state(s, lo, i);
    if i >= hi {
        let p = s.subrange(start, hi);
        assert forall|j: int| 0 <= j < p.len() implies !#[trigger] top_comma(p, 0, j) by {
            lemma_scan_local(s, lo, start, hi, j);
        }
        lemma_no_top_commas(p, 0, 0, p.len() as int);
        let r = parts.push(p);
        assert forall|k: int| 0 <= k < r.len() implies top_commas(
            #[trigger] r[k],
            0,
            0,
            r[k].len() as int,
        ) == 0 by {
            if k < parts.len() {
                assert(r[k] == parts[k]);
            }
        }
        assert(commas_from(s, i, hi, st, d, start, parts) == r);
    } else {
        assert(scan_state(s, lo, i + 1) == (if opens_at(s, i, st) {
            (st, d + 1)
        } else if closes_at(s, i, st) {
            (st, d - 1)
        } else if active(st, s[i]) && s[i] == ',' && d == 0 {
            (st, d)
        } else {
            (next_quote(st, s[i]), d)
        }));
        if !opens_at(s, i, st) && !closes_at(s, i, st) && active(st, s[i]) && s[i] == ',' && d
            == 0 {
            let p = s.subrange(start, i);
            assert forall|j: int| 0 <= j < p.len() implies !#[trigger] top_comma(p, 0, j) by {
                lemma_scan_local(s, lo, start, i, j);
            }
            lemma_no_top_commas(p, 0, 0, p.len() as int);
            let p2 = parts.push(p);
            assert forall|k: int| 0 <= k < p2.len() implies top_commas(
                #[trigger] p2[k],
                0,
                0,
                p2[k].len() as int,
            ) == 0 by {
                if k < parts.len() {
                    assert(p2[k] == parts[k]);
                }
            }
            assert(st == clear());
            lemma_parts_unsplit(s, lo, i + 1, hi, i + 1, p2);
            assert(scan_state(s, lo, i + 1) == (st, d));
            assert(commas_from(s, i, hi, st, d, start, parts) == commas_from(s, i + 1, hi, st, d, i + 1, p2));
        } else {
            assert(!top_comma(s, lo, i));
            lemma_parts_unsplit(s, lo, i + 1, hi, start, parts);
            let (st2, d2) = scan_state(s, lo, i + 1);
            assert(commas_from(s, i, hi, st, d, start, parts) == commas_from(s, i + 1, hi, st2, d2, start, parts));
        }
    }
}

/// The parts of a group body split no further: none holds a comma outside
/// quotes, escapes and nested braces, so that splitting a part again gives
/// back the part alone. (The body must not follow a `$`, which would change
/// how its first brace reads.)
pub proof fn law_parts_split_no_further(s: Seq<char>, lo: int, hi: int)
    requires
        0 <= lo <= hi <= s.len(),
        lo == 0 || s[lo - 1] != '$',
    ensures
        ({
            let r = commas_from(s, lo, hi, clear(), 0, lo, Seq::empty());
            forall|k: int|
                0 <= k < r.len() ==> top_commas(#[trigger] r[k], 0, 0, r[k].len() as int) == 0
                    && commas_from(r[k], 0, r[k].len() as int, clear(), 0, 0, Seq::empty())
                    == seq![r[k]]
        }),
{
    assert(scan_state(s, lo, lo) == (clear(), 0int));
    lemma_parts_unsplit(s, lo, lo, hi, lo, Seq::empty());
    let r = commas_from(s, lo, hi, clear(), 0, lo, Seq::empty());
    assert(r == commas_from(
        s,
        lo,
        hi,
        scan_state(s, lo, lo).0,
        scan_state(s, lo, lo).1,
        lo,
        Seq::<Seq<char>>::empty(),
    ));
    assert(unsplit_parts(r));
    assert forall|k: int| 0 <= k < r.len() implies commas_from(
        #[trigger] r[k],
        0,
        r[k].len() as int,
        clear(),
        0,
        0,
        Seq::empty(),
    ) == seq![r[k]] by {
        let p = r[k];
        assert(top_commas(p, 0, 0, p.len() as int) == 0);
        law_one_part_per_top_comma(p, 0, p.len() as int);
        law_parts_join_back(p, 0, p.len() as int);
        let ps = commas_from(p, 0, p.len() as int, clear(), 0, 0, Seq::empty());
        assert(p.subrange(0, p.len() as int) =~= p);
        assert(ps.len() == 1);
        assert(join_commas(ps) == ps[0]);
        assert(ps =~= seq![p]);
    }
}

/// Every character of `s[i..m]` is a letter.
pub open spec fn letters_between(s: Seq<char>, i: int, m: int) -> bool {
    forall|j: int| i <= j < m ==> is_alpha(#[trigger] s[j])
}

proof fn lemma_letters_scan(s: Seq<char>, i: int, m: int, d: int, hi: int, start: int, parts: Seq<Seq<char>>)
    requires
        0 <= i <= m <= hi <= s.len(),
        letters_between(s, i, m),
    ensures
        first_unquoted(s, '{', i, clear()) == first_unquoted(s, '{', m, clear()),
        match_from(s, i, clear(), d) == match_from(s, m, clear(), d),
        commas_from(s, i, hi, clear(), d, start, parts) == commas_from(
            s,
            m,
            hi,
            clear(),
            d,
            start,
            parts,
        ),
    decreases m - i,
{
    if i < m {
        let c = s[i];
        assert(is_alpha(c));
        assert(next_quote(clear(), c) == clear());
        assert(!opens_at(s, i, clear()) && !closes_at(s, i, clear()));
        lemma_letters_scan(s, i + 1, m, d, hi, start, parts);
    }
}

/// A group of two words, `p{x,y}q`, stands for `pxq` and `pyq`, in this
/// order, for texts of letters `p`, `x`, `y` and `q` (`x` of two letters
/// or more, so that the group is no range of letters).
pub proof fn law_two_alternatives(p: Seq<char>, x: Seq<char>, y: Seq<char>, q: Seq<char>)
    requires
        letters_between(p, 0, p.len() as int),
        letters_between(x, 0, x.len() as int),
        letters_between(y, 0, y.len() as int),
        letters_between(q, 0, q.len() as int),
        x.len() >= 2,
    ensures
        brace_words(p + seq!['{'] + x + seq![','] + y + seq!['}'] + q) == seq![p + x + q, p + y + q],
{
    let s = p + seq!['{'] + x + seq![','] + y + seq!['}'] + q;
    let lp = p.len() as int;
    let o = lp;
    let cm = lp + 1 + x.len();
    let c = cm + 1 + y.len();
    let n = s.len() as int;
    assert(letters_between(s, 0, o)) by {
        assert forall|j: int| 0 <= j < o implies is_alpha(#[trigger] s[j]) by {
            assert(s[j] == p[j]);
        }
    }
    assert(letters_between(s, o + 1, cm)) by {
        assert forall|j: int| o + 1 <= j < cm implies is_alpha(#[trigger] s[j]) by {
            assert(s[j] == x[j - o - 1]);
        }
    }
    assert(letters_between(s, cm + 1, c)) by {
        assert forall|j: int| cm + 1 <= j < c implies is_alpha(#[trigger] s[j]) by {
            assert(s[j] == y[j - cm - 1]);
        }
    }
    assert(s[o] == '{' && s[cm] == ',' && s[c] == '}');
    // the group
    lemma_letters_scan(s, 0, o, 0, n, 0, Seq::empty());
    assert(!after_dollar(s, o)) by {
        if o > 0 {
            assert(is_alpha(s[o - 1]));
        }
    }
    assert(group_open(s) == o);
    lemma_letters_scan(s, o + 1, cm, 1, c, o + 1, Seq::empty());
    lemma_letters_scan(s, cm + 1, c, 1, c, o + 1, Seq::empty());
    assert(match_from(s, c, clear(), 1) == c);
    assert(match_from(s, o, clear(), 0) == c);
    assert(group_close(s) == c);
    assert(has_group(s));
    // its parts
    let px = s.subrange(o + 1, cm);
    let py = s.subrange(cm + 1, c);
    assert(px =~= x);
    assert(py =~= y);
    lemma_letters_scan(s, o + 1, cm, 0, c, o + 1, Seq::empty());
    lemma_letters_scan(s, cm + 1, c, 0, c, cm + 1, seq![px]);
    assert(Seq::<Seq<char>>::empty().push(px) =~= seq![px]);
    assert(commas_from(s, c, c, clear(), 0, cm + 1, seq![px]) == seq![px].push(py));
    assert(seq![px].push(py) =~= seq![x, y]);
    let parts = commas_from(s, o + 1, c, clear(), 0, o + 1, Seq::empty());
    assert(parts == seq![x, y]);
    assert(as_i64(x) is None) by {
        assert(!crate::lexer::is_digit(x[0]));
        assert(!crate::num::all_digits(x));
        assert(is_alpha(x[0]));
    }
    assert(range_words(x, y) is None);
    assert(group_alts(s) == seq![x, y]);
    // the words
    let wx = p + x + q;
    let wy = p + y + q;
    assert(s.subrange(0, o) =~= p);
    assert(s.subrange(c + 1, n) =~= q);
    assert(rebuild(s, x) =~= wx);
    assert(rebuild(s, y) =~= wy);
    assert(!wx.contains('{')) by {
        if wx.contains('{') {
            let j = choose|j: int| 0 <= j < wx.len() && wx[j] == '{';
            if j < lp {
                assert(wx[j] == p[j]);
            } else if j < lp + x.len() {
                assert(wx[j] == x[j - lp]);
            } else {
                assert(wx[j] == q[j - lp - x.len()]);
            }
        }
    }
    assert(!wy.contains('{')) by {
        if wy.contains('{') {
            let j = choose|j: int| 0 <= j < wy.len() && wy[j] == '{';
            if j < lp {
                assert(wy[j] == p[j]);
            } else if j < lp + y.len() {
                assert(wy[j] == y[j - lp]);
            } else {
                assert(wy[j] == q[j - lp - y.len()]);
            }
        }
    }
    law_word_without_braces_is_kept(wx);
    law_word_without_braces_is_kept(wy);
    assert(alt_words(s, 2) == Seq::<Seq<char>>::empty());
    assert(alt_words(s, 1) == seq![wy] + Seq::<Seq<char>>::empty());
    assert(alt_words(s, 0) == seq![wx] + (seq![wy] + Seq::<Seq<char>>::empty()));
    assert(seq![wx] + (seq![wy] + Seq::<Seq<char>>::empty()) =~= seq![wx, wy]);
}

} // verus!
