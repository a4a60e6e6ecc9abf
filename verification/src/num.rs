use vstd::prelude::*;

use crate::lexer::is_digit;
use crate::text::push_char;

verus! {

/// The value of a digit character.
pub open spec fn digit_value(c: char) -> int {
    (c as int) - ('0' as int)
}

/// All characters of `s` are ASCII digits.
pub open spec fn all_digits(s: Seq<char>) -> bool {
    forall|i: int| 0 <= i < s.len() ==> #[trigger] is_digit(s[i])
}

/// The value of a string of decimal digits.
pub open spec fn digits_value(s: Seq<char>) -> int
    decreases s.len(),
{
    if s.len() == 0 {
        0
    } else {
        10 * digits_value(s.drop_last()) + digit_value(s.last())
    }
}

/// The integer that `s` denotes in decimal: an optional `+` or `-`, then
/// one or more digits.
pub open spec fn decimal_value(s: Seq<char>) -> Option<int> {
    if s.len() == 0 {
        None
    } else {
        let neg = s[0] == '-';
        let body = if s[0] == '-' || s[0] == '+' {
            s.drop_first()
        } else {
            s
        };
        if body.len() == 0 || !all_digits(body) {
            None
        } else if neg {
            Some(-digits_value(body))
        } else {
            Some(digits_value(body))
        }
    }
}

/// What parsing `s` as a number between `lo` and `hi` gives.
pub open spec fn parse_in_range(s: Seq<char>, lo: int, hi: int) -> Option<int> {
    match decimal_value(s) {
        Some(v) => if lo <= v <= hi {
            Some(v)
        } else {
            None
        },
        None => None,
    }
}

/// The decimal digits of a natural number, without leading zeros.
pub open spec fn nat_text(n: nat) -> Seq<char>
    decreases n,
{
    if n < 10 {
        seq![('0' as int + n) as char]
    } else {
        nat_text(n / 10).push(('0' as int + n % 10) as char)
    }
}

/// The decimal text of an integer, with a `-` when it is negative.
pub open spec fn int_text(v: int) -> Seq<char> {
    if v < 0 {
        seq!['-'] + nat_text((-v) as nat)
    } else {
        nat_text(v as nat)
    }
}

proof fn lemma_digits_value_prefix(s: Seq<char>, k: int)
    requires
        0 <= k <= s.len(),
        all_digits(s),
    ensures
        0 <= digits_value(s.take(k)) <= digits_value(s),
    decreases s.len() - k,
{
    if k < s.len() {
        lemma_digits_value_prefix(s, k + 1);
        assert(s.take(k + 1).drop_last() =~= s.take(k));
        assert(s.take(k + 1).last() == s[k]);
        assert(is_digit(s[k]));
        assert(all_digits(s.take(k)));
        lemma_digits_value_nonneg(s.take(k));
    } else {
        assert(s.take(k) =~= s);
        lemma_digits_value_nonneg(s);
    }
}

/// Tells whether `s[from..to]` is made of ASCII digits only.
fn all_digits_in(s: &Vec<char>, from: usize, to: usize) -> (r: bool)
    requires
        from <= to <= s@.len(),
    ensures
        r == all_digits(s@.subrange(from as int, to as int)),
{
    let ghost body = s@.subrange(from as int, to as int);
    let mut i = from;
    while i < to
        invariant
            from <= i <= to <= s@.len(),
            body == s@.subrange(from as int, to as int),
            forall|j: int| 0 <= j < i - from ==> #[trigger] is_digit(body[j]),
        decreases to - i,
    {
        if !crate::lexer::is_ascii_digit(s[i]) {
            assert(!is_digit(body[i - from]));
            return false;
        }
        i += 1;
    }
    true
}

proof fn lemma_digits_value_nonneg(s: Seq<char>)
    requires
        all_digits(s),
    ensures
        0 <= digits_value(s),
    decreases s.len(),
{
    if s.len() > 0 {
        assert(all_digits(s.drop_last()));
        assert(is_digit(s.last()));
        lemma_digits_value_nonneg(s.drop_last());
    }
}

/// Reads the digits `s[from..to]` as a number no larger than `limit`;
/// `None` when they stand for a larger one.
fn digits_up_to(s: &Vec<char>, from: usize, to: usize, limit: u128) -> (r: Option<u128>)
    requires
        from <= to <= s@.len(),
        all_digits(s@.subrange(from as int, to as int)),
        limit <= u64::MAX as u128 + 1,
    ensures
        ({
            let v = digits_value(s@.subrange(from as int, to as int));
            match r {
                Some(x) => x == v && v <= limit,
                None => v > limit,
            }
        }),
{
    let ghost body = s@.subrange(from as int, to as int);
    let mut acc: u128 = 0;
    let mut i = from;
    while i < to
        invariant
            from <= i <= to <= s@.len(),
            body == s@.subrange(from as int, to as int),
            all_digits(body),
            limit <= u64::MAX as u128 + 1,
            acc == digits_value(body.take(i - from)),
            acc <= limit,
        decreases to - i,
    {
        let ghost k = i - from;
        assert(body.take(k + 1).drop_last() =~= body.take(k));
        assert(body.take(k + 1).last() == s@[i as int]);
        assert(is_digit(body[k]));
        let d = (s[i] as u32 - '0' as u32) as u128;
        acc = acc * 10 + d;
        i += 1;
        if acc > limit {
            proof {
                lemma_digits_value_prefix(body, i - from);
            }
            return None;
        }
    }
    assert(body.take(to - from) =~= body);
    Some(acc)
}

/// Parses `s[from..to]` as a decimal number between `lo` and `hi`.
fn parse_range(s: &Vec<char>, from: usize, to: usize, lo: i128, hi: i128) -> (r: Option<i128>)
    requires
        from <= to <= s@.len(),
        -(u64::MAX as int + 1) <= lo <= 0 <= hi <= u64::MAX,
    ensures
        match r {
            Some(x) => parse_in_range(s@.subrange(from as int, to as int), lo as int, hi as int)
                == Some(x as int),
            None => parse_in_range(s@.subrange(from as int, to as int), lo as int, hi as int)
                is None,
        },
{
    let ghost w = s@.subrange(from as int, to as int);
    if from >= to {
        return None;
    }
    let c = s[from];
    let neg = c == '-';
    let start = if c == '-' || c == '+' {
        from + 1
    } else {
        from
    };
    let ghost body = s@.subrange(start as int, to as int);
    assert(body =~= (if c == '-' || c == '+' {
        w.drop_first()
    } else {
        w
    }));
    if start >= to {
        return None;
    }
    if !all_digits_in(s, start, to) {
        return None;
    }
    assert(all_digits(body));
    proof {
        lemma_digits_value_nonneg(body);
    }
    let limit: u128 = if neg {
        (-lo) as u128
    } else {
        hi as u128
    };
    match digits_up_to(s, start, to, limit) {
        Some(m) => {
            let v: i128 = if neg {
                -(m as i128)
            } else {
                m as i128
            };
            Some(v)
        },
        None => None,
    }
}

/// Parses a whole string as an `i64`, as `str::parse::<i64>` does.
pub fn parse_i64(s: &Vec<char>, from: usize, to: usize) -> (r: Option<i64>)
    requires
        from <= to <= s@.len(),
    ensures
        match r {
            Some(x) => parse_in_range(
                s@.subrange(from as int, to as int),
                i64::MIN as int,
                i64::MAX as int,
            ) == Some(x as int),
            None => parse_in_range(
                s@.subrange(from as int, to as int),
                i64::MIN as int,
                i64::MAX as int,
            ) is None,
        },
{
    match parse_range(s, from, to, i64::MIN as i128, i64::MAX as i128) {
        Some(v) => Some(v as i64),
        None => None,
    }
}

/// Parses a whole string as an `i32`, as `str::parse::<i32>` does.
pub fn parse_i32(s: &Vec<char>, from: usize, to: usize) -> (r: Option<i32>)
    requires
        from <= to <= s@.len(),
    ensures
        match r {
            Some(x) => parse_in_range(
                s@.subrange(from as int, to as int),
                i32::MIN as int,
                i32::MAX as int,
            ) == Some(x as int),
            None => parse_in_range(
                s@.subrange(from as int, to as int),
                i32::MIN as int,
                i32::MAX as int,
            ) is None,
        },
{
    match parse_range(s, from, to, i32::MIN as i128, i32::MAX as i128) {
        Some(v) => Some(v as i32),
        None => None,
    }
}

/// What `str::parse` gives for an unsigned type whose largest value is
/// `hi`: a leading `-` is not accepted at all.
pub open spec fn parse_unsigned(s: Seq<char>, hi: int) -> Option<int> {
    if s.len() > 0 && s[0] == '-' {
        None
    } else {
        parse_in_range(s, 0, hi)
    }
}

/// Parses a whole string as a `usize`, as `str::parse::<usize>` does.
pub fn parse_usize(s: &Vec<char>, from: usize, to: usize) -> (r: Option<usize>)
    requires
        from <= to <= s@.len(),
    ensures
        match r {
            Some(x) => parse_unsigned(s@.subrange(from as int, to as int), usize::MAX as int)
                == Some(x as int),
            None => parse_unsigned(s@.subrange(from as int, to as int), usize::MAX as int)
                is None,
        },
{
    if from < to && s[from] == '-' {
        return None;
    }
    match parse_range(s, from, to, 0, usize::MAX as i128) {
        Some(v) => Some(v as usize),
        None => None,
    }
}

/// The decimal text of a natural number.
fn push_nat_text(out: &mut String, n: u128)
    ensures
        final(out)@ == old(out)@ + nat_text(n as nat),
    decreases n,
{
    if n >= 10 {
        push_nat_text(out, n / 10);
        let d = (n % 10) as u32;
        let c = char_from_digit(d);
        push_char(out, c);
        assert(nat_text(n as nat) == nat_text((n / 10) as nat).push(c));
    } else {
        let c = char_from_digit(n as u32);
        push_char(out, c);
        assert(nat_text(n as nat) =~= seq![c]);
    }
}

fn char_from_digit(d: u32) -> (c: char)
    requires
        d < 10,
    ensures
        c == ('0' as int + d) as char,
{
    match d {
        0 => '0',
        1 => '1',
        2 => '2',
        3 => '3',
        4 => '4',
        5 => '5',
        6 => '6',
        7 => '7',
        8 => '8',
        _ => '9',
    }
}

/// The decimal text of an integer, as `to_string` writes it.
pub fn int_to_string(v: i128) -> (s: String)
    requires
        v > i128::MIN,
    ensures
        s@ == int_text(v as int),
{
    let mut s = String::new();
    if v < 0 {
        push_char(&mut s, '-');
        push_nat_text(&mut s, (-v) as u128);
        assert(s@ =~= seq!['-'] + nat_text((-v) as nat));
    } else {
        push_nat_text(&mut s, v as u128);
        assert(s@ =~= nat_text(v as nat));
    }
    s
}

pub proof fn lemma_nat_text_value(n: nat)
    ensures
        all_digits(nat_text(n)),
        digits_value(nat_text(n)) == n,
        nat_text(n).len() > 0,
        nat_text(n)[0] != '-' && nat_text(n)[0] != '+',
    decreases n,
{
    let d = ('0' as int + n % 10) as char;
    assert(d as int == '0' as int + n % 10);
    if n >= 10 {
        lemma_nat_text_value(n / 10);
        let t = nat_text(n / 10);
        assert(nat_text(n) == t.push(d));
        assert(nat_text(n).drop_last() =~= t);
        assert forall|i: int| 0 <= i < nat_text(n).len() implies #[trigger] is_digit(
            nat_text(n)[i],
        ) by {
            if i < t.len() {
                assert(nat_text(n)[i] == t[i]);
            }
        }
        assert(digits_value(nat_text(n)) == 10 * (n / 10) + n % 10);
    } else {
        assert(nat_text(n).drop_last() =~= Seq::<char>::empty());
        assert(digits_value(Seq::<char>::empty()) == 0);
    }
}

/// The decimal text of an integer reads back as that integer.
pub proof fn law_int_text_reads_back(v: int)
    ensures
        decimal_value(int_text(v)) == Some(v),
{
    if v < 0 {
        let m = (-v) as nat;
        lemma_nat_text_value(m);
        let s = int_text(v);
        assert(s[0] == '-');
        assert(s.drop_first() =~= nat_text(m));
    } else {
        lemma_nat_text_value(v as nat);
    }
}

} // verus!
