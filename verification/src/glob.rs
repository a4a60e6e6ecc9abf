use vstd::prelude::*;

use crate::text::chars_of;

verus! {

// ---------------------------------------------------------------------------
// Bracket classes: `[abc]`, `[a-z]`, `[!x]`, `[^x]`
// ---------------------------------------------------------------------------

pub open spec fn class_negated(p: Seq<char>, start: int) -> bool {
    start + 1 < p.len() && (p[start + 1] == '!' || p[start + 1] == '^')
}

/// Where the items of the class opened at `start` begin.
pub open spec fn class_start(p: Seq<char>, start: int) -> int {
    if class_negated(p, start) {
        start + 2
    } else {
        start + 1
    }
}

/// An item `lo-hi` starts at `i`.
pub open spec fn is_range_at(p: Seq<char>, i: int) -> bool {
    i + 2 < p.len() && p[i + 1] == '-' && p[i + 2] != ']'
}

/// Where the items of a class end: at its closing `]` (a `]` in first
/// place is an item), or at the end of the pattern.
pub open spec fn class_end(p: Seq<char>, i: int, first: bool) -> int
    decreases p.len() - i,
{
    if i >= p.len() || (!first && p[i] == ']') {
        i
    } else if is_range_at(p, i) {
        class_end(p, i + 3, false)
    } else {
        class_end(p, i + 1, false)
    }
}

/// Whether one of the items from `i` on holds `c`.
pub open spec fn class_hit(p: Seq<char>, i: int, first: bool, c: char) -> bool
    decreases p.len() - i,
{
    if i >= p.len() || (!first && p[i] == ']') {
        false
    } else if is_range_at(p, i) {
        (p[i] <= c && c <= p[i + 2]) || class_hit(p, i + 3, false, c)
    } else {
        p[i] == c || class_hit(p, i + 1, false, c)
    }
}

/// Where the pattern goes on after the class opened at `start`; an
/// unclosed class takes the rest of the pattern.
pub open spec fn class_next(p: Seq<char>, start: int) -> int {
    let e = class_end(p, class_start(p, start), true);
    if e >= p.len() {
        p.len() as int
    } else {
        e + 1
    }
}

/// Whether the class opened at `start` accepts `c`; an unclosed class
/// accepts every character.
pub open spec fn class_accepts(p: Seq<char>, start: int, c: char) -> bool {
    let e = class_end(p, class_start(p, start), true);
    if e >= p.len() {
        true
    } else {
        class_hit(p, class_start(p, start), true, c) != class_negated(p, start)
    }
}

pub proof fn lemma_class_end_bounds(p: Seq<char>, i: int, first: bool)
    requires
        0 <= i <= p.len(),
    ensures
        i <= class_end(p, i, first) <= p.len(),
    decreases p.len() - i,
{
    if i < p.len() && (first || p[i] != ']') {
        if is_range_at(p, i) {
            lemma_class_end_bounds(p, i + 3, false);
        } else {
            lemma_class_end_bounds(p, i + 1, false);
        }
    }
}

pub proof fn lemma_class_next_bounds(p: Seq<char>, start: int)
    requires
        0 <= start < p.len(),
    ensures
        start < class_next(p, start) <= p.len(),
{
    lemma_class_end_bounds(p, class_start(p, start), true);
}

// ---------------------------------------------------------------------------
// Glob matching
// ---------------------------------------------------------------------------

/// Where the pattern element at `i` ends.
pub open spec fn elem_next(p: Seq<char>, i: int) -> int {
    if p[i] == '[' {
        class_next(p, i)
    } else {
        i + 1
    }
}

/// Whether the (non-`*`) pattern element at `i` accepts the character `c`.
pub open spec fn elem_ok(p: Seq<char>, i: int, c: char) -> bool {
    if p[i] == '?' {
        true
    } else if p[i] == '[' {
        class_accepts(p, i, c)
    } else {
        p[i] == c
    }
}

pub proof fn lemma_elem_next_bounds(p: Seq<char>, i: int)
    requires
        0 <= i < p.len(),
    ensures
        i < elem_next(p, i) <= p.len(),
{
    if p[i] == '[' {
        lemma_class_next_bounds(p, i);
    }
}

/// The pattern from `i` on matches the text from `j` on: `*` matches any
/// run of characters, `?` any one character, a class one character it
/// accepts, any other character itself.
pub open spec fn gm(p: Seq<char>, i: int, t: Seq<char>, j: int) -> bool
    decreases p.len() - i, t.len() - j,
{
    if i < 0 || j < 0 {
        false
    } else if i >= p.len() {
        j >= t.len()
    } else if p[i] == '*' {
        gm(p, i + 1, t, j) || (j < t.len() && gm(p, i, t, j + 1))
    } else if j >= t.len() {
        false
    } else {
        proof {
            lemma_elem_next_bounds(p, i);
        }
        elem_ok(p, i, t[j]) && gm(p, elem_next(p, i), t, j + 1)
    }
}

/// The whole pattern matches the whole text.
pub open spec fn glob_matches(p: Seq<char>, t: Seq<char>) -> bool {
    gm(p, 0, t, 0)
}

/// Where the pattern is after `n` elements from `a`.
pub open spec fn walk(p: Seq<char>, a: int, n: nat) -> int
    decreases n,
{
    if n == 0 {
        a
    } else if 0 <= a < p.len() {
        walk(p, elem_next(p, a), (n - 1) as nat)
    } else {
        a
    }
}

/// The `n` elements from `a` exist and none of them is `*`.
pub open spec fn starfree(p: Seq<char>, a: int, n: nat) -> bool
    decreases n,
{
    if n == 0 {
        true
    } else {
        0 <= a < p.len() && p[a] != '*' && starfree(p, elem_next(p, a), (n - 1) as nat)
    }
}

/// The `n` star-free elements from `a` accept the characters of the text
/// from `s` on, one each.
pub open spec fn seg_ok(p: Seq<char>, a: int, t: Seq<char>, s: int, n: nat) -> bool
    decreases n,
{
    if n == 0 {
        0 <= s <= t.len()
    } else {
        0 <= a < p.len() && p[a] != '*' && 0 <= s < t.len() && elem_ok(p, a, t[s]) && seg_ok(
            p,
            elem_next(p, a),
            t,
            s + 1,
            (n - 1) as nat,
        )
    }
}

/// Some text position from `j` on starts a match of the pattern from `i`.
pub open spec fn match_from_some(p: Seq<char>, i: int, t: Seq<char>, j: int) -> bool {
    exists|k: int| j <= k <= t.len() && #[trigger] gm(p, i, t, k)
}

proof fn lemma_star(p: Seq<char>, x: int, t: Seq<char>, j: int)
    requires
        0 <= x < p.len(),
        p[x] == '*',
        0 <= j <= t.len(),
    ensures
        gm(p, x, t, j) == match_from_some(p, x + 1, t, j),
    decreases t.len() - j,
{
    if j < t.len() {
        lemma_star(p, x, t, j + 1);
        if gm(p, x, t, j) {
            if gm(p, x + 1, t, j) {
                assert(j <= j <= t.len() && gm(p, x + 1, t, j));
            } else {
                let k = choose|k: int| j + 1 <= k <= t.len() && #[trigger] gm(p, x + 1, t, k);
                assert(j <= k <= t.len() && gm(p, x + 1, t, k));
            }
        }
        if exists|k: int| j <= k <= t.len() && #[trigger] gm(p, x + 1, t, k) {
            let k = choose|k: int| j <= k <= t.len() && #[trigger] gm(p, x + 1, t, k);
            if k > j {
                assert(j + 1 <= k <= t.len() && gm(p, x + 1, t, k));
            }
        }
    } else {
        if gm(p, x + 1, t, j) {
            assert(j <= j <= t.len() && gm(p, x + 1, t, j));
        }
        if exists|k: int| j <= k <= t.len() && #[trigger] gm(p, x + 1, t, k) {
            let k = choose|k: int| j <= k <= t.len() && #[trigger] gm(p, x + 1, t, k);
            assert(k == j);
        }
    }
}

proof fn lemma_seg_gm(p: Seq<char>, a: int, t: Seq<char>, s: int, n: nat)
    requires
        seg_ok(p, a, t, s, n),
    ensures
        gm(p, a, t, s) == gm(p, walk(p, a, n), t, s + n),
        starfree(p, a, n),
    decreases n,
{
    if n > 0 {
        lemma_elem_next_bounds(p, a);
        lemma_seg_gm(p, elem_next(p, a), t, s + 1, (n - 1) as nat);
    }
}

proof fn lemma_starfree_fits(p: Seq<char>, a: int, t: Seq<char>, k: int, n: nat)
    requires
        starfree(p, a, n),
        gm(p, a, t, k),
        k <= t.len(),
    ensures
        k + n <= t.len(),
        gm(p, walk(p, a, n), t, k + n),
    decreases n,
{
    if n > 0 {
        lemma_elem_next_bounds(p, a);
        lemma_starfree_fits(p, elem_next(p, a), t, k + 1, (n - 1) as nat);
    }
}

proof fn lemma_seg_extend(p: Seq<char>, a: int, t: Seq<char>, s: int, n: nat)
    requires
        seg_ok(p, a, t, s, n),
        0 <= walk(p, a, n) < p.len(),
        p[walk(p, a, n)] != '*',
        s + n < t.len(),
        elem_ok(p, walk(p, a, n), t[s + n]),
    ensures
        seg_ok(p, a, t, s, n + 1),
        walk(p, a, n + 1) == elem_next(p, walk(p, a, n)),
    decreases n,
{
    let m = (n + 1) as nat;
    assert((m - 1) as nat == n);
    if n > 0 {
        let n1 = (n - 1) as nat;
        lemma_seg_extend(p, elem_next(p, a), t, s + 1, n1);
        assert(n1 + 1 == n);
        assert(walk(p, a, n) == walk(p, elem_next(p, a), n1));
        assert(walk(p, a, m) == walk(p, elem_next(p, a), n));
    } else {
        assert(seg_ok(p, elem_next(p, a), t, s + 1, 0));
        assert(walk(p, a, m) == walk(p, elem_next(p, a), 0));
    }
}

proof fn lemma_end_of_text(p: Seq<char>, i: int, t: Seq<char>)
    requires
        0 <= i <= p.len(),
    ensures
        gm(p, i, t, t.len() as int) == forall|x: int| i <= x < p.len() ==> p[x] == '*',
    decreases p.len() - i,
{
    if i < p.len() {
        lemma_end_of_text(p, i + 1, t);
        if p[i] != '*' {
            assert(!(forall|x: int| i <= x < p.len() ==> p[x] == '*'));
        } else {
            assert((forall|x: int| i + 1 <= x < p.len() ==> p[x] == '*') ==> (forall|x: int|
                i <= x < p.len() ==> p[x] == '*'));
        }
    }
}

/// Evaluates a bracket class opened at `start` on the character `c`:
/// whether it accepts `c`, and where the pattern goes on.
pub fn match_class(p: &Vec<char>, start: usize, c: char) -> (r: (bool, usize))
    requires
        start < p.len(),
    ensures
        r.0 == class_accepts(p@, start as int, c),
        r.1 == class_next(p@, start as int),
{
    let mut i = start + 1;
    let negate = i < p.len() && (p[i] == '!' || p[i] == '^');
    if negate {
        i += 1;
    }
    let ghost b = i as int;
    assert(b == class_start(p@, start as int));
    let mut matched = false;
    let mut first = true;
    while i < p.len() && (first || p[i] != ']')
        invariant
            start < b <= i <= p@.len(),
            b == class_start(p@, start as int),
            class_end(p@, b, true) == class_end(p@, i as int, first),
            class_hit(p@, b, true, c) == (matched || class_hit(p@, i as int, first, c)),
        decreases p@.len() - i,
    {
        first = false;
        if p.len() - i > 2 && p[i + 1] == '-' && p[i + 2] != ']' {
            let lo = p[i];
            let hi = p[i + 2];
            if c >= lo && c <= hi {
                matched = true;
            }
            i += 3;
            continue;
        }
        if p[i] == c {
            matched = true;
        }
        i += 1;
    }
    if i >= p.len() {
        return (true, p.len());
    }
    i += 1;
    if negate {
        matched = !matched;
    }
    (matched, i)
}

/// Matches a whole text against a whole glob pattern.
pub fn glob_match_inner(p: &Vec<char>, t: &Vec<char>) -> (r: bool)
    ensures
        r == gm(p@, 0, t@, 0),
{
    let ghost goal = gm(p@, 0, t@, 0);
    let mut pi: usize = 0;
    let mut ti: usize = 0;
    let mut star_pi: Option<usize> = None;
    let mut star_ti: usize = 0;

    while ti < t.len()
        invariant
            ti <= t@.len(),
            pi <= p@.len(),
            star_ti <= ti,
            goal == gm(p@, 0, t@, 0),
            star_pi is None ==> goal == gm(p@, pi as int, t@, ti as int),
            star_pi matches Some(sp) ==> sp < p@.len() && p@[sp as int] == '*',
            star_pi matches Some(sp) ==> pi == walk(p@, sp + 1, (ti - star_ti) as nat),
            star_pi matches Some(sp) ==> seg_ok(
                p@,
                sp + 1,
                t@,
                star_ti as int,
                (ti - star_ti) as nat,
            ),
            star_pi matches Some(sp) ==> goal == match_from_some(p@, sp + 1, t@, star_ti as int),
        decreases t@.len() - star_ti, t@.len() - ti, p@.len() - pi,
    {
        if pi < p.len() {
            let pc = p[pi];
            if pc == '*' {
                proof {
                    lemma_star(p@, pi as int, t@, ti as int);
                    match star_pi {
                        None => {},
                        Some(sp) => {
                            let n = (ti - star_ti) as nat;
                            lemma_seg_gm(p@, sp + 1, t@, star_ti as int, n);
                            if goal {
                                let k = choose|k: int|
                                    star_ti <= k <= t@.len() && #[trigger] gm(p@, sp + 1, t@, k);
                                lemma_starfree_fits(p@, sp + 1, t@, k, n);
                                lemma_star(p@, pi as int, t@, k + n);
                                let k2 = choose|k2: int|
                                    k + n <= k2 <= t@.len() && #[trigger] gm(
                                        p@,
                                        pi + 1,
                                        t@,
                                        k2,
                                    );
                                assert(ti <= k2 <= t@.len() && gm(p@, pi + 1, t@, k2));
                            }
                            if match_from_some(p@, pi + 1, t@, ti as int) {
                                assert(gm(p@, pi as int, t@, ti as int));
                                assert(gm(p@, sp + 1, t@, star_ti as int));
                            }
                        },
                    }
                    assert(seg_ok(p@, pi + 1, t@, ti as int, 0));
                }
                let ghost old_pi = pi;
                star_pi = Some(pi);
                star_ti = ti;
                pi += 1;
                proof {
                    assert(pi == walk(p@, old_pi + 1, 0));
                }
                continue;
            } else if pc == '?' || pc == '[' || pc == t[ti] {
                let (ok, next_pi) = if pc == '[' {
                    match_class(p, pi, t[ti])
                } else {
                    (true, pi + 1)
                };
                proof {
                    lemma_elem_next_bounds(p@, pi as int);
                }
                assert(ok == elem_ok(p@, pi as int, t@[ti as int]));
                assert(next_pi == elem_next(p@, pi as int));
                if ok {
                    proof {
                        match star_pi {
                            None => {},
                            Some(sp) => {
                                lemma_seg_extend(
                                    p@,
                                    sp + 1,
                                    t@,
                                    star_ti as int,
                                    (ti - star_ti) as nat,
                                );
                                assert((ti + 1 - star_ti) as nat == (ti - star_ti) as nat + 1);
                            },
                        }
                    }
                    pi = next_pi;
                    ti += 1;
                    continue;
                }
            }
        }
        // The element at `pi` does not accept `t[ti]`, or the pattern is used up.

        proof {
            if pi < p@.len() {
                assert(p@[pi as int] != '*');
                assert(!gm(p@, pi as int, t@, ti as int));
            }
        }
        match star_pi {
            Some(sp) => {
                proof {
                    lemma_seg_gm(p@, sp + 1, t@, star_ti as int, (ti - star_ti) as nat);
                    if goal {
                        let k = choose|k: int|
                            star_ti <= k <= t@.len() && #[trigger] gm(p@, sp + 1, t@, k);
                        assert(k != star_ti);
                        assert(star_ti + 1 <= k <= t@.len() && gm(p@, sp + 1, t@, k));
                    }
                    assert(seg_ok(p@, sp + 1, t@, star_ti + 1, 0));
                }
                pi = sp + 1;
                star_ti += 1;
                ti = star_ti;
                continue;
            },
            None => {
                return false;
            },
        }
    }

    proof {
        match star_pi {
            None => {},
            Some(sp) => {
                let n = (ti - star_ti) as nat;
                lemma_seg_gm(p@, sp + 1, t@, star_ti as int, n);
                if goal {
                    let k = choose|k: int|
                        star_ti <= k <= t@.len() && #[trigger] gm(p@, sp + 1, t@, k);
                    if k > star_ti {
                        lemma_starfree_fits(p@, sp + 1, t@, k, n);
                    }
                }
                assert(goal == gm(p@, pi as int, t@, ti as int));
            },
        }
        lemma_end_of_text(p@, pi as int, t@);
    }
    let ghost from = pi as int;
    while pi < p.len() && p[pi] == '*'
        invariant
            from <= pi <= p@.len(),
            forall|x: int| from <= x < pi ==> p@[x] == '*',
        decreases p@.len() - pi,
    {
        pi += 1;
    }
    proof {
        if pi < p@.len() {
            assert(!(forall|x: int| from <= x < p@.len() ==> p@[x] == '*'));
        }
    }
    pi == p.len()
}

/// Matches a whole text against a whole glob pattern (`*`, `?`, classes).
pub fn glob_match(pattern: &str, text: &str) -> (r: bool)
    ensures
        r == glob_matches(pattern@, text@),
{
    let p = chars_of(pattern);
    let t = chars_of(text);
    glob_match_inner(&p, &t)
}

/// A pattern without wildcards: no `*`, `?` or `[`.
pub open spec fn is_literal(p: Seq<char>) -> bool {
    forall|k: int| 0 <= k < p.len() ==> p[k] != '*' && p[k] != '?' && p[k] != '['
}

proof fn lemma_literal_gm(p: Seq<char>, i: int, t: Seq<char>, j: int)
    requires
        is_literal(p),
        0 <= i <= p.len(),
        0 <= j <= t.len(),
    ensures
        gm(p, i, t, j) == (p.subrange(i, p.len() as int) == t.subrange(j, t.len() as int)),
    decreases p.len() - i,
{
    let ps = p.subrange(i, p.len() as int);
    let ts = t.subrange(j, t.len() as int);
    if i >= p.len() {
        if j < t.len() {
            assert(ps.len() != ts.len());
        } else {
            assert(ps =~= ts);
        }
    } else if j >= t.len() {
        assert(ps.len() != ts.len());
    } else {
        lemma_literal_gm(p, i + 1, t, j + 1);
        assert(ps =~= seq![p[i]] + p.subrange(i + 1, p.len() as int));
        assert(ts =~= seq![t[j]] + t.subrange(j + 1, t.len() as int));
        assert(elem_ok(p, i, t[j]) == (p[i] == t[j]));
        assert(elem_next(p, i) == i + 1);
        if ps == ts {
            assert(ps[0] == ts[0]);
            assert(p.subrange(i + 1, p.len() as int) =~= ps.drop_first());
            assert(t.subrange(j + 1, t.len() as int) =~= ts.drop_first());
        }
    }
}

/// A pattern without wildcards matches exactly the text equal to it.
pub proof fn law_literal_pattern_matches_itself(p: Seq<char>, t: Seq<char>)
    requires
        is_literal(p),
    ensures
        glob_matches(p, t) <==> p == t,
{
    lemma_literal_gm(p, 0, t, 0);
    assert(p.subrange(0, p.len() as int) =~= p);
    assert(t.subrange(0, t.len() as int) =~= t);
}

proof fn lemma_star_gm(t: Seq<char>, j: int)
    requires
        0 <= j <= t.len(),
    ensures
        gm(seq!['*'], 0, t, j),
    decreases t.len() - j,
{
    let p = seq!['*'];
    assert(p.len() == 1 && p[0] == '*');
    assert(gm(p, 1, t, j) == (j >= t.len()));
    if j < t.len() {
        lemma_star_gm(t, j + 1);
    }
}

/// The pattern `*` matches every text, the empty one too.
pub proof fn law_star_matches_everything(t: Seq<char>)
    ensures
        glob_matches(seq!['*'], t),
{
    lemma_star_gm(t, 0);
}

/// The language of a pattern, element by element: matching the pattern
/// from its `i`-th character against the text from its `j`-th: `*` takes
/// any run of the text, the empty one too; `?` takes any one character; a
/// class takes one character that it accepts; any other character takes
/// itself; the end of the pattern takes only the end of the text.
pub proof fn law_pattern_language(p: Seq<char>, i: int, t: Seq<char>, j: int)
    requires
        0 <= i <= p.len(),
        0 <= j <= t.len(),
    ensures
        i == p.len() ==> (gm(p, i, t, j) <==> j == t.len()),
        i < p.len() && p[i] == '*' ==> (gm(p, i, t, j) <==> exists|k: int|
            j <= k <= t.len() && #[trigger] gm(p, i + 1, t, k)),
        i < p.len() && p[i] == '?' ==> (gm(p, i, t, j) <==> j < t.len() && gm(p, i + 1, t, j + 1)),
        i < p.len() && p[i] == '[' ==> (gm(p, i, t, j) <==> j < t.len() && class_accepts(p, i, t[j])
            && gm(p, class_next(p, i), t, j + 1)),
        i < p.len() && p[i] != '*' && p[i] != '?' && p[i] != '[' ==> (gm(p, i, t, j) <==> j
            < t.len() && t[j] == p[i] && gm(p, i + 1, t, j + 1)),
{
    if i < p.len() && p[i] == '*' {
        lemma_star(p, i, t, j);
    }
}

/// A range class `[lo-hi]` matches a one-character text exactly when the
/// character lies between `lo` and `hi`, both ends included; `[!lo-hi]`
/// (or `[^lo-hi]`) exactly when it does not. (`lo` must not be `!` or `^`,
/// which would negate the class, and `hi` not `]`, which would close it.)
pub proof fn law_range_class(lo: char, hi: char, c: char, neg: char)
    requires
        lo != '!' && lo != '^',
        hi != ']',
        neg == '!' || neg == '^',
    ensures
        glob_matches(seq!['[', lo, '-', hi, ']'], seq![c]) <==> lo <= c && c <= hi,
        glob_matches(seq!['[', neg, lo, '-', hi, ']'], seq![c]) <==> !(lo <= c && c <= hi),
{
    let p = seq!['[', lo, '-', hi, ']'];
    let t = seq![c];
    assert(!class_negated(p, 0));
    assert(class_start(p, 0) == 1);
    assert(is_range_at(p, 1));
    assert(class_end(p, 4, false) == 4);
    assert(class_end(p, 1, true) == 4);
    assert(class_hit(p, 4, false, c) == false);
    assert(class_hit(p, 1, true, c) == (lo <= c && c <= hi));
    assert(class_next(p, 0) == 5);
    assert(gm(p, 5, t, 1));
    assert(gm(p, 0, t, 0) == (elem_ok(p, 0, c) && gm(p, elem_next(p, 0), t, 1)));
    let p2 = seq!['[', neg, lo, '-', hi, ']'];
    assert(class_negated(p2, 0));
    assert(class_start(p2, 0) == 2);
    assert(is_range_at(p2, 2));
    assert(class_end(p2, 5, false) == 5);
    assert(class_end(p2, 2, true) == 5);
    assert(class_hit(p2, 5, false, c) == false);
    assert(class_hit(p2, 2, true, c) == (lo <= c && c <= hi));
    assert(class_next(p2, 0) == 6);
    assert(gm(p2, 6, t, 1));
    assert(gm(p2, 0, t, 0) == (elem_ok(p2, 0, c) && gm(p2, elem_next(p2, 0), t, 1)));
}

proof fn lemma_plain_items(p: Seq<char>, items: Seq<char>, i: int, first: bool, c: char)
    requires
        p == seq!['['] + items + seq![']'],
        forall|j: int| 0 <= j < items.len() ==> #[trigger] items[j] != ']' && items[j] != '-',
        1 <= i <= items.len() + 1,
        first ==> i <= items.len(),
    ensures
        class_end(p, i, first) == items.len() + 1,
        class_hit(p, i, first, c) == items.subrange(i - 1, items.len() as int).contains(c),
    decreases items.len() + 1 - i,
{
    let n = items.len() as int;
    let rest = items.subrange(i - 1, n);
    if i == n + 1 {
        assert(p[i] == ']');
        assert(rest.len() == 0);
        assert(!rest.contains(c));
    } else {
        assert(p[i] == items[i - 1]);
        assert(p[i + 1] == (if i < n {
            items[i]
        } else {
            ']'
        }));
        assert(!is_range_at(p, i));
        lemma_plain_items(p, items, i + 1, false, c);
        let tail = items.subrange(i, n);
        assert(rest =~= seq![items[i - 1]] + tail);
        assert(rest[0] == items[i - 1]);
        if p[i] == c {
            assert(rest.contains(c));
        }
        if rest.contains(c) {
            let k = choose|k: int| 0 <= k < rest.len() && rest[k] == c;
            if k > 0 {
                assert(tail[k - 1] == c);
            }
        }
        if tail.contains(c) {
            let k = choose|k: int| 0 <= k < tail.len() && tail[k] == c;
            assert(rest[k + 1] == c);
        }
    }
}

/// A class of plain characters `[xyz]` matches a one-character text
/// exactly when the character is one of them; `[!xyz]` (or `[^xyz]`)
/// exactly when it is none of them. (The characters listed are not `]` or
/// `-`, and the first is not `!` or `^`.)
pub proof fn law_plain_class(items: Seq<char>, c: char, neg: char)
    requires
        items.len() > 0,
        forall|j: int| 0 <= j < items.len() ==> #[trigger] items[j] != ']' && items[j] != '-',
        items[0] != '!' && items[0] != '^',
        neg == '!' || neg == '^',
    ensures
        glob_matches(seq!['['] + items + seq![']'], seq![c]) <==> items.contains(c),
        glob_matches(seq!['[', neg] + items + seq![']'], seq![c]) <==> !items.contains(c),
{
    let p = seq!['['] + items + seq![']'];
    let n = items.len() as int;
    let t = seq![c];
    assert(p[1] == items[0]);
    assert(!class_negated(p, 0));
    lemma_plain_items(p, items, 1, true, c);
    assert(items.subrange(0, n) =~= items);
    assert(class_next(p, 0) == n + 2);
    assert(gm(p, n + 2, t, 1));
    assert(gm(p, 0, t, 0) == (elem_ok(p, 0, c) && gm(p, elem_next(p, 0), t, 1)));
    // the negated class: the same items, one place further
    let items2 = seq![neg] + items;
    let p2 = seq!['[', neg] + items + seq![']'];
    assert(p2 =~= seq!['['] + items2 + seq![']']);
    assert(class_negated(p2, 0));
    assert(class_start(p2, 0) == 2);
    assert forall|j: int| 0 <= j < items2.len() implies #[trigger] items2[j] != ']' && items2[j]
        != '-' by {
        if j > 0 {
            assert(items2[j] == items[j - 1]);
        }
    }
    lemma_plain_items(p2, items2, 2, true, c);
    assert(items2.subrange(1, n + 1) =~= items);
    assert(class_next(p2, 0) == n + 3);
    assert(gm(p2, n + 3, t, 1));
    assert(gm(p2, 0, t, 0) == (elem_ok(p2, 0, c) && gm(p2, elem_next(p2, 0), t, 1)));
}

} // verus!
