use vstd::prelude::*;

use crate::ast::strings_view;
use crate::glob::{glob_match, glob_matches};
use crate::text::{chars_of, owned, push_text, str_eq, string_of_range};
use crate::words::{has_meta, has_meta_chars};

verus! {

broadcast use vstd::seq_lib::to_multiset_build, vstd::seq_lib::to_multiset_insert;

/// The pieces of `s` between its `sep` separators, the scan standing at
/// `i` with the piece under way starting at `start`.
pub open spec fn segments_from(
    s: Seq<char>,
    sep: char,
    i: int,
    start: int,
    acc: Seq<Seq<char>>,
) -> Seq<Seq<char>>
    decreases s.len() - i,
{
    if i < 0 || i >= s.len() {
        acc.push(s.subrange(start, s.len() as int))
    } else if s[i] == sep {
        segments_from(s, sep, i + 1, i + 1, acc.push(s.subrange(start, i)))
    } else {
        segments_from(s, sep, i + 1, start, acc)
    }
}

/// The pieces of `s` between its `sep` separators, as `str::split` gives
/// them.
pub open spec fn split_on(s: Seq<char>, sep: char) -> Seq<Seq<char>> {
    segments_from(s, sep, 0, 0, Seq::empty())
}

/// Splits a text at each `sep`.
pub fn split_text(text: &str, sep: char) -> (r: Vec<String>)
    ensures
        strings_view(r@) == split_on(text@, sep),
        r@.len() > 0,
{
    let chars = chars_of(text);
    let n = chars.len();
    let ghost s = chars@;
    let mut parts: Vec<String> = Vec::new();
    let mut start: usize = 0;
    let mut i: usize = 0;
    assert(strings_view(parts@) =~= Seq::<Seq<char>>::empty());
    while i < n
        invariant
            n == s.len(),
            s == chars@,
            s == text@,
            start <= i <= n,
            split_on(s, sep) == segments_from(s, sep, i as int, start as int, strings_view(parts@)),
        decreases n - i,
    {
        if chars[i] == sep {
            let piece = string_of_range(&chars, start, i);
            let ghost before = strings_view(parts@);
            parts.push(piece);
            assert(strings_view(parts@) =~= before.push(s.subrange(start as int, i as int)));
            start = i + 1;
        }
        i += 1;
    }
    let last = string_of_range(&chars, start, n);
    let ghost before = strings_view(parts@);
    parts.push(last);
    assert(strings_view(parts@) =~= before.push(s.subrange(start as int, n as int)));
    parts
}

/// The path components a pattern is matched by, in order: its pieces
/// between slashes, without the empty one before a leading slash.
pub open spec fn pattern_parts(s: Seq<char>) -> Seq<Seq<char>> {
    let p = split_on(s, '/');
    if p.len() > 0 && p[0].len() == 0 {
        p.drop_first()
    } else {
        p
    }
}

/// The path components of a glob pattern.
pub fn glob_parts(pattern: &str) -> (r: Vec<String>)
    ensures
        strings_view(r@) == pattern_parts(pattern@),
{
    let mut parts = split_text(pattern, '/');
    if parts[0].as_str().is_empty() {
        let ghost all = strings_view(parts@);
        parts.remove(0);
        assert(strings_view(parts@) =~= all.drop_first());
    }
    parts
}

/// Where a glob walk starts: at the root for a pattern with a leading
/// slash, else at the empty base.
pub open spec fn walk_start(s: Seq<char>) -> Seq<Seq<char>> {
    if s.len() > 0 && s[0] == '/' {
        seq![seq!['/']]
    } else {
        seq![Seq::<char>::empty()]
    }
}

/// The bases a glob walk starts from.
pub fn glob_start(pattern: &str) -> (r: Vec<String>)
    ensures
        strings_view(r@) == walk_start(pattern@),
{
    let chars = chars_of(pattern);
    let mut base = String::new();
    if chars.len() > 0 && chars[0] == '/' {
        crate::text::push_char(&mut base, '/');
    }
    let r = vec![base];
    assert(strings_view(r@) =~= walk_start(pattern@));
    r
}

/// The directory whose entries a base stands for: the working directory
/// for the empty base.
pub open spec fn dir_of(base: Seq<char>) -> Seq<char> {
    if base.len() == 0 {
        seq!['.']
    } else {
        base
    }
}

/// The path of entry `e` of directory `dir`.
pub open spec fn entry_path(dir: Seq<char>, e: Seq<char>) -> Seq<char> {
    if dir == seq!['/'] {
        seq!['/'] + e
    } else if dir == seq!['.'] {
        e
    } else {
        dir + seq!['/'] + e
    }
}

/// The path of the literal component `part` under `base`.
pub open spec fn literal_path(base: Seq<char>, part: Seq<char>) -> Seq<char> {
    if base.len() == 0 {
        part
    } else if base == seq!['/'] {
        seq!['/'] + part
    } else {
        base + seq!['/'] + part
    }
}

/// The paths of the entries of `listing` (taken from `dir`) that `part`
/// matches, in the order of the listing.
pub open spec fn matching_paths(part: Seq<char>, dir: Seq<char>, listing: Seq<Seq<char>>) -> Seq<
    Seq<char>,
>
    decreases listing.len(),
{
    if listing.len() == 0 {
        Seq::empty()
    } else {
        matching_paths(part, dir, listing.drop_last()) + if glob_matches(part, listing.last()) {
            seq![entry_path(dir, listing.last())]
        } else {
            Seq::empty()
        }
    }
}

/// The paths one base leads to through the component `part`; `listing`
/// holds the entries of the base's directory when `part` is a pattern.
pub open spec fn step_paths(part: Seq<char>, base: Seq<char>, listing: Seq<Seq<char>>) -> Seq<
    Seq<char>,
> {
    if has_meta_chars(part) {
        matching_paths(part, dir_of(base), listing)
    } else {
        seq![literal_path(base, part)]
    }
}

/// The paths all the bases lead to through `part`, in order.
pub open spec fn walk_step(part: Seq<char>, bases: Seq<Seq<char>>, listings: Seq<Seq<Seq<char>>>) -> Seq<
    Seq<char>,
>
    decreases bases.len(),
{
    if bases.len() == 0 {
        Seq::empty()
    } else {
        let n = bases.len() - 1;
        walk_step(part, bases.drop_last(), listings) + step_paths(
            part,
            bases[n],
            if n < listings.len() {
                listings[n]
            } else {
                Seq::empty()
            },
        )
    }
}

pub open spec fn listings_view(v: Seq<Vec<String>>) -> Seq<Seq<Seq<char>>> {
    v.map_values(|g: Vec<String>| strings_view(g@))
}

proof fn lemma_literals()
    ensures
        "."@ == seq!['.'],
        "/"@ == seq!['/'],
{
    reveal_strlit(".");
    reveal_strlit("/");
    assert("."@ =~= seq!['.']);
    assert("/"@ =~= seq!['/']);
}

/// The directories to list before stepping through `part`: one per base
/// when `part` is a pattern, none otherwise.
pub fn glob_dirs(part: &str, bases: &Vec<String>) -> (r: Vec<String>)
    ensures
        has_meta_chars(part@) ==> strings_view(r@) == strings_view(bases@).map_values(
            |b: Seq<char>| dir_of(b),
        ),
        !has_meta_chars(part@) ==> r@.len() == 0,
{
    let mut dirs: Vec<String> = Vec::new();
    if !has_meta(part) {
        return dirs;
    }
    let mut i: usize = 0;
    while i < bases.len()
        invariant
            i <= bases@.len(),
            strings_view(dirs@) == strings_view(bases@).take(i as int).map_values(
                |b: Seq<char>| dir_of(b),
            ),
        decreases bases@.len() - i,
    {
        proof {
            lemma_literals();
        }
        let d = if bases[i].as_str().is_empty() {
            owned(".")
        } else {
            bases[i].clone()
        };
        assert(d@ == dir_of(bases@[i as int]@));
        let ghost before = strings_view(dirs@);
        dirs.push(d);
        assert(strings_view(dirs@) =~= before.push(d@));
        assert(strings_view(bases@).take(i + 1).map_values(|b: Seq<char>| dir_of(b))
            =~= strings_view(bases@).take(i as int).map_values(|b: Seq<char>| dir_of(b)).push(
            dir_of(bases@[i as int]@),
        ));
        i += 1;
    }
    assert(strings_view(bases@).take(i as int) =~= strings_view(bases@));
    dirs
}

fn join_entry(dir: &str, e: &str) -> (r: String)
    ensures
        r@ == entry_path(dir@, e@),
{
    proof {
        lemma_literals();
    }
    let mut r = String::new();
    if str_eq(dir, "/") {
        push_text(&mut r, "/");
        push_text(&mut r, e);
    } else if str_eq(dir, ".") {
        push_text(&mut r, e);
    } else {
        push_text(&mut r, dir);
        push_text(&mut r, "/");
        push_text(&mut r, e);
    }
    assert(r@ =~= entry_path(dir@, e@));
    r
}

fn join_literal(base: &str, part: &str) -> (r: String)
    ensures
        r@ == literal_path(base@, part@),
{
    proof {
        lemma_literals();
    }
    let mut r = String::new();
    if base.is_empty() {
        push_text(&mut r, part);
    } else if str_eq(base, "/") {
        push_text(&mut r, "/");
        push_text(&mut r, part);
    } else {
        push_text(&mut r, base);
        push_text(&mut r, "/");
        push_text(&mut r, part);
    }
    assert(r@ =~= literal_path(base@, part@));
    r
}

fn push_step(part: &str, meta: bool, base: &str, listing: &Vec<String>, out: &mut Vec<String>)
    requires
        meta == has_meta_chars(part@),
    ensures
        strings_view(final(out)@) == strings_view(old(out)@) + step_paths(
            part@,
            base@,
            strings_view(listing@),
        ),
{
    if !meta {
        let p = join_literal(base, part);
        let ghost before = strings_view(out@);
        out.push(p);
        assert(strings_view(out@) =~= before + seq![p@]);
        return;
    }
    proof {
        lemma_literals();
    }
    let dir = if base.is_empty() {
        owned(".")
    } else {
        owned(base)
    };
    assert(dir@ == dir_of(base@));
    let ghost out0 = strings_view(out@);
    let ghost ls = strings_view(listing@);
    let mut i: usize = 0;
    while i < listing.len()
        invariant
            i <= listing@.len(),
            ls == strings_view(listing@),
            dir@ == dir_of(base@),
            strings_view(out@) == out0 + matching_paths(part@, dir@, ls.take(i as int)),
        decreases listing@.len() - i,
    {
        let e = &listing[i];
        assert(ls.take(i + 1).drop_last() =~= ls.take(i as int));
        assert(ls.take(i + 1).last() == e@);
        if glob_match(part, e.as_str()) {
            let p = join_entry(dir.as_str(), e.as_str());
            let ghost before = strings_view(out@);
            out.push(p);
            assert(strings_view(out@) =~= before + seq![p@]);
            assert(strings_view(out@) =~= out0 + matching_paths(part@, dir@, ls.take(i + 1)));
        } else {
            assert(strings_view(out@) =~= out0 + matching_paths(part@, dir@, ls.take(i + 1)));
        }
        i += 1;
    }
    assert(ls.take(i as int) =~= ls);
}

/// One step of a glob walk: the paths the bases lead to through the
/// component `part`, given the listing of each base's directory (the
/// listings are read only when `part` is a pattern).
pub fn glob_step(part: &str, bases: &Vec<String>, listings: &Vec<Vec<String>>) -> (r: Vec<String>)
    ensures
        strings_view(r@) == walk_step(part@, strings_view(bases@), listings_view(listings@)),
{
    let meta = has_meta(part);
    let ghost bs = strings_view(bases@);
    let ghost ls = listings_view(listings@);
    let mut out: Vec<String> = Vec::new();
    let mut i: usize = 0;
    assert(strings_view(out@) =~= walk_step(part@, bs.take(0), ls));
    while i < bases.len()
        invariant
            i <= bases@.len(),
            bs == strings_view(bases@),
            ls == listings_view(listings@),
            meta == has_meta_chars(part@),
            strings_view(out@) == walk_step(part@, bs.take(i as int), ls),
        decreases bases@.len() - i,
    {
        let empty: Vec<String> = Vec::new();
        let listing = if i < listings.len() {
            &listings[i]
        } else {
            &empty
        };
        assert(strings_view(empty@) =~= Seq::<Seq<char>>::empty());
        push_step(part, meta, bases[i].as_str(), listing, &mut out);
        assert(bs.take(i + 1).drop_last() =~= bs.take(i as int));
        i += 1;
    }
    assert(bs.take(i as int) =~= bs);
    out
}

/// Lexicographic order of texts by character: the order of `str`.
pub open spec fn lex_le(a: Seq<char>, b: Seq<char>) -> bool
    decreases a.len(),
{
    if a.len() == 0 {
        true
    } else if b.len() == 0 {
        false
    } else if a[0] != b[0] {
        a[0] < b[0]
    } else {
        lex_le(a.drop_first(), b.drop_first())
    }
}

pub proof fn lemma_lex_total(a: Seq<char>, b: Seq<char>)
    ensures
        lex_le(a, b) || lex_le(b, a),
    decreases a.len(),
{
    if a.len() > 0 && b.len() > 0 && a[0] == b[0] {
        lemma_lex_total(a.drop_first(), b.drop_first());
    }
}

pub proof fn lemma_lex_refl(a: Seq<char>)
    ensures
        lex_le(a, a),
    decreases a.len(),
{
    if a.len() > 0 {
        lemma_lex_refl(a.drop_first());
    }
}

pub proof fn lemma_lex_trans(a: Seq<char>, b: Seq<char>, c: Seq<char>)
    requires
        lex_le(a, b),
        lex_le(b, c),
    ensures
        lex_le(a, c),
    decreases a.len(),
{
    if a.len() > 0 && b.len() > 0 && c.len() > 0 && a[0] == b[0] && b[0] == c[0] {
        lemma_lex_trans(a.drop_first(), b.drop_first(), c.drop_first());
    }
}

/// Compares two texts in lexicographic order.
fn text_le(a: &String, b: &String) -> (r: bool)
    ensures
        r == lex_le(a@, b@),
{
    let x = chars_of(a.as_str());
    let y = chars_of(b.as_str());
    let mut i: usize = 0;
    assert(x@.skip(0) =~= x@);
    assert(y@.skip(0) =~= y@);
    while i < x.len() && i < y.len() && x[i] == y[i]
        invariant
            i <= x@.len(),
            i <= y@.len(),
            lex_le(a@, b@) == lex_le(x@.skip(i as int), y@.skip(i as int)),
            x@ == a@,
            y@ == b@,
        decreases x@.len() - i,
    {
        assert(x@.skip(i as int).drop_first() =~= x@.skip(i + 1));
        assert(y@.skip(i as int).drop_first() =~= y@.skip(i + 1));
        i += 1;
    }
    if i == x.len() {
        return true;
    }
    if i == y.len() {
        return false;
    }
    x[i] < y[i]
}

pub open spec fn sorted(s: Seq<Seq<char>>) -> bool {
    forall|i: int, j: int| 0 <= i < j < s.len() ==> lex_le(#[trigger] s[i], #[trigger] s[j])
}

/// Sorts texts in lexicographic order.
pub fn sort_texts(v: Vec<String>) -> (r: Vec<String>)
    ensures
        strings_view(r@).to_multiset() == strings_view(v@).to_multiset(),
        sorted(strings_view(r@)),
{
    let ghost vs = strings_view(v@);
    let mut out: Vec<String> = Vec::new();
    let mut i: usize = 0;
    assert(vs.take(0) =~= Seq::<Seq<char>>::empty());
    assert(strings_view(out@) =~= Seq::<Seq<char>>::empty());
    while i < v.len()
        invariant
            i <= v@.len(),
            vs == strings_view(v@),
            strings_view(out@).to_multiset() == vs.take(i as int).to_multiset(),
            sorted(strings_view(out@)),
        decreases v@.len() - i,
    {
        let x = v[i].clone();
        let ghost os = strings_view(out@);
        let mut p: usize = 0;
        while p < out.len() && text_le(&out[p], &x)
            invariant
                p <= out@.len(),
                os == strings_view(out@),
                forall|q: int| 0 <= q < p ==> lex_le(#[trigger] os[q], x@),
            decreases out@.len() - p,
        {
            p += 1;
        }
        proof {
            if p < os.len() {
                lemma_lex_total(os[p as int], x@);
            }
        }
        out.insert(p, x);
        let ghost ns = strings_view(out@);
        assert(ns =~= os.insert(p as int, x@));
        assert(vs.take(i + 1) =~= vs.take(i as int).push(vs[i as int]));
        assert forall|a: int, b: int| 0 <= a < b < ns.len() implies lex_le(
            #[trigger] ns[a],
            #[trigger] ns[b],
        ) by {
            if b < p {
                assert(ns[a] == os[a] && ns[b] == os[b]);
            } else if b == p {
                assert(ns[a] == os[a]);
            } else if a < p {
                assert(ns[a] == os[a] && ns[b] == os[b - 1]);
                lemma_lex_total(os[p as int], x@);
                lemma_lex_refl(os[p as int]);
                lemma_lex_trans(x@, os[p as int], os[b - 1]);
                lemma_lex_trans(os[a], x@, os[b - 1]);
            } else if a == p {
                assert(ns[b] == os[b - 1]);
                lemma_lex_total(os[p as int], x@);
                lemma_lex_refl(os[p as int]);
                lemma_lex_trans(x@, os[p as int], os[b - 1]);
            } else {
                assert(ns[a] == os[a - 1] && ns[b] == os[b - 1]);
            }
        }
        i += 1;
    }
    assert(vs.take(i as int) =~= vs);
    out
}

/// The texts of `s` other than `.`.
pub open spec fn without_dot(s: Seq<Seq<char>>) -> Seq<Seq<char>>
    decreases s.len(),
{
    if s.len() == 0 {
        Seq::empty()
    } else {
        without_dot(s.drop_last()) + if s.last() == seq!['.'] {
            Seq::empty()
        } else {
            seq![s.last()]
        }
    }
}

/// The end of a glob walk: the paths reached, without `.`, sorted.
pub fn glob_finish(paths: Vec<String>) -> (r: Vec<String>)
    ensures
        strings_view(r@).to_multiset() == without_dot(strings_view(paths@)).to_multiset(),
        sorted(strings_view(r@)),
{
    let ghost ps = strings_view(paths@);
    let mut kept: Vec<String> = Vec::new();
    let mut i: usize = 0;
    assert(strings_view(kept@) =~= without_dot(ps.take(0)));
    while i < paths.len()
        invariant
            i <= paths@.len(),
            ps == strings_view(paths@),
            strings_view(kept@) == without_dot(ps.take(i as int)),
        decreases paths@.len() - i,
    {
        proof {
            lemma_literals();
        }
        assert(ps.take(i + 1).drop_last() =~= ps.take(i as int));
        let ghost before = strings_view(kept@);
        if !str_eq(paths[i].as_str(), ".") {
            kept.push(paths[i].clone());
            assert(strings_view(kept@) =~= before + seq![ps[i as int]]);
        } else {
            assert(strings_view(kept@) =~= before + Seq::<Seq<char>>::empty());
        }
        i += 1;
    }
    assert(ps.take(i as int) =~= ps);
    sort_texts(kept)
}


proof fn lemma_without_dot_distinct(s: Seq<Seq<char>>)
    requires
        s.no_duplicates(),
    ensures
        without_dot(s).no_duplicates(),
        forall|x: Seq<char>| without_dot(s).contains(x) ==> s.contains(x),
    decreases s.len(),
{
    if s.len() > 0 {
        let init = s.drop_last();
        assert forall|i: int, j: int| 0 <= i < init.len() && 0 <= j < init.len() && i != j implies init[i]
            != init[j] by {
            assert(init[i] == s[i] && init[j] == s[j]);
        }
        lemma_without_dot_distinct(init);
        let w = without_dot(init);
        let tail: Seq<Seq<char>> = if s.last() == seq!['.'] {
            Seq::empty()
        } else {
            seq![s.last()]
        };
        let r = w + tail;
        assert(without_dot(s) == r);
        assert(!init.contains(s.last())) by {
            if init.contains(s.last()) {
                let i = choose|i: int| 0 <= i < init.len() && init[i] == s.last();
                assert(s[i] == s[s.len() - 1]);
            }
        }
        assert forall|i: int, j: int| 0 <= i < r.len() && 0 <= j < r.len() && i != j implies r[i]
            != r[j] by {
            if i < w.len() && j >= w.len() {
                assert(w.contains(r[i]));
                assert(r[j] == s.last());
            } else if j < w.len() && i >= w.len() {
                assert(w.contains(r[j]));
                assert(r[i] == s.last());
            } else if i < w.len() && j < w.len() {
                assert(r[i] == w[i] && r[j] == w[j]);
            }
        }
        assert forall|x: Seq<char>| r.contains(x) implies s.contains(x) by {
            let i = choose|i: int| 0 <= i < r.len() && r[i] == x;
            if i < w.len() {
                assert(w.contains(x));
                assert(init.contains(x));
                let k = choose|k: int| 0 <= k < init.len() && init[k] == x;
                assert(s[k] == x);
            } else {
                assert(s[s.len() - 1] == x);
            }
        }
    }
}

/// Globbing adds no duplicate: when the paths that a walk reaches are all
/// different, the results that the walk ends with (sorted, `.` left out)
/// are all different too.
pub proof fn law_glob_results_stay_distinct(paths: Seq<Seq<char>>, results: Seq<Seq<char>>)
    requires
        paths.no_duplicates(),
        results.to_multiset() == without_dot(paths).to_multiset(),
    ensures
        results.no_duplicates(),
{
    lemma_without_dot_distinct(paths);
    without_dot(paths).lemma_multiset_has_no_duplicates();
    results.lemma_multiset_has_no_duplicates_conv();
}


// ---------------------------------------------------------------------------
// The whole walk
// ---------------------------------------------------------------------------

/// The paths a walk through the components `parts` reaches from `bases`,
/// each directory `d` listing the names `ls(d)`.
pub open spec fn walk_all(
    parts: Seq<Seq<char>>,
    bases: Seq<Seq<char>>,
    ls: spec_fn(Seq<char>) -> Seq<Seq<char>>,
) -> Seq<Seq<char>>
    decreases parts.len(),
{
    if parts.len() == 0 {
        bases
    } else {
        walk_all(
            parts.drop_first(),
            walk_step(parts[0], bases, bases.map_values(|b: Seq<char>| ls(dir_of(b)))),
            ls,
        )
    }
}

pub open spec fn no_slash(x: Seq<char>) -> bool {
    !x.contains('/')
}

/// The names a directory lists: all different, none empty, none holding
/// a `/`.
pub open spec fn proper_listing(l: Seq<Seq<char>>) -> bool {
    l.no_duplicates() && forall|i: int|
        0 <= i < l.len() ==> (#[trigger] l[i]).len() > 0 && no_slash(l[i])
}

/// The bases of a walk: all different, and the empty base only alone.
pub open spec fn proper_bases(b: Seq<Seq<char>>) -> bool {
    b.no_duplicates() && (b.contains(Seq::<char>::empty()) ==> b.len() == 1)
}

/// Where the last `/` of `p` is, or -1.
pub open spec fn last_slash(p: Seq<char>) -> int
    decreases p.len(),
{
    if p.len() == 0 {
        -1
    } else if p.last() == '/' {
        p.len() - 1
    } else {
        last_slash(p.drop_last())
    }
}

/// The directory that a path of the walk lies in, read off the path.
pub open spec fn origin(p: Seq<char>) -> Seq<char> {
    let k = last_slash(p);
    if k < 0 {
        seq!['.']
    } else if k == 0 {
        seq!['/']
    } else {
        p.subrange(0, k)
    }
}

proof fn lemma_last_slash_tail(x: Seq<char>, y: Seq<char>)
    requires
        no_slash(y),
    ensures
        last_slash(x + y) == last_slash(x),
    decreases y.len(),
{
    if y.len() > 0 {
        let y2 = y.drop_last();
        assert(y.last() == y[y.len() - 1]);
        if y.last() == '/' {
            assert(y.contains('/'));
        }
        assert((x + y).drop_last() =~= x + y2);
        assert(!y2.contains('/')) by {
            if y2.contains('/') {
                let j = choose|j: int| 0 <= j < y2.len() && y2[j] == '/';
                assert(y[j] == '/');
            }
        }
        lemma_last_slash_tail(x, y2);
    } else {
        assert(x + y =~= x);
    }
}

proof fn lemma_origin_joined(d: Seq<char>, e: Seq<char>)
    requires
        no_slash(e),
    ensures
        last_slash(d + seq!['/'] + e) == d.len(),
        origin(seq!['/'] + e) == seq!['/'],
        no_slash(e) ==> origin(e) == seq!['.'],
        d.len() > 0 ==> origin(d + seq!['/'] + e) == d,
{
    lemma_last_slash_tail(d + seq!['/'], e);
    assert((d + seq!['/']).drop_last() =~= d);
    lemma_last_slash_tail(seq!['/'], e);
    assert(seq!['/'].drop_last() =~= Seq::<char>::empty());
    lemma_last_slash_tail(Seq::<char>::empty(), e);
    assert(Seq::<char>::empty() + e =~= e);
    assert((d + seq!['/'] + e).subrange(0, d.len() as int) =~= d);
}

proof fn lemma_entry_origin(d: Seq<char>, e: Seq<char>)
    requires
        d.len() > 0,
        no_slash(e),
    ensures
        origin(entry_path(d, e)) == d,
{
    lemma_origin_joined(d, e);
}

proof fn lemma_literal_origin(b: Seq<char>, part: Seq<char>)
    requires
        no_slash(part),
    ensures
        origin(literal_path(b, part)) == dir_of(b),
{
    lemma_origin_joined(b, part);
}

proof fn lemma_entry_injective(d: Seq<char>, e1: Seq<char>, e2: Seq<char>)
    requires
        entry_path(d, e1) == entry_path(d, e2),
    ensures
        e1 == e2,
{
    if d == seq!['/'] {
        assert(e1 =~= entry_path(d, e1).subrange(1, entry_path(d, e1).len() as int));
        assert(e2 =~= entry_path(d, e2).subrange(1, entry_path(d, e2).len() as int));
    } else if d != seq!['.'] {
        let k: int = d.len() as int + 1;
        assert(e1 =~= entry_path(d, e1).subrange(k, entry_path(d, e1).len() as int));
        assert(e2 =~= entry_path(d, e2).subrange(k, entry_path(d, e2).len() as int));
    }
}

proof fn lemma_matching_paths(part: Seq<char>, d: Seq<char>, l: Seq<Seq<char>>)
    requires
        d.len() > 0,
        proper_listing(l),
    ensures
        matching_paths(part, d, l).no_duplicates(),
        forall|x: Seq<char>| #[trigger]
            matching_paths(part, d, l).contains(x) ==> origin(x) == d && x.len() > 0 && exists|
                i: int,
            | 0 <= i < l.len() && x == entry_path(d, l[i]),
    decreases l.len(),
{
    if l.len() > 0 {
        let init = l.drop_last();
        assert(proper_listing(init)) by {
            assert forall|i: int, j: int|
                0 <= i < init.len() && 0 <= j < init.len() && i != j implies init[i] != init[j] by {
                assert(init[i] == l[i] && init[j] == l[j]);
            }
            assert forall|i: int| 0 <= i < init.len() implies (#[trigger] init[i]).len() > 0
                && no_slash(init[i]) by {
                assert(init[i] == l[i]);
            }
        }
        lemma_matching_paths(part, d, init);
        let m = matching_paths(part, d, init);
        let e = l.last();
        assert(e == l[l.len() - 1]);
        lemma_entry_origin(d, e);
        let tail: Seq<Seq<char>> = if glob_matches(part, e) {
            seq![entry_path(d, e)]
        } else {
            Seq::empty()
        };
        let r = m + tail;
        assert(matching_paths(part, d, l) == r);
        if glob_matches(part, e) {
            assert(!m.contains(entry_path(d, e))) by {
                if m.contains(entry_path(d, e)) {
                    let i = choose|i: int| 0 <= i < init.len() && entry_path(d, e) == entry_path(
                        d,
                        init[i],
                    );
                    lemma_entry_injective(d, e, init[i]);
                    assert(l[i] == l[l.len() - 1]);
                }
            }
            assert(entry_path(d, e).len() > 0);
        }
        assert forall|i: int, j: int|
            0 <= i < r.len() && 0 <= j < r.len() && i != j implies r[i] != r[j] by {
            if i < m.len() && j >= m.len() {
                assert(m.contains(r[i]));
            } else if j < m.len() && i >= m.len() {
                assert(m.contains(r[j]));
            } else if i < m.len() && j < m.len() {
                assert(r[i] == m[i] && r[j] == m[j]);
            }
        }
        assert forall|x: Seq<char>| #[trigger] r.contains(x) implies origin(x) == d && x.len() > 0
            && exists|i: int| 0 <= i < l.len() && x == entry_path(d, l[i]) by {
            let k = choose|k: int| 0 <= k < r.len() && r[k] == x;
            if k < m.len() {
                assert(m.contains(x));
                let i = choose|i: int| 0 <= i < init.len() && x == entry_path(d, init[i]);
                assert(init[i] == l[i]);
            } else {
                assert(x == entry_path(d, l[l.len() - 1]));
            }
        }
    }
}

proof fn lemma_walk_step(
    part: Seq<char>,
    bases: Seq<Seq<char>>,
    ls: spec_fn(Seq<char>) -> Seq<Seq<char>>,
    n: int,
)
    requires
        0 <= n <= bases.len(),
        no_slash(part),
        proper_bases(bases),
        forall|d: Seq<char>| proper_listing(#[trigger] ls(d)),
    ensures
        ({
            let ls_b = bases.map_values(|b: Seq<char>| ls(dir_of(b)));
            let r = walk_step(part, bases.take(n), ls_b);
            &&& r.no_duplicates()
            &&& forall|x: Seq<char>| #[trigger]
                r.contains(x) ==> exists|k: int| 0 <= k < n && origin(x) == dir_of(bases[k])
            &&& r.contains(Seq::<char>::empty()) ==> r.len() == 1 && exists|k: int|
                0 <= k < n && (#[trigger] bases[k]).len() == 0
        }),
    decreases n,
{
    let ls_b = bases.map_values(|b: Seq<char>| ls(dir_of(b)));
    let bn = bases.take(n);
    if n > 0 {
        lemma_walk_step(part, bases, ls, n - 1);
        assert(bn.drop_last() =~= bases.take(n - 1));
        let prev = walk_step(part, bases.take(n - 1), ls_b);
        let b = bases[n - 1];
        assert(bn[n - 1] == b);
        let lst = ls_b[n - 1];
        assert(lst == ls(dir_of(b)));
        let here = step_paths(part, b, lst);
        let r = prev + here;
        assert(walk_step(part, bn, ls_b) == r);
        // what the last base adds
        if has_meta_chars(part) {
            assert(proper_listing(ls(dir_of(b))));
            lemma_matching_paths(part, dir_of(b), lst);
        } else {
            lemma_literal_origin(b, part);
            assert(here =~= seq![literal_path(b, part)]);
            assert(here[0] == literal_path(b, part));
            assert(here.no_duplicates());
        }
        assert forall|x: Seq<char>| #[trigger] here.contains(x) implies origin(x) == dir_of(b) && (
        x.len() == 0 ==> b.len() == 0) by {
            if has_meta_chars(part) {
            } else {
                assert(x == literal_path(b, part));
            }
        }
        // different bases have different directories
        assert forall|k: int| 0 <= k < n - 1 implies dir_of(#[trigger] bases[k]) != dir_of(b) by {
            assert(bases[k] != b);
            if bases[k].len() == 0 {
                assert(bases.contains(bases[k]));
                assert(bases[k] =~= Seq::<char>::empty());
            } else if b.len() == 0 {
                assert(bases.contains(b));
                assert(b =~= Seq::<char>::empty());
            }
        }
        assert forall|i: int, j: int|
            0 <= i < r.len() && 0 <= j < r.len() && i != j implies r[i] != r[j] by {
            if i < prev.len() && j < prev.len() {
                assert(r[i] == prev[i] && r[j] == prev[j]);
            } else if i >= prev.len() && j >= prev.len() {
                assert(r[i] == here[i - prev.len()] && r[j] == here[j - prev.len()]);
            } else {
                let (a, c) = if i < prev.len() {
                    (i, j)
                } else {
                    (j, i)
                };
                assert(prev.contains(r[a]));
                assert(here.contains(r[c]));
                let k = choose|k: int| 0 <= k < n - 1 && origin(r[a]) == dir_of(bases[k]);
                if r[a] == r[c] {
                    assert(origin(r[c]) == dir_of(b));
                }
            }
        }
        assert forall|x: Seq<char>| #[trigger] r.contains(x) implies exists|k: int|
            0 <= k < n && origin(x) == dir_of(bases[k]) by {
            let i = choose|i: int| 0 <= i < r.len() && r[i] == x;
            if i < prev.len() {
                assert(prev.contains(x));
            } else {
                assert(here.contains(x));
                assert(origin(x) == dir_of(bases[n - 1]));
            }
        }
        if r.contains(Seq::<char>::empty()) {
            let i = choose|i: int| 0 <= i < r.len() && r[i] == Seq::<char>::empty();
            let k: int = if i < prev.len() {
                assert(prev.contains(Seq::<char>::empty()));
                choose|k: int| 0 <= k < n - 1 && bases[k].len() == 0
            } else {
                assert(here.contains(Seq::<char>::empty()));
                n - 1
            };
            assert(bases[k].len() == 0);
            assert(bases[k] =~= Seq::<char>::empty());
            assert(bases.contains(bases[k]));
            assert(bases.len() == 1);
            assert(n == 1);
            assert(bases.take(0) =~= Seq::<Seq<char>>::empty());
            assert(prev.len() == 0);
            assert(r =~= here);
            if has_meta_chars(part) {
                assert(here.contains(Seq::<char>::empty()));
                assert(false);
            }
        }
    } else {
        assert(bn =~= Seq::<Seq<char>>::empty());
    }
}

proof fn lemma_walk_all(
    parts: Seq<Seq<char>>,
    bases: Seq<Seq<char>>,
    ls: spec_fn(Seq<char>) -> Seq<Seq<char>>,
)
    requires
        forall|i: int| 0 <= i < parts.len() ==> no_slash(#[trigger] parts[i]),
        proper_bases(bases),
        forall|d: Seq<char>| proper_listing(#[trigger] ls(d)),
    ensures
        walk_all(parts, bases, ls).no_duplicates(),
    decreases parts.len(),
{
    if parts.len() > 0 {
        lemma_walk_step(parts[0], bases, ls, bases.len() as int);
        assert(bases.take(bases.len() as int) =~= bases);
        let next = walk_step(parts[0], bases, bases.map_values(|b: Seq<char>| ls(dir_of(b))));
        assert(proper_bases(next));
        let rest = parts.drop_first();
        assert forall|i: int| 0 <= i < rest.len() implies no_slash(#[trigger] rest[i]) by {
            assert(rest[i] == parts[i + 1]);
        }
        lemma_walk_all(rest, next, ls);
    }
}

proof fn lemma_segments_no_sep(
    s: Seq<char>,
    sep: char,
    i: int,
    start: int,
    acc: Seq<Seq<char>>,
)
    requires
        0 <= start <= i <= s.len(),
        forall|j: int| start <= j < i ==> s[j] != sep,
        forall|k: int| 0 <= k < acc.len() ==> !(#[trigger] acc[k]).contains(sep),
    ensures
        forall|k: int|
            0 <= k < segments_from(s, sep, i, start, acc).len() ==> !(#[trigger] segments_from(
                s,
                sep,
                i,
                start,
                acc,
            )[k]).contains(sep),
    decreases s.len() - i,
{
    if i >= s.len() {
        let piece = s.subrange(start, s.len() as int);
        let r = acc.push(piece);
        assert forall|k: int| 0 <= k < r.len() implies !(#[trigger] r[k]).contains(sep) by {
            if k < acc.len() {
                assert(r[k] == acc[k]);
            } else if piece.contains(sep) {
                let j = choose|j: int| 0 <= j < piece.len() && piece[j] == sep;
                assert(s[start + j] == sep);
            }
        }
        assert(segments_from(s, sep, i, start, acc) == r);
    } else if s[i] == sep {
        let piece = s.subrange(start, i);
        let a2 = acc.push(piece);
        assert forall|k: int| 0 <= k < a2.len() implies !(#[trigger] a2[k]).contains(sep) by {
            if k < acc.len() {
                assert(a2[k] == acc[k]);
            } else if piece.contains(sep) {
                let j = choose|j: int| 0 <= j < piece.len() && piece[j] == sep;
                assert(s[start + j] == sep);
            }
        }
        lemma_segments_no_sep(s, sep, i + 1, i + 1, a2);
        assert(segments_from(s, sep, i, start, acc) == segments_from(s, sep, i + 1, i + 1, a2));
    } else {
        lemma_segments_no_sep(s, sep, i + 1, start, acc);
        assert(segments_from(s, sep, i, start, acc) == segments_from(s, sep, i + 1, start, acc));
    }
}

/// A glob walk adds no duplicate: when every directory lists different,
/// non-empty names without `/` (as a file system does), the paths that the
/// walk of a pattern reaches are all different, and so are the results it
/// ends with, which `glob_finish` sorts and rids of `.`.
pub proof fn law_glob_walk_is_distinct(
    pattern: Seq<char>,
    ls: spec_fn(Seq<char>) -> Seq<Seq<char>>,
    results: Seq<Seq<char>>,
)
    requires
        forall|d: Seq<char>| proper_listing(#[trigger] ls(d)),
        results.to_multiset() == without_dot(
            walk_all(pattern_parts(pattern), walk_start(pattern), ls),
        ).to_multiset(),
    ensures
        walk_all(pattern_parts(pattern), walk_start(pattern), ls).no_duplicates(),
        results.no_duplicates(),
{
    let all = split_on(pattern, '/');
    lemma_segments_no_sep(pattern, '/', 0, 0, Seq::empty());
    let parts = pattern_parts(pattern);
    assert forall|i: int| 0 <= i < parts.len() implies no_slash(#[trigger] parts[i]) by {
        if all.len() > 0 && all[0].len() == 0 {
            assert(parts[i] == all[i + 1]);
        } else {
            assert(parts[i] == all[i]);
        }
    }
    let start = walk_start(pattern);
    assert(proper_bases(start)) by {
        assert(start.len() == 1);
    }
    lemma_walk_all(parts, start, ls);
    law_glob_results_stay_distinct(walk_all(parts, start, ls), results);
}

/// A component without wildcards needs no listing: the walk steps through
/// it whatever the directories hold (so `glob_dirs` asks for none).
pub proof fn law_literal_step_needs_no_listing(
    part: Seq<char>,
    bases: Seq<Seq<char>>,
    l1: Seq<Seq<Seq<char>>>,
    l2: Seq<Seq<Seq<char>>>,
)
    requires
        !has_meta_chars(part),
    ensures
        walk_step(part, bases, l1) == walk_step(part, bases, l2),
    decreases bases.len(),
{
    if bases.len() > 0 {
        law_literal_step_needs_no_listing(part, bases.drop_last(), l1, l2);
    }
}

/// Stepping through a pattern component keeps exactly the entries of the
/// directory that the component matches: a path comes out exactly when it
/// is that of a listed entry matching the component.
pub proof fn law_matching_entries(part: Seq<char>, d: Seq<char>, l: Seq<Seq<char>>, x: Seq<char>)
    ensures
        matching_paths(part, d, l).contains(x) <==> exists|i: int|
            0 <= i < l.len() && glob_matches(part, #[trigger] l[i]) && x == entry_path(d, l[i]),
    decreases l.len(),
{
    if l.len() > 0 {
        let init = l.drop_last();
        law_matching_entries(part, d, init, x);
        let m = matching_paths(part, d, init);
        let e = l.last();
        let tail: Seq<Seq<char>> = if glob_matches(part, e) {
            seq![entry_path(d, e)]
        } else {
            Seq::empty()
        };
        assert(matching_paths(part, d, l) == m + tail);
        if (m + tail).contains(x) {
            let k = choose|k: int| 0 <= k < (m + tail).len() && (m + tail)[k] == x;
            if k < m.len() {
                assert(m.contains(x));
                let i = choose|i: int|
                    0 <= i < init.len() && glob_matches(part, #[trigger] init[i]) && x == entry_path(
                        d,
                        init[i],
                    );
                assert(l[i] == init[i]);
            } else {
                assert(l[l.len() - 1] == e);
            }
        }
        if exists|i: int|
            0 <= i < l.len() && glob_matches(part, #[trigger] l[i]) && x == entry_path(d, l[i]) {
            let i = choose|i: int|
                0 <= i < l.len() && glob_matches(part, #[trigger] l[i]) && x == entry_path(d, l[i]);
            if i < l.len() - 1 {
                assert(init[i] == l[i]);
                assert(m.contains(x));
                let k = choose|k: int| 0 <= k < m.len() && m[k] == x;
                assert((m + tail)[k] == x);
            } else {
                assert((m + tail)[m.len() as int] == x);
            }
        }
    }
}

} // verus!
