use vstd::prelude::*;

use crate::text::{chars_of, push_char};

verus! {

/// Text after expansion, with one flag per unit of text telling whether
/// it came from a quoted part of the word.
pub struct Expanded {
    pub text: String,
    pub quoted: Vec<bool>,
}

/// The model of an expanded text: its characters and its flags.
pub type ExpandedV = (Seq<char>, Seq<bool>);

impl View for Expanded {
    type V = ExpandedV;

    open spec fn view(&self) -> ExpandedV {
        (self.text@, self.quoted@)
    }
}

pub open spec fn expanded_views(v: Seq<Expanded>) -> Seq<ExpandedV> {
    v.map_values(|e: Expanded| e@)
}

/// The field separators: blank, tab and newline.
pub open spec fn is_ifs_char(c: char) -> bool {
    c == ' ' || c == '\t' || c == '\n'
}

pub fn is_ifs(c: char) -> (r: bool)
    ensures
        r == is_ifs_char(c),
{
    c == ' ' || c == '\t' || c == '\n'
}

/// The flag of the `i`-th character; characters past the flags count as
/// unquoted.
pub open spec fn qflag(q: Seq<bool>, i: int) -> bool {
    if 0 <= i < q.len() {
        q[i]
    } else {
        false
    }
}

/// Splits the text from `i` on at unquoted separators, `cur` being the
/// field under way, `at_start` telling that no character of it is read.
pub open spec fn split_from(
    t: Seq<char>,
    q: Seq<bool>,
    i: int,
    cur: ExpandedV,
    at_start: bool,
    fields: Seq<ExpandedV>,
) -> Seq<ExpandedV>
    decreases t.len() - i,
{
    if i < 0 || i >= t.len() {
        if !at_start {
            fields.push(cur)
        } else if fields.len() == 0 {
            fields.push((Seq::empty(), Seq::empty()))
        } else {
            fields
        }
    } else if !qflag(q, i) && is_ifs_char(t[i]) {
        if !at_start {
            split_from(t, q, i + 1, (Seq::empty(), Seq::empty()), true, fields.push(cur))
        } else {
            split_from(t, q, i + 1, cur, true, fields)
        }
    } else {
        split_from(t, q, i + 1, (cur.0.push(t[i]), cur.1.push(qflag(q, i))), false, fields)
    }
}

/// The fields of an expanded text: its maximal runs of characters that
/// are not unquoted separators; one empty field when there is none.
pub open spec fn fields_of(e: ExpandedV) -> Seq<ExpandedV> {
    split_from(e.0, e.1, 0, (Seq::empty(), Seq::empty()), true, Seq::empty())
}

/// Splits an expanded text into fields at unquoted blanks, tabs and
/// newlines.
pub fn field_split(expanded: &Expanded) -> (r: Vec<Expanded>)
    ensures
        expanded_views(r@) == fields_of(expanded@),
{
    let ghost t = expanded.text@;
    let ghost q = expanded.quoted@;
    let mut fields: Vec<Expanded> = Vec::new();
    let mut cur_text = String::new();
    let mut cur_quoted: Vec<bool> = Vec::new();
    let mut at_field_start = true;
    let chars = chars_of(expanded.text.as_str());
    let n = chars.len();
    let mut i = 0usize;
    assert(expanded_views(fields@) =~= Seq::<ExpandedV>::empty());
    assert(cur_text@ =~= Seq::<char>::empty());
    assert(cur_quoted@ =~= Seq::<bool>::empty());

    while i < n
        invariant
            n == chars@.len(),
            chars@ == t,
            q == expanded.quoted@,
            i <= n,
            at_field_start ==> cur_text@ == Seq::<char>::empty() && cur_quoted@ == Seq::<
                bool,
            >::empty(),
            fields_of(expanded@) == split_from(
                t,
                q,
                i as int,
                (cur_text@, cur_quoted@),
                at_field_start,
                expanded_views(fields@),
            ),
        decreases n - i,
    {
        let c = chars[i];
        let is_q = if i < expanded.quoted.len() {
            expanded.quoted[i]
        } else {
            false
        };
        if !is_q && is_ifs(c) {
            if !at_field_start {
                let ghost before = expanded_views(fields@);
                let ghost cur = (cur_text@, cur_quoted@);
                let field = Expanded { text: cur_text, quoted: cur_quoted };
                fields.push(field);
                assert(expanded_views(fields@) =~= before.push(cur));
                cur_text = String::new();
                cur_quoted = Vec::new();
                at_field_start = true;
                assert(cur_text@ =~= Seq::<char>::empty());
                assert(cur_quoted@ =~= Seq::<bool>::empty());
            }
            i += 1;
            continue;
        }
        push_char(&mut cur_text, c);
        cur_quoted.push(is_q);
        at_field_start = false;
        i += 1;
    }

    if !at_field_start {
        let ghost before = expanded_views(fields@);
        let ghost cur = (cur_text@, cur_quoted@);
        fields.push(Expanded { text: cur_text, quoted: cur_quoted });
        assert(expanded_views(fields@) =~= before.push(cur));
    } else if fields.len() == 0 {
        let ghost before = expanded_views(fields@);
        fields.push(Expanded { text: String::new(), quoted: Vec::new() });
        assert(expanded_views(fields@) =~= before.push((Seq::<char>::empty(), Seq::<bool>::empty())));
    }
    fields
}

/// The flags of the characters from `i` to `j`, as splitting reads them.
pub open spec fn flags_between(q: Seq<bool>, i: int, j: int) -> Seq<bool> {
    Seq::new((j - i) as nat, |m: int| qflag(q, i + m))
}

proof fn lemma_no_separator(
    t: Seq<char>,
    q: Seq<bool>,
    i: int,
    cur: ExpandedV,
    fields: Seq<ExpandedV>,
)
    requires
        0 <= i < t.len(),
        forall|m: int| i <= m < t.len() ==> qflag(q, m) || !is_ifs_char(#[trigger] t[m]),
    ensures
        split_from(t, q, i, cur, false, fields) == fields.push(
            (cur.0 + t.subrange(i, t.len() as int), cur.1 + flags_between(q, i, t.len() as int)),
        ),
        split_from(t, q, i, (Seq::empty(), Seq::empty()), true, fields) == fields.push(
            (t.subrange(i, t.len() as int), flags_between(q, i, t.len() as int)),
        ),
    decreases t.len() - i,
{
    let n = t.len() as int;
    let cur2 = (cur.0.push(t[i]), cur.1.push(qflag(q, i)));
    let one = (seq![t[i]], seq![qflag(q, i)]);
    assert(!(!qflag(q, i) && is_ifs_char(t[i])));
    assert(Seq::<char>::empty().push(t[i]) =~= seq![t[i]]);
    assert(Seq::<bool>::empty().push(qflag(q, i)) =~= seq![qflag(q, i)]);
    assert(split_from(t, q, i, cur, false, fields) == split_from(t, q, i + 1, cur2, false, fields));
    assert(split_from(t, q, i, (Seq::empty(), Seq::empty()), true, fields) == split_from(
        t,
        q,
        i + 1,
        one,
        false,
        fields,
    ));
    let whole = (cur.0 + t.subrange(i, n), cur.1 + flags_between(q, i, n));
    let alone = (t.subrange(i, n), flags_between(q, i, n));
    assert(cur2.0 + t.subrange(i + 1, n) =~= whole.0);
    assert(cur2.1 + flags_between(q, i + 1, n) =~= whole.1);
    assert(one.0 + t.subrange(i + 1, n) =~= alone.0);
    assert(one.1 + flags_between(q, i + 1, n) =~= alone.1);
    if i + 1 < n {
        lemma_no_separator(t, q, i + 1, cur2, fields);
        lemma_no_separator(t, q, i + 1, one, fields);
        assert((cur2.0 + t.subrange(i + 1, n), cur2.1 + flags_between(q, i + 1, n)) == whole);
        assert((one.0 + t.subrange(i + 1, n), one.1 + flags_between(q, i + 1, n)) == alone);
    } else {
        assert(cur2.0 =~= whole.0);
        assert(cur2.1 =~= whole.1);
        assert(one.0 =~= alone.0);
        assert(one.1 =~= alone.1);
        assert(cur2 == whole);
        assert(one == alone);
    }
}

/// A non-empty text without an unquoted blank, tab or newline is one field,
/// the whole text.
pub proof fn law_text_without_separator_is_one_field(t: Seq<char>, q: Seq<bool>)
    requires
        t.len() > 0,
        forall|m: int| 0 <= m < t.len() ==> qflag(q, m) || !is_ifs_char(#[trigger] t[m]),
    ensures
        fields_of((t, q)) == seq![(t, flags_between(q, 0, t.len() as int))],
{
    lemma_no_separator(t, q, 0, (Seq::empty(), Seq::empty()), Seq::empty());
    assert(t.subrange(0, t.len() as int) =~= t);
    assert(Seq::<ExpandedV>::empty().push((t, flags_between(q, 0, t.len() as int))) =~= seq![
        (t, flags_between(q, 0, t.len() as int)),
    ]);
}


/// The characters that splitting keeps from `i` on: all but the unquoted
/// separators.
pub open spec fn kept_text(t: Seq<char>, q: Seq<bool>, i: int) -> Seq<char>
    decreases t.len() - i,
{
    if i < 0 || i >= t.len() {
        Seq::empty()
    } else if !qflag(q, i) && is_ifs_char(t[i]) {
        kept_text(t, q, i + 1)
    } else {
        seq![t[i]] + kept_text(t, q, i + 1)
    }
}

/// The flags of the characters that splitting keeps from `i` on.
pub open spec fn kept_flags(t: Seq<char>, q: Seq<bool>, i: int) -> Seq<bool>
    decreases t.len() - i,
{
    if i < 0 || i >= t.len() {
        Seq::empty()
    } else if !qflag(q, i) && is_ifs_char(t[i]) {
        kept_flags(t, q, i + 1)
    } else {
        seq![qflag(q, i)] + kept_flags(t, q, i + 1)
    }
}

/// The texts of the fields, one after the other.
pub open spec fn joined_text(fs: Seq<ExpandedV>) -> Seq<char>
    decreases fs.len(),
{
    if fs.len() == 0 {
        Seq::empty()
    } else {
        joined_text(fs.drop_last()) + fs.last().0
    }
}

/// The flags of the fields, one after the other.
pub open spec fn joined_flags(fs: Seq<ExpandedV>) -> Seq<bool>
    decreases fs.len(),
{
    if fs.len() == 0 {
        Seq::empty()
    } else {
        joined_flags(fs.drop_last()) + fs.last().1
    }
}

/// No character of the text is an unquoted separator.
pub open spec fn unsplit(f: ExpandedV) -> bool {
    forall|j: int| 0 <= j < f.0.len() ==> f.1[j] || !is_ifs_char(#[trigger] f.0[j])
}

/// A field as splitting yields it when the text holds more than
/// separators: not empty, one flag per character, no unquoted separator.
pub open spec fn proper_field(f: ExpandedV) -> bool {
    f.0.len() > 0 && f.0.len() == f.1.len() && unsplit(f)
}

proof fn lemma_split_from(
    t: Seq<char>,
    q: Seq<bool>,
    i: int,
    cur: ExpandedV,
    at_start: bool,
    fields: Seq<ExpandedV>,
)
    requires
        0 <= i <= t.len(),
        forall|k: int| 0 <= k < fields.len() ==> proper_field(#[trigger] fields[k]),
        cur.0.len() == cur.1.len(),
        unsplit(cur),
        at_start ==> cur == (Seq::<char>::empty(), Seq::<bool>::empty()),
        !at_start ==> cur.0.len() > 0,
    ensures
        ({
            let r = split_from(t, q, i, cur, at_start, fields);
            &&& r.len() >= 1
            &&& joined_text(r) == joined_text(fields) + cur.0 + kept_text(t, q, i)
            &&& joined_flags(r) == joined_flags(fields) + cur.1 + kept_flags(t, q, i)
            &&& (fields.len() > 0 || !at_start || kept_text(t, q, i).len() > 0) ==> forall|k: int|
                0 <= k < r.len() ==> proper_field(#[trigger] r[k])
            &&& (fields.len() == 0 && at_start && kept_text(t, q, i).len() == 0) ==> r == seq![
                (Seq::<char>::empty(), Seq::<bool>::empty()),
            ]
        }),
    decreases t.len() - i,
{
    let e = (Seq::<char>::empty(), Seq::<bool>::empty());
    if i >= t.len() {
        if !at_start {
            let r = fields.push(cur);
            assert(r.drop_last() =~= fields);
            assert forall|k: int| 0 <= k < r.len() implies proper_field(#[trigger] r[k]) by {
                if k < fields.len() {
                    assert(r[k] == fields[k]);
                }
            }
        } else if fields.len() == 0 {
            let r = fields.push(e);
            assert(r.drop_last() =~= fields);
            assert(r =~= seq![e]);
        }
        assert(cur.0 + kept_text(t, q, i) =~= cur.0);
        assert(cur.1 + kept_flags(t, q, i) =~= cur.1);
        assert(joined_text(fields) + cur.0 =~= joined_text(fields) + cur.0 + Seq::<char>::empty());
        assert(joined_flags(fields) + cur.1 =~= joined_flags(fields) + cur.1 + Seq::<bool>::empty());
        if at_start {
            assert(joined_text(fields) + cur.0 =~= joined_text(fields));
            assert(joined_flags(fields) + cur.1 =~= joined_flags(fields));
        }
    } else if !qflag(q, i) && is_ifs_char(t[i]) {
        if !at_start {
            let f2 = fields.push(cur);
            assert(f2.drop_last() =~= fields);
            assert forall|k: int| 0 <= k < f2.len() implies proper_field(#[trigger] f2[k]) by {
                if k < fields.len() {
                    assert(f2[k] == fields[k]);
                }
            }
            assert(unsplit(e));
            lemma_split_from(t, q, i + 1, e, true, f2);
            assert(joined_text(f2) + e.0 =~= joined_text(fields) + cur.0);
            assert(joined_flags(f2) + e.1 =~= joined_flags(fields) + cur.1);
        } else {
            lemma_split_from(t, q, i + 1, cur, true, fields);
        }
    } else {
        let cur2 = (cur.0.push(t[i]), cur.1.push(qflag(q, i)));
        assert forall|j: int| 0 <= j < cur2.0.len() implies cur2.1[j] || !is_ifs_char(
            #[trigger] cur2.0[j],
        ) by {
            if j < cur.0.len() {
                assert(cur2.0[j] == cur.0[j]);
                assert(cur2.1[j] == cur.1[j]);
            }
        }
        lemma_split_from(t, q, i + 1, cur2, false, fields);
        assert(cur2.0 + kept_text(t, q, i + 1) =~= cur.0 + kept_text(t, q, i));
        assert(cur2.1 + kept_flags(t, q, i + 1) =~= cur.1 + kept_flags(t, q, i));
        assert(joined_text(fields) + cur2.0 + kept_text(t, q, i + 1) =~= joined_text(fields)
            + cur.0 + kept_text(t, q, i));
        assert(joined_flags(fields) + cur2.1 + kept_flags(t, q, i + 1) =~= joined_flags(fields)
            + cur.1 + kept_flags(t, q, i));
    }
}

/// Splitting drops exactly the unquoted blanks, tabs and newlines: the
/// fields, one after the other, give back the other characters with their
/// flags, in order. It never yields an empty list: a text of separators
/// alone gives one empty field, and any other text gives fields that are
/// non-empty, carry one flag per character and hold no unquoted separator.
pub proof fn law_field_split(t: Seq<char>, q: Seq<bool>)
    ensures
        ({
            let fs = fields_of((t, q));
            &&& fs.len() >= 1
            &&& joined_text(fs) == kept_text(t, q, 0)
            &&& joined_flags(fs) == kept_flags(t, q, 0)
            &&& kept_text(t, q, 0).len() == 0 ==> fs == seq![
                (Seq::<char>::empty(), Seq::<bool>::empty()),
            ]
            &&& kept_text(t, q, 0).len() > 0 ==> forall|k: int|
                0 <= k < fs.len() ==> proper_field(#[trigger] fs[k])
        }),
{
    let e = (Seq::<char>::empty(), Seq::<bool>::empty());
    assert(unsplit(e));
    lemma_split_from(t, q, 0, e, true, Seq::empty());
    assert(joined_text(Seq::<ExpandedV>::empty()) + e.0 + kept_text(t, q, 0) =~= kept_text(t, q, 0));
    assert(joined_flags(Seq::<ExpandedV>::empty()) + e.1 + kept_flags(t, q, 0) =~= kept_flags(
        t,
        q,
        0,
    ));
}

proof fn lemma_split_shift(
    t: Seq<char>,
    q: Seq<bool>,
    d: int,
    i: int,
    cur: ExpandedV,
    at_start: bool,
    fields: Seq<ExpandedV>,
)
    requires
        0 <= d <= i <= t.len(),
        q.len() == t.len(),
    ensures
        split_from(t, q, i, cur, at_start, fields) == split_from(
            t.subrange(d, t.len() as int),
            q.subrange(d, q.len() as int),
            i - d,
            cur,
            at_start,
            fields,
        ),
    decreases t.len() - i,
{
    let t2 = t.subrange(d, t.len() as int);
    let q2 = q.subrange(d, q.len() as int);
    if i < t.len() {
        assert(t2[i - d] == t[i]);
        assert(qflag(q2, i - d) == qflag(q, i));
        lemma_split_shift(t, q, d, i + 1, (Seq::empty(), Seq::empty()), true, fields.push(cur));
        lemma_split_shift(t, q, d, i + 1, cur, true, fields);
        lemma_split_shift(
            t,
            q,
            d,
            i + 1,
            (cur.0.push(t[i]), cur.1.push(qflag(q, i))),
            false,
            fields,
        );
    }
}

/// What splitting adds after the fields already there.
pub open spec fn split_tail(
    t: Seq<char>,
    q: Seq<bool>,
    i: int,
    cur: ExpandedV,
    at_start: bool,
) -> Seq<ExpandedV> {
    if at_start && kept_text(t, q, i).len() == 0 {
        Seq::empty()
    } else {
        split_from(t, q, i, cur, at_start, Seq::empty())
    }
}

proof fn lemma_split_prefix(
    t: Seq<char>,
    q: Seq<bool>,
    i: int,
    cur: ExpandedV,
    at_start: bool,
    fields: Seq<ExpandedV>,
)
    requires
        0 <= i <= t.len(),
        fields.len() > 0,
    ensures
        split_from(t, q, i, cur, at_start, fields) == fields + split_tail(t, q, i, cur, at_start),
    decreases t.len() - i,
{
    let e = (Seq::<char>::empty(), Seq::<bool>::empty());
    let none = Seq::<ExpandedV>::empty();
    if i >= t.len() {
        if !at_start {
            assert(fields.push(cur) =~= fields + none.push(cur));
        } else {
            assert(fields =~= fields + Seq::<ExpandedV>::empty());
        }
    } else if !qflag(q, i) && is_ifs_char(t[i]) {
        if !at_start {
            lemma_split_prefix(t, q, i + 1, e, true, fields.push(cur));
            lemma_split_prefix(t, q, i + 1, e, true, none.push(cur));
            assert(fields.push(cur) + split_tail(t, q, i + 1, e, true) =~= fields + (none.push(cur)
                + split_tail(t, q, i + 1, e, true)));
        } else {
            lemma_split_prefix(t, q, i + 1, cur, true, fields);
        }
    } else {
        let cur2 = (cur.0.push(t[i]), cur.1.push(qflag(q, i)));
        lemma_split_prefix(t, q, i + 1, cur2, false, fields);
    }
}

proof fn lemma_split_run(
    t: Seq<char>,
    q: Seq<bool>,
    i: int,
    m: int,
    cur: ExpandedV,
    at_start: bool,
    fields: Seq<ExpandedV>,
)
    requires
        0 <= i < m <= t.len(),
        forall|j: int| i <= j < m ==> qflag(q, j) || !is_ifs_char(#[trigger] t[j]),
    ensures
        split_from(t, q, i, cur, at_start, fields) == split_from(
            t,
            q,
            m,
            (cur.0 + t.subrange(i, m), cur.1 + flags_between(q, i, m)),
            false,
            fields,
        ),
    decreases m - i,
{
    let cur2 = (cur.0.push(t[i]), cur.1.push(qflag(q, i)));
    assert(cur2.0 + t.subrange(i + 1, m) =~= cur.0 + t.subrange(i, m));
    assert(cur2.1 + flags_between(q, i + 1, m) =~= cur.1 + flags_between(q, i, m));
    if i + 1 < m {
        lemma_split_run(t, q, i + 1, m, cur2, false, fields);
    } else {
        assert(cur2.0 =~= cur.0 + t.subrange(i, m));
        assert(cur2.1 =~= cur.1 + flags_between(q, i, m));
    }
}

/// An unquoted separator at the start of a text makes no field: the text
/// splits as the rest of it does.
pub proof fn law_leading_separator_is_dropped(t: Seq<char>, q: Seq<bool>)
    requires
        t.len() > 0,
        q.len() == t.len(),
        !q[0] && is_ifs_char(t[0]),
    ensures
        fields_of((t, q)) == fields_of((t.drop_first(), q.drop_first())),
{
    let e = (Seq::<char>::empty(), Seq::<bool>::empty());
    lemma_split_shift(t, q, 1, 1, e, true, Seq::empty());
    assert(t.subrange(1, t.len() as int) =~= t.drop_first());
    assert(q.subrange(1, q.len() as int) =~= q.drop_first());
}

/// A run of characters without an unquoted separator, followed by an
/// unquoted separator, is a whole field: the first one, before the fields
/// of the rest of the text (when the rest holds more than separators).
/// With the laws above, this fixes the fields of every text: they are its
/// maximal runs without an unquoted separator, in order.
pub proof fn law_first_run_is_a_field(
    w: Seq<char>,
    qw: Seq<bool>,
    c: char,
    qc: bool,
    r: Seq<char>,
    qr: Seq<bool>,
)
    requires
        w.len() > 0,
        qw.len() == w.len(),
        unsplit((w, qw)),
        !qc && is_ifs_char(c),
        qr.len() == r.len(),
    ensures
        fields_of((w + seq![c] + r, qw + seq![qc] + qr)) == if kept_text(r, qr, 0).len() == 0 {
            seq![(w, qw)]
        } else {
            seq![(w, qw)] + fields_of((r, qr))
        },
{
    let t = w + seq![c] + r;
    let q = qw + seq![qc] + qr;
    let m = w.len() as int;
    let e = (Seq::<char>::empty(), Seq::<bool>::empty());
    let none = Seq::<ExpandedV>::empty();
    assert forall|j: int| 0 <= j < m implies qflag(q, j) || !is_ifs_char(#[trigger] t[j]) by {
        assert(t[j] == w[j] && q[j] == qw[j]);
        assert((w, qw).0[j] == w[j]);
        assert(qw[j] || !is_ifs_char(w[j]));
    }
    lemma_split_run(t, q, 0, m, e, true, none);
    assert(t.subrange(0, m) =~= w);
    assert(flags_between(q, 0, m) =~= qw);
    assert(e.0 + w =~= w);
    assert(e.1 + qw =~= qw);
    assert(t[m] == c && qflag(q, m) == qc);
    let one = none.push((w, qw));
    assert(one =~= seq![(w, qw)]);
    lemma_split_prefix(t, q, m + 1, e, true, one);
    lemma_split_shift(t, q, m + 1, m + 1, e, true, none);
    assert(t.subrange(m + 1, t.len() as int) =~= r);
    assert(q.subrange(m + 1, q.len() as int) =~= qr);
    lemma_kept_shift(t, q, m + 1, m + 1);
}

proof fn lemma_kept_shift(t: Seq<char>, q: Seq<bool>, d: int, i: int)
    requires
        0 <= d <= i <= t.len(),
        q.len() == t.len(),
    ensures
        kept_text(t, q, i) == kept_text(
            t.subrange(d, t.len() as int),
            q.subrange(d, q.len() as int),
            i - d,
        ),
    decreases t.len() - i,
{
    if i < t.len() {
        let t2 = t.subrange(d, t.len() as int);
        let q2 = q.subrange(d, q.len() as int);
        assert(t2[i - d] == t[i]);
        assert(qflag(q2, i - d) == qflag(q, i));
        lemma_kept_shift(t, q, d, i + 1);
    }
}

/// Two words of letters with a blank, a tab or a newline between them,
/// none of it quoted, split into the two words.
pub proof fn law_two_words_split(w1: Seq<char>, w2: Seq<char>, c: char)
    requires
        w1.len() > 0,
        w2.len() > 0,
        forall|j: int| 0 <= j < w1.len() ==> crate::lexer::is_alpha(#[trigger] w1[j]),
        forall|j: int| 0 <= j < w2.len() ==> crate::lexer::is_alpha(#[trigger] w2[j]),
        c == ' ' || c == '\t' || c == '\n',
    ensures
        fields_of((w1 + seq![c] + w2, flags_between(Seq::empty(), 0, (w1.len() + 1 + w2.len()) as int)))
            == seq![
            (w1, flags_between(Seq::empty(), 0, w1.len() as int)),
            (w2, flags_between(Seq::empty(), 0, w2.len() as int)),
        ],
{
    let q1 = flags_between(Seq::<bool>::empty(), 0, w1.len() as int);
    let q2 = flags_between(Seq::<bool>::empty(), 0, w2.len() as int);
    let q = flags_between(Seq::<bool>::empty(), 0, (w1.len() + 1 + w2.len()) as int);
    assert(q =~= q1 + seq![false] + q2);
    assert(unsplit((w1, q1))) by {
        assert forall|j: int| 0 <= j < w1.len() implies q1[j] || !is_ifs_char(#[trigger] w1[j]) by {
            assert(crate::lexer::is_alpha(w1[j]));
        }
    }
    law_first_run_is_a_field(w1, q1, c, false, w2, q2);
    assert forall|m: int| 0 <= m < w2.len() implies qflag(q2, m) || !is_ifs_char(#[trigger] w2[m]) by {
        assert(crate::lexer::is_alpha(w2[m]));
    }
    law_text_without_separator_is_one_field(w2, q2);
    assert(flags_between(q2, 0, w2.len() as int) =~= q2);
    assert(kept_text(w2, q2, 0).len() > 0) by {
        assert(crate::lexer::is_alpha(w2[0]));
        assert(!is_ifs_char(w2[0]));
    }
}

} // verus!
