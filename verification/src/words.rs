use vstd::prelude::*;

use crate::arith::{EnvV, env_of};
use crate::ast::strings_view;
use crate::braces::{brace_expand, brace_safe, brace_words};
use crate::error::{ErrorV, ShellError};
use crate::fields::{Expanded, ExpandedV, expanded_views, field_split, fields_of};
use crate::shell::Shell;
use crate::text::chars_of;
use crate::variant::{
    VarStepV, VariantStep, expand_variant, expand_variant_spec, law_extra_outputs_are_not_read,
};

verus! {

/// The text holds a glob wildcard: `*`, `?` or `[`.
pub open spec fn has_meta_chars(s: Seq<char>) -> bool {
    s.contains('*') || s.contains('?') || s.contains('[')
}

/// Tells whether a text holds a glob wildcard.
pub fn has_meta(s: &str) -> (r: bool)
    ensures
        r == has_meta_chars(s@),
{
    let chars = chars_of(s);
    let mut i: usize = 0;
    while i < chars.len()
        invariant
            i <= chars@.len(),
            chars@ == s@,
            forall|j: int| 0 <= j < i ==> chars@[j] != '*' && chars@[j] != '?' && chars@[j] != '[',
        decreases chars@.len() - i,
    {
        let c = chars[i];
        if c == '*' || c == '?' || c == '[' {
            assert(s@[i as int] == c);
            return true;
        }
        i += 1;
    }
    false
}

/// A field of an expanded word: a finished word, or a pattern that glob
/// expansion may replace by the paths it matches.
pub enum Field {
    Word(String),
    Pattern(String),
}

/// A field as a flag telling whether it is a pattern, and its text.
pub type FieldV = (bool, Seq<char>);

pub open spec fn field_view(f: Field) -> FieldV {
    match f {
        Field::Word(t) => (false, t@),
        Field::Pattern(t) => (true, t@),
    }
}

pub open spec fn fields_view(v: Seq<Field>) -> Seq<FieldV> {
    v.map_values(|f: Field| field_view(f))
}

pub open spec fn all_quoted(q: Seq<bool>) -> bool {
    forall|i: int| 0 <= i < q.len() ==> q[i]
}

/// A field is a pattern when globbing is on, some character of it is
/// unquoted, and it holds a wildcard.
pub open spec fn classify(e: ExpandedV, do_glob: bool) -> FieldV {
    (do_glob && !all_quoted(e.1) && has_meta_chars(e.0), e.0)
}

pub open spec fn classify_all(fs: Seq<ExpandedV>, do_glob: bool) -> Seq<FieldV> {
    fs.map_values(|e: ExpandedV| classify(e, do_glob))
}

/// The outcome of expanding words: the fields with the number of
/// substitution outputs used, the command of a substitution whose output
/// is needed first, or an error.
pub enum WordsV {
    Done(Seq<FieldV>, int),
    Need(Seq<char>),
    Fail(ErrorV),
}

/// Expands the brace variants from the `j`-th on after the fields `acc`.
pub open spec fn variants_fields(
    vs: Seq<Seq<char>>,
    j: int,
    env: EnvV,
    subs: Seq<Seq<char>>,
    k: int,
    do_glob: bool,
    acc: Seq<FieldV>,
) -> WordsV
    decreases vs.len() - j,
{
    if j < 0 || j >= vs.len() {
        WordsV::Done(acc, k)
    } else {
        match expand_variant_spec(vs[j], env, subs, k) {
            VarStepV::Fail(e) => WordsV::Fail(e),
            VarStepV::Need(x) => WordsV::Need(x),
            VarStepV::Done(t, q, k2) => variants_fields(
                vs,
                j + 1,
                env,
                subs,
                k2,
                do_glob,
                acc + classify_all(fields_of((t, q)), do_glob),
            ),
        }
    }
}

/// The fields of a word after the fields `acc`: its brace variants, each
/// expanded and split into fields.
pub open spec fn word_fields(
    raw: Seq<char>,
    env: EnvV,
    subs: Seq<Seq<char>>,
    k: int,
    do_glob: bool,
    acc: Seq<FieldV>,
) -> WordsV {
    variants_fields(brace_words(raw), 0, env, subs, k, do_glob, acc)
}

/// The fields of the words from the `i`-th on; the first word of the list
/// is not globbed.
pub open spec fn wordlist_fields(
    words: Seq<Seq<char>>,
    i: int,
    env: EnvV,
    subs: Seq<Seq<char>>,
    k: int,
    acc: Seq<FieldV>,
) -> WordsV
    decreases words.len() - i,
{
    if i < 0 || i >= words.len() {
        WordsV::Done(acc, k)
    } else {
        match word_fields(words[i], env, subs, k, i != 0, acc) {
            WordsV::Done(acc2, k2) => wordlist_fields(words, i + 1, env, subs, k2, acc2),
            other => other,
        }
    }
}

pub open spec fn words_safe(words: Seq<Seq<char>>) -> bool {
    forall|i: int| 0 <= i < words.len() ==> #[trigger] brace_safe(words[i])
}

/// Tells whether every character of a field is quoted.
fn all_quoted_flags(q: &Vec<bool>) -> (r: bool)
    ensures
        r == all_quoted(q@),
{
    let mut i: usize = 0;
    while i < q.len()
        invariant
            i <= q@.len(),
            forall|j: int| 0 <= j < i ==> q@[j],
        decreases q@.len() - i,
    {
        if !q[i] {
            return false;
        }
        i += 1;
    }
    true
}

fn classify_field(e: &Expanded, do_glob: bool) -> (r: Field)
    ensures
        field_view(r) == classify(e@, do_glob),
{
    if !do_glob || all_quoted_flags(&e.quoted) {
        Field::Word(e.text.clone())
    } else if has_meta(e.text.as_str()) {
        Field::Pattern(e.text.clone())
    } else {
        Field::Word(e.text.clone())
    }
}

fn push_classified(fields: &Vec<Expanded>, do_glob: bool, out: &mut Vec<Field>)
    ensures
        fields_view(final(out)@) == fields_view(old(out)@) + classify_all(
            expanded_views(fields@),
            do_glob,
        ),
{
    let ghost out0 = fields_view(out@);
    let mut i: usize = 0;
    while i < fields.len()
        invariant
            i <= fields@.len(),
            fields_view(out@) == out0 + classify_all(
                expanded_views(fields@).take(i as int),
                do_glob,
            ),
        decreases fields@.len() - i,
    {
        let f = classify_field(&fields[i], do_glob);
        let ghost before = fields_view(out@);
        out.push(f);
        assert(fields_view(out@) =~= before.push(field_view(f)));
        assert(expanded_views(fields@).take(i + 1) =~= expanded_views(fields@).take(i as int).push(
            fields@[i as int]@,
        ));
        assert(classify_all(expanded_views(fields@).take(i + 1), do_glob) =~= classify_all(
            expanded_views(fields@).take(i as int),
            do_glob,
        ).push(classify(fields@[i as int]@, do_glob)));
        i += 1;
    }
    assert(expanded_views(fields@).take(i as int) =~= expanded_views(fields@));
}

/// How far the expansion of a word went: the number of substitution
/// outputs used in all, or a substitution whose output is needed.
enum Progress {
    Used(usize),
    NeedSubstitution(String),
}

spec fn progress_view(r: Result<Progress, ShellError>, out: Seq<Field>) -> WordsV {
    match r {
        Ok(Progress::Used(k)) => WordsV::Done(fields_view(out), k as int),
        Ok(Progress::NeedSubstitution(x)) => WordsV::Need(x@),
        Err(e) => WordsV::Fail(e@),
    }
}

fn expand_word_into(
    raw: &str,
    shell: &Shell,
    subs: &Vec<String>,
    start: usize,
    do_glob: bool,
    out: &mut Vec<Field>,
) -> (r: Result<Progress, ShellError>)
    requires
        brace_safe(raw@),
        start <= subs@.len(),
    ensures
        word_fields(
            raw@,
            env_of(shell),
            strings_view(subs@),
            start as int,
            do_glob,
            fields_view(old(out)@),
        ) == progress_view(r, final(out)@),
        r matches Ok(Progress::Used(k)) ==> start <= k <= subs@.len(),
{
    let variants = brace_expand(raw);
    let ghost vs = strings_view(variants@);
    let ghost env = env_of(shell);
    let ghost sv = strings_view(subs@);
    let ghost goal = word_fields(raw@, env, sv, start as int, do_glob, fields_view(out@));
    let mut k = start;
    let mut j: usize = 0;
    while j < variants.len()
        invariant
            vs == strings_view(variants@),
            env == env_of(shell),
            sv == strings_view(subs@),
            j <= variants@.len(),
            start <= k <= subs@.len(),
            goal == word_fields(raw@, env, sv, start as int, do_glob, fields_view(old(out)@)),
            goal == variants_fields(vs, j as int, env, sv, k as int, do_glob, fields_view(out@)),
        decreases variants@.len() - j,
    {
        match expand_variant(variants[j].as_str(), shell, subs, k) {
            Err(e) => return Err(e),
            Ok(VariantStep::NeedSubstitution(x)) => return Ok(Progress::NeedSubstitution(x)),
            Ok(VariantStep::Done(e, k2)) => {
                let fields = field_split(&e);
                push_classified(&fields, do_glob, out);
                k = k2;
            },
        }
        j += 1;
    }
    Ok(Progress::Used(k))
}

/// The fields of a word, or the command of a command substitution whose
/// output is needed first.
pub enum WordStep {
    Done(Vec<Field>),
    NeedSubstitution(String),
}

/// What a step of expansion promises against the model of the expansion.
pub open spec fn word_step_matches(r: Result<WordStep, ShellError>, w: WordsV) -> bool {
    match r {
        Ok(WordStep::Done(v)) => w matches WordsV::Done(fs, _) && fs == fields_view(v@),
        Ok(WordStep::NeedSubstitution(x)) => w == WordsV::Need(x@),
        Err(e) => w == WordsV::Fail(e@),
    }
}

fn finish(r: Result<Progress, ShellError>, out: Vec<Field>) -> (s: Result<WordStep, ShellError>)
    ensures
        word_step_matches(s, progress_view(r, out@)),
{
    match r {
        Ok(Progress::Used(_)) => Ok(WordStep::Done(out)),
        Ok(Progress::NeedSubstitution(x)) => Ok(WordStep::NeedSubstitution(x)),
        Err(e) => Err(e),
    }
}

/// Expands a word into fields, marking the fields to glob. `subs` holds
/// the outputs of its first command substitutions, in order; when a
/// substitution beyond them is met, its command comes back instead, to be
/// run and its output added for the next call.
pub fn expand_word(raw: &str, shell: &Shell, subs: &Vec<String>) -> (r: Result<
    WordStep,
    ShellError,
>)
    requires
        brace_safe(raw@),
    ensures
        word_step_matches(
            r,
            word_fields(raw@, env_of(shell), strings_view(subs@), 0, true, Seq::empty()),
        ),
{
    let mut out: Vec<Field> = Vec::new();
    assert(fields_view(out@) =~= Seq::<FieldV>::empty());
    let r = expand_word_into(raw, shell, subs, 0, true, &mut out);
    finish(r, out)
}

/// Expands the word in command position: as `expand_word`, but no field
/// is globbed.
pub fn expand_cmd_word(raw: &str, shell: &Shell, subs: &Vec<String>) -> (r: Result<
    WordStep,
    ShellError,
>)
    requires
        brace_safe(raw@),
    ensures
        word_step_matches(
            r,
            word_fields(raw@, env_of(shell), strings_view(subs@), 0, false, Seq::empty()),
        ),
{
    let mut out: Vec<Field> = Vec::new();
    assert(fields_view(out@) =~= Seq::<FieldV>::empty());
    let r = expand_word_into(raw, shell, subs, 0, false, &mut out);
    finish(r, out)
}

/// Expands a list of words (a command's arguments, a `for` word list): the
/// first as a command word, the others with globbing; `subs` as for
/// `expand_word`, shared by the words in turn.
pub fn expand_wordlist(words: &Vec<String>, shell: &Shell, subs: &Vec<String>) -> (r: Result<
    WordStep,
    ShellError,
>)
    requires
        words_safe(strings_view(words@)),
    ensures
        word_step_matches(
            r,
            wordlist_fields(
                strings_view(words@),
                0,
                env_of(shell),
                strings_view(subs@),
                0,
                Seq::empty(),
            ),
        ),
{
    let ghost ws = strings_view(words@);
    let ghost env = env_of(shell);
    let ghost sv = strings_view(subs@);
    let mut out: Vec<Field> = Vec::new();
    assert(fields_view(out@) =~= Seq::<FieldV>::empty());
    let ghost goal = wordlist_fields(ws, 0, env, sv, 0, fields_view(out@));
    let mut k: usize = 0;
    let mut i: usize = 0;
    while i < words.len()
        invariant
            ws == strings_view(words@),
            words_safe(ws),
            env == env_of(shell),
            sv == strings_view(subs@),
            i <= words@.len(),
            k <= subs@.len(),
            goal == wordlist_fields(ws, 0, env, sv, 0, Seq::empty()),
            goal == wordlist_fields(ws, i as int, env, sv, k as int, fields_view(out@)),
        decreases words@.len() - i,
    {
        assert(brace_safe(ws[i as int]));
        let r = expand_word_into(words[i].as_str(), shell, subs, k, i != 0, &mut out);
        match r {
            Ok(Progress::Used(k2)) => {
                k = k2;
            },
            _ => {
                return finish(r, out);
            },
        }
        i += 1;
    }
    Ok(WordStep::Done(out))
}

/// The words of expanded fields once glob expansion has given, for each
/// field, the paths it matched: a pattern that matched nothing stays as it
/// is.
pub open spec fn assembled(fs: Seq<FieldV>, gs: Seq<Seq<Seq<char>>>) -> Seq<Seq<char>>
    decreases fs.len(),
{
    if fs.len() == 0 {
        Seq::empty()
    } else {
        let n = fs.len() - 1;
        assembled(fs.drop_last(), gs) + if fs[n].0 && n < gs.len() && gs[n].len() > 0 {
            gs[n]
        } else {
            seq![fs[n].1]
        }
    }
}

/// Puts together the words of expanded fields; `globbed[i]` holds the
/// paths that the `i`-th field matched when it is a pattern.
pub fn assemble_fields(fields: Vec<Field>, globbed: &Vec<Vec<String>>) -> (r: Vec<String>)
    ensures
        strings_view(r@) == assembled(
            fields_view(fields@),
            globbed@.map_values(|g: Vec<String>| strings_view(g@)),
        ),
{
    let ghost fs = fields_view(fields@);
    let ghost gs = globbed@.map_values(|g: Vec<String>| strings_view(g@));
    let mut out: Vec<String> = Vec::new();
    let mut i: usize = 0;
    assert(strings_view(out@) =~= assembled(fs.take(0), gs));
    while i < fields.len()
        invariant
            fs == fields_view(fields@),
            gs == globbed@.map_values(|g: Vec<String>| strings_view(g@)),
            i <= fields@.len(),
            strings_view(out@) == assembled(fs.take(i as int), gs),
        decreases fields@.len() - i,
    {
        let ghost before = strings_view(out@);
        assert(fs.take(i + 1).drop_last() =~= fs.take(i as int));
        match &fields[i] {
            Field::Word(t) => {
                out.push(t.clone());
                assert(strings_view(out@) =~= before + seq![t@]);
            },
            Field::Pattern(t) => {
                if i < globbed.len() && globbed[i].len() > 0 {
                    let g = &globbed[i];
                    let mut j: usize = 0;
                    while j < g.len()
                        invariant
                            j <= g@.len(),
                            strings_view(out@) == before + strings_view(g@).take(j as int),
                        decreases g@.len() - j,
                    {
                        let ghost b2 = strings_view(out@);
                        out.push(g[j].clone());
                        assert(strings_view(out@) =~= b2.push(g@[j as int]@));
                        assert(strings_view(g@).take(j + 1) =~= strings_view(g@).take(
                            j as int,
                        ).push(g@[j as int]@));
                        j += 1;
                    }
                    assert(strings_view(g@).take(j as int) =~= strings_view(g@));
                    assert(gs[i as int] == strings_view(g@));
                } else {
                    out.push(t.clone());
                    assert(strings_view(out@) =~= before + seq![t@]);
                }
            },
        }
        i += 1;
    }
    assert(fs.take(i as int) =~= fs);
    out
}

proof fn lemma_variants_extend(
    vs: Seq<Seq<char>>,
    j: int,
    env: EnvV,
    subs: Seq<Seq<char>>,
    more: Seq<Seq<char>>,
    k: int,
    do_glob: bool,
    acc: Seq<FieldV>,
)
    requires
        !(variants_fields(vs, j, env, subs, k, do_glob, acc) is Need),
    ensures
        variants_fields(vs, j, env, subs + more, k, do_glob, acc) == variants_fields(
            vs,
            j,
            env,
            subs,
            k,
            do_glob,
            acc,
        ),
    decreases vs.len() - j,
{
    if 0 <= j < vs.len() {
        if !(expand_variant_spec(vs[j], env, subs, k) is Need) {
            law_extra_outputs_are_not_read(vs[j], env, subs, more, k);
            if let VarStepV::Done(t, q, k2) = expand_variant_spec(vs[j], env, subs, k) {
                lemma_variants_extend(
                    vs,
                    j + 1,
                    env,
                    subs,
                    more,
                    k2,
                    do_glob,
                    acc + classify_all(fields_of((t, q)), do_glob),
                );
            }
        }
    }
}

proof fn lemma_wordlist_extend(
    words: Seq<Seq<char>>,
    i: int,
    env: EnvV,
    subs: Seq<Seq<char>>,
    more: Seq<Seq<char>>,
    k: int,
    acc: Seq<FieldV>,
)
    requires
        !(wordlist_fields(words, i, env, subs, k, acc) is Need),
    ensures
        wordlist_fields(words, i, env, subs + more, k, acc) == wordlist_fields(
            words,
            i,
            env,
            subs,
            k,
            acc,
        ),
    decreases words.len() - i,
{
    if 0 <= i < words.len() {
        let w = word_fields(words[i], env, subs, k, i != 0, acc);
        if !(w is Need) {
            lemma_variants_extend(brace_words(words[i]), 0, env, subs, more, k, i != 0, acc);
            if let WordsV::Done(acc2, k2) = w {
                lemma_wordlist_extend(words, i + 1, env, subs, more, k2, acc2);
            }
        }
    }
}

/// Substitution outputs beyond those a list of words uses change nothing:
/// once its expansion needs no further output, more outputs give the same
/// fields. So the outputs can be gathered one call at a time.
pub proof fn law_wordlist_ignores_extra_outputs(
    words: Seq<Seq<char>>,
    env: EnvV,
    subs: Seq<Seq<char>>,
    more: Seq<Seq<char>>,
)
    requires
        !(wordlist_fields(words, 0, env, subs, 0, Seq::empty()) is Need),
    ensures
        wordlist_fields(words, 0, env, subs + more, 0, Seq::empty()) == wordlist_fields(
            words,
            0,
            env,
            subs,
            0,
            Seq::empty(),
        ),
{
    lemma_wordlist_extend(words, 0, env, subs, more, 0, Seq::empty());
}

/// The same for a single word.
pub proof fn law_word_ignores_extra_outputs(
    raw: Seq<char>,
    env: EnvV,
    subs: Seq<Seq<char>>,
    more: Seq<Seq<char>>,
    do_glob: bool,
)
    requires
        !(word_fields(raw, env, subs, 0, do_glob, Seq::empty()) is Need),
    ensures
        word_fields(raw, env, subs + more, 0, do_glob, Seq::empty()) == word_fields(
            raw,
            env,
            subs,
            0,
            do_glob,
            Seq::empty(),
        ),
{
    lemma_variants_extend(brace_words(raw), 0, env, subs, more, 0, do_glob, Seq::empty());
}

pub open spec fn no_pattern(fs: Seq<FieldV>) -> bool {
    forall|i: int| 0 <= i < fs.len() ==> !(#[trigger] fs[i]).0
}

proof fn lemma_variants_no_pattern(
    vs: Seq<Seq<char>>,
    j: int,
    env: EnvV,
    subs: Seq<Seq<char>>,
    k: int,
    acc: Seq<FieldV>,
)
    requires
        no_pattern(acc),
    ensures
        variants_fields(vs, j, env, subs, k, false, acc) matches WordsV::Done(fs, _) ==> no_pattern(
            fs,
        ),
    decreases vs.len() - j,
{
    if 0 <= j < vs.len() {
        if let VarStepV::Done(t, q, k2) = expand_variant_spec(vs[j], env, subs, k) {
            let add = classify_all(fields_of((t, q)), false);
            let acc2 = acc + add;
            assert forall|i: int| 0 <= i < acc2.len() implies !(#[trigger] acc2[i]).0 by {
                if i >= acc.len() {
                    assert(acc2[i] == add[i - acc.len()]);
                } else {
                    assert(acc2[i] == acc[i]);
                }
            }
            lemma_variants_no_pattern(vs, j + 1, env, subs, k2, acc2);
        }
    }
}

/// A word in command position is never globbed: none of its fields is a
/// pattern; each is its expansion as it is.
pub proof fn law_command_word_has_no_pattern(
    raw: Seq<char>,
    env: EnvV,
    subs: Seq<Seq<char>>,
)
    ensures
        word_fields(raw, env, subs, 0, false, Seq::empty()) matches WordsV::Done(fs, _)
            ==> no_pattern(fs),
{
    lemma_variants_no_pattern(brace_words(raw), 0, env, subs, 0, Seq::empty());
}


/// The fields with every pattern mark taken off.
pub open spec fn unmarked(fs: Seq<FieldV>) -> Seq<FieldV> {
    fs.map_values(|f: FieldV| (false, f.1))
}

/// An outcome of expansion with every pattern mark taken off.
pub open spec fn unmarked_step(w: WordsV) -> WordsV {
    match w {
        WordsV::Done(fs, k) => WordsV::Done(unmarked(fs), k),
        other => other,
    }
}

proof fn lemma_variants_unmarked(
    vs: Seq<Seq<char>>,
    j: int,
    env: EnvV,
    subs: Seq<Seq<char>>,
    k: int,
    acc: Seq<FieldV>,
)
    ensures
        variants_fields(vs, j, env, subs, k, false, unmarked(acc)) == unmarked_step(
            variants_fields(vs, j, env, subs, k, true, acc),
        ),
    decreases vs.len() - j,
{
    if 0 <= j < vs.len() {
        if let VarStepV::Done(t, q, k2) = expand_variant_spec(vs[j], env, subs, k) {
            let f = fields_of((t, q));
            assert(unmarked(acc) + classify_all(f, false) =~= unmarked(acc + classify_all(f, true)));
            lemma_variants_unmarked(vs, j + 1, env, subs, k2, acc + classify_all(f, true));
        }
    }
}

/// A word in command position expands exactly as any other word with
/// pathname expansion switched off: the same fields, with the same texts,
/// in the same order, none marked as a pattern; the same failure, or the
/// same substitution asked for.
pub proof fn law_command_word_is_word_without_globbing(
    raw: Seq<char>,
    env: EnvV,
    subs: Seq<Seq<char>>,
)
    ensures
        word_fields(raw, env, subs, 0, false, Seq::empty()) == unmarked_step(
            word_fields(raw, env, subs, 0, true, Seq::empty()),
        ),
{
    assert(unmarked(Seq::<FieldV>::empty()) =~= Seq::<FieldV>::empty());
    lemma_variants_unmarked(brace_words(raw), 0, env, subs, 0, Seq::empty());
}

} // verus!
