use vstd::prelude::*;

use crate::ast::AstV;
use crate::executor::{ActionV, FrameV, enter, start_loop, unwind};
use crate::shell::Table;

verus! {

// ---------------------------------------------------------------------------
// What a syntax tree evaluates to, compositionally
// ---------------------------------------------------------------------------
//
// The evaluator hands out its leaves (commands, pipelines, background
// commands) and the word lists of `for` loops. Given the status that each
// leaf ends with (`lf`) and the words that each list expands to (`wf`), and
// a shell that keeps running, the status of a whole tree is the one defined
// below by the structure of the tree; `fuel` bounds the number of rounds of
// `while` loops.
/// The status of `n`, or `None` when its `while` loops need more rounds
/// than `fuel`.
pub open spec fn status_of(
    n: AstV,
    lf: spec_fn(AstV) -> i32,
    wf: spec_fn(Seq<Seq<char>>) -> Seq<Seq<char>>,
    fuel: nat,
) -> Option<i32>
    decreases fuel, n, 0nat,
{
    match n {
        AstV::And(l, r) => match status_of(*l, lf, wf, fuel) {
            Some(s) => if s == 0 {
                status_of(*r, lf, wf, fuel)
            } else {
                Some(s)
            },
            None => None,
        },
        AstV::Or(l, r) => match status_of(*l, lf, wf, fuel) {
            Some(s) => if s != 0 {
                status_of(*r, lf, wf, fuel)
            } else {
                Some(s)
            },
            None => None,
        },
        AstV::Semicolon(l, r) => match status_of(*l, lf, wf, fuel) {
            Some(_) => status_of(*r, lf, wf, fuel),
            None => None,
        },
        AstV::Group(b) => status_of(*b, lf, wf, fuel),
        AstV::If(c, t, e) => match status_of(*c, lf, wf, fuel) {
            Some(s) => if s == 0 {
                status_of(*t, lf, wf, fuel)
            } else {
                match e {
                    Some(b) => status_of(*b, lf, wf, fuel),
                    None => Some(s),
                }
            },
            None => None,
        },
        AstV::While(c, b) => while_status(*c, *b, 0, lf, wf, fuel),
        AstV::For(_, ws, b) => {
            let words = wf(ws);
            if words.len() == 0 {
                Some(0)
            } else {
                body_runs(*b, words, 0, lf, wf, fuel)
            }
        },
        _ => Some(lf(n)),
    }
}

/// The status of `while c do b` from a test of `c` on, `kept` being the
/// status of the last run of `b` (0 before any).
pub open spec fn while_status(
    c: AstV,
    b: AstV,
    kept: i32,
    lf: spec_fn(AstV) -> i32,
    wf: spec_fn(Seq<Seq<char>>) -> Seq<Seq<char>>,
    fuel: nat,
) -> Option<i32>
    decreases fuel, c, 0nat,
{
    if fuel == 0 {
        None
    } else {
        match status_of(c, lf, wf, (fuel - 1) as nat) {
            Some(sc) => if sc == 0 {
                match status_of(b, lf, wf, (fuel - 1) as nat) {
                    Some(sb) => while_status(c, b, sb, lf, wf, (fuel - 1) as nat),
                    None => None,
                }
            } else {
                Some(kept)
            },
            None => None,
        }
    }
}

/// The status of the runs of `b` for the words from the `i`-th on: that of
/// the last run.
pub open spec fn body_runs(
    b: AstV,
    words: Seq<Seq<char>>,
    i: int,
    lf: spec_fn(AstV) -> i32,
    wf: spec_fn(Seq<Seq<char>>) -> Seq<Seq<char>>,
    fuel: nat,
) -> Option<i32>
    decreases fuel, b, words.len() - i,
{
    if i < 0 || i >= words.len() {
        None
    } else {
        match status_of(b, lf, wf, fuel) {
            Some(s) => if i + 1 >= words.len() {
                Some(s)
            } else {
                body_runs(b, words, i + 1, lf, wf, fuel)
            },
            None => None,
        }
    }
}

// ---------------------------------------------------------------------------
// The evaluator, driven by the same leaf statuses and word lists
// ---------------------------------------------------------------------------

/// A table of variables to run the machine with; the path of evaluation
/// does not depend on it (see `law_path_ignores_variables`).
pub open spec fn no_vars() -> Table {
    Seq::empty()
}

/// The frames and the next action once the innermost command ended with
/// `s`.
pub open spec fn path(stack: Seq<FrameV>, s: i32) -> (Seq<FrameV>, ActionV) {
    let u = unwind(stack, s, no_vars(), 0, true);
    (u.0, u.1)
}

/// The frames and the next action once the words of the innermost loop are
/// known.
pub open spec fn loop_path(stack: Seq<FrameV>, words: Seq<Seq<char>>) -> (Seq<FrameV>, ActionV) {
    let u = start_loop(stack, words, no_vars(), 0, true);
    (u.0, u.1)
}

/// One step of the evaluator: the work handed out is done.
pub open spec fn step(
    x: (Seq<FrameV>, ActionV),
    lf: spec_fn(AstV) -> i32,
    wf: spec_fn(Seq<Seq<char>>) -> Seq<Seq<char>>,
) -> (Seq<FrameV>, ActionV) {
    match x.1 {
        ActionV::RunLeaf(l) => path(x.0, lf(l)),
        ActionV::Expand(ws) => loop_path(x.0, wf(ws)),
        _ => x,
    }
}

/// `k` steps of the evaluator.
pub open spec fn steps(
    x: (Seq<FrameV>, ActionV),
    lf: spec_fn(AstV) -> i32,
    wf: spec_fn(Seq<Seq<char>>) -> Seq<Seq<char>>,
    k: nat,
) -> (Seq<FrameV>, ActionV)
    decreases k,
{
    if k == 0 {
        x
    } else {
        steps(step(x, lf, wf), lf, wf, (k - 1) as nat)
    }
}

proof fn lemma_steps_add(
    x: (Seq<FrameV>, ActionV),
    lf: spec_fn(AstV) -> i32,
    wf: spec_fn(Seq<Seq<char>>) -> Seq<Seq<char>>,
    a: nat,
    b: nat,
)
    ensures
        steps(x, lf, wf, a + b) == steps(steps(x, lf, wf, a), lf, wf, b),
    decreases a,
{
    if a > 0 {
        lemma_steps_add(step(x, lf, wf), lf, wf, (a - 1) as nat, b);
        assert((a + b - 1) as nat == (a - 1) as nat + b);
    }
}

/// Where evaluation goes depends neither on the variables nor on the last
/// status: only they themselves change with them.
pub proof fn law_path_ignores_variables(
    stack: Seq<FrameV>,
    s: i32,
    v1: Table,
    l1: i32,
    v2: Table,
    l2: i32,
    running: bool,
)
    ensures
        unwind(stack, s, v1, l1, running).0 == unwind(stack, s, v2, l2, running).0,
        unwind(stack, s, v1, l1, running).1 == unwind(stack, s, v2, l2, running).1,
    decreases stack.len(),
{
    if stack.len() > 0 {
        let rest = stack.drop_last();
        match stack.last() {
            FrameV::Finish => law_path_ignores_variables(rest, s, v1, s, v2, s, running),
            FrameV::WhileCond(_, _, l) => law_path_ignores_variables(
                rest,
                l,
                v1,
                l1,
                v2,
                l2,
                running,
            ),
            _ => law_path_ignores_variables(rest, s, v1, l1, v2, l2, running),
        }
    }
}

/// Starting a loop, likewise, goes where the words alone say.
pub proof fn law_loop_path_ignores_variables(
    stack: Seq<FrameV>,
    words: Seq<Seq<char>>,
    v1: Table,
    l1: i32,
    v2: Table,
    l2: i32,
    running: bool,
)
    ensures
        start_loop(stack, words, v1, l1, running).0 == start_loop(stack, words, v2, l2, running).0,
        start_loop(stack, words, v1, l1, running).1 == start_loop(stack, words, v2, l2, running).1,
{
    law_path_ignores_variables(stack.drop_last(), 0, v1, l1, v2, l2, running);
    law_path_ignores_variables(stack, 0, v1, l1, v2, l2, running);
}

proof fn lemma_path_finish(st: Seq<FrameV>, s: i32)
    ensures
        path(st.push(FrameV::Finish), s) == path(st, s),
{
    assert(st.push(FrameV::Finish).drop_last() =~= st);
    law_path_ignores_variables(st, s, no_vars(), s, no_vars(), 0, true);
}

/// Evaluating `n` on top of any frames `st`, with the leaf statuses `lf`
/// and the word lists `wf`, comes, after some steps, to where the frames
/// go once a command ended with the status of `n`.
proof fn lemma_runs_to(
    st: Seq<FrameV>,
    n: AstV,
    lf: spec_fn(AstV) -> i32,
    wf: spec_fn(Seq<Seq<char>>) -> Seq<Seq<char>>,
    fuel: nat,
    s: i32,
)
    requires
        status_of(n, lf, wf, fuel) == Some(s),
    ensures
        exists|k: nat| #[trigger] steps(enter(st, n), lf, wf, k) == path(st, s),
    decreases fuel, n, 0nat,
{
    let fin = st.push(FrameV::Finish);
    lemma_path_finish(st, s);
    match n {
        AstV::And(l, r) => {
            let st2 = fin.push(FrameV::AndRight(*r));
            let s1 = status_of(*l, lf, wf, fuel).unwrap();
            lemma_runs_to(st2, *l, lf, wf, fuel, s1);
            let k1 = choose|k: nat| #[trigger] steps(enter(st2, *l), lf, wf, k) == path(st2, s1);
            assert(st2.drop_last() =~= fin);
            lemma_path_finish(st, s1);
            if s1 == 0 {
                lemma_runs_to(fin, *r, lf, wf, fuel, s);
                let k2 = choose|k: nat| #[trigger] steps(enter(fin, *r), lf, wf, k) == path(fin, s);
                lemma_steps_add(enter(st2, *l), lf, wf, k1, k2);
                assert(steps(enter(st, n), lf, wf, k1 + k2) == path(st, s));
            } else {
                assert(steps(enter(st, n), lf, wf, k1) == path(st, s));
            }
        },
        AstV::Or(l, r) => {
            let st2 = fin.push(FrameV::OrRight(*r));
            let s1 = status_of(*l, lf, wf, fuel).unwrap();
            lemma_runs_to(st2, *l, lf, wf, fuel, s1);
            let k1 = choose|k: nat| #[trigger] steps(enter(st2, *l), lf, wf, k) == path(st2, s1);
            assert(st2.drop_last() =~= fin);
            lemma_path_finish(st, s1);
            if s1 != 0 {
                lemma_runs_to(fin, *r, lf, wf, fuel, s);
                let k2 = choose|k: nat| #[trigger] steps(enter(fin, *r), lf, wf, k) == path(fin, s);
                lemma_steps_add(enter(st2, *l), lf, wf, k1, k2);
                assert(steps(enter(st, n), lf, wf, k1 + k2) == path(st, s));
            } else {
                assert(steps(enter(st, n), lf, wf, k1) == path(st, s));
            }
        },
        AstV::Semicolon(l, r) => {
            let st2 = fin.push(FrameV::SemiRight(*r));
            let s1 = status_of(*l, lf, wf, fuel).unwrap();
            lemma_runs_to(st2, *l, lf, wf, fuel, s1);
            let k1 = choose|k: nat| #[trigger] steps(enter(st2, *l), lf, wf, k) == path(st2, s1);
            assert(st2.drop_last() =~= fin);
            lemma_runs_to(fin, *r, lf, wf, fuel, s);
            let k2 = choose|k: nat| #[trigger] steps(enter(fin, *r), lf, wf, k) == path(fin, s);
            lemma_steps_add(enter(st2, *l), lf, wf, k1, k2);
            assert(steps(enter(st, n), lf, wf, k1 + k2) == path(st, s));
        },
        AstV::Group(b) => {
            lemma_runs_to(fin, *b, lf, wf, fuel, s);
            let k = choose|k: nat| #[trigger] steps(enter(fin, *b), lf, wf, k) == path(fin, s);
            assert(steps(enter(st, n), lf, wf, k) == path(st, s));
        },
        AstV::If(c, t, e) => {
            let eo = match e {
                Some(x) => Some(*x),
                None => None,
            };
            let st2 = fin.push(FrameV::IfBranch(*t, eo));
            let s1 = status_of(*c, lf, wf, fuel).unwrap();
            lemma_runs_to(st2, *c, lf, wf, fuel, s1);
            let k1 = choose|k: nat| #[trigger] steps(enter(st2, *c), lf, wf, k) == path(st2, s1);
            assert(st2.drop_last() =~= fin);
            lemma_path_finish(st, s1);
            if s1 == 0 {
                lemma_runs_to(fin, *t, lf, wf, fuel, s);
                let k2 = choose|k: nat| #[trigger] steps(enter(fin, *t), lf, wf, k) == path(fin, s);
                lemma_steps_add(enter(st2, *c), lf, wf, k1, k2);
                assert(steps(enter(st, n), lf, wf, k1 + k2) == path(st, s));
            } else if let Some(x) = e {
                lemma_runs_to(fin, *x, lf, wf, fuel, s);
                let k2 = choose|k: nat| #[trigger] steps(enter(fin, *x), lf, wf, k) == path(fin, s);
                lemma_steps_add(enter(st2, *c), lf, wf, k1, k2);
                assert(steps(enter(st, n), lf, wf, k1 + k2) == path(st, s));
            } else {
                assert(steps(enter(st, n), lf, wf, k1) == path(st, s));
            }
        },
        AstV::While(c, b) => {
            lemma_while_runs_to(st, *c, *b, 0, lf, wf, fuel, s);
        },
        AstV::For(v, ws, b) => {
            let words = wf(ws);
            let top = fin.push(FrameV::ForWords(v, *b));
            assert(top.drop_last() =~= fin);
            assert(steps(enter(st, n), lf, wf, 1) == steps(loop_path(top, words), lf, wf, 0));
            if words.len() == 0 {
                assert(steps(enter(st, n), lf, wf, 1) == path(st, s));
            } else {
                lemma_for_runs_to(st, v, words, 0, *b, lf, wf, fuel, s);
                let k = choose|k: nat|
                    #[trigger] steps(
                        enter(fin.push(FrameV::ForNext(v, words, 0, *b)), *b),
                        lf,
                        wf,
                        k,
                    ) == path(st, s);
                lemma_steps_add(enter(st, n), lf, wf, 1, k);
                assert(steps(enter(st, n), lf, wf, 1 + k) == path(st, s));
            }
        },
        _ => {
            assert(enter(st, n) == (fin, ActionV::RunLeaf(n)));
            assert(step(enter(st, n), lf, wf) == path(fin, s));
            assert(steps(enter(st, n), lf, wf, 1) == steps(step(enter(st, n), lf, wf), lf, wf, 0));
            assert(steps(enter(st, n), lf, wf, 1) == path(st, s));
        },
    }
}

proof fn lemma_while_runs_to(
    st: Seq<FrameV>,
    c: AstV,
    b: AstV,
    kept: i32,
    lf: spec_fn(AstV) -> i32,
    wf: spec_fn(Seq<Seq<char>>) -> Seq<Seq<char>>,
    fuel: nat,
    s: i32,
)
    requires
        while_status(c, b, kept, lf, wf, fuel) == Some(s),
    ensures
        exists|k: nat|
            #[trigger] steps(
                enter(st.push(FrameV::Finish).push(FrameV::WhileCond(c, b, kept)), c),
                lf,
                wf,
                k,
            ) == path(st, s),
        kept == 0 ==> exists|k: nat|
            #[trigger] steps(enter(st, AstV::While(Box::new(c), Box::new(b))), lf, wf, k) == path(
                st,
                s,
            ),
    decreases fuel, c, 0nat,
{
    let fin = st.push(FrameV::Finish);
    let st2 = fin.push(FrameV::WhileCond(c, b, kept));
    let f1 = (fuel - 1) as nat;
    let sc = status_of(c, lf, wf, f1).unwrap();
    lemma_runs_to(st2, c, lf, wf, f1, sc);
    let k1 = choose|k: nat| #[trigger] steps(enter(st2, c), lf, wf, k) == path(st2, sc);
    assert(st2.drop_last() =~= fin);
    assert(kept == 0 ==> enter(st, AstV::While(Box::new(c), Box::new(b))) == enter(st2, c));
    if sc == 0 {
        let st3 = fin.push(FrameV::WhileBody(c, b));
        assert(st3.drop_last() =~= fin);
        let sb = status_of(b, lf, wf, f1).unwrap();
        lemma_runs_to(st3, b, lf, wf, f1, sb);
        let k2 = choose|k: nat| #[trigger] steps(enter(st3, b), lf, wf, k) == path(st3, sb);
        lemma_while_runs_to(st, c, b, sb, lf, wf, f1, s);
        let st4 = fin.push(FrameV::WhileCond(c, b, sb));
        let k3 = choose|k: nat| #[trigger] steps(enter(st4, c), lf, wf, k) == path(st, s);
        lemma_steps_add(enter(st2, c), lf, wf, k1, k2);
        lemma_steps_add(enter(st2, c), lf, wf, k1 + k2, k3);
        assert(steps(enter(st2, c), lf, wf, k1 + k2 + k3) == path(st, s));
    } else {
        lemma_path_finish(st, kept);
        assert(steps(enter(st2, c), lf, wf, k1) == path(st, s));
    }
}

proof fn lemma_for_runs_to(
    st: Seq<FrameV>,
    v: Seq<char>,
    words: Seq<Seq<char>>,
    i: int,
    b: AstV,
    lf: spec_fn(AstV) -> i32,
    wf: spec_fn(Seq<Seq<char>>) -> Seq<Seq<char>>,
    fuel: nat,
    s: i32,
)
    requires
        body_runs(b, words, i, lf, wf, fuel) == Some(s),
    ensures
        exists|k: nat|
            #[trigger] steps(
                enter(st.push(FrameV::Finish).push(FrameV::ForNext(v, words, i, b)), b),
                lf,
                wf,
                k,
            ) == path(st, s),
    decreases fuel, b, words.len() - i,
{
    let fin = st.push(FrameV::Finish);
    let st2 = fin.push(FrameV::ForNext(v, words, i, b));
    assert(st2.drop_last() =~= fin);
    let sb = status_of(b, lf, wf, fuel).unwrap();
    lemma_runs_to(st2, b, lf, wf, fuel, sb);
    let k1 = choose|k: nat| #[trigger] steps(enter(st2, b), lf, wf, k) == path(st2, sb);
    if i + 1 >= words.len() {
        lemma_path_finish(st, sb);
        assert(steps(enter(st2, b), lf, wf, k1) == path(st, s));
    } else {
        lemma_for_runs_to(st, v, words, i + 1, b, lf, wf, fuel, s);
        let st3 = fin.push(FrameV::ForNext(v, words, i + 1, b));
        let k2 = choose|k: nat| #[trigger] steps(enter(st3, b), lf, wf, k) == path(st, s);
        lemma_steps_add(enter(st2, b), lf, wf, k1, k2);
        assert(steps(enter(st2, b), lf, wf, k1 + k2) == path(st, s));
    }
}

/// Evaluation is compositional: driven by the statuses its leaves end with
/// and the words its loops get, in a shell that keeps running, the
/// evaluator started on any tree comes to its end with the status that
/// `status_of` gives the tree. So `l && r` ends as `l` unless `l`
/// succeeds, then as `r`; `l || r` as `l` unless `l` fails, then as `r`;
/// `l ; r` as `r`; an `if` as the branch that runs, or as its condition
/// when no branch runs; a `while` loop as the last run of its body (0 when
/// none ran); a `for` loop as the last run of its body (0 with no word).
/// Each step is what `Evaluator::resume` does with the status or the words
/// handed back (its frames and action go by `unwind` and `start_loop`,
/// which `law_path_ignores_variables` shows free of the variables), and
/// the status it finishes with is recorded as the last status.
pub proof fn law_evaluation_is_compositional(
    n: AstV,
    lf: spec_fn(AstV) -> i32,
    wf: spec_fn(Seq<Seq<char>>) -> Seq<Seq<char>>,
    fuel: nat,
)
    requires
        status_of(n, lf, wf, fuel) is Some,
    ensures
        exists|k: nat|
            #[trigger] steps(enter(Seq::empty(), n), lf, wf, k) == (
                Seq::<FrameV>::empty(),
                ActionV::Finished(status_of(n, lf, wf, fuel).unwrap()),
            ),
{
    let s = status_of(n, lf, wf, fuel).unwrap();
    lemma_runs_to(Seq::empty(), n, lf, wf, fuel, s);
    assert(path(Seq::empty(), s) == (Seq::<FrameV>::empty(), ActionV::Finished(s)));
}

} // verus!
