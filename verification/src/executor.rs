use vstd::prelude::*;

use crate::ast::{AstNode, AstV, Command, CommandV, copy_node, strings_view};
use crate::builtins::{builtin_name, is_builtin_name, joined};
use crate::error::{ErrorV, ShellError};
use crate::shell::{Job, JobStatus, Shell, Table, assign};
use crate::text::push_text;

verus! {

/// What is left to do once a command in evaluation finishes, innermost
/// last: record its status as the last one; run the right side of `&&`,
/// `||` or `;`; pick a branch of `if`; go on with a `while` loop after its
/// condition or its body; start a `for` loop once its words are expanded,
/// or go on with it after the body ran for its `i`-th word.
pub enum Frame {
    Finish,
    AndRight(AstNode),
    OrRight(AstNode),
    SemiRight(AstNode),
    IfBranch(AstNode, Option<AstNode>),
    WhileCond(AstNode, AstNode, i32),
    WhileBody(AstNode, AstNode),
    ForWords(String, AstNode),
    ForNext(String, Vec<String>, usize, AstNode),
}

pub enum FrameV {
    Finish,
    AndRight(AstV),
    OrRight(AstV),
    SemiRight(AstV),
    IfBranch(AstV, Option<AstV>),
    WhileCond(AstV, AstV, i32),
    WhileBody(AstV, AstV),
    ForWords(Seq<char>, AstV),
    ForNext(Seq<char>, Seq<Seq<char>>, int, AstV),
}

pub open spec fn frame_view(f: Frame) -> FrameV {
    match f {
        Frame::Finish => FrameV::Finish,
        Frame::AndRight(r) => FrameV::AndRight(r@),
        Frame::OrRight(r) => FrameV::OrRight(r@),
        Frame::SemiRight(r) => FrameV::SemiRight(r@),
        Frame::IfBranch(t, e) => FrameV::IfBranch(
            t@,
            match e {
                Some(e) => Some(e@),
                None => None,
            },
        ),
        Frame::WhileCond(c, b, last) => FrameV::WhileCond(c@, b@, last),
        Frame::WhileBody(c, b) => FrameV::WhileBody(c@, b@),
        Frame::ForWords(v, b) => FrameV::ForWords(v@, b@),
        Frame::ForNext(v, ws, i, b) => FrameV::ForNext(v@, strings_view(ws@), i as int, b@),
    }
}

pub open spec fn frames_view(v: Seq<Frame>) -> Seq<FrameV> {
    v.map_values(|f: Frame| frame_view(f))
}

/// The work that evaluation hands out: a command, a pipeline or a
/// background command to run, the words of a `for` loop to expand; or its
/// end, with the final status or an error.
pub enum Action {
    RunLeaf(AstNode),
    Expand(Vec<String>),
    Finished(i32),
    Error(ShellError),
}

pub enum ActionV {
    RunLeaf(AstV),
    Expand(Seq<Seq<char>>),
    Finished(i32),
    Error(ErrorV),
}

pub open spec fn action_view(a: Action) -> ActionV {
    match a {
        Action::RunLeaf(n) => ActionV::RunLeaf(n@),
        Action::Expand(ws) => ActionV::Expand(strings_view(ws@)),
        Action::Finished(s) => ActionV::Finished(s),
        Action::Error(e) => ActionV::Error(e@),
    }
}

/// What the work handed out gave: the status of a command, the words of a
/// `for` loop, or an error.
pub enum Event {
    Status(i32),
    Words(Vec<String>),
    Failed(ShellError),
}

/// Starts the evaluation of `n` on top of `stack`: every evaluation first
/// records that its status becomes the last status; compound commands
/// then go down to their first part.
pub open spec fn enter(stack: Seq<FrameV>, n: AstV) -> (Seq<FrameV>, ActionV)
    decreases n,
{
    let st = stack.push(FrameV::Finish);
    match n {
        AstV::And(l, r) => enter(st.push(FrameV::AndRight(*r)), *l),
        AstV::Or(l, r) => enter(st.push(FrameV::OrRight(*r)), *l),
        AstV::Semicolon(l, r) => enter(st.push(FrameV::SemiRight(*r)), *l),
        AstV::Group(b) => enter(st, *b),
        AstV::If(c, t, e) => enter(
            st.push(
                FrameV::IfBranch(
                    *t,
                    match e {
                        Some(e) => Some(*e),
                        None => None,
                    },
                ),
            ),
            *c,
        ),
        AstV::While(c, b) => enter(st.push(FrameV::WhileCond(*c, *b, 0)), *c),
        AstV::For(v, ws, b) => (st.push(FrameV::ForWords(v, *b)), ActionV::Expand(ws)),
        _ => (st, ActionV::RunLeaf(n)),
    }
}

/// Where evaluation goes once the innermost command finished with status
/// `s`, with the variables `vars`, the last status `last` and the shell
/// still running or not: the frames are popped until one starts another
/// command; when none is left, evaluation is finished with `s`.
pub open spec fn unwind(stack: Seq<FrameV>, s: i32, vars: Table, last: i32, running: bool) -> (
    Seq<FrameV>,
    ActionV,
    Table,
    i32,
)
    decreases stack.len(),
{
    if stack.len() == 0 {
        (stack, ActionV::Finished(s), vars, last)
    } else {
        let rest = stack.drop_last();
        match stack.last() {
            FrameV::Finish => unwind(rest, s, vars, s, running),
            FrameV::AndRight(r) => if s == 0 {
                let e = enter(rest, r);
                (e.0, e.1, vars, last)
            } else {
                unwind(rest, s, vars, last, running)
            },
            FrameV::OrRight(r) => if s != 0 {
                let e = enter(rest, r);
                (e.0, e.1, vars, last)
            } else {
                unwind(rest, s, vars, last, running)
            },
            FrameV::SemiRight(r) => {
                let e = enter(rest, r);
                (e.0, e.1, vars, last)
            },
            FrameV::IfBranch(t, el) => if s == 0 {
                let e = enter(rest, t);
                (e.0, e.1, vars, last)
            } else {
                match el {
                    Some(b) => {
                        let e = enter(rest, b);
                        (e.0, e.1, vars, last)
                    },
                    None => unwind(rest, s, vars, last, running),
                }
            },
            FrameV::WhileCond(c, b, l) => if s == 0 {
                let e = enter(rest.push(FrameV::WhileBody(c, b)), b);
                (e.0, e.1, vars, last)
            } else {
                unwind(rest, l, vars, last, running)
            },
            FrameV::WhileBody(c, b) => {
                let e = enter(rest.push(FrameV::WhileCond(c, b, s)), c);
                (e.0, e.1, vars, last)
            },
            FrameV::ForNext(v, ws, i, b) => if !running || i + 1 >= ws.len() {
                unwind(rest, s, vars, last, running)
            } else {
                let e = enter(rest.push(FrameV::ForNext(v, ws, i + 1, b)), b);
                (e.0, e.1, assign(vars, v, ws[i + 1]), last)
            },
            FrameV::ForWords(_, _) => unwind(rest, s, vars, last, running),
        }
    }
}

/// Where evaluation goes once the words of the innermost `for` loop are
/// known: its body runs for the first word, with the loop variable set;
/// with no word the loop is over with status `0`.
pub open spec fn start_loop(
    stack: Seq<FrameV>,
    words: Seq<Seq<char>>,
    vars: Table,
    last: i32,
    running: bool,
) -> (Seq<FrameV>, ActionV, Table, i32) {
    let rest = stack.drop_last();
    match stack.last() {
        FrameV::ForWords(v, b) => if words.len() == 0 {
            unwind(rest, 0, vars, last, running)
        } else {
            let e = enter(rest.push(FrameV::ForNext(v, words, 0, b)), b);
            (e.0, e.1, assign(vars, v, words[0]), last)
        },
        _ => unwind(stack, 0, vars, last, running),
    }
}

/// The state of an evaluation under way: the frames of what is left to do.
pub struct Evaluator {
    pub stack: Vec<Frame>,
}

impl View for Evaluator {
    type V = Seq<FrameV>;

    open spec fn view(&self) -> Seq<FrameV> {
        frames_view(self.stack@)
    }
}

/// An evaluation under way keeps, at the bottom of its stack, the frame
/// that records its final status.
pub open spec fn evaluating(stack: Seq<FrameV>) -> bool {
    stack.len() > 0 && stack[0] == FrameV::Finish
}

/// The evaluation waits for the words of a `for` loop.
pub open spec fn awaits_words(stack: Seq<FrameV>) -> bool {
    stack.len() > 0 && stack.last() is ForWords
}

fn push_frame(stack: &mut Vec<Frame>, f: Frame)
    ensures
        frames_view(final(stack)@) == frames_view(old(stack)@).push(frame_view(f)),
{
    let ghost before = frames_view(stack@);
    stack.push(f);
    assert(frames_view(stack@) =~= before.push(frame_view(f)));
}

fn pop_frame(stack: &mut Vec<Frame>) -> (f: Frame)
    requires
        old(stack)@.len() > 0,
    ensures
        frames_view(final(stack)@) == frames_view(old(stack)@).drop_last(),
        frame_view(f) == frames_view(old(stack)@).last(),
{
    let ghost before = frames_view(stack@);
    let f = stack.pop().unwrap();
    assert(frames_view(stack@) =~= before.drop_last());
    f
}

impl Evaluator {
    /// Goes down into `node`, pushing frames, up to the first work to hand
    /// out.
    fn enter_node(&mut self, node: AstNode) -> (a: Action)
        ensures
            (final(self)@, action_view(a)) == enter(old(self)@, node@),
            a is RunLeaf || a is Expand,
            a is Expand <==> awaits_words(final(self)@),
    {
        proof {
            lemma_enter(self@, node@);
        }
        let ghost goal = enter(self@, node@);
        let mut cur = node;
        loop
            invariant
                goal == enter(old(self)@, node@),
                goal == enter(self@, cur@),
            decreases cur@,
        {
            push_frame(&mut self.stack, Frame::Finish);
            match cur {
                AstNode::And { left, right } => {
                    push_frame(&mut self.stack, Frame::AndRight(*right));
                    cur = *left;
                },
                AstNode::Or { left, right } => {
                    push_frame(&mut self.stack, Frame::OrRight(*right));
                    cur = *left;
                },
                AstNode::Semicolon { left, right } => {
                    push_frame(&mut self.stack, Frame::SemiRight(*right));
                    cur = *left;
                },
                AstNode::Group { body } => {
                    cur = *body;
                },
                AstNode::If(s) => {
                    let else_body = match s.else_body {
                        Some(b) => Some(*b),
                        None => None,
                    };
                    push_frame(&mut self.stack, Frame::IfBranch(*s.then_body, else_body));
                    cur = *s.condition;
                },
                AstNode::While(s) => {
                    let cond = copy_node(&s.condition);
                    push_frame(&mut self.stack, Frame::WhileCond(*s.condition, *s.body, 0));
                    cur = cond;
                },
                AstNode::For(s) => {
                    push_frame(&mut self.stack, Frame::ForWords(s.var, *s.body));
                    return Action::Expand(s.wordlist);
                },
                leaf => {
                    return Action::RunLeaf(leaf);
                },
            }
        }
    }

    /// Pops frames once the innermost command finished with status `s`, up
    /// to the next work to hand out.
    fn unwind_status(&mut self, shell: &mut Shell, status: i32) -> (a: Action)
        ensures
            (final(self)@, action_view(a), final(shell).vars(), final(shell).last_status)
                == unwind(
                old(self)@,
                status,
                old(shell).vars(),
                old(shell).last_status,
                old(shell).running,
            ),
            final(shell).running == old(shell).running,
            final(shell).aliases == old(shell).aliases,
            final(shell).oldpwd == old(shell).oldpwd,
            final(shell).pending_heredocs == old(shell).pending_heredocs,
            final(shell).jobs == old(shell).jobs,
            final(shell).next_job_id == old(shell).next_job_id,
            final(shell).last_bg_pid == old(shell).last_bg_pid,
    {
        let ghost goal = unwind(self@, status, shell.vars(), shell.last_status, shell.running);
        let mut s = status;
        loop
            invariant
                goal == unwind(
                    old(self)@,
                    status,
                    old(shell).vars(),
                    old(shell).last_status,
                    old(shell).running,
                ),
                goal == unwind(self@, s, shell.vars(), shell.last_status, shell.running),
                shell.running == old(shell).running,
                shell.aliases == old(shell).aliases,
                shell.oldpwd == old(shell).oldpwd,
                shell.pending_heredocs == old(shell).pending_heredocs,
                shell.jobs == old(shell).jobs,
                shell.next_job_id == old(shell).next_job_id,
                shell.last_bg_pid == old(shell).last_bg_pid,
            decreases self@.len(),
        {
            if self.stack.len() == 0 {
                return Action::Finished(s);
            }
            let f = pop_frame(&mut self.stack);
            match f {
                Frame::Finish => {
                    shell.last_status = s;
                },
                Frame::AndRight(r) => {
                    if s == 0 {
                        return self.enter_node(r);
                    }
                },
                Frame::OrRight(r) => {
                    if s != 0 {
                        return self.enter_node(r);
                    }
                },
                Frame::SemiRight(r) => {
                    return self.enter_node(r);
                },
                Frame::IfBranch(t, el) => {
                    if s == 0 {
                        return self.enter_node(t);
                    }
                    if let Some(b) = el {
                        return self.enter_node(b);
                    }
                },
                Frame::WhileCond(c, b, last) => {
                    if s == 0 {
                        let body = copy_node(&b);
                        push_frame(&mut self.stack, Frame::WhileBody(c, b));
                        return self.enter_node(body);
                    }
                    s = last;
                },
                Frame::WhileBody(c, b) => {
                    let cond = copy_node(&c);
                    push_frame(&mut self.stack, Frame::WhileCond(c, b, s));
                    return self.enter_node(cond);
                },
                Frame::ForNext(v, ws, i, b) => {
                    if shell.running && ws.len() > 0 && i < ws.len() - 1 {
                        shell.set_var(v.as_str(), ws[i + 1].as_str());
                        let body = copy_node(&b);
                        push_frame(&mut self.stack, Frame::ForNext(v, ws, i + 1, b));
                        return self.enter_node(body);
                    }
                },
                Frame::ForWords(_, _) => {},
            }
        }
    }

    /// Starts the evaluation of a syntax tree.
    pub fn start(node: AstNode) -> (r: (Evaluator, Action))
        ensures
            (r.0@, action_view(r.1)) == enter(Seq::empty(), node@),
            evaluating(r.0@),
            r.1 is RunLeaf || r.1 is Expand,
            r.1 is Expand <==> awaits_words(r.0@),
    {
        let mut ev = Evaluator { stack: Vec::new() };
        assert(ev@ =~= Seq::<FrameV>::empty());
        let a = ev.enter_node(node);
        proof {
            law_evaluation_starts_with_its_record(node@);
            lemma_enter(Seq::empty(), node@);
        }
        (ev, a)
    }

    /// Goes on with the evaluation once the work handed out is done: a
    /// status or the words of a `for` loop; an error ends the evaluation.
    pub fn resume(&mut self, shell: &mut Shell, event: Event) -> (a: Action)
        requires
            event is Words ==> awaits_words(old(self)@),
            awaits_words(old(self)@) ==> !(event is Status),
            evaluating(old(self)@),
        ensures
            a matches Action::Finished(f) ==> final(shell).last_status == f && final(self)@.len()
                == 0,
            (a is RunLeaf || a is Expand) ==> evaluating(final(self)@),
            (a is RunLeaf || a is Expand) ==> (a is Expand <==> awaits_words(final(self)@)),
            match event {
                Event::Failed(e) => action_view(a) == ActionV::Error(e@) && final(self)@.len() == 0
                    && final(shell).vars() == old(shell).vars() && final(shell).last_status == old(
                    shell,
                ).last_status,
                Event::Status(s) => (
                    final(self)@,
                    action_view(a),
                    final(shell).vars(),
                    final(shell).last_status,
                ) == unwind(
                    old(self)@,
                    s,
                    old(shell).vars(),
                    old(shell).last_status,
                    old(shell).running,
                ),
                Event::Words(ws) => (
                    final(self)@,
                    action_view(a),
                    final(shell).vars(),
                    final(shell).last_status,
                ) == start_loop(
                    old(self)@,
                    strings_view(ws@),
                    old(shell).vars(),
                    old(shell).last_status,
                    old(shell).running,
                ),
            },
            final(shell).running == old(shell).running,
            final(shell).aliases == old(shell).aliases,
            final(shell).oldpwd == old(shell).oldpwd,
            final(shell).pending_heredocs == old(shell).pending_heredocs,
            final(shell).jobs == old(shell).jobs,
            final(shell).next_job_id == old(shell).next_job_id,
            final(shell).last_bg_pid == old(shell).last_bg_pid,
    {
        match event {
            Event::Failed(e) => {
                self.stack = Vec::new();
                assert(self@ =~= Seq::<FrameV>::empty());
                Action::Error(e)
            },
            Event::Status(s) => {
                proof {
                    law_finished_status_is_recorded(
                        self@,
                        s,
                        shell.vars(),
                        shell.last_status,
                        shell.running,
                    );
                    lemma_unwind_awaits(self@, s, shell.vars(), shell.last_status, shell.running);
                }
                self.unwind_status(shell, s)
            },
            Event::Words(ws) => {
                proof {
                    law_loop_start_keeps_the_record(
                        self@,
                        strings_view(ws@),
                        shell.vars(),
                        shell.last_status,
                        shell.running,
                    );
                    lemma_unwind_awaits(
                        self@.drop_last(),
                        0,
                        shell.vars(),
                        shell.last_status,
                        shell.running,
                    );
                }
                let f = pop_frame(&mut self.stack);
                match f {
                    Frame::ForWords(v, b) => {
                        if ws.len() == 0 {
                            return self.unwind_status(shell, 0);
                        }
                        shell.set_var(v.as_str(), ws[0].as_str());
                        let body = copy_node(&b);
                        push_frame(&mut self.stack, Frame::ForNext(v, ws, 0, b));
                        self.enter_node(body)
                    },
                    _ => {
                        assert(false);
                        Action::Finished(0)
                    },
                }
            },
        }
    }
}

/// A command redirects its input, its output, or reads a here document.
pub open spec fn has_redirection(c: CommandV) -> bool {
    c.infile is Some || c.outfile is Some || c.heredoc_delim is Some
}

/// Tells whether a command has a redirection.
pub fn cmd_has_redirection(cmd: &Command) -> (r: bool)
    ensures
        r == has_redirection(cmd@),
{
    cmd.infile.is_some() || cmd.outfile.is_some() || cmd.heredoc_delim.is_some()
}

/// Words joined by single blanks.
pub fn join_words(words: &Vec<String>) -> (r: String)
    ensures
        r@ == joined(strings_view(words@)),
{
    let ghost ws = strings_view(words@);
    let mut r = String::new();
    let mut i: usize = 0;
    assert(ws.take(0) =~= Seq::<Seq<char>>::empty());
    while i < words.len()
        invariant
            i <= words@.len(),
            ws == strings_view(words@),
            r@ == joined(ws.take(i as int)),
        decreases words@.len() - i,
    {
        let ghost before = r@;
        if i > 0 {
            crate::text::push_char(&mut r, ' ');
        }
        push_text(&mut r, words[i].as_str());
        assert(ws.take(i + 1).drop_last() =~= ws.take(i as int));
        if i == 0 {
            assert(r@ =~= ws.take(1)[0]);
        } else {
            assert(r@ =~= before + seq![' '] + ws[i as int]);
        }
        i += 1;
    }
    assert(ws.take(i as int) =~= ws);
    r
}

/// Sets the variable of an assignment to the fields its value expanded to,
/// joined by blanks.
pub fn assign_fields(shell: &mut Shell, name: &str, fields: &Vec<String>)
    ensures
        final(shell).vars() == assign(old(shell).vars(), name@, joined(strings_view(fields@))),
        final(shell).aliases == old(shell).aliases,
        final(shell).last_status == old(shell).last_status,
        final(shell).oldpwd == old(shell).oldpwd,
        final(shell).running == old(shell).running,
        final(shell).pending_heredocs == old(shell).pending_heredocs,
        final(shell).jobs == old(shell).jobs,
        final(shell).next_job_id == old(shell).next_job_id,
        final(shell).last_bg_pid == old(shell).last_bg_pid,
{
    let value = join_words(fields);
    shell.set_var(name, value.as_str());
}

/// The path a redirection names: the first field its word expanded to, or
/// the empty text when there is none.
pub fn first_field(fields: Vec<String>) -> (r: String)
    ensures
        r@ == (if fields@.len() > 0 {
            fields@[0]@
        } else {
            Seq::<char>::empty()
        }),
{
    if fields.len() > 0 {
        fields[0].clone()
    } else {
        String::new()
    }
}

/// How a simple command runs once its words are expanded: not at all
/// when no word is left, as a builtin, or as a program.
pub enum Dispatch {
    Nothing,
    Builtin,
    Program,
}

/// How a command runs, given its expanded words; a builtin with a
/// redirection is refused. Without `builtins`, the first word is always
/// taken as a program.
pub open spec fn dispatch_of(c: CommandV, argv: Seq<Seq<char>>, builtins: bool) -> Result<
    Dispatch,
    ErrorV,
> {
    if argv.len() == 0 {
        Ok(Dispatch::Nothing)
    } else if builtins && builtin_name(argv[0]) {
        if has_redirection(c) {
            Err(ErrorV::Eval { message: "redirection on builtins not yet implemented"@ })
        } else {
            Ok(Dispatch::Builtin)
        }
    } else {
        Ok(Dispatch::Program)
    }
}

pub open spec fn dispatch_view(r: Result<Dispatch, ShellError>) -> Result<Dispatch, ErrorV> {
    match r {
        Ok(d) => Ok(d),
        Err(e) => Err(e@),
    }
}

/// Decides how a command runs once its words are expanded.
pub fn dispatch(cmd: &Command, argv: &Vec<String>, builtins: bool) -> (r: Result<
    Dispatch,
    ShellError,
>)
    ensures
        dispatch_view(r) == dispatch_of(cmd@, strings_view(argv@), builtins),
{
    if argv.len() == 0 {
        return Ok(Dispatch::Nothing);
    }
    if builtins && is_builtin_name(argv[0].as_str()) {
        if cmd_has_redirection(cmd) {
            return Err(ShellError::eval("redirection on builtins not yet implemented"));
        }
        return Ok(Dispatch::Builtin);
    }
    Ok(Dispatch::Program)
}

/// A command of a pipeline before its words are expanded: a here document
/// is accepted on the first command only.
pub fn pipeline_stage_check(pos: usize, cmd: &Command) -> (r: Result<(), ShellError>)
    ensures
        match r {
            Ok(()) => !(cmd@.heredoc_delim is Some && pos > 0),
            Err(e) => cmd@.heredoc_delim is Some && pos > 0 && e@ == (ErrorV::Eval {
                message: "heredoc on non-first pipeline command is not supported"@,
            }),
        },
{
    if cmd.heredoc_delim.is_some() && pos > 0 {
        return Err(ShellError::eval("heredoc on non-first pipeline command is not supported"));
    }
    Ok(())
}

/// A command of a pipeline once its words are expanded: it is left out
/// when no word is left; a builtin is refused.
pub fn pipeline_stage_keep(argv: &Vec<String>) -> (r: Result<bool, ShellError>)
    ensures
        match r {
            Ok(keep) => keep == (argv@.len() > 0) && !(argv@.len() > 0 && builtin_name(
                argv@[0]@,
            )),
            Err(e) => argv@.len() > 0 && builtin_name(argv@[0]@) && e@ == (ErrorV::Eval {
                message: "builtins in pipelines not yet supported"@,
            }),
        },
{
    if argv.len() == 0 {
        return Ok(false);
    }
    if is_builtin_name(argv[0].as_str()) {
        return Err(ShellError::eval("builtins in pipelines not yet supported"));
    }
    Ok(true)
}

/// What runs in the background: a simple command (a builtin among them
/// runs at once), or the one command of a pipeline (always a program).
pub enum Background {
    Simple(Command),
    Single(Command),
}

pub open spec fn background_plan(n: AstV) -> Result<(bool, CommandV), ErrorV> {
    match n {
        AstV::Command(c) => if !has_redirection(c) {
            Ok((true, c))
        } else {
            Err(ErrorV::Eval { message: "redirection on builtins not yet implemented"@ })
        },
        AstV::Pipeline(cs) => if cs.len() == 1 && !has_redirection(cs[0]) && !builtin_name(
            if cs[0].argv.len() > 0 {
                cs[0].argv[0]
            } else {
                Seq::empty()
            },
        ) {
            Ok((false, cs[0]))
        } else {
            Err(ErrorV::Eval { message: "background of pipeline not yet supported"@ })
        },
        _ => Err(ErrorV::Eval { message: "background of compound command not supported"@ }),
    }
}

/// Decides what of a body runs in the background.
pub fn plan_background(body: AstNode) -> (r: Result<Background, ShellError>)
    ensures
        match r {
            Ok(Background::Simple(c)) => background_plan(body@) == Ok::<(bool, CommandV), ErrorV>(
                (true, c@),
            ),
            Ok(Background::Single(c)) => background_plan(body@) == Ok::<(bool, CommandV), ErrorV>(
                (false, c@),
            ),
            Err(e) => background_plan(body@) == Err::<(bool, CommandV), ErrorV>(e@),
        },
{
    proof {
        reveal_strlit("");
        assert(""@ =~= Seq::<char>::empty());
    }
    match body {
        AstNode::Command { command } => {
            if !cmd_has_redirection(&command) {
                Ok(Background::Simple(command))
            } else {
                Err(ShellError::eval("redirection on builtins not yet implemented"))
            }
        },
        AstNode::Pipeline { pipeline } => {
            let mut commands = pipeline.commands;
            if commands.len() == 1 && !cmd_has_redirection(&commands[0]) {
                let first = if commands[0].argv.len() > 0 {
                    commands[0].argv[0].as_str()
                } else {
                    ""
                };
                if !is_builtin_name(first) {
                    let c = commands.remove(0);
                    return Ok(Background::Single(c));
                }
            }
            Err(ShellError::eval("background of pipeline not yet supported"))
        },
        _ => Err(ShellError::eval("background of compound command not supported")),
    }
}

/// Records a command launched in the background under process id `pid`:
/// a new job for its words, its process id as the last background one, and
/// status `0`.
pub fn launched(shell: &mut Shell, pid: u32, argv: &Vec<String>) -> (r: i32)
    requires
        old(shell).next_job_id < usize::MAX,
    ensures
        r == 0,
        final(shell).jobs@ == old(shell).jobs@.push(
            (Job {
                id: old(shell).next_job_id,
                pid,
                cmdline: final(shell).jobs@.last().cmdline,
                status: JobStatus::Running,
            }),
        ),
        final(shell).jobs@.last().cmdline@ == joined(strings_view(argv@)),
        final(shell).next_job_id == old(shell).next_job_id + 1,
        final(shell).last_bg_pid == Some(pid as i32),
        final(shell).last_status == 0,
        final(shell).variables == old(shell).variables,
        final(shell).aliases == old(shell).aliases,
        final(shell).oldpwd == old(shell).oldpwd,
        final(shell).running == old(shell).running,
        final(shell).pending_heredocs == old(shell).pending_heredocs,
{
    let cmdline = join_words(argv);
    shell.add_job(pid, cmdline);
    shell.last_bg_pid = Some(pid as i32);
    shell.last_status = 0;
    0
}

/// A syntax tree whose evaluation is handed out whole: a command, a
/// pipeline or a background command.
pub open spec fn is_leaf(n: AstV) -> bool {
    n is Command || n is Pipeline || n is Background
}

/// The outcome of evaluating two leaves joined by an operator, the first
/// finishing with `s1` and the second, when it runs, with `s2`: whether
/// the second ran, and the final status.
pub open spec fn run_two(op: AstV, s1: i32, s2: i32, vars: Table, last: i32, running: bool) -> (
    bool,
    ActionV,
    i32,
) {
    let (st0, a0) = enter(Seq::empty(), op);
    let (st1, a1, v1, l1) = unwind(st0, s1, vars, last, running);
    if a1 is RunLeaf {
        let (st2, a2, v2, l2) = unwind(st1, s2, v1, l1, running);
        (true, a2, l2)
    } else {
        (false, a1, l1)
    }
}

/// `a && b`: `b` runs only when `a` succeeds; the status is that of the
/// last command run, and it becomes the last status.
pub proof fn law_and_runs_right_only_on_success(
    a: AstV,
    b: AstV,
    s1: i32,
    s2: i32,
    vars: Table,
    last: i32,
    running: bool,
)
    requires
        is_leaf(a),
        is_leaf(b),
    ensures
        enter(Seq::empty(), AstV::And(Box::new(a), Box::new(b))).1 == ActionV::RunLeaf(a),
        run_two(AstV::And(Box::new(a), Box::new(b)), s1, s2, vars, last, running) == if s1 == 0 {
            (true, ActionV::Finished(s2), s2)
        } else {
            (false, ActionV::Finished(s1), s1)
        },
{
    reveal_with_fuel(unwind, 4);
    reveal_with_fuel(enter, 3);
    let st0 = seq![FrameV::Finish, FrameV::AndRight(b), FrameV::Finish];
    assert(enter(Seq::empty(), AstV::And(Box::new(a), Box::new(b))) == (st0, ActionV::RunLeaf(a)))
        by {
        assert(Seq::<FrameV>::empty().push(FrameV::Finish).push(FrameV::AndRight(b)) =~= st0.take(
            2,
        ));
        assert(st0.take(2).push(FrameV::Finish) =~= st0);
    }
    assert(st0.drop_last() =~= st0.take(2));
    assert(st0.take(2).drop_last() =~= seq![FrameV::Finish]);
    assert(seq![FrameV::Finish].drop_last() =~= Seq::<FrameV>::empty());
    if s1 == 0 {
        let st1 = seq![FrameV::Finish, FrameV::Finish];
        assert(enter(seq![FrameV::Finish], b) == (st1, ActionV::RunLeaf(b))) by {
            assert(seq![FrameV::Finish].push(FrameV::Finish) =~= st1);
        }
        assert(st1.drop_last() =~= seq![FrameV::Finish]);
    }
}

/// `a || b`: `b` runs only when `a` fails; the status is that of the last
/// command run.
pub proof fn law_or_runs_right_only_on_failure(
    a: AstV,
    b: AstV,
    s1: i32,
    s2: i32,
    vars: Table,
    last: i32,
    running: bool,
)
    requires
        is_leaf(a),
        is_leaf(b),
    ensures
        enter(Seq::empty(), AstV::Or(Box::new(a), Box::new(b))).1 == ActionV::RunLeaf(a),
        run_two(AstV::Or(Box::new(a), Box::new(b)), s1, s2, vars, last, running) == if s1 != 0 {
            (true, ActionV::Finished(s2), s2)
        } else {
            (false, ActionV::Finished(s1), s1)
        },
{
    reveal_with_fuel(unwind, 4);
    reveal_with_fuel(enter, 3);
    let st0 = seq![FrameV::Finish, FrameV::OrRight(b), FrameV::Finish];
    assert(enter(Seq::empty(), AstV::Or(Box::new(a), Box::new(b))) == (st0, ActionV::RunLeaf(a)))
        by {
        assert(Seq::<FrameV>::empty().push(FrameV::Finish).push(FrameV::OrRight(b)) =~= st0.take(
            2,
        ));
        assert(st0.take(2).push(FrameV::Finish) =~= st0);
    }
    assert(st0.drop_last() =~= st0.take(2));
    assert(st0.take(2).drop_last() =~= seq![FrameV::Finish]);
    assert(seq![FrameV::Finish].drop_last() =~= Seq::<FrameV>::empty());
    if s1 != 0 {
        let st1 = seq![FrameV::Finish, FrameV::Finish];
        assert(enter(seq![FrameV::Finish], b) == (st1, ActionV::RunLeaf(b))) by {
            assert(seq![FrameV::Finish].push(FrameV::Finish) =~= st1);
        }
        assert(st1.drop_last() =~= seq![FrameV::Finish]);
    }
}

/// `a ; b`: `b` runs whatever `a` gave, and its status is the result.
pub proof fn law_semicolon_runs_both(
    a: AstV,
    b: AstV,
    s1: i32,
    s2: i32,
    vars: Table,
    last: i32,
    running: bool,
)
    requires
        is_leaf(a),
        is_leaf(b),
    ensures
        enter(Seq::empty(), AstV::Semicolon(Box::new(a), Box::new(b))).1 == ActionV::RunLeaf(a),
        run_two(AstV::Semicolon(Box::new(a), Box::new(b)), s1, s2, vars, last, running) == (
            true,
            ActionV::Finished(s2),
            s2,
        ),
{
    reveal_with_fuel(unwind, 4);
    reveal_with_fuel(enter, 3);
    let st0 = seq![FrameV::Finish, FrameV::SemiRight(b), FrameV::Finish];
    assert(enter(Seq::empty(), AstV::Semicolon(Box::new(a), Box::new(b))) == (
        st0,
        ActionV::RunLeaf(a),
    )) by {
        assert(Seq::<FrameV>::empty().push(FrameV::Finish).push(FrameV::SemiRight(b)) =~= st0.take(
            2,
        ));
        assert(st0.take(2).push(FrameV::Finish) =~= st0);
    }
    assert(st0.drop_last() =~= st0.take(2));
    assert(st0.take(2).drop_last() =~= seq![FrameV::Finish]);
    let st1 = seq![FrameV::Finish, FrameV::Finish];
    assert(enter(seq![FrameV::Finish], b) == (st1, ActionV::RunLeaf(b))) by {
        assert(seq![FrameV::Finish].push(FrameV::Finish) =~= st1);
    }
    assert(st1.drop_last() =~= seq![FrameV::Finish]);
    assert(seq![FrameV::Finish].drop_last() =~= Seq::<FrameV>::empty());
}

/// A `while` loop whose condition fails at once finishes with status 0
/// without running its body.
pub proof fn law_while_false_condition_gives_zero(
    c: AstV,
    b: AstV,
    s: i32,
    vars: Table,
    last: i32,
    running: bool,
)
    requires
        is_leaf(c),
        s != 0,
    ensures
        enter(Seq::empty(), AstV::While(Box::new(c), Box::new(b))).1 == ActionV::RunLeaf(c),
        unwind(
            enter(Seq::empty(), AstV::While(Box::new(c), Box::new(b))).0,
            s,
            vars,
            last,
            running,
        ) == (Seq::<FrameV>::empty(), ActionV::Finished(0), vars, 0i32),
{
    reveal_with_fuel(unwind, 4);
    reveal_with_fuel(enter, 3);
    let st0 = seq![FrameV::Finish, FrameV::WhileCond(c, b, 0), FrameV::Finish];
    assert(enter(Seq::empty(), AstV::While(Box::new(c), Box::new(b))) == (
        st0,
        ActionV::RunLeaf(c),
    )) by {
        assert(Seq::<FrameV>::empty().push(FrameV::Finish).push(FrameV::WhileCond(c, b, 0))
            =~= st0.take(2));
        assert(st0.take(2).push(FrameV::Finish) =~= st0);
    }
    assert(st0.drop_last() =~= st0.take(2));
    assert(st0.take(2).drop_last() =~= seq![FrameV::Finish]);
    assert(seq![FrameV::Finish].drop_last() =~= Seq::<FrameV>::empty());
}

/// An `if` without `else` whose condition fails finishes with the
/// condition's status.
pub proof fn law_if_false_without_else_keeps_status(
    c: AstV,
    t: AstV,
    s: i32,
    vars: Table,
    last: i32,
    running: bool,
)
    requires
        is_leaf(c),
        s != 0,
    ensures
        unwind(
            enter(Seq::empty(), AstV::If(Box::new(c), Box::new(t), None)).0,
            s,
            vars,
            last,
            running,
        ) == (Seq::<FrameV>::empty(), ActionV::Finished(s), vars, s),
{
    reveal_with_fuel(unwind, 4);
    reveal_with_fuel(enter, 3);
    let st0 = seq![FrameV::Finish, FrameV::IfBranch(t, None), FrameV::Finish];
    assert(enter(Seq::empty(), AstV::If(Box::new(c), Box::new(t), None)) == (
        st0,
        ActionV::RunLeaf(c),
    )) by {
        assert(Seq::<FrameV>::empty().push(FrameV::Finish).push(FrameV::IfBranch(t, None))
            =~= st0.take(2));
        assert(st0.take(2).push(FrameV::Finish) =~= st0);
    }
    assert(st0.drop_last() =~= st0.take(2));
    assert(st0.take(2).drop_last() =~= seq![FrameV::Finish]);
    assert(seq![FrameV::Finish].drop_last() =~= Seq::<FrameV>::empty());
}

pub proof fn lemma_enter(stack: Seq<FrameV>, n: AstV)
    ensures
        enter(stack, n).0.len() > stack.len(),
        enter(stack, n).0.subrange(0, stack.len() as int) == stack,
        enter(stack, n).1 is RunLeaf || enter(stack, n).1 is Expand,
        enter(stack, n).1 is Expand <==> awaits_words(enter(stack, n).0),
    decreases n,
{
    let st = stack.push(FrameV::Finish);
    match n {
        AstV::And(l, r) => {
            lemma_enter(st.push(FrameV::AndRight(*r)), *l);
        },
        AstV::Or(l, r) => {
            lemma_enter(st.push(FrameV::OrRight(*r)), *l);
        },
        AstV::Semicolon(l, r) => {
            lemma_enter(st.push(FrameV::SemiRight(*r)), *l);
        },
        AstV::Group(b) => {
            lemma_enter(st, *b);
        },
        AstV::If(c, t, e) => {
            lemma_enter(
                st.push(
                    FrameV::IfBranch(
                        *t,
                        match e {
                            Some(e) => Some(*e),
                            None => None,
                        },
                    ),
                ),
                *c,
            );
        },
        AstV::While(c, b) => {
            lemma_enter(st.push(FrameV::WhileCond(*c, *b, 0)), *c);
        },
        _ => {},
    }
    let r = enter(stack, n).0;
    assert(r.subrange(0, stack.len() as int) =~= stack);
}

/// Whenever unwinding hands out more work, it asks for words exactly when
/// the innermost frame waits for them.
pub proof fn lemma_unwind_awaits(stack: Seq<FrameV>, s: i32, vars: Table, last: i32, running: bool)
    ensures
        ({
            let (st, a, _, _) = unwind(stack, s, vars, last, running);
            (a is RunLeaf || a is Expand) ==> (a is Expand <==> awaits_words(st))
        }),
    decreases stack.len(),
{
    if stack.len() > 0 {
        let rest = stack.drop_last();
        match stack.last() {
            FrameV::Finish => lemma_unwind_awaits(rest, s, vars, s, running),
            FrameV::AndRight(r) => {
                lemma_enter(rest, r);
                lemma_unwind_awaits(rest, s, vars, last, running);
            },
            FrameV::OrRight(r) => {
                lemma_enter(rest, r);
                lemma_unwind_awaits(rest, s, vars, last, running);
            },
            FrameV::SemiRight(r) => lemma_enter(rest, r),
            FrameV::IfBranch(t, el) => {
                lemma_enter(rest, t);
                if let Some(b) = el {
                    lemma_enter(rest, b);
                }
                lemma_unwind_awaits(rest, s, vars, last, running);
            },
            FrameV::WhileCond(c, b, l) => {
                lemma_enter(rest.push(FrameV::WhileBody(c, b)), b);
                lemma_unwind_awaits(rest, l, vars, last, running);
            },
            FrameV::WhileBody(c, b) => lemma_enter(rest.push(FrameV::WhileCond(c, b, s)), c),
            FrameV::ForNext(v, ws, i, b) => {
                lemma_enter(rest.push(FrameV::ForNext(v, ws, i + 1, b)), b);
                lemma_unwind_awaits(rest, s, vars, last, running);
            },
            FrameV::ForWords(_, _) => lemma_unwind_awaits(rest, s, vars, last, running),
        }
    }
}

/// An evaluation starts with the frame that records its status at the
/// bottom of its stack.
pub proof fn law_evaluation_starts_with_its_record(n: AstV)
    ensures
        enter(Seq::empty(), n).0.len() > 0,
        enter(Seq::empty(), n).0[0] == FrameV::Finish,
{
    lemma_enter(Seq::empty(), n);
    reveal_with_fuel(enter, 2);
    let st = seq![FrameV::Finish];
    assert(Seq::<FrameV>::empty().push(FrameV::Finish) =~= st);
    match n {
        AstV::And(l, r) => lemma_enter(st.push(FrameV::AndRight(*r)), *l),
        AstV::Or(l, r) => lemma_enter(st.push(FrameV::OrRight(*r)), *l),
        AstV::Semicolon(l, r) => lemma_enter(st.push(FrameV::SemiRight(*r)), *l),
        AstV::Group(b) => lemma_enter(st, *b),
        AstV::If(c, t, e) => lemma_enter(
            st.push(
                FrameV::IfBranch(
                    *t,
                    match e {
                        Some(e) => Some(*e),
                        None => None,
                    },
                ),
            ),
            *c,
        ),
        AstV::While(c, b) => lemma_enter(st.push(FrameV::WhileCond(*c, *b, 0)), *c),
        _ => {},
    }
    let r = enter(Seq::empty(), n).0;
    assert(r.subrange(0, 1)[0] == r[0]);
}

/// While the frame that records the status lies at the bottom of the stack,
/// an evaluation that finishes has recorded its final status as the last
/// status; and the frames left when it hands out more work still have that
/// frame at the bottom.
pub proof fn law_finished_status_is_recorded(
    stack: Seq<FrameV>,
    s: i32,
    vars: Table,
    last: i32,
    running: bool,
)
    requires
        stack.len() > 0,
        stack[0] == FrameV::Finish,
    ensures
        ({
            let (st, a, v, l) = unwind(stack, s, vars, last, running);
            &&& a matches ActionV::Finished(f) ==> l == f && st.len() == 0
            &&& !(a is Finished) ==> st.len() > 0 && st[0] == FrameV::Finish
        }),
    decreases stack.len(),
{
    let rest = stack.drop_last();
    if stack.len() == 1 {
        assert(rest =~= Seq::<FrameV>::empty());
        assert(stack.last() == FrameV::Finish);
    } else {
        assert(rest[0] == FrameV::Finish);
        match stack.last() {
            FrameV::Finish => law_finished_status_is_recorded(rest, s, vars, s, running),
            FrameV::AndRight(r) => {
                lemma_enter(rest, r);
                law_finished_status_is_recorded(rest, s, vars, last, running);
                assert(enter(rest, r).0[0] == enter(rest, r).0.subrange(0, rest.len() as int)[0]);
            },
            FrameV::OrRight(r) => {
                lemma_enter(rest, r);
                law_finished_status_is_recorded(rest, s, vars, last, running);
                assert(enter(rest, r).0[0] == enter(rest, r).0.subrange(0, rest.len() as int)[0]);
            },
            FrameV::SemiRight(r) => {
                lemma_enter(rest, r);
                assert(enter(rest, r).0[0] == enter(rest, r).0.subrange(0, rest.len() as int)[0]);
            },
            FrameV::IfBranch(t, el) => {
                lemma_enter(rest, t);
                assert(enter(rest, t).0[0] == enter(rest, t).0.subrange(0, rest.len() as int)[0]);
                if let Some(b) = el {
                    lemma_enter(rest, b);
                    assert(enter(rest, b).0[0] == enter(rest, b).0.subrange(0, rest.len() as int)[0]);
                }
                law_finished_status_is_recorded(rest, s, vars, last, running);
            },
            FrameV::WhileCond(c, b, l) => {
                let st2 = rest.push(FrameV::WhileBody(c, b));
                lemma_enter(st2, b);
                assert(enter(st2, b).0[0] == enter(st2, b).0.subrange(0, st2.len() as int)[0]);
                law_finished_status_is_recorded(rest, l, vars, last, running);
            },
            FrameV::WhileBody(c, b) => {
                let st2 = rest.push(FrameV::WhileCond(c, b, s));
                lemma_enter(st2, c);
                assert(enter(st2, c).0[0] == enter(st2, c).0.subrange(0, st2.len() as int)[0]);
            },
            FrameV::ForNext(v, ws, i, b) => {
                let st2 = rest.push(FrameV::ForNext(v, ws, i + 1, b));
                lemma_enter(st2, b);
                assert(enter(st2, b).0[0] == enter(st2, b).0.subrange(0, st2.len() as int)[0]);
                law_finished_status_is_recorded(rest, s, vars, last, running);
            },
            FrameV::ForWords(_, _) => law_finished_status_is_recorded(rest, s, vars, last, running),
        }
    }
}

/// Starting a `for` loop keeps the frame that records the status at the
/// bottom; if the loop has no word and the evaluation finishes, its final
/// status is recorded.
pub proof fn law_loop_start_keeps_the_record(
    stack: Seq<FrameV>,
    words: Seq<Seq<char>>,
    vars: Table,
    last: i32,
    running: bool,
)
    requires
        evaluating(stack),
        awaits_words(stack),
    ensures
        ({
            let (st, a, v, l) = start_loop(stack, words, vars, last, running);
            &&& a matches ActionV::Finished(f) ==> l == f && st.len() == 0
            &&& !(a is Finished) ==> evaluating(st)
        }),
{
    let rest = stack.drop_last();
    assert(rest.len() > 0 && rest[0] == FrameV::Finish);
    if let FrameV::ForWords(v, b) = stack.last() {
        if words.len() == 0 {
            law_finished_status_is_recorded(rest, 0, vars, last, running);
        } else {
            let st2 = rest.push(FrameV::ForNext(v, words, 0, b));
            lemma_enter(st2, b);
            assert(enter(st2, b).0[0] == enter(st2, b).0.subrange(0, st2.len() as int)[0]);
        }
    }
}

/// `l && r`, for any subtrees: `l` is evaluated first above the frame of
/// `r`; when it finishes with status 0, `r` is evaluated in place of the
/// whole; otherwise `r` is skipped, and the status of `l` is the status of
/// the whole and is recorded as the last status.
pub proof fn law_and(
    st: Seq<FrameV>,
    l: AstV,
    r: AstV,
    s: i32,
    vars: Table,
    last: i32,
    running: bool,
)
    ensures
        enter(st, AstV::And(Box::new(l), Box::new(r))) == enter(
            st.push(FrameV::Finish).push(FrameV::AndRight(r)),
            l,
        ),
        unwind(st.push(FrameV::Finish).push(FrameV::AndRight(r)), s, vars, last, running) == if s
            == 0 {
            let e = enter(st.push(FrameV::Finish), r);
            (e.0, e.1, vars, last)
        } else {
            unwind(st, s, vars, s, running)
        },
{
    reveal_with_fuel(unwind, 2);
    assert(st.push(FrameV::Finish).push(FrameV::AndRight(r)).drop_last() =~= st.push(
        FrameV::Finish,
    ));
    assert(st.push(FrameV::Finish).drop_last() =~= st);
}

/// `l || r`, for any subtrees: `r` is evaluated only when `l` fails;
/// otherwise the status of `l`, 0, is the status of the whole.
pub proof fn law_or(
    st: Seq<FrameV>,
    l: AstV,
    r: AstV,
    s: i32,
    vars: Table,
    last: i32,
    running: bool,
)
    ensures
        enter(st, AstV::Or(Box::new(l), Box::new(r))) == enter(
            st.push(FrameV::Finish).push(FrameV::OrRight(r)),
            l,
        ),
        unwind(st.push(FrameV::Finish).push(FrameV::OrRight(r)), s, vars, last, running) == if s
            != 0 {
            let e = enter(st.push(FrameV::Finish), r);
            (e.0, e.1, vars, last)
        } else {
            unwind(st, s, vars, s, running)
        },
{
    reveal_with_fuel(unwind, 2);
    assert(st.push(FrameV::Finish).push(FrameV::OrRight(r)).drop_last() =~= st.push(
        FrameV::Finish,
    ));
    assert(st.push(FrameV::Finish).drop_last() =~= st);
}

/// `l ; r`, for any subtrees: `r` is evaluated once `l` finishes, whatever
/// its status.
pub proof fn law_semicolon(
    st: Seq<FrameV>,
    l: AstV,
    r: AstV,
    s: i32,
    vars: Table,
    last: i32,
    running: bool,
)
    ensures
        enter(st, AstV::Semicolon(Box::new(l), Box::new(r))) == enter(
            st.push(FrameV::Finish).push(FrameV::SemiRight(r)),
            l,
        ),
        unwind(st.push(FrameV::Finish).push(FrameV::SemiRight(r)), s, vars, last, running) == ({
            let e = enter(st.push(FrameV::Finish), r);
            (e.0, e.1, vars, last)
        }),
{
    assert(st.push(FrameV::Finish).push(FrameV::SemiRight(r)).drop_last() =~= st.push(
        FrameV::Finish,
    ));
}

/// A group is evaluated as its body, with its own status record.
pub proof fn law_group(st: Seq<FrameV>, b: AstV)
    ensures
        enter(st, AstV::Group(Box::new(b))) == enter(st.push(FrameV::Finish), b),
{
}

/// `if c then t [else e]`, for any subtrees: `c` is evaluated first; when
/// it succeeds `t` runs in place of the whole, else `e` when there is one;
/// with no `else` the status of `c` is the status of the whole.
pub proof fn law_if(
    st: Seq<FrameV>,
    c: AstV,
    t: AstV,
    e: Option<AstV>,
    s: i32,
    vars: Table,
    last: i32,
    running: bool,
)
    ensures
        enter(
            st,
            AstV::If(
                Box::new(c),
                Box::new(t),
                match e {
                    Some(x) => Some(Box::new(x)),
                    None => None,
                },
            ),
        ) == enter(st.push(FrameV::Finish).push(FrameV::IfBranch(t, e)), c),
        unwind(st.push(FrameV::Finish).push(FrameV::IfBranch(t, e)), s, vars, last, running) == if s
            == 0 {
            let x = enter(st.push(FrameV::Finish), t);
            (x.0, x.1, vars, last)
        } else {
            match e {
                Some(b) => {
                    let x = enter(st.push(FrameV::Finish), b);
                    (x.0, x.1, vars, last)
                },
                None => unwind(st, s, vars, s, running),
            }
        },
{
    reveal_with_fuel(unwind, 2);
    assert(st.push(FrameV::Finish).push(FrameV::IfBranch(t, e)).drop_last() =~= st.push(
        FrameV::Finish,
    ));
    assert(st.push(FrameV::Finish).drop_last() =~= st);
}

/// `while c do b`, for any subtrees: `c` is evaluated first; when it
/// succeeds `b` runs and then `c` again, the status of `b` being kept;
/// when it fails the loop is over with the status of the last run of `b`
/// (0 when `b` never ran), which is recorded.
pub proof fn law_while(
    st: Seq<FrameV>,
    c: AstV,
    b: AstV,
    kept: i32,
    s: i32,
    vars: Table,
    last: i32,
    running: bool,
)
    ensures
        enter(st, AstV::While(Box::new(c), Box::new(b))) == enter(
            st.push(FrameV::Finish).push(FrameV::WhileCond(c, b, 0)),
            c,
        ),
        unwind(st.push(FrameV::Finish).push(FrameV::WhileCond(c, b, kept)), s, vars, last, running)
            == if s == 0 {
            let x = enter(st.push(FrameV::Finish).push(FrameV::WhileBody(c, b)), b);
            (x.0, x.1, vars, last)
        } else {
            unwind(st, kept, vars, kept, running)
        },
        unwind(st.push(FrameV::Finish).push(FrameV::WhileBody(c, b)), s, vars, last, running)
            == ({
            let x = enter(st.push(FrameV::Finish).push(FrameV::WhileCond(c, b, s)), c);
            (x.0, x.1, vars, last)
        }),
{
    reveal_with_fuel(unwind, 2);
    assert(st.push(FrameV::Finish).push(FrameV::WhileCond(c, b, kept)).drop_last() =~= st.push(
        FrameV::Finish,
    ));
    assert(st.push(FrameV::Finish).push(FrameV::WhileBody(c, b)).drop_last() =~= st.push(
        FrameV::Finish,
    ));
    assert(st.push(FrameV::Finish).drop_last() =~= st);
}

/// `for v in ws do b`, for any body: the words are asked for first; with
/// none the loop is over with status 0; else `b` runs once per word with
/// `v` set to it, in order, and stops early once the shell stops running;
/// the status of the last run of `b` is the status of the whole.
pub proof fn law_for(
    st: Seq<FrameV>,
    v: Seq<char>,
    ws: Seq<Seq<char>>,
    b: AstV,
    words: Seq<Seq<char>>,
    i: int,
    s: i32,
    vars: Table,
    last: i32,
    running: bool,
)
    ensures
        enter(st, AstV::For(v, ws, Box::new(b))) == (
            st.push(FrameV::Finish).push(FrameV::ForWords(v, b)),
            ActionV::Expand(ws),
        ),
        start_loop(st.push(FrameV::Finish).push(FrameV::ForWords(v, b)), words, vars, last, running)
            == if words.len() == 0 {
            unwind(st, 0, vars, 0, running)
        } else {
            let x = enter(st.push(FrameV::Finish).push(FrameV::ForNext(v, words, 0, b)), b);
            (x.0, x.1, assign(vars, v, words[0]), last)
        },
        unwind(st.push(FrameV::Finish).push(FrameV::ForNext(v, words, i, b)), s, vars, last, running)
            == if !running || i + 1 >= words.len() {
            unwind(st, s, vars, s, running)
        } else {
            let x = enter(st.push(FrameV::Finish).push(FrameV::ForNext(v, words, i + 1, b)), b);
            (x.0, x.1, assign(vars, v, words[i + 1]), last)
        },
{
    reveal_with_fuel(unwind, 2);
    assert(st.push(FrameV::Finish).push(FrameV::ForWords(v, b)).drop_last() =~= st.push(
        FrameV::Finish,
    ));
    assert(st.push(FrameV::Finish).push(FrameV::ForNext(v, words, i, b)).drop_last() =~= st.push(
        FrameV::Finish,
    ));
    assert(st.push(FrameV::Finish).drop_last() =~= st);
}

/// How a command runs: not at all without words; a builtin named first
/// runs as a builtin (refused with a redirection), unless builtins are off;
/// any other first word runs as a program.
pub proof fn law_dispatch(c: CommandV, w: Seq<char>, rest: Seq<Seq<char>>, builtins: bool)
    ensures
        dispatch_of(c, Seq::empty(), builtins) == Ok::<Dispatch, ErrorV>(Dispatch::Nothing),
        !builtin_name(w) ==> dispatch_of(c, seq![w] + rest, builtins) == Ok::<Dispatch, ErrorV>(
            Dispatch::Program,
        ),
        !builtins ==> dispatch_of(c, seq![w] + rest, builtins) == Ok::<Dispatch, ErrorV>(
            Dispatch::Program,
        ),
        builtins && builtin_name(w) && c.infile is None && c.outfile is None && c.heredoc_delim
            is None ==> dispatch_of(c, seq![w] + rest, builtins) == Ok::<Dispatch, ErrorV>(
            Dispatch::Builtin,
        ),
        builtins && builtin_name(w) && (c.infile is Some || c.outfile is Some || c.heredoc_delim
            is Some) ==> dispatch_of(c, seq![w] + rest, builtins) is Err,
        builtin_name("cd"@) && builtin_name("exit"@) && builtin_name("export"@) && builtin_name(
            "unset"@,
        ) && builtin_name("echo"@) && builtin_name("alias"@) && builtin_name("type"@)
            && builtin_name("jobs"@) && builtin_name("fg"@) && builtin_name("bg"@) && builtin_name("pwd"@),
{
    assert((seq![w] + rest)[0] == w);
}

} // verus!
