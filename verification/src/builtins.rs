use vstd::prelude::*;

use crate::arith::{trim_bounds, trimmed};
use crate::ast::strings_view;
use crate::globbing::{split_on, split_text};
use crate::num::{
    int_text, law_int_text_reads_back, lemma_nat_text_value, nat_text, parse_i32, parse_in_range,
    parse_unsigned, parse_usize,
};
use crate::shell::{
    Job, JobStatus, Shell, Table, assign, law_assign_keeps_others, law_lookup_after_assign,
    law_lookup_after_remove, law_remove_keeps_others, lookup, remove_all,
};
use crate::text::{chars_of, owned, push_text, str_eq, string_of_range};

verus! {

/// The names of the builtin commands.
pub open spec fn builtin_name(name: Seq<char>) -> bool {
    ||| name == "cd"@
    ||| name == "exit"@
    ||| name == "pwd"@
    ||| name == "export"@
    ||| name == "unset"@
    ||| name == "echo"@
    ||| name == "alias"@
    ||| name == "type"@
    ||| name == "jobs"@
    ||| name == "fg"@
    ||| name == "bg"@
}

/// Tells whether a command name is that of a builtin.
pub fn is_builtin_name(name: &str) -> (r: bool)
    ensures
        r == builtin_name(name@),
{
    str_eq(name, "cd") || str_eq(name, "exit") || str_eq(name, "pwd") || str_eq(name, "export")
        || str_eq(name, "unset") || str_eq(name, "echo") || str_eq(name, "alias") || str_eq(
        name,
        "type",
    ) || str_eq(name, "jobs") || str_eq(name, "fg") || str_eq(name, "bg")
}

/// How a job's status is shown.
pub open spec fn status_label(status: JobStatus) -> Seq<char> {
    match status {
        JobStatus::Running => "Running"@,
        JobStatus::Done(code) => "Done("@ + int_text(code as int) + ")"@,
    }
}

/// The text that shows a job's status.
pub fn job_status_label(status: &JobStatus) -> (r: String)
    ensures
        r@ == status_label(*status),
{
    match status {
        JobStatus::Running => owned("Running"),
        JobStatus::Done(code) => {
            let mut r = owned("Done(");
            let n = crate::num::int_to_string(*code as i128);
            push_text(&mut r, n.as_str());
            push_text(&mut r, ")");
            r
        },
    }
}

/// What a builtin finished with: its status and the texts it writes to
/// standard output and to standard error.
pub struct Outcome {
    pub status: i32,
    pub out: String,
    pub err: String,
}

pub type OutcomeV = (int, Seq<char>, Seq<char>);

impl View for Outcome {
    type V = OutcomeV;

    open spec fn view(&self) -> OutcomeV {
        (self.status as int, self.out@, self.err@)
    }
}

fn outcome(status: i32, out: String, err: String) -> (r: Outcome)
    ensures
        r@ == (status as int, out@, err@),
{
    Outcome { status, out, err }
}

fn status_only(status: i32) -> (r: Outcome)
    ensures
        r@ == (status as int, Seq::<char>::empty(), Seq::<char>::empty()),
{
    Outcome { status, out: String::new(), err: String::new() }
}

fn error_text(status: i32, err: String) -> (r: Outcome)
    ensures
        r@ == (status as int, Seq::<char>::empty(), err@),
{
    Outcome { status, out: String::new(), err }
}

/// The status `exit` leaves with: its argument, trimmed, when it is an
/// `i32`, else the last status.
pub open spec fn exit_code(args: Seq<Seq<char>>, last: i32) -> int {
    if args.len() > 1 {
        match parse_in_range(trimmed(args[1]), i32::MIN as int, i32::MAX as int) {
            Some(v) => v,
            None => last as int,
        }
    } else {
        last as int
    }
}

/// `exit`: stops the shell; returns the status to leave with.
pub fn do_exit(args: &Vec<String>, shell: &mut Shell) -> (r: i32)
    ensures
        r == exit_code(strings_view(args@), old(shell).last_status),
        !final(shell).running,
        final(shell).variables == old(shell).variables,
        final(shell).aliases == old(shell).aliases,
        final(shell).last_status == old(shell).last_status,
        final(shell).oldpwd == old(shell).oldpwd,
        final(shell).pending_heredocs == old(shell).pending_heredocs,
        final(shell).jobs == old(shell).jobs,
        final(shell).next_job_id == old(shell).next_job_id,
        final(shell).last_bg_pid == old(shell).last_bg_pid,
{
    let mut status = shell.last_status;
    if args.len() > 1 {
        let chars = chars_of(args[1].as_str());
        let (lo, hi) = trim_bounds(&chars);
        if let Some(v) = parse_i32(&chars, lo, hi) {
            status = v;
        }
    }
    shell.running = false;
    status
}

/// The first `=` of a text from `i` on; the length when there is none.
pub open spec fn first_eq(s: Seq<char>, i: int) -> int
    decreases s.len() - i,
{
    if i < 0 || i >= s.len() {
        s.len() as int
    } else if s[i] == '=' {
        i
    } else {
        first_eq(s, i + 1)
    }
}

proof fn lemma_first_eq(s: Seq<char>, i: int)
    requires
        0 <= i <= s.len(),
    ensures
        i <= first_eq(s, i) <= s.len(),
    decreases s.len() - i,
{
    if i < s.len() && s[i] != '=' {
        lemma_first_eq(s, i + 1);
    }
}

/// A text cut at its first `=`, as `str::split_once('=')` cuts it.
pub open spec fn split_eq(s: Seq<char>) -> Option<(Seq<char>, Seq<char>)> {
    let e = first_eq(s, 0);
    if e < s.len() {
        Some((s.subrange(0, e), s.subrange(e + 1, s.len() as int)))
    } else {
        None
    }
}

/// Cuts a text at its first `=`.
pub fn split_at_eq(s: &str) -> (r: Option<(String, String)>)
    ensures
        match r {
            Some((a, b)) => split_eq(s@) == Some((a@, b@)),
            None => split_eq(s@) is None,
        },
{
    let chars = chars_of(s);
    let n = chars.len();
    proof {
        lemma_first_eq(chars@, 0);
    }
    let mut i: usize = 0;
    while i < n
        invariant
            i <= n == chars@.len(),
            chars@ == s@,
            first_eq(chars@, 0) == first_eq(chars@, i as int),
        decreases n - i,
    {
        if chars[i] == '=' {
            let a = string_of_range(&chars, 0, i);
            let b = string_of_range(&chars, i + 1, n);
            return Some((a, b));
        }
        i += 1;
    }
    None
}

/// The table after `export` of one argument: `name=value` sets `name`,
/// a bare name is set to the empty text.
pub open spec fn export_one(t: Table, arg: Seq<char>) -> Table {
    match split_eq(arg) {
        Some((name, value)) => assign(t, name, value),
        None => assign(t, arg, Seq::empty()),
    }
}

/// The variables after `export` of `args[1..n]`.
pub open spec fn export_all(t: Table, args: Seq<Seq<char>>, n: int) -> Table
    decreases n,
{
    if n <= 1 || n > args.len() {
        t
    } else {
        export_one(export_all(t, args, n - 1), args[n - 1])
    }
}

/// The lines that list a table, each made by `line`.
pub open spec fn listing(t: Table, alias_form: bool) -> Seq<char>
    decreases t.len(),
{
    if t.len() == 0 {
        Seq::empty()
    } else {
        listing(t.drop_last(), alias_form) + if alias_form {
            alias_line(t.last().0, t.last().1)
        } else {
            t.last().0 + "="@ + t.last().1 + "\n"@
        }
    }
}

/// How an alias is shown.
pub open spec fn alias_line(name: Seq<char>, value: Seq<char>) -> Seq<char> {
    "alias "@ + name + "='"@ + value + "'\n"@
}

fn list_table(t: &Vec<(String, String)>, alias_form: bool) -> (r: String)
    ensures
        r@ == listing(crate::shell::table_view(t@), alias_form),
{
    let ghost tv = crate::shell::table_view(t@);
    let mut r = String::new();
    let mut i: usize = 0;
    assert(tv.take(0) =~= Seq::<(Seq<char>, Seq<char>)>::empty());
    while i < t.len()
        invariant
            i <= t@.len(),
            tv == crate::shell::table_view(t@),
            r@ == listing(tv.take(i as int), alias_form),
        decreases t@.len() - i,
    {
        let ghost before = r@;
        let name = t[i].0.as_str();
        let value = t[i].1.as_str();
        if alias_form {
            push_text(&mut r, "alias ");
            push_text(&mut r, name);
            push_text(&mut r, "='");
            push_text(&mut r, value);
            push_text(&mut r, "'\n");
            assert(r@ =~= before + alias_line(name@, value@));
        } else {
            push_text(&mut r, name);
            push_text(&mut r, "=");
            push_text(&mut r, value);
            push_text(&mut r, "\n");
            assert(r@ =~= before + (name@ + "="@ + value@ + "\n"@));
        }
        assert(tv.take(i + 1).drop_last() =~= tv.take(i as int));
        i += 1;
    }
    assert(tv.take(i as int) =~= tv);
    r
}

/// `export`: with no argument, lists the variables; else sets each
/// `name=value` (a bare name to the empty text).
pub fn do_export(args: &Vec<String>, shell: &mut Shell) -> (r: Outcome)
    ensures
        args@.len() < 2 ==> r@ == (0int, listing(old(shell).vars(), false), Seq::<char>::empty())
            && final(shell).vars() == old(shell).vars(),
        args@.len() >= 2 ==> r@ == (0int, Seq::<char>::empty(), Seq::<char>::empty())
            && final(shell).vars() == export_all(
            old(shell).vars(),
            strings_view(args@),
            args@.len() as int,
        ),
        final(shell).aliases == old(shell).aliases,
        final(shell).last_status == old(shell).last_status,
        final(shell).oldpwd == old(shell).oldpwd,
        final(shell).running == old(shell).running,
        final(shell).pending_heredocs == old(shell).pending_heredocs,
        final(shell).jobs == old(shell).jobs,
        final(shell).next_job_id == old(shell).next_job_id,
        final(shell).last_bg_pid == old(shell).last_bg_pid,
{
    if args.len() < 2 {
        let out = list_table(&shell.variables, false);
        return outcome(0, out, String::new());
    }
    let ghost av = strings_view(args@);
    let ghost t0 = shell.vars();
    let mut i: usize = 1;
    while i < args.len()
        invariant
            1 <= i <= args@.len(),
            av == strings_view(args@),
            shell.vars() == export_all(t0, av, i as int),
            shell.aliases == old(shell).aliases,
            shell.last_status == old(shell).last_status,
            shell.oldpwd == old(shell).oldpwd,
            shell.running == old(shell).running,
            shell.pending_heredocs == old(shell).pending_heredocs,
            shell.jobs == old(shell).jobs,
            shell.next_job_id == old(shell).next_job_id,
            shell.last_bg_pid == old(shell).last_bg_pid,
        decreases args@.len() - i,
    {
        let arg = args[i].as_str();
        match split_at_eq(arg) {
            Some((name, value)) => shell.set_var(name.as_str(), value.as_str()),
            None => shell.set_var(arg, ""),
        }
        proof {
            reveal_strlit("");
        }
        assert(""@ =~= Seq::<char>::empty());
        i += 1;
    }
    status_only(0)
}

/// The variables after `unset` of `args[1..n]`.
pub open spec fn unset_all(t: Table, args: Seq<Seq<char>>, n: int) -> Table
    decreases n,
{
    if n <= 1 || n > args.len() {
        t
    } else {
        remove_all(unset_all(t, args, n - 1), args[n - 1])
    }
}

/// `unset`: removes each variable named.
pub fn do_unset(args: &Vec<String>, shell: &mut Shell) -> (r: i32)
    requires
        args@.len() >= 1,
    ensures
        r == 0,
        final(shell).vars() == unset_all(old(shell).vars(), strings_view(args@), args@.len() as int),
        final(shell).aliases == old(shell).aliases,
        final(shell).last_status == old(shell).last_status,
        final(shell).oldpwd == old(shell).oldpwd,
        final(shell).running == old(shell).running,
        final(shell).pending_heredocs == old(shell).pending_heredocs,
        final(shell).jobs == old(shell).jobs,
        final(shell).next_job_id == old(shell).next_job_id,
        final(shell).last_bg_pid == old(shell).last_bg_pid,
{
    let ghost av = strings_view(args@);
    let ghost t0 = shell.vars();
    let mut i: usize = 1;
    while i < args.len()
        invariant
            1 <= i <= args@.len(),
            av == strings_view(args@),
            shell.vars() == unset_all(t0, av, i as int),
            shell.aliases == old(shell).aliases,
            shell.last_status == old(shell).last_status,
            shell.oldpwd == old(shell).oldpwd,
            shell.running == old(shell).running,
            shell.pending_heredocs == old(shell).pending_heredocs,
            shell.jobs == old(shell).jobs,
            shell.next_job_id == old(shell).next_job_id,
            shell.last_bg_pid == old(shell).last_bg_pid,
        decreases args@.len() - i,
    {
        shell.unset_var(args[i].as_str());
        i += 1;
    }
    0
}

/// Words joined by single blanks.
pub open spec fn joined(ws: Seq<Seq<char>>) -> Seq<char>
    decreases ws.len(),
{
    if ws.len() == 0 {
        Seq::empty()
    } else if ws.len() == 1 {
        ws[0]
    } else {
        joined(ws.drop_last()) + seq![' '] + ws.last()
    }
}

/// Where the words `echo` writes start: after a first `-n`.
pub open spec fn echo_start(args: Seq<Seq<char>>) -> int {
    if args.len() > 1 && args[1] == "-n"@ {
        2
    } else {
        1
    }
}

/// What `echo` writes: its words joined by blanks, then a newline unless
/// the first word is `-n`.
pub open spec fn echo_text(args: Seq<Seq<char>>) -> Seq<char> {
    let body = joined(args.subrange(echo_start(args), args.len() as int));
    if echo_start(args) == 2 {
        body
    } else {
        body + seq!['\n']
    }
}

/// `echo`: the text to write.
pub fn do_echo(args: &Vec<String>) -> (r: Outcome)
    requires
        args@.len() >= 1,
    ensures
        r@ == (0int, echo_text(strings_view(args@)), Seq::<char>::empty()),
{
    let ghost av = strings_view(args@);
    let mut start: usize = 1;
    let mut newline = true;
    if args.len() > 1 && str_eq(args[1].as_str(), "-n") {
        newline = false;
        start = 2;
    }
    assert(start == echo_start(av));
    let mut out = String::new();
    let mut i = start;
    assert(av.subrange(start as int, start as int) =~= Seq::<Seq<char>>::empty());
    while i < args.len()
        invariant
            start <= i <= args@.len(),
            av == strings_view(args@),
            out@ == joined(av.subrange(start as int, i as int)),
        decreases args@.len() - i,
    {
        let ghost before = out@;
        if i > start {
            crate::text::push_char(&mut out, ' ');
        }
        push_text(&mut out, args[i].as_str());
        let ghost w = av.subrange(start as int, i + 1);
        assert(w.drop_last() =~= av.subrange(start as int, i as int));
        if i == start {
            assert(w.len() == 1);
            assert(out@ =~= w[0]);
        } else {
            assert(out@ =~= before + seq![' '] + w.last());
        }
        i += 1;
    }
    if newline {
        crate::text::push_char(&mut out, '\n');
    }
    outcome(0, out, String::new())
}

/// What `alias` of one argument does to the aliases, the output and the
/// error text: `name=value` defines an alias, a bare name shows it.
pub open spec fn alias_one(st: (Table, Seq<char>, Seq<char>), arg: Seq<char>) -> (
    Table,
    Seq<char>,
    Seq<char>,
) {
    match split_eq(arg) {
        Some((name, value)) => (assign(st.0, name, value), st.1, st.2),
        None => match lookup(st.0, arg) {
            Some(value) => (st.0, st.1 + alias_line(arg, value), st.2),
            None => (st.0, st.1, st.2 + "eazyshell: alias: "@ + arg + ": not found\n"@),
        },
    }
}

pub open spec fn alias_all(t: Table, args: Seq<Seq<char>>, n: int) -> (
    Table,
    Seq<char>,
    Seq<char>,
)
    decreases n,
{
    if n <= 1 || n > args.len() {
        (t, Seq::empty(), Seq::empty())
    } else {
        alias_one(alias_all(t, args, n - 1), args[n - 1])
    }
}

/// `alias`: with no argument, lists the aliases; else defines or shows
/// each in turn.
pub fn do_alias(args: &Vec<String>, shell: &mut Shell) -> (r: Outcome)
    ensures
        args@.len() < 2 ==> r@ == (0int, listing(old(shell).alias_table(), true), Seq::<
            char,
        >::empty()) && final(shell).alias_table() == old(shell).alias_table(),
        args@.len() >= 2 ==> ({
            let st = alias_all(old(shell).alias_table(), strings_view(args@), args@.len() as int);
            r@ == (0int, st.1, st.2) && final(shell).alias_table() == st.0
        }),
        final(shell).variables == old(shell).variables,
        final(shell).last_status == old(shell).last_status,
        final(shell).oldpwd == old(shell).oldpwd,
        final(shell).running == old(shell).running,
        final(shell).pending_heredocs == old(shell).pending_heredocs,
        final(shell).jobs == old(shell).jobs,
        final(shell).next_job_id == old(shell).next_job_id,
        final(shell).last_bg_pid == old(shell).last_bg_pid,
{
    if args.len() < 2 {
        let out = list_table(&shell.aliases, true);
        return outcome(0, out, String::new());
    }
    let ghost av = strings_view(args@);
    let ghost t0 = shell.alias_table();
    let mut out = String::new();
    let mut err = String::new();
    let mut i: usize = 1;
    assert(out@ =~= Seq::<char>::empty());
    assert(err@ =~= Seq::<char>::empty());
    while i < args.len()
        invariant
            1 <= i <= args@.len(),
            av == strings_view(args@),
            alias_all(t0, av, i as int) == (shell.alias_table(), out@, err@),
            shell.variables == old(shell).variables,
            shell.last_status == old(shell).last_status,
            shell.oldpwd == old(shell).oldpwd,
            shell.running == old(shell).running,
            shell.pending_heredocs == old(shell).pending_heredocs,
            shell.jobs == old(shell).jobs,
            shell.next_job_id == old(shell).next_job_id,
            shell.last_bg_pid == old(shell).last_bg_pid,
        decreases args@.len() - i,
    {
        let arg = args[i].as_str();
        match split_at_eq(arg) {
            Some((name, value)) => shell.set_alias(name.as_str(), value.as_str()),
            None => match shell.get_alias(arg) {
                Some(value) => {
                    let ghost before = out@;
                    push_text(&mut out, "alias ");
                    push_text(&mut out, arg);
                    push_text(&mut out, "='");
                    push_text(&mut out, value);
                    push_text(&mut out, "'\n");
                    assert(out@ =~= before + alias_line(arg@, value@));
                },
                None => {
                    let ghost before = err@;
                    push_text(&mut err, "eazyshell: alias: ");
                    push_text(&mut err, arg);
                    push_text(&mut err, ": not found\n");
                    assert(err@ =~= before + "eazyshell: alias: "@ + arg@ + ": not found\n"@);
                },
            },
        }
        i += 1;
    }
    outcome(0, out, err)
}

/// The directories `type` searches for a command: the non-empty pieces of
/// `PATH`, or the usual ones when it is unset.
pub open spec fn search_dirs(path: Option<Seq<char>>) -> Seq<Seq<char>> {
    match path {
        Some(p) => split_on(p, ':').filter(|d: Seq<char>| d.len() > 0),
        None => seq!["/usr/local/bin"@, "/usr/bin"@, "/bin"@],
    }
}

/// The path of `name` in the directory `dir`: `name` itself when it is
/// absolute; otherwise `dir`, a `/` unless `dir` ends with one, and `name`.
pub open spec fn path_join(dir: Seq<char>, name: Seq<char>) -> Seq<char> {
    if name.len() > 0 && name[0] == '/' {
        name
    } else if dir.len() == 0 || dir.last() == '/' {
        dir + name
    } else {
        dir + seq!['/'] + name
    }
}

/// The paths at which `type` looks for a command, in order.
pub open spec fn search_paths(name: Seq<char>, path: Option<Seq<char>>) -> Seq<Seq<char>> {
    search_dirs(path).map_values(|d: Seq<char>| path_join(d, name))
}

/// Joins a directory and a name into a path.
pub fn join_path(dir: &str, name: &str) -> (r: String)
    ensures
        r@ == path_join(dir@, name@),
{
    let d = chars_of(dir);
    let n = chars_of(name);
    let mut r = String::new();
    if n.len() > 0 && n[0] == '/' {
        push_text(&mut r, name);
    } else if d.len() == 0 || d[d.len() - 1] == '/' {
        push_text(&mut r, dir);
        push_text(&mut r, name);
    } else {
        push_text(&mut r, dir);
        crate::text::push_char(&mut r, '/');
        push_text(&mut r, name);
    }
    assert(r@ =~= path_join(dir@, name@));
    r
}

/// What `type` does before looking at the file system: nothing without an
/// argument; a builtin or an alias is reported; otherwise the paths at
/// which to look for the command come back.
pub enum TypeStep {
    Finished(Outcome),
    Search { name: String, paths: Vec<String> },
}

pub open spec fn type_finished(args: Seq<Seq<char>>, aliases: Table) -> Option<OutcomeV> {
    if args.len() < 2 {
        Some((0int, Seq::empty(), Seq::empty()))
    } else if builtin_name(args[1]) {
        Some((0int, args[1] + " is a shell builtin\n"@, Seq::empty()))
    } else {
        match lookup(aliases, args[1]) {
            Some(v) => Some((0int, args[1] + " is aliased to '"@ + v + "'\n"@, Seq::empty())),
            None => None,
        }
    }
}

/// `type`, up to the search of the file system.
pub fn do_type(args: &Vec<String>, shell: &Shell) -> (r: TypeStep)
    ensures
        match r {
            TypeStep::Finished(o) => type_finished(strings_view(args@), shell.alias_table())
                == Some(o@),
            TypeStep::Search { name, paths } => type_finished(
                strings_view(args@),
                shell.alias_table(),
            ) is None && name@ == args@[1]@ && strings_view(paths@) == search_paths(
                args@[1]@,
                lookup(shell.vars(), "PATH"@),
            ),
        },
{
    if args.len() < 2 {
        return TypeStep::Finished(status_only(0));
    }
    let arg = args[1].as_str();
    if is_builtin_name(arg) {
        let mut out = owned(arg);
        push_text(&mut out, " is a shell builtin\n");
        return TypeStep::Finished(outcome(0, out, String::new()));
    }
    if let Some(value) = shell.get_alias(arg) {
        let mut out = owned(arg);
        push_text(&mut out, " is aliased to '");
        push_text(&mut out, value);
        push_text(&mut out, "'\n");
        return TypeStep::Finished(outcome(0, out, String::new()));
    }
    let dirs = path_dirs(shell);
    let ghost ds = strings_view(dirs@);
    let mut paths: Vec<String> = Vec::new();
    let mut i: usize = 0;
    while i < dirs.len()
        invariant
            i <= dirs@.len(),
            ds == strings_view(dirs@),
            strings_view(paths@) == ds.take(i as int).map_values(|d: Seq<char>| path_join(d, arg@)),
        decreases dirs@.len() - i,
    {
        let ghost before = strings_view(paths@);
        let p = join_path(dirs[i].as_str(), arg);
        paths.push(p);
        assert(strings_view(paths@) =~= before.push(p@));
        assert(ds.take(i + 1).map_values(|d: Seq<char>| path_join(d, arg@)) =~= ds.take(
            i as int,
        ).map_values(|d: Seq<char>| path_join(d, arg@)).push(path_join(ds[i as int], arg@)));
        i += 1;
    }
    assert(ds.take(i as int) =~= ds);
    TypeStep::Search { name: owned(arg), paths }
}

fn path_dirs(shell: &Shell) -> (r: Vec<String>)
    ensures
        strings_view(r@) == search_dirs(lookup(shell.vars(), "PATH"@)),
{
    match shell.get_var("PATH") {
        Some(p) => {
            let pieces = split_text(p, ':');
            let ghost ps = strings_view(pieces@);
            let mut dirs: Vec<String> = Vec::new();
            let mut i: usize = 0;
            proof {
                reveal(Seq::filter);
            }
            assert(ps.take(0).filter(|d: Seq<char>| d.len() > 0) =~= Seq::<Seq<char>>::empty());
            while i < pieces.len()
                invariant
                    i <= pieces@.len(),
                    ps == strings_view(pieces@),
                    strings_view(dirs@) == ps.take(i as int).filter(|d: Seq<char>| d.len() > 0),
                decreases pieces@.len() - i,
            {
                let ghost before = strings_view(dirs@);
                assert(ps.take(i + 1).drop_last() =~= ps.take(i as int));
                proof {
                    reveal(Seq::filter);
                    assert(ps.take(i + 1).last() == ps[i as int]);
                }
                if !pieces[i].as_str().is_empty() {
                    dirs.push(pieces[i].clone());
                    assert(strings_view(dirs@) =~= before.push(ps[i as int]));
                }
                i += 1;
            }
            assert(ps.take(i as int) =~= ps);
            dirs
        },
        None => {
            let r = vec![owned("/usr/local/bin"), owned("/usr/bin"), owned("/bin")];
            assert(strings_view(r@) =~= seq!["/usr/local/bin"@, "/usr/bin"@, "/bin"@]);
            r
        },
    }
}

/// What `type` reports once the search is over: the path where the
/// command was found, or that it was not.
pub open spec fn type_found_outcome(name: Seq<char>, path: Option<Seq<char>>) -> OutcomeV {
    match path {
        Some(p) => (0int, name + " is "@ + p + "\n"@, Seq::empty()),
        None => (1int, name + " not found\n"@, Seq::empty()),
    }
}

/// The end of `type`, given where the search found the command.
pub fn type_found(name: &str, path: Option<String>) -> (r: Outcome)
    ensures
        r@ == type_found_outcome(name@, crate::token::opt_view(path)),
{
    let mut out = owned(name);
    match path {
        Some(p) => {
            push_text(&mut out, " is ");
            push_text(&mut out, p.as_str());
            push_text(&mut out, "\n");
            outcome(0, out, String::new())
        },
        None => {
            push_text(&mut out, " not found\n");
            outcome(1, out, String::new())
        },
    }
}

/// How a job is listed by `jobs`.
pub open spec fn job_line(j: Job) -> Seq<char> {
    "["@ + int_text(j.id as int) + "] "@ + status_label(j.status) + " "@ + j.cmdline@ + "\n"@
}

pub open spec fn jobs_listing(jobs: Seq<Job>) -> Seq<char>
    decreases jobs.len(),
{
    if jobs.len() == 0 {
        Seq::empty()
    } else {
        jobs_listing(jobs.drop_last()) + job_line(jobs.last())
    }
}

/// `jobs`: lists the jobs.
pub fn do_jobs(shell: &Shell) -> (r: Outcome)
    ensures
        r@ == (0int, jobs_listing(shell.jobs@), Seq::<char>::empty()),
{
    let ghost js = shell.jobs@;
    let mut out = String::new();
    let mut i: usize = 0;
    assert(js.take(0) =~= Seq::<Job>::empty());
    while i < shell.jobs.len()
        invariant
            i <= js.len(),
            js == shell.jobs@,
            out@ == jobs_listing(js.take(i as int)),
        decreases js.len() - i,
    {
        let job = &shell.jobs[i];
        let ghost before = out@;
        push_text(&mut out, "[");
        let id = crate::num::int_to_string(job.id as i128);
        push_text(&mut out, id.as_str());
        push_text(&mut out, "] ");
        let label = job_status_label(&job.status);
        push_text(&mut out, label.as_str());
        push_text(&mut out, " ");
        push_text(&mut out, job.cmdline.as_str());
        push_text(&mut out, "\n");
        assert(out@ =~= before + job_line(*job));
        assert(js.take(i + 1).drop_last() =~= js.take(i as int));
        i += 1;
    }
    assert(js.take(i as int) =~= js);
    outcome(0, out, String::new())
}

/// A text without its leading `c` characters.
pub open spec fn trim_leading(s: Seq<char>, c: char) -> Seq<char>
    decreases s.len(),
{
    if s.len() > 0 && s[0] == c {
        trim_leading(s.drop_first(), c)
    } else {
        s
    }
}

/// The number a job is named by: the text without leading `%`, then `+`,
/// then `-` signs.
pub open spec fn job_digits(spec: Seq<char>) -> Seq<char> {
    trim_leading(trim_leading(trim_leading(spec, '%'), '+'), '-')
}

/// The first job from `i` on whose number or process id is `n`.
pub open spec fn job_with(jobs: Seq<Job>, n: int, i: int) -> Option<int>
    decreases jobs.len() - i,
{
    if i < 0 || i >= jobs.len() {
        None
    } else if jobs[i].id as int == n || jobs[i].pid as int == n {
        Some(i)
    } else {
        job_with(jobs, n, i + 1)
    }
}

/// The job a job name stands for: the last one for an empty name; the first
/// with that number or process id; the last one when the number is the
/// count of jobs.
pub open spec fn select_job(jobs: Seq<Job>, spec: Seq<char>) -> Option<int> {
    if spec.len() == 0 {
        if jobs.len() == 0 {
            None
        } else {
            Some(jobs.len() - 1)
        }
    } else {
        match parse_unsigned(job_digits(spec), usize::MAX as int) {
            None => None,
            Some(n) => match job_with(jobs, n, 0) {
                Some(i) => Some(i),
                None => if n == jobs.len() {
                    Some(jobs.len() - 1)
                } else {
                    None
                },
            },
        }
    }
}

/// The name `0` with no job at all: the count of jobs matches and the
/// index before the first is taken.
pub open spec fn select_fails(jobs: Seq<Job>, spec: Seq<char>) -> bool {
    jobs.len() == 0 && spec.len() > 0 && parse_unsigned(job_digits(spec), usize::MAX as int)
        == Some(0int)
}

fn skip_leading(s: &Vec<char>, from: usize, c: char) -> (r: usize)
    requires
        from <= s@.len(),
    ensures
        from <= r <= s@.len(),
        s@.subrange(r as int, s@.len() as int) == trim_leading(
            s@.subrange(from as int, s@.len() as int),
            c,
        ),
{
    let mut i = from;
    while i < s.len() && s[i] == c
        invariant
            from <= i <= s@.len(),
            trim_leading(s@.subrange(from as int, s@.len() as int), c) == trim_leading(
                s@.subrange(i as int, s@.len() as int),
                c,
            ),
        decreases s@.len() - i,
    {
        assert(s@.subrange(i as int, s@.len() as int).drop_first() =~= s@.subrange(
            i + 1,
            s@.len() as int,
        ));
        i += 1;
    }
    i
}

fn job_number(spec: &str) -> (r: Option<usize>)
    ensures
        match r {
            Some(n) => parse_unsigned(job_digits(spec@), usize::MAX as int) == Some(n as int),
            None => parse_unsigned(job_digits(spec@), usize::MAX as int) is None,
        },
{
    let chars = chars_of(spec);
    assert(chars@.subrange(0, chars@.len() as int) =~= spec@);
    let a = skip_leading(&chars, 0, '%');
    let b = skip_leading(&chars, a, '+');
    let c = skip_leading(&chars, b, '-');
    parse_usize(&chars, c, chars.len())
}

/// Tells whether selecting a job by `spec` meets the name `0` with no job.
pub fn select_job_fails(jobs: &Vec<Job>, spec: &str) -> (r: bool)
    ensures
        r == select_fails(jobs@, spec@),
{
    jobs.len() == 0 && !spec.is_empty() && match job_number(spec) {
        Some(n) => n == 0,
        None => false,
    }
}

/// The index of the job that `spec` names.
pub fn select_job_index(jobs: &Vec<Job>, spec: &str) -> (r: Option<usize>)
    requires
        !select_fails(jobs@, spec@),
    ensures
        match r {
            Some(i) => select_job(jobs@, spec@) == Some(i as int) && i < jobs@.len(),
            None => select_job(jobs@, spec@) is None,
        },
{
    if spec.is_empty() {
        return if jobs.len() == 0 {
            None
        } else {
            Some(jobs.len() - 1)
        };
    }
    let n = match job_number(spec) {
        Some(n) => n,
        None => return None,
    };
    let mut i: usize = 0;
    while i < jobs.len()
        invariant
            i <= jobs@.len(),
            spec@.len() > 0,
            !select_fails(jobs@, spec@),
            parse_unsigned(job_digits(spec@), usize::MAX as int) == Some(n as int),
            job_with(jobs@, n as int, 0) == job_with(jobs@, n as int, i as int),
        decreases jobs@.len() - i,
    {
        if jobs[i].id == n || jobs[i].pid as usize == n {
            return Some(i);
        }
        i += 1;
    }
    if n == jobs.len() {
        Some(jobs.len() - 1)
    } else {
        None
    }
}

/// The job name a command gives: its first argument, or the empty text.
pub open spec fn job_spec(args: Seq<Seq<char>>) -> Seq<char> {
    if args.len() > 1 {
        args[1]
    } else {
        Seq::empty()
    }
}

fn job_spec_of(args: &Vec<String>) -> (r: &str)
    ensures
        r@ == job_spec(strings_view(args@)),
{
    if args.len() > 1 {
        args[1].as_str()
    } else {
        proof {
            reveal_strlit("");
        }
        assert(""@ =~= Seq::<char>::empty());
        ""
    }
}

/// What `fg` does before waiting: it names the job to bring back, or
/// fails.
pub enum FgStep {
    Finished(Outcome),
    Resume(usize),
}

/// `fg`, up to the wait for the job's process.
pub fn do_fg(args: &Vec<String>, shell: &Shell) -> (r: FgStep)
    requires
        !select_fails(shell.jobs@, job_spec(strings_view(args@))),
    ensures
        match r {
            FgStep::Finished(o) => select_job(shell.jobs@, job_spec(strings_view(args@))) is None
                && o@ == (1int, Seq::<char>::empty(), "eazyshell: fg: no such job\n"@),
            FgStep::Resume(i) => select_job(shell.jobs@, job_spec(strings_view(args@))) == Some(
                i as int,
            ) && i < shell.jobs@.len(),
        },
{
    match select_job_index(&shell.jobs, job_spec_of(args)) {
        Some(i) => FgStep::Resume(i),
        None => FgStep::Finished(error_text(1, owned("eazyshell: fg: no such job\n"))),
    }
}

/// What `bg` reports for a job: a running job already runs; a finished
/// one cannot be resumed.
pub open spec fn bg_outcome(jobs: Seq<Job>, sel: Option<int>) -> OutcomeV {
    match sel {
        None => (1int, Seq::empty(), "eazyshell: bg: no such job\n"@),
        Some(i) => match jobs[i].status {
            JobStatus::Running => (
                0int,
                Seq::empty(),
                "["@ + int_text(jobs[i].id as int) + "] "@ + jobs[i].cmdline@ + " already running\n"@,
            ),
            JobStatus::Done(_) => (
                1int,
                Seq::empty(),
                "eazyshell: bg: resumed stopped jobs not supported in safe std\n"@,
            ),
        },
    }
}

/// `bg`.
pub fn do_bg(args: &Vec<String>, shell: &Shell) -> (r: Outcome)
    requires
        !select_fails(shell.jobs@, job_spec(strings_view(args@))),
    ensures
        r@ == bg_outcome(shell.jobs@, select_job(shell.jobs@, job_spec(strings_view(args@)))),
{
    let i = match select_job_index(&shell.jobs, job_spec_of(args)) {
        Some(i) => i,
        None => return error_text(1, owned("eazyshell: bg: no such job\n")),
    };
    let job = &shell.jobs[i];
    match job.status {
        JobStatus::Running => {
            let mut err = owned("[");
            let id = crate::num::int_to_string(job.id as i128);
            push_text(&mut err, id.as_str());
            push_text(&mut err, "] ");
            push_text(&mut err, job.cmdline.as_str());
            push_text(&mut err, " already running\n");
            error_text(0, err)
        },
        JobStatus::Done(_) => error_text(
            1,
            owned("eazyshell: bg: resumed stopped jobs not supported in safe std\n"),
        ),
    }
}

/// The directory `cd` goes to: `HOME` for no argument or `~`, the previous
/// directory for `-`, else the argument.
pub open spec fn cd_target(args: Seq<Seq<char>>, vars: Table, oldpwd: Option<Seq<char>>) -> Option<
    Seq<char>,
> {
    if args.len() > 1 {
        if args[1] == "~"@ {
            lookup(vars, "HOME"@)
        } else if args[1] == "-"@ {
            oldpwd
        } else {
            Some(args[1])
        }
    } else {
        lookup(vars, "HOME"@)
    }
}

/// What `cd` does before changing directory: it names the directory, or
/// fails when there is none.
pub enum CdStep {
    Finished(Outcome),
    ChangeDir(String),
}

/// `cd`, up to the change of directory.
pub fn do_cd(args: &Vec<String>, shell: &Shell) -> (r: CdStep)
    ensures
        match r {
            CdStep::Finished(o) => cd_target(
                strings_view(args@),
                shell.vars(),
                crate::token::opt_view(shell.oldpwd),
            ) is None && o@ == (1int, Seq::<char>::empty(), "eazyshell: cd: no directory given\n"@),
            CdStep::ChangeDir(d) => cd_target(
                strings_view(args@),
                shell.vars(),
                crate::token::opt_view(shell.oldpwd),
            ) == Some(d@),
        },
{
    let target = if args.len() > 1 {
        let a = args[1].as_str();
        if str_eq(a, "~") {
            shell.home()
        } else if str_eq(a, "-") {
            match &shell.oldpwd {
                Some(d) => Some(d.clone()),
                None => None,
            }
        } else {
            Some(owned(a))
        }
    } else {
        shell.home()
    };
    match target {
        Some(d) => CdStep::ChangeDir(d),
        None => CdStep::Finished(error_text(1, owned("eazyshell: cd: no directory given\n"))),
    }
}

/// What a builtin asks for: it finished; or, for `cd`, `pwd`, `type` and
/// `fg`, the work on the system that finishes it: changing to a
/// directory, printing the working directory, looking for an executable
/// file at each path in turn, waiting for a job.
pub enum BuiltinRun {
    Finished(Outcome),
    ChangeDir(String),
    PrintDir,
    Search { name: String, paths: Vec<String> },
    Resume(usize),
}

pub enum BuiltinRunV {
    Finished(OutcomeV),
    ChangeDir(Seq<char>),
    PrintDir,
    Search(Seq<char>, Seq<Seq<char>>),
    Resume(int),
}

pub open spec fn builtin_run_view(r: BuiltinRun) -> BuiltinRunV {
    match r {
        BuiltinRun::Finished(o) => BuiltinRunV::Finished(o@),
        BuiltinRun::ChangeDir(d) => BuiltinRunV::ChangeDir(d@),
        BuiltinRun::PrintDir => BuiltinRunV::PrintDir,
        BuiltinRun::Search { name, paths } => BuiltinRunV::Search(name@, strings_view(paths@)),
        BuiltinRun::Resume(i) => BuiltinRunV::Resume(i as int),
    }
}

/// What the builtin `name` asks for, run with `args` on a shell with these
/// variables, aliases, jobs, last status and previous directory.
pub open spec fn builtin_run(
    name: Seq<char>,
    args: Seq<Seq<char>>,
    vars: Table,
    aliases: Table,
    jobs: Seq<Job>,
    last: i32,
    oldpwd: Option<Seq<char>>,
) -> BuiltinRunV {
    if name == "cd"@ {
        match cd_target(args, vars, oldpwd) {
            Some(d) => BuiltinRunV::ChangeDir(d),
            None => BuiltinRunV::Finished(
                (1int, Seq::empty(), "eazyshell: cd: no directory given\n"@),
            ),
        }
    } else if name == "exit"@ {
        BuiltinRunV::Finished((exit_code(args, last), Seq::empty(), Seq::empty()))
    } else if name == "pwd"@ {
        BuiltinRunV::PrintDir
    } else if name == "export"@ {
        if args.len() < 2 {
            BuiltinRunV::Finished((0int, listing(vars, false), Seq::empty()))
        } else {
            BuiltinRunV::Finished((0int, Seq::empty(), Seq::empty()))
        }
    } else if name == "unset"@ {
        BuiltinRunV::Finished((0int, Seq::empty(), Seq::empty()))
    } else if name == "echo"@ {
        BuiltinRunV::Finished((0int, echo_text(args), Seq::empty()))
    } else if name == "alias"@ {
        if args.len() < 2 {
            BuiltinRunV::Finished((0int, listing(aliases, true), Seq::empty()))
        } else {
            let st = alias_all(aliases, args, args.len() as int);
            BuiltinRunV::Finished((0int, st.1, st.2))
        }
    } else if name == "type"@ {
        match type_finished(args, aliases) {
            Some(o) => BuiltinRunV::Finished(o),
            None => BuiltinRunV::Search(args[1], search_paths(args[1], lookup(vars, "PATH"@))),
        }
    } else if name == "jobs"@ {
        BuiltinRunV::Finished((0int, jobs_listing(jobs), Seq::empty()))
    } else if name == "fg"@ {
        match select_job(jobs, job_spec(args)) {
            Some(i) => BuiltinRunV::Resume(i),
            None => BuiltinRunV::Finished((1int, Seq::empty(), "eazyshell: fg: no such job\n"@)),
        }
    } else if name == "bg"@ {
        BuiltinRunV::Finished(bg_outcome(jobs, select_job(jobs, job_spec(args))))
    } else {
        BuiltinRunV::Finished((1int, Seq::empty(), "eazyshell: "@ + name + ": not a builtin\n"@))
    }
}

/// The variables after the builtin `name`.
pub open spec fn builtin_vars(name: Seq<char>, args: Seq<Seq<char>>, vars: Table) -> Table {
    if name == "export"@ && args.len() >= 2 {
        export_all(vars, args, args.len() as int)
    } else if name == "unset"@ {
        unset_all(vars, args, args.len() as int)
    } else {
        vars
    }
}

/// The aliases after the builtin `name`.
pub open spec fn builtin_aliases(name: Seq<char>, args: Seq<Seq<char>>, aliases: Table) -> Table {
    if name == "alias"@ && args.len() >= 2 {
        alias_all(aliases, args, args.len() as int).0
    } else {
        aliases
    }
}

/// The inputs on which a builtin cannot run: `unset` and `echo` without
/// even their own name, `fg` and `bg` naming job `0` when there is none.
pub open spec fn builtin_fails(name: Seq<char>, args: Seq<Seq<char>>, jobs: Seq<Job>) -> bool {
    ||| (name == "unset"@ || name == "echo"@) && args.len() == 0
    ||| (name == "fg"@ || name == "bg"@) && select_fails(jobs, job_spec(args))
}

proof fn lemma_builtin_names_differ()
    ensures
        "export"@ != "cd"@,
        "export"@ != "exit"@,
        "export"@ != "pwd"@,
        "export"@ != "unset"@,
        "export"@ != "echo"@,
        "export"@ != "alias"@,
        "export"@ != "type"@,
        "export"@ != "jobs"@,
        "export"@ != "fg"@,
        "export"@ != "bg"@,
        "unset"@ != "cd"@,
        "unset"@ != "exit"@,
        "unset"@ != "pwd"@,
        "unset"@ != "echo"@,
        "unset"@ != "alias"@,
        "unset"@ != "type"@,
        "unset"@ != "jobs"@,
        "unset"@ != "fg"@,
        "unset"@ != "bg"@,
        "alias"@ != "cd"@,
        "alias"@ != "exit"@,
        "alias"@ != "pwd"@,
        "alias"@ != "echo"@,
        "alias"@ != "type"@,
        "alias"@ != "jobs"@,
        "alias"@ != "fg"@,
        "alias"@ != "bg"@,
        "exit"@ != "cd"@,
        "exit"@ != "pwd"@,
        "exit"@ != "echo"@,
        "exit"@ != "type"@,
        "exit"@ != "jobs"@,
        "exit"@ != "fg"@,
        "exit"@ != "bg"@,
{
    reveal_strlit("cd");
    reveal_strlit("exit");
    reveal_strlit("pwd");
    reveal_strlit("export");
    reveal_strlit("unset");
    reveal_strlit("echo");
    reveal_strlit("alias");
    reveal_strlit("type");
    reveal_strlit("jobs");
    reveal_strlit("fg");
    reveal_strlit("bg");
    assert("cd"@.len() == 2 && "fg"@.len() == 2 && "bg"@.len() == 2);
    assert("pwd"@.len() == 3);
    assert("exit"@.len() == 4 && "echo"@.len() == 4 && "type"@.len() == 4 && "jobs"@.len() == 4);
    assert("unset"@.len() == 5 && "alias"@.len() == 5);
    assert("export"@.len() == 6);
    assert("unset"@[0] == 'u' && "alias"@[0] == 'a');
    assert("exit"@[1] == 'x' && "echo"@[1] == 'c' && "type"@[1] == 'y' && "jobs"@[1] == 'o');
}

/// Runs the builtin `name` with the arguments `args` (its own name first),
/// as far as it goes without the system.
pub fn run_builtin(name: &str, args: &Vec<String>, shell: &mut Shell) -> (r: BuiltinRun)
    requires
        !builtin_fails(name@, strings_view(args@), old(shell).jobs@),
    ensures
        builtin_run_view(r) == builtin_run(
            name@,
            strings_view(args@),
            old(shell).vars(),
            old(shell).alias_table(),
            old(shell).jobs@,
            old(shell).last_status,
            crate::token::opt_view(old(shell).oldpwd),
        ),
        final(shell).vars() == builtin_vars(name@, strings_view(args@), old(shell).vars()),
        final(shell).alias_table() == builtin_aliases(
            name@,
            strings_view(args@),
            old(shell).alias_table(),
        ),
        final(shell).running == (old(shell).running && name@ != "exit"@),
        final(shell).last_status == old(shell).last_status,
        final(shell).oldpwd == old(shell).oldpwd,
        final(shell).pending_heredocs == old(shell).pending_heredocs,
        final(shell).jobs == old(shell).jobs,
        final(shell).next_job_id == old(shell).next_job_id,
        final(shell).last_bg_pid == old(shell).last_bg_pid,
{
    proof {
        lemma_builtin_names_differ();
    }
    if str_eq(name, "cd") {
        match do_cd(args, shell) {
            CdStep::Finished(o) => BuiltinRun::Finished(o),
            CdStep::ChangeDir(d) => BuiltinRun::ChangeDir(d),
        }
    } else if str_eq(name, "exit") {
        let status = do_exit(args, shell);
        BuiltinRun::Finished(status_only(status))
    } else if str_eq(name, "pwd") {
        BuiltinRun::PrintDir
    } else if str_eq(name, "export") {
        BuiltinRun::Finished(do_export(args, shell))
    } else if str_eq(name, "unset") {
        let status = do_unset(args, shell);
        BuiltinRun::Finished(status_only(status))
    } else if str_eq(name, "echo") {
        BuiltinRun::Finished(do_echo(args))
    } else if str_eq(name, "alias") {
        BuiltinRun::Finished(do_alias(args, shell))
    } else if str_eq(name, "type") {
        match do_type(args, shell) {
            TypeStep::Finished(o) => BuiltinRun::Finished(o),
            TypeStep::Search { name, paths } => BuiltinRun::Search { name, paths },
        }
    } else if str_eq(name, "jobs") {
        BuiltinRun::Finished(do_jobs(shell))
    } else if str_eq(name, "fg") {
        match do_fg(args, shell) {
            FgStep::Finished(o) => BuiltinRun::Finished(o),
            FgStep::Resume(i) => BuiltinRun::Resume(i),
        }
    } else if str_eq(name, "bg") {
        BuiltinRun::Finished(do_bg(args, shell))
    } else {
        let mut err = owned("eazyshell: ");
        push_text(&mut err, name);
        push_text(&mut err, ": not a builtin\n");
        BuiltinRun::Finished(error_text(1, err))
    }
}

proof fn lemma_first_eq_at(s: Seq<char>, i: int, k: int)
    requires
        0 <= i <= k < s.len(),
        s[k] == '=',
        forall|m: int| i <= m < k ==> s[m] != '=',
    ensures
        first_eq(s, i) == k,
    decreases k - i,
{
    if i < k {
        lemma_first_eq_at(s, i + 1, k);
    }
}

/// After `export NAME=VALUE`, where `NAME` holds no `=`, the variable
/// `NAME` has the value `VALUE`.
pub proof fn law_export_then_lookup(t: Table, name: Seq<char>, value: Seq<char>)
    requires
        !name.contains('='),
    ensures
        lookup(export_all(t, seq!["export"@, name + seq!['='] + value], 2), name) == Some(value),
{
    let arg = name + seq!['='] + value;
    let args = seq!["export"@, arg];
    assert forall|m: int| 0 <= m < name.len() implies arg[m] != '=' by {
        assert(arg[m] == name[m]);
        if name[m] == '=' {
            assert(name.contains('='));
        }
    }
    lemma_first_eq_at(arg, 0, name.len() as int);
    assert(arg.subrange(0, name.len() as int) =~= name);
    assert(arg.subrange(name.len() as int + 1, arg.len() as int) =~= value);
    assert(export_all(t, args, 1) == t);
    assert(export_all(t, args, 2) == export_one(t, arg));
    law_lookup_after_assign(t, name, value);
}

/// After `unset NAME`, the variable `NAME` is not set.
pub proof fn law_unset_then_lookup(t: Table, name: Seq<char>)
    ensures
        lookup(unset_all(t, seq!["unset"@, name], 2), name) is None,
{
    let args = seq!["unset"@, name];
    assert(unset_all(t, args, 1) == t);
    assert(unset_all(t, args, 2) == remove_all(t, name));
    law_lookup_after_remove(t, name);
}

/// What `echo` writes is its words joined by blanks and a newline; with
/// `-n` first, the words after it without a newline.
pub proof fn law_echo_words(words: Seq<Seq<char>>)
    requires
        words.len() == 0 || words[0] != "-n"@,
    ensures
        echo_text(seq!["echo"@] + words) == joined(words) + seq!['\n'],
        echo_text(seq!["echo"@, "-n"@] + words) == joined(words),
{
    let a = seq!["echo"@] + words;
    let b = seq!["echo"@, "-n"@] + words;
    if words.len() > 0 {
        assert(a[1] == words[0]);
    }
    assert(a.subrange(1, a.len() as int) =~= words);
    assert(b[1] == "-n"@);
    assert(b.subrange(2, b.len() as int) =~= words);
}

/// `unset N1 ... Nk` unsets every name it is given, not only the first:
/// afterwards looking up any of them finds nothing, and every other
/// variable keeps its value.
pub proof fn law_unset_removes_every_name(t: Table, args: Seq<Seq<char>>, n: int)
    requires
        1 <= n <= args.len(),
    ensures
        forall|i: int| 1 <= i < n ==> lookup(unset_all(t, args, n), #[trigger] args[i]) is None,
        forall|x: Seq<char>|
            (forall|i: int| 1 <= i < n ==> #[trigger] args[i] != x) ==> lookup(
                unset_all(t, args, n),
                x,
            ) == lookup(t, x),
    decreases n,
{
    if n > 1 {
        law_unset_removes_every_name(t, args, n - 1);
        let u = unset_all(t, args, n - 1);
        let last = args[n - 1];
        assert(unset_all(t, args, n) == remove_all(u, last));
        law_lookup_after_remove(u, last);
        assert forall|i: int| 1 <= i < n implies lookup(
            unset_all(t, args, n),
            #[trigger] args[i],
        ) is None by {
            if args[i] != last {
                law_remove_keeps_others(u, last, args[i]);
            }
        }
        assert forall|x: Seq<char>|
            (forall|i: int| 1 <= i < n ==> #[trigger] args[i] != x) implies lookup(
            unset_all(t, args, n),
            x,
        ) == lookup(t, x) by {
            assert(args[n - 1] != x);
            law_remove_keeps_others(u, last, x);
            assert forall|i: int| 1 <= i < n - 1 implies #[trigger] args[i] != x by {
                assert(args[i] != x);
            }
        }
    } else {
        assert(unset_all(t, args, n) == t);
    }
}

/// `exit N` leaves with the status `N`, for every `i32` `N`; `exit` alone
/// leaves with the last status.
pub proof fn law_exit_status(v: i32, last: i32)
    ensures
        exit_code(seq!["exit"@, int_text(v as int)], last) == v as int,
        exit_code(seq!["exit"@], last) == last as int,
{
    let t = int_text(v as int);
    law_int_text_reads_back(v as int);
    if v < 0 {
        lemma_nat_text_value((-v) as nat);
        assert(t.drop_first() =~= nat_text((-v) as nat));
        assert(t.last() == nat_text((-v) as nat).last());
        assert(crate::lexer::is_digit(nat_text((-v) as nat)[nat_text((-v) as nat).len() - 1]));
        assert(t[0] == '-');
        assert(!crate::arith::is_white(t[0]));
    } else {
        lemma_nat_text_value(v as nat);
        assert(crate::lexer::is_digit(t[t.len() - 1]));
        assert(crate::lexer::is_digit(t[0]));
        assert(!crate::arith::is_white(t[0]));
    }
    assert(!crate::arith::is_white(t[t.len() - 1]));
    assert(crate::arith::trim_lo(t, 0) == 0);
    assert(crate::arith::trim_hi(t, 0, t.len() as int) == t.len());
    assert(trimmed(t) =~= t);
}

/// A `NAME=VALUE` argument cuts at the `=` after `NAME`.
proof fn lemma_split_pair(name: Seq<char>, value: Seq<char>)
    requires
        !name.contains('='),
    ensures
        split_eq(name + seq!['='] + value) == Some((name, value)),
{
    let arg = name + seq!['='] + value;
    assert forall|m: int| 0 <= m < name.len() implies arg[m] != '=' by {
        assert(arg[m] == name[m]);
        if name[m] == '=' {
            assert(name.contains('='));
        }
    }
    lemma_first_eq_at(arg, 0, name.len() as int);
    assert(arg.subrange(0, name.len() as int) =~= name);
    assert(arg.subrange(name.len() as int + 1, arg.len() as int) =~= value);
}

/// The arguments `NAME=VALUE` for the given names and values.
pub open spec fn pair_args(cmd: Seq<char>, names: Seq<Seq<char>>, values: Seq<Seq<char>>) -> Seq<
    Seq<char>,
> {
    seq![cmd] + Seq::new(names.len(), |i: int| names[i] + seq!['='] + values[i])
}

/// `export N1=V1 ... Nk=Vk` sets every name it is given to its value, and
/// `alias N1=V1 ... Nk=Vk` defines every alias likewise; the names not
/// given keep their values. (The names hold no `=` and are all different.)
pub proof fn law_export_and_alias_set_every_name(
    t: Table,
    names: Seq<Seq<char>>,
    values: Seq<Seq<char>>,
    n: int,
)
    requires
        names.len() == values.len(),
        0 <= n <= names.len(),
        forall|i: int| 0 <= i < names.len() ==> !(#[trigger] names[i]).contains('='),
        names.no_duplicates(),
    ensures
        forall|i: int|
            0 <= i < n ==> lookup(
                export_all(t, pair_args("export"@, names, values), n + 1),
                #[trigger] names[i],
            ) == Some(values[i]) && lookup(
                alias_all(t, pair_args("alias"@, names, values), n + 1).0,
                names[i],
            ) == Some(values[i]),
        forall|x: Seq<char>|
            (forall|i: int| 0 <= i < n ==> #[trigger] names[i] != x) ==> lookup(
                export_all(t, pair_args("export"@, names, values), n + 1),
                x,
            ) == lookup(t, x) && lookup(alias_all(t, pair_args("alias"@, names, values), n + 1).0, x)
                == lookup(t, x),
    decreases n,
{
    let ea = pair_args("export"@, names, values);
    let aa = pair_args("alias"@, names, values);
    if n == 0 {
        assert(export_all(t, ea, 1) == t);
        assert(alias_all(t, aa, 1).0 == t);
    } else {
        law_export_and_alias_set_every_name(t, names, values, n - 1);
        let name = names[n - 1];
        let value = values[n - 1];
        lemma_split_pair(name, value);
        assert(ea[n] == name + seq!['='] + value);
        assert(aa[n] == name + seq!['='] + value);
        let e0 = export_all(t, ea, n);
        let a0 = alias_all(t, aa, n).0;
        assert(export_all(t, ea, n + 1) == assign(e0, name, value));
        assert(alias_all(t, aa, n + 1).0 == assign(a0, name, value));
        law_lookup_after_assign(e0, name, value);
        law_lookup_after_assign(a0, name, value);
        assert forall|i: int| 0 <= i < n implies lookup(
            export_all(t, ea, n + 1),
            #[trigger] names[i],
        ) == Some(values[i]) && lookup(alias_all(t, aa, n + 1).0, names[i]) == Some(values[i]) by {
            if i < n - 1 {
                assert(names[i] != name);
                law_assign_keeps_others(e0, name, value, names[i]);
                law_assign_keeps_others(a0, name, value, names[i]);
            }
        }
        assert forall|x: Seq<char>| (forall|i: int| 0 <= i < n ==> #[trigger] names[i] != x) implies lookup(
            export_all(t, ea, n + 1),
            x,
        ) == lookup(t, x) && lookup(alias_all(t, aa, n + 1).0, x) == lookup(t, x) by {
            assert(names[n - 1] != x);
            law_assign_keeps_others(e0, name, value, x);
            law_assign_keeps_others(a0, name, value, x);
            assert forall|i: int| 0 <= i < n - 1 implies #[trigger] names[i] != x by {
                assert(names[i] != x);
            }
        }
    }
}

} // verus!
