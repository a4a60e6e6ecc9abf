use vstd::prelude::*;

use crate::text::{owned, str_eq};
use std::collections::VecDeque;

verus! {

/// Whether a background job still runs, or the status it ended with.
#[derive(Debug, Clone, Copy, PartialEq, Eq)]
pub enum JobStatus {
    Running,
    Done(i32),
}

/// A background job: its number, the id of its process, its command line
/// and its status.
pub struct Job {
    pub id: usize,
    pub pid: u32,
    pub cmdline: String,
    pub status: JobStatus,
}

/// What polling the process of a running job found: it exited with a
/// status, it still runs, or the poll failed.
#[derive(Debug, Clone, Copy, PartialEq, Eq)]
pub enum Poll {
    Exited(i32),
    StillRunning,
    Failed,
}

/// The status of a job after a poll of its process: a running job is done
/// once its process exited (status -1 when the poll failed); a finished
/// job stays as it is.
pub open spec fn reaped(status: JobStatus, poll: Poll) -> JobStatus {
    match status {
        JobStatus::Running => match poll {
            Poll::Exited(code) => JobStatus::Done(code),
            Poll::StillRunning => JobStatus::Running,
            Poll::Failed => JobStatus::Done(-1i32),
        },
        done => done,
    }
}

/// The job with its status replaced.
pub open spec fn with_status(job: Job, status: JobStatus) -> Job {
    Job { status, ..job }
}

/// The state of the shell: variables, aliases, the last status, the
/// previous directory, whether it keeps running, the bodies of here
/// documents waiting for their commands, the background jobs, the next job
/// number and the last background process id.
pub struct Shell {
    pub variables: Vec<(String, String)>,
    pub aliases: Vec<(String, String)>,
    pub last_status: i32,
    pub oldpwd: Option<String>,
    pub running: bool,
    pub pending_heredocs: VecDeque<String>,
    pub jobs: Vec<Job>,
    pub next_job_id: usize,
    pub last_bg_pid: Option<i32>,
}

/// A table of named strings, as pairs of name and value.
pub type Table = Seq<(Seq<char>, Seq<char>)>;

pub open spec fn table_view(v: Seq<(String, String)>) -> Table {
    v.map_values(|e: (String, String)| (e.0@, e.1@))
}

/// The first index from `i` on whose entry is named `name`.
pub open spec fn find_from(t: Table, name: Seq<char>, i: int) -> Option<int>
    decreases t.len() - i,
{
    if i < 0 || i >= t.len() {
        None
    } else if t[i].0 == name {
        Some(i)
    } else {
        find_from(t, name, i + 1)
    }
}

/// The value of the first entry named `name`.
pub open spec fn lookup(t: Table, name: Seq<char>) -> Option<Seq<char>> {
    match find_from(t, name, 0) {
        Some(i) => Some(t[i].1),
        None => None,
    }
}

/// The table with the first entry named `name` set to `value`, or with
/// a new entry at the end when there is none.
pub open spec fn assign(t: Table, name: Seq<char>, value: Seq<char>) -> Table {
    match find_from(t, name, 0) {
        Some(i) => t.update(i, (name, value)),
        None => t.push((name, value)),
    }
}

/// The table without any entry named `name`, in the same order.
pub open spec fn remove_all(t: Table, name: Seq<char>) -> Table
    decreases t.len(),
{
    if t.len() == 0 {
        t
    } else if t.last().0 == name {
        remove_all(t.drop_last(), name)
    } else {
        remove_all(t.drop_last(), name).push(t.last())
    }
}

pub proof fn lemma_find_from(t: Table, name: Seq<char>, i: int)
    requires
        0 <= i <= t.len(),
    ensures
        match find_from(t, name, i) {
            Some(k) => i <= k < t.len() && t[k].0 == name && forall|j: int|
                i <= j < k ==> t[j].0 != name,
            None => forall|j: int| i <= j < t.len() ==> t[j].0 != name,
        },
    decreases t.len() - i,
{
    if i < t.len() && t[i].0 != name {
        lemma_find_from(t, name, i + 1);
    }
}

proof fn lemma_find_unique(t: Table, name: Seq<char>, k: int)
    requires
        0 <= k < t.len(),
        t[k].0 == name,
        forall|j: int| 0 <= j < k ==> t[j].0 != name,
    ensures
        find_from(t, name, 0) == Some(k),
{
    lemma_find_from(t, name, 0);
}

proof fn lemma_find_none(t: Table, name: Seq<char>)
    requires
        forall|j: int| 0 <= j < t.len() ==> t[j].0 != name,
    ensures
        find_from(t, name, 0) is None,
{
    lemma_find_from(t, name, 0);
}

/// Finds the first entry named `name`.
fn find_entry(v: &Vec<(String, String)>, name: &str) -> (r: Option<usize>)
    ensures
        match r {
            Some(i) => find_from(table_view(v@), name@, 0) == Some(i as int) && i < v@.len(),
            None => find_from(table_view(v@), name@, 0) is None,
        },
{
    let ghost t = table_view(v@);
    let mut i = 0usize;
    while i < v.len()
        invariant
            i <= v@.len(),
            t == table_view(v@),
            forall|j: int| 0 <= j < i ==> t[j].0 != name@,
        decreases v@.len() - i,
    {
        if str_eq(v[i].0.as_str(), name) {
            proof {
                lemma_find_unique(t, name@, i as int);
            }
            return Some(i);
        }
        i += 1;
    }
    proof {
        lemma_find_none(t, name@);
    }
    None
}

fn table_get<'a>(v: &'a Vec<(String, String)>, name: &str) -> (r: Option<&'a str>)
    ensures
        match r {
            Some(s) => lookup(table_view(v@), name@) == Some(s@),
            None => lookup(table_view(v@), name@) is None,
        },
{
    match find_entry(v, name) {
        Some(i) => Some(v[i].1.as_str()),
        None => None,
    }
}

fn table_set(v: &mut Vec<(String, String)>, name: &str, value: &str)
    ensures
        table_view(final(v)@) == assign(table_view(old(v)@), name@, value@),
{
    let ghost t = table_view(v@);
    match find_entry(v, name) {
        Some(i) => {
            v.set(i, (owned(name), owned(value)));
            assert(table_view(v@) =~= t.update(i as int, (name@, value@)));
        },
        None => {
            v.push((owned(name), owned(value)));
            assert(table_view(v@) =~= t.push((name@, value@)));
        },
    }
}

fn table_remove(v: &mut Vec<(String, String)>, name: &str) -> (removed: bool)
    ensures
        table_view(final(v)@) == remove_all(table_view(old(v)@), name@),
        removed == (lookup(table_view(old(v)@), name@) is Some),
{
    let ghost t = table_view(v@);
    let mut kept: Vec<(String, String)> = Vec::new();
    let mut removed = false;
    let mut i = 0usize;
    while i < v.len()
        invariant
            i <= v@.len(),
            t == table_view(v@),
            table_view(kept@) == remove_all(t.take(i as int), name@),
            removed == exists|j: int| 0 <= j < i && #[trigger] t[j].0 == name@,
        decreases v@.len() - i,
    {
        assert(t.take(i + 1).drop_last() =~= t.take(i as int));
        if str_eq(v[i].0.as_str(), name) {
            removed = true;
            assert(t[i as int].0 == name@);
        } else {
            let ghost before = table_view(kept@);
            kept.push((v[i].0.clone(), v[i].1.clone()));
            assert(table_view(kept@) =~= before.push(t[i as int]));
        }
        i += 1;
    }
    assert(t.take(v@.len() as int) =~= t);
    proof {
        lemma_find_from(t, name@, 0);
    }
    *v = kept;
    removed
}

impl Shell {
    /// A shell with the given variables, no alias, and status 0.
    pub fn new(variables: Vec<(String, String)>) -> (s: Self)
        ensures
            s.variables == variables,
            s.aliases@.len() == 0,
            s.last_status == 0,
            s.oldpwd is None,
            s.running,
            s.pending_heredocs@.len() == 0,
            s.jobs@.len() == 0,
            s.next_job_id == 1,
            s.last_bg_pid is None,
    {
        Shell {
            variables,
            aliases: Vec::new(),
            last_status: 0,
            oldpwd: None,
            running: true,
            pending_heredocs: VecDeque::new(),
            jobs: Vec::new(),
            next_job_id: 1,
            last_bg_pid: None,
        }
    }

    pub open spec fn vars(&self) -> Table {
        table_view(self.variables@)
    }

    pub open spec fn alias_table(&self) -> Table {
        table_view(self.aliases@)
    }

    /// The value of a variable.
    pub fn get_var(&self, name: &str) -> (r: Option<&str>)
        ensures
            match r {
                Some(s) => lookup(self.vars(), name@) == Some(s@),
                None => lookup(self.vars(), name@) is None,
            },
    {
        table_get(&self.variables, name)
    }

    /// Sets a variable, keeping its place when it exists.
    pub fn set_var(&mut self, name: &str, value: &str)
        ensures
            final(self).vars() == assign(old(self).vars(), name@, value@),
            final(self).aliases == old(self).aliases,
            final(self).last_status == old(self).last_status,
            final(self).oldpwd == old(self).oldpwd,
            final(self).running == old(self).running,
            final(self).next_job_id == old(self).next_job_id,
            final(self).pending_heredocs == old(self).pending_heredocs,
            final(self).jobs == old(self).jobs,
            final(self).last_bg_pid == old(self).last_bg_pid,
    {
        table_set(&mut self.variables, name, value);
    }

    /// Removes a variable; tells whether it was set.
    pub fn unset_var(&mut self, name: &str) -> (removed: bool)
        ensures
            final(self).vars() == remove_all(old(self).vars(), name@),
            removed == (lookup(old(self).vars(), name@) is Some),
            final(self).aliases == old(self).aliases,
            final(self).last_status == old(self).last_status,
            final(self).oldpwd == old(self).oldpwd,
            final(self).running == old(self).running,
            final(self).next_job_id == old(self).next_job_id,
            final(self).pending_heredocs == old(self).pending_heredocs,
            final(self).jobs == old(self).jobs,
            final(self).last_bg_pid == old(self).last_bg_pid,
    {
        table_remove(&mut self.variables, name)
    }

    /// The value of an alias.
    pub fn get_alias(&self, name: &str) -> (r: Option<&str>)
        ensures
            match r {
                Some(s) => lookup(self.alias_table(), name@) == Some(s@),
                None => lookup(self.alias_table(), name@) is None,
            },
    {
        table_get(&self.aliases, name)
    }

    /// Defines an alias, keeping its place when it exists.
    pub fn set_alias(&mut self, name: &str, value: &str)
        ensures
            final(self).alias_table() == assign(old(self).alias_table(), name@, value@),
            final(self).variables == old(self).variables,
            final(self).last_status == old(self).last_status,
            final(self).oldpwd == old(self).oldpwd,
            final(self).running == old(self).running,
            final(self).next_job_id == old(self).next_job_id,
            final(self).pending_heredocs == old(self).pending_heredocs,
            final(self).jobs == old(self).jobs,
            final(self).last_bg_pid == old(self).last_bg_pid,
    {
        table_set(&mut self.aliases, name, value);
    }

    /// Records a new background job, running, under the next job number;
    /// returns that number.
    pub fn add_job(&mut self, pid: u32, cmdline: String) -> (id: usize)
        requires
            old(self).next_job_id < usize::MAX,
        ensures
            id == old(self).next_job_id,
            final(self).next_job_id == id + 1,
            final(self).jobs@ == old(self).jobs@.push(
                (Job { id, pid, cmdline, status: JobStatus::Running }),
            ),
            final(self).variables == old(self).variables,
            final(self).aliases == old(self).aliases,
            final(self).last_status == old(self).last_status,
            final(self).oldpwd == old(self).oldpwd,
            final(self).running == old(self).running,
            final(self).pending_heredocs == old(self).pending_heredocs,
            final(self).last_bg_pid == old(self).last_bg_pid,
    {
        let id = self.next_job_id;
        self.next_job_id = id + 1;
        self.jobs.push(Job { id, pid, cmdline, status: JobStatus::Running });
        id
    }

    /// Updates the status of each job from a poll of its process, `polls`
    /// holding one poll per job, in order.
    pub fn reap_jobs(&mut self, polls: &Vec<Poll>)
        requires
            polls@.len() == old(self).jobs@.len(),
        ensures
            final(self).jobs@.len() == old(self).jobs@.len(),
            forall|i: int|
                0 <= i < old(self).jobs@.len() ==> #[trigger] final(self).jobs@[i] == with_status(
                    old(self).jobs@[i],
                    reaped(old(self).jobs@[i].status, polls@[i]),
                ),
            final(self).variables == old(self).variables,
            final(self).aliases == old(self).aliases,
            final(self).last_status == old(self).last_status,
            final(self).oldpwd == old(self).oldpwd,
            final(self).running == old(self).running,
            final(self).pending_heredocs == old(self).pending_heredocs,
            final(self).next_job_id == old(self).next_job_id,
            final(self).last_bg_pid == old(self).last_bg_pid,
    {
        let ghost before = self.jobs@;
        let mut i: usize = 0;
        while i < self.jobs.len()
            invariant
                i <= self.jobs@.len(),
                self.jobs@.len() == before.len(),
                polls@.len() == before.len(),
                forall|j: int|
                    0 <= j < i ==> #[trigger] self.jobs@[j] == with_status(
                        before[j],
                        reaped(before[j].status, polls@[j]),
                    ),
                forall|j: int| i <= j < before.len() ==> #[trigger] self.jobs@[j] == before[j],
                self.variables == old(self).variables,
                self.aliases == old(self).aliases,
                self.last_status == old(self).last_status,
                self.oldpwd == old(self).oldpwd,
                self.running == old(self).running,
                self.pending_heredocs == old(self).pending_heredocs,
                self.next_job_id == old(self).next_job_id,
                self.last_bg_pid == old(self).last_bg_pid,
            decreases before.len() - i,
        {
            let status = match self.jobs[i].status {
                JobStatus::Running => match polls[i] {
                    Poll::Exited(code) => JobStatus::Done(code),
                    Poll::StillRunning => JobStatus::Running,
                    Poll::Failed => JobStatus::Done(-1),
                },
                JobStatus::Done(code) => JobStatus::Done(code),
            };
            let job = Job {
                id: self.jobs[i].id,
                pid: self.jobs[i].pid,
                cmdline: self.jobs[i].cmdline.clone(),
                status,
            };
            self.jobs.set(i, job);
            i += 1;
        }
    }

    /// Takes the job at `index` out of the list.
    pub fn remove_job(&mut self, index: usize) -> (job: Job)
        requires
            index < old(self).jobs@.len(),
        ensures
            job == old(self).jobs@[index as int],
            final(self).jobs@ == old(self).jobs@.remove(index as int),
            final(self).variables == old(self).variables,
            final(self).aliases == old(self).aliases,
            final(self).last_status == old(self).last_status,
            final(self).oldpwd == old(self).oldpwd,
            final(self).running == old(self).running,
            final(self).pending_heredocs == old(self).pending_heredocs,
            final(self).next_job_id == old(self).next_job_id,
            final(self).last_bg_pid == old(self).last_bg_pid,
    {
        self.jobs.remove(index)
    }

    /// The value of `HOME`.
    pub fn home(&self) -> (r: Option<String>)
        ensures
            crate::token::opt_view(r) == lookup(self.vars(), "HOME"@),
    {
        match self.get_var("HOME") {
            Some(s) => Some(owned(s)),
            None => None,
        }
    }
}

/// The status of a finished process, from its exit code or, when a signal
/// ended it, from the signal's number.
pub open spec fn exit_status(code: Option<i32>, signal: Option<i32>) -> int {
    match code {
        Some(c) => c as int,
        None => match signal {
            Some(sig) => 128 + sig,
            None => 1,
        },
    }
}

/// The status a process ended with: its exit code; `128` plus the signal
/// that ended it; else `1`.
pub fn status_code(code: Option<i32>, signal: Option<i32>) -> (r: i32)
    requires
        code is None ==> (signal matches Some(sig) ==> sig <= i32::MAX - 128),
    ensures
        r == exit_status(code, signal),
{
    match code {
        Some(c) => c,
        None => match signal {
            Some(sig) => 128 + sig,
            None => 1,
        },
    }
}

// ---------------------------------------------------------------------------
// Laws of the tables of variables and aliases
// ---------------------------------------------------------------------------

/// After a name is set, looking it up gives the value set.
pub proof fn law_lookup_after_assign(t: Table, name: Seq<char>, value: Seq<char>)
    ensures
        lookup(assign(t, name, value), name) == Some(value),
{
    lemma_find_from(t, name, 0);
    let t2 = assign(t, name, value);
    match find_from(t, name, 0) {
        Some(i) => {
            lemma_find_unique(t2, name, i);
        },
        None => {
            lemma_find_unique(t2, name, t.len() as int);
        },
    }
}

/// Setting a name leaves the value of every other name as it was.
pub proof fn law_assign_keeps_others(t: Table, name: Seq<char>, value: Seq<char>, other: Seq<char>)
    requires
        other != name,
    ensures
        lookup(assign(t, name, value), other) == lookup(t, other),
{
    lemma_find_from(t, name, 0);
    lemma_find_from(t, other, 0);
    let t2 = assign(t, name, value);
    lemma_find_from(t2, other, 0);
    match find_from(t, other, 0) {
        Some(k) => {
            lemma_find_unique(t2, other, k);
        },
        None => {
            lemma_find_none(t2, other);
        },
    }
}

/// Setting a name twice keeps only the second value.
pub proof fn law_assign_twice(t: Table, name: Seq<char>, v1: Seq<char>, v2: Seq<char>)
    ensures
        assign(assign(t, name, v1), name, v2) == assign(t, name, v2),
{
    lemma_find_from(t, name, 0);
    let t1 = assign(t, name, v1);
    match find_from(t, name, 0) {
        Some(i) => {
            lemma_find_unique(t1, name, i);
            assert(t1.update(i, (name, v2)) =~= t.update(i, (name, v2)));
        },
        None => {
            lemma_find_unique(t1, name, t.len() as int);
            assert(t1.update(t.len() as int, (name, v2)) =~= t.push((name, v2)));
        },
    }
}

proof fn lemma_remove_all(t: Table, name: Seq<char>)
    ensures
        forall|j: int| 0 <= j < remove_all(t, name).len() ==> #[trigger] remove_all(t, name)[j].0 != name,
        forall|e: (Seq<char>, Seq<char>)| #[trigger] remove_all(t, name).contains(e) ==> t.contains(e),
        forall|e: (Seq<char>, Seq<char>)| t.contains(e) && e.0 != name ==> #[trigger] remove_all(t, name).contains(e),
    decreases t.len(),
{
    if t.len() > 0 {
        lemma_remove_all(t.drop_last(), name);
        let r = remove_all(t.drop_last(), name);
        assert forall|e: (Seq<char>, Seq<char>)| #[trigger] remove_all(t, name).contains(e) implies t.contains(e) by {
            let k = choose|k: int| 0 <= k < remove_all(t, name).len() && remove_all(t, name)[k] == e;
            if t.last().0 != name && k == r.len() {
                assert(t[t.len() - 1] == e);
            } else {
                assert(r.contains(e));
                let m = choose|m: int| 0 <= m < t.drop_last().len() && t.drop_last()[m] == e;
                assert(t[m] == e);
            }
        }
        assert forall|e: (Seq<char>, Seq<char>)| t.contains(e) && e.0 != name implies #[trigger] remove_all(t, name).contains(e) by {
            let k = choose|k: int| 0 <= k < t.len() && t[k] == e;
            if k == t.len() - 1 {
                assert(remove_all(t, name)[r.len() as int] == e);
            } else {
                assert(t.drop_last()[k] == e);
                assert(r.contains(e));
                let m = choose|m: int| 0 <= m < r.len() && r[m] == e;
                assert(remove_all(t, name)[m] == e);
            }
        }
    }
}

/// After a name is removed, looking it up finds nothing.
pub proof fn law_lookup_after_remove(t: Table, name: Seq<char>)
    ensures
        lookup(remove_all(t, name), name) is None,
{
    lemma_remove_all(t, name);
    lemma_find_none(remove_all(t, name), name);
}

proof fn lemma_lookup_push(t: Table, e: (Seq<char>, Seq<char>), x: Seq<char>)
    ensures
        lookup(t.push(e), x) == match lookup(t, x) {
            Some(v) => Some(v),
            None => if e.0 == x {
                Some(e.1)
            } else {
                None
            },
        },
{
    let t2 = t.push(e);
    lemma_find_from(t, x, 0);
    lemma_find_from(t2, x, 0);
    match find_from(t, x, 0) {
        Some(k) => {
            assert(t2[k] == t[k]);
            assert forall|j: int| 0 <= j < k implies t2[j].0 != x by {
                assert(t2[j] == t[j]);
            }
            lemma_find_unique(t2, x, k);
        },
        None => {
            if e.0 == x {
                assert forall|j: int| 0 <= j < t.len() implies t2[j].0 != x by {
                    assert(t2[j] == t[j]);
                }
                lemma_find_unique(t2, x, t.len() as int);
            } else {
                assert forall|j: int| 0 <= j < t2.len() implies t2[j].0 != x by {
                    if j < t.len() {
                        assert(t2[j] == t[j]);
                    }
                }
                lemma_find_none(t2, x);
            }
        },
    }
}

/// Removing one name leaves every other name as it was: looking it up
/// gives the same value as before.
pub proof fn law_remove_keeps_others(t: Table, name: Seq<char>, x: Seq<char>)
    requires
        x != name,
    ensures
        lookup(remove_all(t, name), x) == lookup(t, x),
    decreases t.len(),
{
    if t.len() == 0 {
    } else {
        let init = t.drop_last();
        let e = t.last();
        assert(t =~= init.push(e));
        law_remove_keeps_others(init, name, x);
        lemma_lookup_push(init, e, x);
        if e.0 != name {
            lemma_lookup_push(remove_all(init, name), e, x);
        }
    }
}

/// A job's status once reaped: a running job whose process exited with
/// `c` is done with `c`, and stays running while its process runs; a job
/// that is done stays done with its status, whatever later polls say.
pub proof fn law_reaping(c: i32, d: i32, p: Poll, q: Poll)
    ensures
        reaped(JobStatus::Running, Poll::Exited(c)) == JobStatus::Done(c),
        reaped(JobStatus::Running, Poll::StillRunning) == JobStatus::Running,
        reaped(JobStatus::Done(d), p) == JobStatus::Done(d),
        reaped(reaped(JobStatus::Running, Poll::Exited(c)), q) == JobStatus::Done(c),
{
}

/// The status of a finished process: its exit code when it has one, else
/// 128 plus the number of the signal that ended it, else 1.
pub proof fn law_exit_status(c: i32, sig: i32)
    ensures
        exit_status(Some(c), Some(sig)) == c as int,
        exit_status(None, Some(sig)) == 128 + sig as int,
        exit_status(None, None) == 1,
{
}

} // verus!
