use eazyshell::builtins::{
    is_builtin_name, job_status_label, run_builtin, select_job_fails, select_job_index,
    type_found, BuiltinRun, Outcome,
};
use eazyshell::shell::{JobStatus, Poll, Shell};

fn shell_with(vars: &[(&str, &str)]) -> Shell {
    Shell::new(
        vars.iter()
            .map(|(k, v)| (k.to_string(), v.to_string()))
            .collect(),
    )
}

fn argv(words: &[&str]) -> Vec<String> {
    words.iter().map(|w| w.to_string()).collect()
}

fn finished(r: BuiltinRun) -> Outcome {
    match r {
        BuiltinRun::Finished(o) => o,
        _ => panic!("expected the builtin to finish"),
    }
}

#[test]
fn recognizes_builtin_names() {
    assert!(is_builtin_name("cd"));
    assert!(is_builtin_name("exit"));
    assert!(is_builtin_name("echo"));
    assert!(is_builtin_name("type"));
    assert!(!is_builtin_name("ls"));
}

#[test]
fn export_without_args_prints_all() {
    let mut s = shell_with(&[("A", "1"), ("B", "2")]);
    let o = finished(run_builtin("export", &argv(&["export"]), &mut s));
    assert_eq!(o.status, 0);
    assert_eq!(o.out, "A=1\nB=2\n");
}

#[test]
fn export_sets_variable() {
    let mut s = shell_with(&[]);
    let o = finished(run_builtin("export", &argv(&["export", "FOO=bar", "EMPTY"]), &mut s));
    assert_eq!(o.status, 0);
    assert_eq!(s.get_var("FOO"), Some("bar"));
    assert_eq!(s.get_var("EMPTY"), Some(""));
}

#[test]
fn unset_removes_variable() {
    let mut s = shell_with(&[("X", "1")]);
    let o = finished(run_builtin("unset", &argv(&["unset", "X"]), &mut s));
    assert_eq!(o.status, 0);
    assert_eq!(s.get_var("X"), None);
}

#[test]
fn echo_without_n_flag_adds_newline() {
    let mut s = shell_with(&[]);
    let o = finished(run_builtin("echo", &argv(&["echo", "hi"]), &mut s));
    assert_eq!(o.status, 0);
    assert_eq!(o.out, "hi\n");
}

#[test]
fn echo_dash_n_leaves_out_the_newline() {
    let mut s = shell_with(&[]);
    let o = finished(run_builtin("echo", &argv(&["echo", "-n", "a", "b"]), &mut s));
    assert_eq!(o.out, "a b");
    let o = finished(run_builtin("echo", &argv(&["echo"]), &mut s));
    assert_eq!(o.out, "\n");
}

#[test]
fn alias_sets_and_lists() {
    let mut s = shell_with(&[]);
    let o = finished(run_builtin("alias", &argv(&["alias", "ll=ls -l"]), &mut s));
    assert_eq!(o.status, 0);
    assert_eq!(s.get_alias("ll"), Some("ls -l"));
    let o = finished(run_builtin("alias", &argv(&["alias", "ll"]), &mut s));
    assert_eq!(o.status, 0);
    assert_eq!(o.out, "alias ll='ls -l'\n");
    let o = finished(run_builtin("alias", &argv(&["alias"]), &mut s));
    assert_eq!(o.out, "alias ll='ls -l'\n");
    let o = finished(run_builtin("alias", &argv(&["alias", "zz"]), &mut s));
    assert_eq!(o.err, "eazyshell: alias: zz: not found\n");
}

#[test]
fn type_reports_builtin() {
    let mut s = shell_with(&[]);
    let o = finished(run_builtin("type", &argv(&["type", "echo"]), &mut s));
    assert_eq!(o.status, 0);
    assert_eq!(o.out, "echo is a shell builtin\n");
}

#[test]
fn type_searches_the_path() {
    let mut s = shell_with(&[("PATH", "/a::/b")]);
    match run_builtin("type", &argv(&["type", "tool"]), &mut s) {
        BuiltinRun::Search { name, paths } => {
            assert_eq!(name, "tool");
            assert_eq!(paths, vec!["/a/tool", "/b/tool"]);
        }
        _ => panic!("expected a search"),
    }
    let mut bare = shell_with(&[]);
    match run_builtin("type", &argv(&["type", "tool"]), &mut bare) {
        BuiltinRun::Search { paths, .. } => {
            assert_eq!(paths, vec!["/usr/local/bin/tool", "/usr/bin/tool", "/bin/tool"])
        }
        _ => panic!("expected a search"),
    }
    let mut rooted = shell_with(&[("PATH", "/a/")]);
    match run_builtin("type", &argv(&["type", "/opt/x"]), &mut rooted) {
        BuiltinRun::Search { paths, .. } => assert_eq!(paths, vec!["/opt/x"]),
        _ => panic!("expected a search"),
    }
    match run_builtin("type", &argv(&["type", "x"]), &mut rooted) {
        BuiltinRun::Search { paths, .. } => assert_eq!(paths, vec!["/a/x"]),
        _ => panic!("expected a search"),
    }
    let o = type_found("definitely_not_a_cmd", None);
    assert_ne!(o.status, 0);
    let o = type_found("ls", Some("/bin/ls".to_string()));
    assert_eq!((o.status, o.out.as_str()), (0, "ls is /bin/ls\n"));
}

#[test]
fn type_not_found_returns_nonzero() {
    let mut s = shell_with(&[]);
    let name = match run_builtin("type", &argv(&["type", "definitely_not_a_cmd"]), &mut s) {
        BuiltinRun::Search { name, .. } => name,
        _ => panic!("expected a search"),
    };
    assert_ne!(type_found(&name, None).status, 0);
}

#[test]
fn cd_without_home_is_error() {
    let mut s = shell_with(&[]);
    let o = finished(run_builtin("cd", &argv(&["cd"]), &mut s));
    assert_eq!(o.status, 1);
}

#[test]
fn cd_targets() {
    let mut s = shell_with(&[("HOME", "/h")]);
    s.oldpwd = Some("/old".to_string());
    for (arg, want) in [("~", "/h"), ("-", "/old"), ("/x", "/x")] {
        match run_builtin("cd", &argv(&["cd", arg]), &mut s) {
            BuiltinRun::ChangeDir(d) => assert_eq!(d, want),
            _ => panic!("expected a change of directory"),
        }
    }
    match run_builtin("cd", &argv(&["cd"]), &mut s) {
        BuiltinRun::ChangeDir(d) => assert_eq!(d, "/h"),
        _ => panic!("expected a change of directory"),
    }
}

#[test]
fn exit_stops_the_shell() {
    let mut s = shell_with(&[]);
    s.last_status = 7;
    let o = finished(run_builtin("exit", &argv(&["exit"]), &mut s));
    assert_eq!(o.status, 7);
    assert!(!s.running);
    let mut s = shell_with(&[]);
    let o = finished(run_builtin("exit", &argv(&["exit", " 3 "]), &mut s));
    assert_eq!(o.status, 3);
    let o = finished(run_builtin("exit", &argv(&["exit", "x"]), &mut s));
    assert_eq!(o.status, 0);
}

#[test]
fn pwd_asks_for_the_directory() {
    let mut s = shell_with(&[]);
    assert!(matches!(
        run_builtin("pwd", &argv(&["pwd"]), &mut s),
        BuiltinRun::PrintDir
    ));
}

#[test]
fn unknown_builtin_is_an_error() {
    let mut s = shell_with(&[]);
    let o = finished(run_builtin("nope", &argv(&["nope"]), &mut s));
    assert_eq!(o.status, 1);
    assert_eq!(o.err, "eazyshell: nope: not a builtin\n");
}

#[test]
fn jobs_are_listed_and_selected() {
    let mut s = shell_with(&[]);
    assert_eq!(s.add_job(4000, "sleep 1".to_string()), 1);
    assert_eq!(s.add_job(4001, "sleep 2".to_string()), 2);
    s.reap_jobs(&vec![Poll::Exited(3), Poll::StillRunning]);
    let o = finished(run_builtin("jobs", &argv(&["jobs"]), &mut s));
    assert_eq!(o.out, "[1] Done(3) sleep 1\n[2] Running sleep 2\n");
    assert_eq!(select_job_index(&s.jobs, ""), Some(1));
    assert_eq!(select_job_index(&s.jobs, "%1"), Some(0));
    assert_eq!(select_job_index(&s.jobs, "4001"), Some(1));
    assert_eq!(select_job_index(&s.jobs, "9"), None);
    assert_eq!(select_job_index(&s.jobs, "x"), None);
    assert!(matches!(
        run_builtin("fg", &argv(&["fg", "2"]), &mut s),
        BuiltinRun::Resume(1)
    ));
    let o = finished(run_builtin("bg", &argv(&["bg", "2"]), &mut s));
    assert_eq!((o.status, o.err.as_str()), (0, "[2] sleep 2 already running\n"));
    let o = finished(run_builtin("bg", &argv(&["bg", "1"]), &mut s));
    assert_eq!(o.status, 1);
    let o = finished(run_builtin("fg", &argv(&["fg", "7"]), &mut s));
    assert_eq!(o.err, "eazyshell: fg: no such job\n");
}

#[test]
fn job_zero_without_jobs_cannot_be_selected() {
    let s = shell_with(&[]);
    assert!(select_job_fails(&s.jobs, "0"));
    assert!(!select_job_fails(&s.jobs, "1"));
    assert_eq!(select_job_index(&s.jobs, ""), None);
}

#[test]
fn failed_poll_marks_job_done() {
    let mut s = shell_with(&[]);
    s.add_job(1, "a".to_string());
    s.reap_jobs(&vec![Poll::Failed]);
    assert_eq!(s.jobs[0].status, JobStatus::Done(-1));
    s.reap_jobs(&vec![Poll::Exited(5)]);
    assert_eq!(s.jobs[0].status, JobStatus::Done(-1));
}

#[test]
fn status_labels() {
    assert_eq!(job_status_label(&JobStatus::Running), "Running");
    assert_eq!(job_status_label(&JobStatus::Done(-2)), "Done(-2)");
}
