use tomlsh::expand::{Env, ExpandError};
use tomlsh::script::{Action, Cmd, Outcome, RunError, Runner};

fn s(x: &str) -> String {
    x.to_string()
}

fn sample_env() -> Env {
    let mut env = Env::new();
    env.insert(s("a"), vec![]);
    env.insert(s("b"), vec![s("x"), s("y")]);
    env
}

#[test]
fn test_eval() {
    let env = sample_env();

    assert_eq!(env.eval("$a").unwrap(), Vec::<String>::new());
    assert_eq!(env.eval("a").unwrap(), vec!["a"]);
    assert_eq!(env.eval("$$").unwrap(), vec!["$"]);
    assert_eq!(env.eval("$b").unwrap(), vec!["x", "y"]);
    assert_eq!(env.eval("$b.txt").unwrap(), vec!["x.txt", "y.txt"]);
    assert_eq!(env.eval("output/$b").unwrap(), vec!["output/x", "output/y"]);
    assert_eq!(env.eval("output/$b.o").unwrap(), vec!["output/x.o", "output/y.o"]);
    assert_eq!(env.eval("output/$b.o$$").unwrap(), vec!["output/x.o$", "output/y.o$"]);
}

#[test]
fn plain_text_is_one_variant() {
    let env = sample_env();
    assert_eq!(env.eval("hello world.txt").unwrap(), vec!["hello world.txt"]);
}

#[test]
fn escape_ignores_table() {
    let mut env = Env::new();
    env.insert(s("x"), vec![s("q")]);
    assert_eq!(env.eval("$$").unwrap(), vec!["$"]);
    assert_eq!(env.eval("a$$b").unwrap(), vec!["a$b"]);
}

#[test]
fn empty_binding_collapses_everything() {
    let env = sample_env();
    assert_eq!(env.eval("pre$a").unwrap(), Vec::<String>::new());
    assert_eq!(env.eval("$a.txt").unwrap(), Vec::<String>::new());
    assert_eq!(env.eval("$b$a/x").unwrap(), Vec::<String>::new());
}

#[test]
fn two_markers_outer_then_inner() {
    let mut env = Env::new();
    env.insert(s("a"), vec![s("a1"), s("a2")]);
    env.insert(s("b"), vec![s("b1"), s("b2")]);
    assert_eq!(env.eval("$a$b").unwrap(), vec!["a1b1", "a1b2", "a2b1", "a2b2"]);
}

#[test]
fn unresolved_name_is_reported() {
    let env = sample_env();
    assert_eq!(env.eval("x$zz.o"), Err(ExpandError::Unresolved(s("zz"))));
    assert_eq!(env.eval("$b$zz"), Err(ExpandError::Unresolved(s("zz"))));
}

#[test]
fn syntax_errors() {
    let env = sample_env();
    assert_eq!(env.eval(""), Err(ExpandError::Syntax));
    assert_eq!(env.eval("$"), Err(ExpandError::Syntax));
    assert_eq!(env.eval("a$.b"), Err(ExpandError::Syntax));
}

#[test]
fn later_binding_replaces_earlier() {
    let mut env = Env::new();
    env.insert(s("n"), vec![s("1"), s("2")]);
    env.insert(s("n"), vec![s("3")]);
    assert_eq!(env.eval("$n").unwrap(), vec!["3"]);
}

fn cmd(name: &str, bind: &[&str], args: &[&str]) -> Cmd {
    Cmd {
        name: s(name),
        bind: bind.iter().map(|x| s(x)).collect(),
        cmd: args.iter().map(|x| s(x)).collect(),
        cwd: String::new(),
    }
}

fn argv_of(a: Action) -> Vec<String> {
    match a {
        Action::Run { argv, .. } => argv,
        _ => panic!("expected a command to run"),
    }
}

#[test]
fn runner_binds_then_runs() {
    let cmds = vec![
        cmd("f", &["x", "y"], &["cc", "$f.c"]),
        cmd("", &[], &[]),
        cmd("f", &["z"], &["rm", "$f.o"]),
    ];
    let mut r = Runner::new();
    assert_eq!(argv_of(r.step(&cmds)), vec!["cc", "x.c", "y.c"]);
    assert!(r.report(Outcome::Succeeded).is_none());
    assert_eq!(argv_of(r.step(&cmds)), vec!["rm", "z.o"]);
    assert!(r.report(Outcome::Succeeded).is_none());
    assert!(matches!(r.step(&cmds), Action::Finished));
}

#[test]
fn runner_empty_command() {
    let cmds = vec![cmd("e", &[], &["$e", "$e.x"]), cmd("", &[], &["echo"])];
    let mut r = Runner::new();
    assert!(matches!(r.step(&cmds), Action::Failed(RunError::EmptyCommand)));
    assert!(matches!(r.step(&cmds), Action::Stopped));
}

#[test]
fn runner_stops_after_first_failure() {
    let cmds = vec![cmd("", &[], &["false"]), cmd("", &[], &["echo", "hi"])];
    let mut r = Runner::new();
    assert_eq!(argv_of(r.step(&cmds)), vec!["false"]);
    assert_eq!(r.report(Outcome::ExitedWith(Some(1))), Some(RunError::ExitStatus(Some(1))));
    assert!(matches!(r.step(&cmds), Action::Stopped));

    let mut r = Runner::new();
    assert_eq!(argv_of(r.step(&cmds)), vec!["false"]);
    assert_eq!(r.report(Outcome::NotStarted), Some(RunError::StartFailed));
    assert!(matches!(r.step(&cmds), Action::Stopped));
}

#[test]
fn runner_unresolved_binding_fails() {
    let cmds = vec![cmd("", &[], &["echo", "$nope"]), cmd("", &[], &["echo"])];
    let mut r = Runner::new();
    assert!(matches!(r.step(&cmds), Action::Failed(RunError::Unresolved(ref n)) if n == "nope"));
    assert!(matches!(r.step(&cmds), Action::Stopped));
}
