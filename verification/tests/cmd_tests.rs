use garden::cmd;
use garden::errors::EX_OK;
use garden::eval;
use garden::model::ApplicationContext;
use garden::model::CommandOptions;
use garden::model::Configuration;
use garden::model::MultiVariable;
use garden::model::Tree;
use garden::model::Variable;
use garden::query;

fn tree_with_command(name: &str, path: &str, cmd_name: &str, steps: &[&str]) -> Tree {
    Tree {
        commands: vec![MultiVariable {
            name: cmd_name.to_string(),
            values: steps
                .iter()
                .map(|s| Variable {
                    expr: s.to_string(),
                    value: None,
                })
                .collect(),
        }],
        environment: Vec::new(),
        gitconfig: Vec::new(),
        is_symlink: false,
        name: name.to_string(),
        path: Variable {
            expr: path.to_string(),
            value: None,
        },
        remotes: Vec::new(),
        symlink: Variable {
            expr: String::new(),
            value: None,
        },
        templates: Vec::new(),
        variables: Vec::new(),
    }
}

fn app_with_trees(trees: Vec<Tree>) -> ApplicationContext {
    let mut cfg = Configuration::new();
    cfg.root.expr = "/tmp".to_string();
    cfg.trees = trees;
    cfg.initialize().unwrap();
    ApplicationContext::new(cfg, CommandOptions::new())
}

fn shell_output(expr: &str) -> String {
    let mut cfg = Configuration::new();
    eval::value(&mut cfg, expr).unwrap()
}

#[test]
fn split_on_dash_separates_commands_from_arguments() {
    let args: Vec<String> = vec!["build".into(), "test".into(), "--".into(), "-v".into()];
    let mut commands: Vec<String> = Vec::new();
    let mut arguments: Vec<String> = Vec::new();
    cmd::split_on_dash(&args, &mut commands, &mut arguments);
    assert_eq!(commands, vec!["build".to_string(), "test".to_string()]);
    assert_eq!(arguments, vec!["-v".to_string()]);
}

#[test]
fn split_on_dash_without_marker() {
    let args: Vec<String> = vec!["build".into()];
    let mut commands: Vec<String> = Vec::new();
    let mut arguments: Vec<String> = Vec::new();
    cmd::split_on_dash(&args, &mut commands, &mut arguments);
    assert_eq!(commands, vec!["build".to_string()]);
    assert!(arguments.is_empty());
}

#[test]
fn status_helpers_are_exact() {
    assert_eq!(cmd::next_exit_status(1, 0), 1);
    assert_eq!(cmd::next_exit_status(1, 2), 2);
    assert_eq!(cmd::run_status(Some((Some(7), None))), 7);
    assert_eq!(cmd::run_status(None), garden::errors::EX_IOERR);
}

#[test]
fn keep_going_reports_last_failure() {
    // two contexts: first fails with 1, second with 2; keep-going wins 2
    let mut app = app_with_trees(vec![
        tree_with_command("t1", "/tmp", "boom", &["exit 1"]),
        tree_with_command("t2", "/tmp", "boom", &["exit 2"]),
    ]);
    let contexts = query::resolve_trees(&app.config, "+t*").unwrap();
    let commands: Vec<String> = vec!["boom".into()];
    let arguments: Vec<String> = Vec::new();
    let status =
        cmd::run_cmd_depth_first(&mut app, true, false, true, &contexts, &commands, &arguments)
            .unwrap();
    assert_eq!(status, 2);
}

#[test]
fn stopping_at_first_failure_skips_the_rest() {
    let marker = "/tmp/garden_cmd_stop_marker";
    shell_output(&format!("$ rm -f {}; echo done", marker));
    let mut app = app_with_trees(vec![
        tree_with_command("t1", "/tmp", "boom", &["exit 1"]),
        tree_with_command("t2", "/tmp", "boom", &[&format!("touch {}", marker)]),
    ]);
    let contexts = query::resolve_trees(&app.config, "+t*").unwrap();
    let commands: Vec<String> = vec!["boom".into()];
    let arguments: Vec<String> = Vec::new();
    let status =
        cmd::run_cmd_depth_first(&mut app, true, false, false, &contexts, &commands, &arguments)
            .unwrap();
    assert_eq!(status, 1);
    // the second context's command never ran
    let seen = shell_output(&format!("$ test -f {} && echo yes || echo no", marker));
    assert_eq!(seen, "no");
}

#[test]
fn a_failing_step_aborts_its_sequence() {
    let marker = "/tmp/garden_cmd_seq_marker";
    shell_output(&format!("$ rm -f {}; echo done", marker));
    let mut app = app_with_trees(vec![tree_with_command(
        "t1",
        "/tmp",
        "boom",
        &["exit 4", &format!("touch {}", marker)],
    )]);
    let contexts = query::resolve_trees(&app.config, "+t1").unwrap();
    let commands: Vec<String> = vec!["boom".into()];
    let arguments: Vec<String> = Vec::new();
    let status =
        cmd::run_cmd_depth_first(&mut app, true, false, true, &contexts, &commands, &arguments)
            .unwrap();
    assert_eq!(status, 4);
    let seen = shell_output(&format!("$ test -f {} && echo yes || echo no", marker));
    assert_eq!(seen, "no");
}

#[test]
fn both_traversal_orders_run_the_same_invocations() {
    let depth_log = "/tmp/garden_cmd_depth_log";
    let breadth_log = "/tmp/garden_cmd_breadth_log";
    for (breadth, log) in [(false, depth_log), (true, breadth_log)] {
        shell_output(&format!("$ rm -f {}; echo done", log));
        let mut t1 = tree_with_command("t1", "/tmp", "one", &[&format!("echo t1-one >> {}", log)]);
        t1.commands.push(MultiVariable {
            name: "two".to_string(),
            values: vec![Variable {
                expr: format!("echo t1-two >> {}", log),
                value: None,
            }],
        });
        let mut t2 = tree_with_command("t2", "/tmp", "one", &[&format!("echo t2-one >> {}", log)]);
        t2.commands.push(MultiVariable {
            name: "two".to_string(),
            values: vec![Variable {
                expr: format!("echo t2-two >> {}", log),
                value: None,
            }],
        });
        let mut app = app_with_trees(vec![t1, t2]);
        let contexts = query::resolve_trees(&app.config, "+t*").unwrap();
        let commands: Vec<String> = vec!["one".into(), "two".into()];
        let arguments: Vec<String> = Vec::new();
        let status = if breadth {
            cmd::run_cmd_breadth_first(&mut app, true, false, true, &contexts, &commands, &arguments)
                .unwrap()
        } else {
            cmd::run_cmd_depth_first(&mut app, true, false, true, &contexts, &commands, &arguments)
                .unwrap()
        };
        assert_eq!(status, EX_OK);
    }
    // the same set of invocations ran, in a different order
    let depth_sorted = shell_output(&format!("$ sort {}", depth_log));
    let breadth_sorted = shell_output(&format!("$ sort {}", breadth_log));
    assert_eq!(depth_sorted, breadth_sorted);
    let depth_raw = shell_output(&format!("$ cat {}", depth_log));
    let breadth_raw = shell_output(&format!("$ cat {}", breadth_log));
    assert_ne!(depth_raw, breadth_raw);
    assert_eq!(depth_raw, "t1-one\nt1-two\nt2-one\nt2-two");
    assert_eq!(breadth_raw, "t1-one\nt2-one\nt1-two\nt2-two");
}

#[test]
fn missing_tree_paths_are_skipped_without_error() {
    let mut app = app_with_trees(vec![tree_with_command(
        "ghost",
        "/tmp/garden_no_such_directory_anywhere",
        "boom",
        &["exit 9"],
    )]);
    let contexts = query::resolve_trees(&app.config, "+ghost").unwrap();
    let commands: Vec<String> = vec!["boom".into()];
    let arguments: Vec<String> = Vec::new();
    let status =
        cmd::run_cmd_depth_first(&mut app, true, false, false, &contexts, &commands, &arguments)
            .unwrap();
    assert_eq!(status, EX_OK);
}

#[test]
fn symlink_trees_are_skipped() {
    let mut t = tree_with_command("link", "/tmp", "boom", &["exit 9"]);
    t.is_symlink = true;
    let mut app = app_with_trees(vec![t]);
    let contexts = query::resolve_trees(&app.config, "+link").unwrap();
    let commands: Vec<String> = vec!["boom".into()];
    let arguments: Vec<String> = Vec::new();
    let status =
        cmd::run_cmd_depth_first(&mut app, true, false, false, &contexts, &commands, &arguments)
            .unwrap();
    assert_eq!(status, EX_OK);
}

#[test]
fn cmds_aggregates_over_queries() {
    let mut app = app_with_trees(vec![
        tree_with_command("t1", "/tmp", "boom", &["exit 1"]),
        tree_with_command("t2", "/tmp", "boom", &["exit 2"]),
    ]);
    let queries: Vec<String> = vec!["+t1".into(), "+t2".into()];
    let arguments: Vec<String> = Vec::new();
    let status = cmd::cmds(&mut app, true, false, true, "boom", &queries, &arguments);
    assert_eq!(status, 2);
}

#[test]
fn custom_runs_the_named_command() {
    let marker = "/tmp/garden_cmd_custom_marker";
    shell_output(&format!("$ rm -f {}; echo done", marker));
    let mut app = app_with_trees(vec![tree_with_command(
        "t1",
        "/tmp",
        "mark",
        &[&format!("touch {}", marker)],
    )]);
    app.options.quiet = true;
    let queries: Vec<String> = vec!["+t1".into()];
    let arguments: Vec<String> = Vec::new();
    let status = cmd::custom(&mut app, "mark", &queries, &arguments);
    assert_eq!(status, EX_OK);
    let seen = shell_output(&format!("$ test -f {} && echo yes || echo no", marker));
    assert_eq!(seen, "yes");
}

#[test]
fn extra_arguments_reach_the_command() {
    let marker = "/tmp/garden_cmd_args_marker";
    shell_output(&format!("$ rm -f {}; echo done", marker));
    // "$0" receives the executable path; "$1" is the first extra argument
    let mut app = app_with_trees(vec![tree_with_command(
        "t1",
        "/tmp",
        "save",
        &[&format!("echo \"$1\" > {}", marker)],
    )]);
    let contexts = query::resolve_trees(&app.config, "+t1").unwrap();
    let commands: Vec<String> = vec!["save".into()];
    let arguments: Vec<String> = vec!["hello-arg".into()];
    let status =
        cmd::run_cmd_depth_first(&mut app, true, false, false, &contexts, &commands, &arguments)
            .unwrap();
    assert_eq!(status, EX_OK);
    assert_eq!(shell_output(&format!("$ cat {}", marker)), "hello-arg");
}

#[test]
fn resolved_environment_reaches_the_command() {
    let marker = "/tmp/garden_cmd_env_marker";
    shell_output(&format!("$ rm -f {}; echo done", marker));
    let mut t = tree_with_command("t1", "/tmp", "save", &[&format!("echo \"$GREETING\" > {}", marker)]);
    t.environment.push(MultiVariable {
        name: "GREETING".to_string(),
        values: vec![Variable {
            expr: "hi-from-env".to_string(),
            value: None,
        }],
    });
    let mut app = app_with_trees(vec![t]);
    let contexts = query::resolve_trees(&app.config, "+t1").unwrap();
    let commands: Vec<String> = vec!["save".into()];
    let arguments: Vec<String> = Vec::new();
    let status =
        cmd::run_cmd_depth_first(&mut app, true, false, false, &contexts, &commands, &arguments)
            .unwrap();
    assert_eq!(status, EX_OK);
    assert_eq!(shell_output(&format!("$ cat {}", marker)), "hi-from-env");
}

#[test]
fn cmds_reports_a_malformed_query() {
    let mut app = app_with_trees(vec![tree_with_command("t1", "/tmp", "boom", &["true"])]);
    let queries: Vec<String> = vec!["[".into()];
    let arguments: Vec<String> = Vec::new();
    let status = cmd::cmds(&mut app, true, false, false, "boom", &queries, &arguments);
    assert_eq!(status, garden::errors::EX_IOERR);
}
