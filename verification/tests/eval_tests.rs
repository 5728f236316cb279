use garden::errors::GardenError;
use garden::eval;
use garden::model::Configuration;
use garden::model::MultiVariable;
use garden::model::NamedValue;
use garden::model::NamedVariable;
use garden::model::TreeContext;
use garden::model::Variable;

fn nv(name: &str, expr: &str) -> NamedVariable {
    NamedVariable {
        name: name.to_string(),
        expr: expr.to_string(),
        value: None,
    }
}

fn base_config() -> Configuration {
    let mut cfg = Configuration::new();
    cfg.root.expr = "/tmp".to_string();
    cfg
}

#[test]
fn literal_value_without_placeholders() {
    let mut cfg = base_config();
    let v = eval::value(&mut cfg, "hello world").unwrap();
    assert_eq!(v, "hello world");
}

#[test]
fn placeholder_resolves_through_config_scope() {
    let mut cfg = base_config();
    cfg.variables.push(nv("greeting", "hello"));
    let v = eval::value(&mut cfg, "${greeting} there").unwrap();
    assert_eq!(v, "hello there");
}

#[test]
fn placeholder_chains_resolve_on_demand() {
    let mut cfg = base_config();
    cfg.variables.push(nv("a", "a-${b}"));
    cfg.variables.push(nv("b", "b-${c}"));
    cfg.variables.push(nv("c", "leaf"));
    let v = eval::value(&mut cfg, "${a}").unwrap();
    assert_eq!(v, "a-b-leaf");
}

#[test]
fn unknown_placeholder_resolves_to_empty() {
    let mut cfg = base_config();
    let v = eval::value(&mut cfg, "x${missing}y").unwrap();
    assert_eq!(v, "xy");
}

#[test]
fn ambient_environment_is_last_resort() {
    let mut cfg = base_config();
    cfg.environ.push(NamedValue {
        name: "HOMEDIR".to_string(),
        value: "/home/u".to_string(),
    });
    let v = eval::value(&mut cfg, "${HOMEDIR}/src").unwrap();
    assert_eq!(v, "/home/u/src");
}

#[test]
fn cyclic_definition_is_detected() {
    let mut cfg = base_config();
    cfg.variables.push(nv("a", "${b}"));
    cfg.variables.push(nv("b", "${a}"));
    let r = eval::value(&mut cfg, "${a}");
    assert_eq!(r, Err(GardenError::CyclicDefinition));
}

#[test]
fn exec_expression_captures_trimmed_output() {
    let mut cfg = base_config();
    let v = eval::value(&mut cfg, "$ echo hello").unwrap();
    assert_eq!(v, "hello");
}

#[test]
fn exec_expression_substitutes_before_running() {
    let mut cfg = base_config();
    cfg.variables.push(nv("word", "garden"));
    let v = eval::value(&mut cfg, "$ echo ${word}").unwrap();
    assert_eq!(v, "garden");
}

#[test]
fn exec_expression_failure_carries_status() {
    let mut cfg = base_config();
    let r = eval::value(&mut cfg, "$ exit 3");
    assert_eq!(r, Err(GardenError::ExecutionFailure(3)));
}

#[test]
fn exec_runs_once_per_epoch_and_again_after_reset() {
    let marker = "/tmp/garden_eval_memo_marker";
    let mut cfg = base_config();
    let _ = eval::value(&mut cfg, &format!("$ rm -f {}", marker));
    cfg.variables.push(nv(
        "counter",
        &format!("$ echo x >> {m}; wc -l < {m}", m = marker),
    ));
    cfg.initialize().unwrap();

    let first = eval::value(&mut cfg, "${counter}").unwrap();
    let second = eval::value(&mut cfg, "${counter}").unwrap();
    // memoized: the exec expression ran exactly once for both references
    assert_eq!(first, second);

    cfg.reset();
    // the cache is gone
    for var in &cfg.variables {
        if var.name == "counter" {
            assert!(var.value.is_none());
        }
    }
    let third = eval::value(&mut cfg, "${counter}").unwrap();
    // the exec expression ran again after the reset
    assert_ne!(first, third);
    let _ = eval::value(&mut cfg, &format!("$ rm -f {}", marker));
}

#[test]
fn environment_later_scopes_override() {
    let mut cfg = base_config();
    cfg.environment.push(MultiVariable {
        name: "NAME".to_string(),
        values: vec![Variable {
            expr: "config-level".to_string(),
            value: None,
        }],
    });
    let mut tree = garden::model::Tree {
        commands: Vec::new(),
        environment: Vec::new(),
        gitconfig: Vec::new(),
        is_symlink: false,
        name: "t".to_string(),
        path: Variable {
            expr: "/tmp".to_string(),
            value: None,
        },
        remotes: Vec::new(),
        symlink: Variable {
            expr: String::new(),
            value: None,
        },
        templates: Vec::new(),
        variables: Vec::new(),
    };
    tree.environment.push(MultiVariable {
        name: "NAME".to_string(),
        values: vec![Variable {
            expr: "tree-level".to_string(),
            value: None,
        }],
    });
    cfg.trees.push(tree);
    let ctx = TreeContext {
        tree: 0,
        garden: None,
        group: None,
    };
    let env = eval::environment(&mut cfg, &ctx).unwrap();
    let hits: Vec<&(String, String)> = env.iter().filter(|kv| kv.0 == "NAME").collect();
    assert_eq!(hits.len(), 1);
    assert_eq!(hits[0].1, "tree-level");
}

#[test]
fn environment_joins_multiple_values() {
    let mut cfg = base_config();
    cfg.environment.push(MultiVariable {
        name: "PATHISH".to_string(),
        values: vec![
            Variable {
                expr: "one".to_string(),
                value: None,
            },
            Variable {
                expr: "two".to_string(),
                value: None,
            },
        ],
    });
    cfg.trees.push(garden::model::Tree {
        commands: Vec::new(),
        environment: Vec::new(),
        gitconfig: Vec::new(),
        is_symlink: false,
        name: "t".to_string(),
        path: Variable {
            expr: "/tmp".to_string(),
            value: None,
        },
        remotes: Vec::new(),
        symlink: Variable {
            expr: String::new(),
            value: None,
        },
        templates: Vec::new(),
        variables: Vec::new(),
    });
    let ctx = TreeContext {
        tree: 0,
        garden: None,
        group: None,
    };
    let env = eval::environment(&mut cfg, &ctx).unwrap();
    assert!(env.contains(&("PATHISH".to_string(), "one:two".to_string())));
}

#[test]
fn exec_status_prefers_exit_code() {
    assert_eq!(eval::exec_status(Some(5), None), 5);
    assert_eq!(eval::exec_status(None, Some(9)), 9);
    assert_eq!(eval::exec_status(None, None), 1);
}

#[test]
fn trim_trailing_newlines_exact() {
    assert_eq!(eval::trim_trailing_newlines("abc\n\n"), "abc");
    assert_eq!(eval::trim_trailing_newlines("abc"), "abc");
    assert_eq!(eval::trim_trailing_newlines("\n"), "");
    assert_eq!(eval::trim_trailing_newlines("a\nb\n"), "a\nb");
}

#[test]
fn collect_and_substitute_positionally() {
    let names = eval::collect_names("x ${a} y ${b} z");
    assert_eq!(names, vec!["a".to_string(), "b".to_string()]);
    let vals = vec!["1".to_string(), "2".to_string()];
    let out = eval::substitute_pos("x ${a} y ${b} z", &vals);
    assert_eq!(out, "x 1 y 2 z");
}

#[test]
fn unterminated_placeholder_is_literal() {
    let names = eval::collect_names("x ${a");
    assert!(names.is_empty());
    let mut cfg = base_config();
    let v = eval::value(&mut cfg, "x ${a").unwrap();
    assert_eq!(v, "x ${a");
}
