use garden::config;
use garden::config::FileFormat;
use garden::model::ColorMode;
use garden::model::Command;
use garden::model::CommandOptions;
use garden::model::Configuration;
use garden::model::NamedVariable;
use garden::model::Tree;
use garden::model::Variable;

fn tree(name: &str, path: &str) -> Tree {
    Tree {
        commands: Vec::new(),
        environment: Vec::new(),
        gitconfig: Vec::new(),
        is_symlink: false,
        name: name.to_string(),
        path: Variable {
            expr: path.to_string(),
            value: None,
        },
        remotes: Vec::new(),
        symlink: Variable {
            expr: String::new(),
            value: None,
        },
        templates: Vec::new(),
        variables: Vec::new(),
    }
}

#[test]
fn relative_tree_paths_resolve_under_the_root() {
    // root resolves to /home/u/proj; tree path "repo" becomes absolute
    let mut cfg = Configuration::new();
    cfg.root.expr = "/home/u/proj".to_string();
    cfg.trees.push(tree("t", "repo"));
    cfg.initialize().unwrap();
    assert_eq!(cfg.root.value.as_deref(), Some("/home/u/proj"));
    assert_eq!(cfg.root_path, "/home/u/proj");
    assert_eq!(
        cfg.trees[0].path.value.as_deref(),
        Some("/home/u/proj/repo")
    );
}

#[test]
fn absolute_tree_paths_are_kept() {
    let mut cfg = Configuration::new();
    cfg.root.expr = "/home/u/proj".to_string();
    cfg.trees.push(tree("t", "/opt/elsewhere"));
    cfg.initialize().unwrap();
    assert_eq!(cfg.trees[0].path.value.as_deref(), Some("/opt/elsewhere"));
}

#[test]
fn initialize_assigns_declaration_indexes() {
    let mut cfg = Configuration::new();
    cfg.root.expr = "/tmp".to_string();
    cfg.groups.push(garden::model::Group {
        name: "g1".to_string(),
        index: 99,
        members: Vec::new(),
    });
    cfg.groups.push(garden::model::Group {
        name: "g2".to_string(),
        index: 99,
        members: Vec::new(),
    });
    cfg.initialize().unwrap();
    assert_eq!(cfg.groups[0].index, 0);
    assert_eq!(cfg.groups[1].index, 1);
}

#[test]
fn reset_reasserts_builtin_variables() {
    let mut cfg = Configuration::new();
    cfg.root.expr = "/srv/root".to_string();
    cfg.variables.push(NamedVariable {
        name: "GARDEN_ROOT".to_string(),
        expr: String::new(),
        value: None,
    });
    let mut t = tree("mytree", "sub");
    t.variables.push(NamedVariable {
        name: "TREE_NAME".to_string(),
        expr: String::new(),
        value: None,
    });
    t.variables.push(NamedVariable {
        name: "TREE_PATH".to_string(),
        expr: String::new(),
        value: None,
    });
    cfg.trees.push(t);
    cfg.initialize().unwrap();
    assert_eq!(cfg.variables[0].value.as_deref(), Some("/srv/root"));
    assert_eq!(cfg.trees[0].variables[0].value.as_deref(), Some("mytree"));
    assert_eq!(
        cfg.trees[0].variables[1].value.as_deref(),
        Some("/srv/root/sub")
    );
}

#[test]
fn set_path_records_the_directory() {
    let mut cfg = Configuration::new();
    cfg.set_path("/a/b/garden.yaml".to_string());
    assert_eq!(cfg.path.as_deref(), Some("/a/b/garden.yaml"));
    assert_eq!(cfg.dirname.as_deref(), Some("/a/b"));

    // a file at the filesystem root keeps the root as its directory
    let mut cfg = Configuration::new();
    cfg.set_path("/garden.yaml".to_string());
    assert_eq!(cfg.dirname.as_deref(), Some("/"));

    // a bare file name has no directory part
    let mut cfg = Configuration::new();
    cfg.set_path("garden.yaml".to_string());
    assert_eq!(cfg.dirname.as_deref(), Some(""));

    // trailing separators are dropped before the last component
    let mut cfg = Configuration::new();
    cfg.set_path("/a/b/".to_string());
    assert_eq!(cfg.dirname.as_deref(), Some("/a"));
}

#[test]
fn display_tree_formats() {
    let t = tree("mytree", "unused");
    assert_eq!(
        garden::model::display_tree(&t, "/p", false),
        "# mytree"
    );
    assert_eq!(
        garden::model::display_tree(&t, "/p", true),
        "# mytree  /p"
    );
    assert_eq!(
        garden::model::display_missing_tree(&t, "/p", false),
        "# mytree (skipped)"
    );
    assert_eq!(
        garden::model::display_missing_tree(&t, "/p", true),
        "# mytree  /p (skipped)"
    );
}

#[test]
fn command_words_map_to_subcommands() {
    assert!(matches!(Command::from_name("cmd"), Command::Cmd));
    assert!(matches!(Command::from_name("ls"), Command::List));
    assert!(matches!(Command::from_name("sh"), Command::Shell));
    match Command::from_name("deploy") {
        Command::Custom(s) => assert_eq!(s, "deploy"),
        other => panic!("expected a custom command, got {:?}", other),
    }
}

#[test]
fn color_mode_words() {
    assert_eq!(ColorMode::from_name("auto"), Some(ColorMode::Auto));
    assert_eq!(ColorMode::from_name("yes"), Some(ColorMode::On));
    assert_eq!(ColorMode::from_name("never"), Some(ColorMode::Off));
    assert_eq!(ColorMode::from_name("sometimes"), None);
    // the parser ignores ASCII case
    assert_eq!(ColorMode::from_name("TRUE"), Some(ColorMode::On));
    assert_eq!(ColorMode::from_name("Never"), Some(ColorMode::Off));
    assert_eq!(ColorMode::from_name("AUTO"), Some(ColorMode::Auto));
    assert!(ColorMode::names().contains("auto"));
}

#[test]
fn debug_categories_are_looked_up() {
    let mut options = CommandOptions::new();
    options.debug.push("cmd".to_string());
    assert!(options.is_debug("cmd"));
    assert!(!options.is_debug("eval"));
}

#[test]
fn file_formats_by_extension() {
    assert!(matches!(config::format_of_extension("json"), FileFormat::Json));
    assert!(matches!(config::format_of_extension("yaml"), FileFormat::Yaml));
    assert!(matches!(
        config::format_of_extension("toml"),
        FileFormat::Unknown
    ));
}

#[test]
fn search_path_candidates_in_priority_order() {
    let c = config::search_path_candidates("/cwd", "/home/u");
    assert_eq!(
        c,
        vec![
            "/cwd".to_string(),
            "/cwd/garden".to_string(),
            "/cwd/etc/garden".to_string(),
            "/home/u/.config/garden".to_string(),
            "/home/u/etc/garden".to_string(),
            "/etc/garden".to_string(),
        ]
    );
}

#[test]
fn fresh_configuration_defaults() {
    let cfg = config::new(Some("/a/garden.yaml".to_string()), true);
    assert!(cfg.verbose);
    assert_eq!(cfg.path.as_deref(), Some("/a/garden.yaml"));
    assert_eq!(cfg.shell, "/bin/sh");

    let cfg = config::new(None, false);
    assert!(cfg.path.is_none());
}

#[test]
fn exec_root_expression_is_evaluated_once() {
    // the root itself may be an exec expression
    let mut cfg = Configuration::new();
    cfg.root.expr = "$ echo /srv/exec-root".to_string();
    cfg.trees.push(tree("t", "sub"));
    cfg.initialize().unwrap();
    assert_eq!(cfg.root_path, "/srv/exec-root");
    assert_eq!(
        cfg.trees[0].path.value.as_deref(),
        Some("/srv/exec-root/sub")
    );
}

#[test]
fn color_mode_update_settles_auto() {
    let mut on = ColorMode::On;
    on.update();
    assert_eq!(on, ColorMode::On);
    let mut off = ColorMode::Off;
    off.update();
    assert_eq!(off, ColorMode::Off);
    let mut auto = ColorMode::Auto;
    auto.update();
    assert_ne!(auto, ColorMode::Auto);
}

#[test]
fn symlink_targets_resolve_under_the_root() {
    let mut cfg = Configuration::new();
    cfg.root.expr = "/home/u/proj".to_string();
    let mut t = tree("ln", "repo");
    t.is_symlink = true;
    t.symlink.expr = "target".to_string();
    cfg.trees.push(t);
    cfg.initialize().unwrap();
    assert_eq!(
        cfg.trees[0].symlink.value.as_deref(),
        Some("/home/u/proj/target")
    );
}
