use garden::errors::GardenError;
use garden::eval;
use garden::model::Configuration;
use garden::model::Garden;
use garden::model::Group;
use garden::model::MultiVariable;
use garden::model::NamedVariable;
use garden::model::Tree;
use garden::model::Variable;
use garden::query;

fn tree(name: &str, path: &str) -> Tree {
    Tree {
        commands: Vec::new(),
        environment: Vec::new(),
        gitconfig: Vec::new(),
        is_symlink: false,
        name: name.to_string(),
        path: Variable {
            expr: path.to_string(),
            value: None,
        },
        remotes: Vec::new(),
        symlink: Variable {
            expr: String::new(),
            value: None,
        },
        templates: Vec::new(),
        variables: Vec::new(),
    }
}

fn garden_of(name: &str, trees: &[&str]) -> Garden {
    Garden {
        name: name.to_string(),
        commands: Vec::new(),
        environment: Vec::new(),
        gitconfig: Vec::new(),
        groups: Vec::new(),
        index: 0,
        trees: trees.iter().map(|t| t.to_string()).collect(),
        variables: Vec::new(),
    }
}

fn group_of(name: &str, members: &[&str]) -> Group {
    Group {
        name: name.to_string(),
        index: 0,
        members: members.iter().map(|m| m.to_string()).collect(),
    }
}

fn base_config() -> Configuration {
    let mut cfg = Configuration::new();
    cfg.root.expr = "/tmp".to_string();
    cfg
}

#[test]
fn malformed_pattern_is_a_parse_error() {
    let cfg = base_config();
    let r = query::resolve_trees(&cfg, "[");
    assert!(matches!(r, Err(GardenError::ParseError)));
}

#[test]
fn tree_query_classification() {
    let q = query::TreeQuery::new("@g").unwrap();
    assert!(q.is_garden && !q.is_group && !q.is_tree && !q.is_default);
    assert!(q.include_gardens && !q.include_groups && !q.include_trees);
    assert_eq!(q.pattern, "g");

    let q = query::TreeQuery::new("%grp").unwrap();
    assert!(q.is_group && q.include_groups && !q.include_gardens);

    let q = query::TreeQuery::new("+t").unwrap();
    assert!(q.is_tree && q.include_trees && !q.include_groups);

    let q = query::TreeQuery::new("anything").unwrap();
    assert!(q.is_default && q.include_gardens && q.include_groups && q.include_trees);
    assert_eq!(q.pattern, "anything");
}

#[test]
fn unconstrained_query_preserves_garden_declaration_order() {
    let mut cfg = base_config();
    cfg.trees.push(tree("t1", "/tmp"));
    cfg.trees.push(tree("t2", "/tmp"));
    // declared out of alphabetical order on purpose
    cfg.gardens.push(garden_of("zeta", &["t1"]));
    cfg.gardens.push(garden_of("alpha", &["t2", "t1"]));
    cfg.update_indexes();

    let ctxs = query::resolve_trees(&cfg, "*").unwrap();
    assert_eq!(ctxs.len(), 3);
    // contexts arrive in declaration order of the matched gardens
    assert_eq!(ctxs[0].garden, Some(0));
    assert_eq!(ctxs[0].tree, 0);
    assert_eq!(ctxs[1].garden, Some(1));
    assert_eq!(ctxs[1].tree, 1);
    assert_eq!(ctxs[2].garden, Some(1));
    assert_eq!(ctxs[2].tree, 0);
}

#[test]
fn tree_queries_match_in_declaration_order() {
    let mut cfg = base_config();
    cfg.trees.push(tree("beta", "/tmp"));
    cfg.trees.push(tree("alpha", "/tmp"));
    cfg.trees.push(tree("beach", "/tmp"));
    let ctxs = query::resolve_trees(&cfg, "+be*").unwrap();
    let trees: Vec<usize> = ctxs.iter().map(|c| c.tree).collect();
    assert_eq!(trees, vec![0, 2]);
    assert!(ctxs.iter().all(|c| c.garden.is_none() && c.group.is_none()));
}

#[test]
fn duplicated_membership_yields_one_context_per_occurrence() {
    let mut cfg = base_config();
    cfg.trees.push(tree("shared", "/tmp"));
    cfg.gardens.push(garden_of("g1", &["shared"]));
    cfg.gardens.push(garden_of("g2", &["shared"]));
    cfg.update_indexes();
    let ctxs = query::resolve_trees(&cfg, "@g*").unwrap();
    assert_eq!(ctxs.len(), 2);
    assert_eq!(ctxs[0].garden, Some(0));
    assert_eq!(ctxs[1].garden, Some(1));
    assert_eq!(ctxs[0].tree, 0);
    assert_eq!(ctxs[1].tree, 0);
}

#[test]
fn group_expansion_reaches_leaf_trees() {
    let mut cfg = base_config();
    cfg.trees.push(tree("a", "/tmp"));
    cfg.trees.push(tree("b", "/tmp"));
    cfg.groups.push(group_of("inner", &["b"]));
    cfg.groups.push(group_of("outer", &["a", "inner"]));
    cfg.update_indexes();
    let ctxs = query::resolve_trees(&cfg, "%outer").unwrap();
    let trees: Vec<usize> = ctxs.iter().map(|c| c.tree).collect();
    assert_eq!(trees, vec![0, 1]);
    assert_eq!(ctxs[0].group, Some(1));
    assert_eq!(ctxs[1].group, Some(0));
}

#[test]
fn directly_cyclic_group_is_rejected() {
    let mut cfg = base_config();
    cfg.groups.push(group_of("g", &["g"]));
    cfg.update_indexes();
    let r = query::resolve_trees(&cfg, "%g");
    assert_eq!(r.err(), Some(GardenError::CyclicGroupMembership));
}

#[test]
fn transitively_cyclic_group_is_rejected() {
    let mut cfg = base_config();
    cfg.groups.push(group_of("g1", &["g2"]));
    cfg.groups.push(group_of("g2", &["g3"]));
    cfg.groups.push(group_of("g3", &["g1"]));
    cfg.update_indexes();
    let r = query::resolve_trees(&cfg, "%g1");
    assert_eq!(r.err(), Some(GardenError::CyclicGroupMembership));
}

#[test]
fn empty_configuration_resolves_to_nothing() {
    let cfg = base_config();
    let ctxs = query::resolve_trees(&cfg, "*").unwrap();
    assert!(ctxs.is_empty());
}

#[test]
fn find_tree_point_lookup() {
    let mut cfg = base_config();
    cfg.trees.push(tree("a", "/tmp"));
    cfg.trees.push(tree("b", "/tmp"));
    cfg.gardens.push(garden_of("g", &["b"]));
    cfg.update_indexes();

    let ctx = query::find_tree(&cfg, "b", None).unwrap();
    assert_eq!(ctx.tree, 1);
    assert!(ctx.garden.is_none());

    let ctx = query::find_tree(&cfg, "b", Some("g")).unwrap();
    assert_eq!(ctx.tree, 1);
    assert_eq!(ctx.garden, Some(0));

    assert_eq!(
        query::find_tree(&cfg, "missing", None).err(),
        Some(GardenError::NotFound)
    );
    // "a" is declared but not a member of garden "g"
    assert_eq!(
        query::find_tree(&cfg, "a", Some("g")).err(),
        Some(GardenError::NotFound)
    );
}

#[test]
fn garden_and_tree_commands_combine_for_garden_queries() {
    // trees a, b; garden g = [a, b]; "build" on tree a and on garden g
    let mut cfg = base_config();
    let mut a = tree("a", "/tmp");
    a.commands.push(MultiVariable {
        name: "build".to_string(),
        values: vec![Variable {
            expr: "echo a".to_string(),
            value: None,
        }],
    });
    cfg.trees.push(a);
    cfg.trees.push(tree("b", "/tmp"));
    let mut g = garden_of("g", &["a", "b"]);
    g.commands.push(MultiVariable {
        name: "build".to_string(),
        values: vec![Variable {
            expr: "echo g".to_string(),
            value: None,
        }],
    });
    cfg.gardens.push(g);
    cfg.update_indexes();

    let ctxs = query::resolve_trees(&cfg, "@g").unwrap();
    assert_eq!(ctxs.len(), 2);

    let seqs_a = eval::command(&mut cfg, &ctxs[0], "build").unwrap();
    assert_eq!(
        seqs_a,
        vec![vec!["echo a".to_string()], vec!["echo g".to_string()]]
    );

    let seqs_b = eval::command(&mut cfg, &ctxs[1], "build").unwrap();
    assert_eq!(seqs_b, vec![vec!["echo g".to_string()]]);
}

#[test]
fn garden_commands_see_garden_variables_first() {
    // tree and garden both define ${who}; the tree's command resolves the
    // tree's value, the garden's command the garden's value
    let mut cfg = base_config();
    let mut t = tree("a", "/tmp");
    t.variables.push(NamedVariable {
        name: "who".to_string(),
        expr: "tree-a".to_string(),
        value: None,
    });
    t.commands.push(MultiVariable {
        name: "hello".to_string(),
        values: vec![Variable {
            expr: "echo ${who}".to_string(),
            value: None,
        }],
    });
    cfg.trees.push(t);
    let mut g = garden_of("g", &["a"]);
    g.variables.push(NamedVariable {
        name: "who".to_string(),
        expr: "garden-g".to_string(),
        value: None,
    });
    g.commands.push(MultiVariable {
        name: "hello".to_string(),
        values: vec![Variable {
            expr: "echo ${who}".to_string(),
            value: None,
        }],
    });
    cfg.gardens.push(g);
    cfg.update_indexes();

    let ctxs = query::resolve_trees(&cfg, "@g").unwrap();
    let seqs = eval::command(&mut cfg, &ctxs[0], "hello").unwrap();
    assert_eq!(seqs[0], vec!["echo tree-a".to_string()]);
    assert_eq!(seqs[1], vec!["echo garden-g".to_string()]);
}
