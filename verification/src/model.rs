//! The entity store: trees, gardens, groups, templates and the root
//! configuration, together with the lifecycle operations that reset and
//! re-seed cached variable values.
//!
//! Every expression carries a raw text template (`expr`) and a cached
//! resolved value, absent until the expression is first demanded.  The
//! cache of a whole configuration is cleared by `reset`, which then
//! re-asserts the built-in positional variables.

use vstd::prelude::*;
use vstd::string::StrSliceExecFns;
use vstd::string::StringExecFns;

use crate::errors::GardenError;
use crate::runtime;

verus! {

/// A raw expression and its cached resolved value.
///
/// The value is either absent or fully resolved; there is no partially
/// resolved state.
#[derive(Clone, Debug)]
pub struct Variable {
    pub expr: String,
    pub value: Option<String>,
}

/// A named scalar expression (a variable, a remote URL, a git setting).
#[derive(Clone, Debug)]
pub struct NamedVariable {
    pub name: String,
    pub expr: String,
    pub value: Option<String>,
}

/// A plain name/value pair, used for the ambient process environment.
#[derive(Clone, Debug)]
pub struct NamedValue {
    pub name: String,
    pub value: String,
}

/// A name carrying an ordered list of expressions: a command's steps or an
/// environment entry's values.
#[derive(Clone, Debug)]
pub struct MultiVariable {
    pub name: String,
    pub values: Vec<Variable>,
}

/// A single worktree entity.
#[derive(Clone, Debug)]
pub struct Tree {
    pub commands: Vec<MultiVariable>,
    pub environment: Vec<MultiVariable>,
    pub gitconfig: Vec<NamedVariable>,
    pub is_symlink: bool,
    pub name: String,
    pub path: Variable,
    pub remotes: Vec<NamedVariable>,
    pub symlink: Variable,
    pub templates: Vec<String>,
    pub variables: Vec<NamedVariable>,
}

/// A named ordered list of member names (trees, gardens or other groups).
#[derive(Clone, Debug)]
pub struct Group {
    pub name: String,
    pub index: GroupIndex,
    pub members: Vec<String>,
}

/// A reusable bundle of definitions that a tree may extend.
#[derive(Clone, Debug)]
pub struct Template {
    pub commands: Vec<MultiVariable>,
    pub environment: Vec<MultiVariable>,
    pub extend: Vec<String>,
    pub gitconfig: Vec<NamedVariable>,
    pub name: String,
    pub remotes: Vec<NamedVariable>,
    pub variables: Vec<NamedVariable>,
}

/// An aggregate of trees and groups with its own definitions.
#[derive(Clone, Debug)]
pub struct Garden {
    pub name: String,
    pub commands: Vec<MultiVariable>,
    pub environment: Vec<MultiVariable>,
    pub gitconfig: Vec<NamedVariable>,
    pub groups: Vec<String>,
    pub index: GardenIndex,
    pub trees: Vec<String>,
    pub variables: Vec<NamedVariable>,
}

/// The root aggregate: one loaded configuration.
///
/// `environ` is a snapshot of the ambient process environment, supplied by
/// the embedding program; it is the last resort of the variable lookup
/// chain and is never mutated by evaluation.
#[derive(Clone, Debug)]
pub struct Configuration {
    pub commands: Vec<MultiVariable>,
    pub debug: Vec<String>,
    pub environ: Vec<NamedValue>,
    pub environment: Vec<MultiVariable>,
    pub gardens: Vec<Garden>,
    pub grafts: Vec<NamedVariable>,
    pub groups: Vec<Group>,
    pub path: Option<String>,
    pub dirname: Option<String>,
    pub root: Variable,
    pub root_path: String,
    pub shell: String,
    pub templates: Vec<Template>,
    pub tree_search_path: Vec<String>,
    pub trees: Vec<Tree>,
    pub variables: Vec<NamedVariable>,
    pub verbose: bool,
}

/// Tree index into `Configuration::trees`.
pub type TreeIndex = usize;

/// Group index into `Configuration::groups`.
pub type GroupIndex = usize;

/// Garden index into `Configuration::gardens`.
pub type GardenIndex = usize;

/// A resolved (tree, optional garden, optional group) triple.
#[derive(Clone, Copy, Debug)]
pub struct TreeContext {
    pub tree: TreeIndex,
    pub garden: Option<GardenIndex>,
    pub group: Option<GroupIndex>,
}

// --- specification helpers -------------------------------------------------

/// Same name and raw expression: only the cached value may differ.
pub open spec fn nv_same_def(a: NamedVariable, b: NamedVariable) -> bool {
    a.name@ == b.name@ && a.expr@ == b.expr@
}

/// Every named variable keeps its definition and loses its cached value.
pub open spec fn nvars_cleared(before: Seq<NamedVariable>, after: Seq<NamedVariable>) -> bool {
    &&& after.len() == before.len()
    &&& forall|i: int|
        0 <= i < before.len() ==> nv_same_def(before[i], #[trigger] after[i]) && after[i].value is None
}

/// Every value of the sequence keeps its expression and loses its cache.
pub open spec fn values_cleared(before: Seq<Variable>, after: Seq<Variable>) -> bool {
    &&& after.len() == before.len()
    &&& forall|i: int|
        0 <= i < before.len() ==> before[i].expr@ == #[trigger] after[i].expr@ && after[i].value is None
}

/// Every multi-valued entry keeps its name and clears each value.
pub open spec fn multis_cleared(before: Seq<MultiVariable>, after: Seq<MultiVariable>) -> bool {
    &&& after.len() == before.len()
    &&& forall|i: int|
        0 <= i < before.len() ==> before[i].name@ == (#[trigger] after[i]).name@
            && values_cleared(before[i].values@, after[i].values@)
}

/// A tree after clearing: the path and symlink caches are kept, every
/// variable, git setting, environment and command cache is gone, and
/// everything else is untouched.
pub open spec fn tree_cleared(before: Tree, after: Tree) -> bool {
    &&& nvars_cleared(before.variables@, after.variables@)
    &&& nvars_cleared(before.gitconfig@, after.gitconfig@)
    &&& multis_cleared(before.environment@, after.environment@)
    &&& multis_cleared(before.commands@, after.commands@)
    &&& after.name == before.name
    &&& after.path == before.path
    &&& after.symlink == before.symlink
    &&& after.is_symlink == before.is_symlink
    &&& after.remotes == before.remotes
    &&& after.templates == before.templates
}

impl Tree {
    /// Clear every cached variable value of this tree.
    ///
    /// The tree's path is not cleared: it is evaluated once, right after
    /// the configuration is loaded, and never again.
    pub fn reset_variables(&mut self)
        ensures
            tree_cleared(*old(self), *final(self)),
    {
        let n = self.variables.len();
        for i in 0..n
            invariant
                n == self.variables.len() == old(self).variables@.len(),
                forall|j: int|
                    0 <= j < i ==> nv_same_def(old(self).variables@[j], #[trigger] self.variables@[j])
                        && self.variables@[j].value is None,
                forall|j: int| i <= j < n ==> #[trigger] self.variables@[j] == old(self).variables@[j],
                self.gitconfig == old(self).gitconfig,
                self.environment == old(self).environment,
                self.commands == old(self).commands,
                self.name == old(self).name,
                self.path == old(self).path,
                self.symlink == old(self).symlink,
                self.is_symlink == old(self).is_symlink,
                self.remotes == old(self).remotes,
                self.templates == old(self).templates,
        {
            self.variables[i].value = None;
        }

        let n = self.gitconfig.len();
        for i in 0..n
            invariant
                n == self.gitconfig.len() == old(self).gitconfig@.len(),
                nvars_cleared(old(self).variables@, self.variables@),
                forall|j: int|
                    0 <= j < i ==> nv_same_def(old(self).gitconfig@[j], #[trigger] self.gitconfig@[j])
                        && self.gitconfig@[j].value is None,
                forall|j: int| i <= j < n ==> #[trigger] self.gitconfig@[j] == old(self).gitconfig@[j],
                self.environment == old(self).environment,
                self.commands == old(self).commands,
                self.name == old(self).name,
                self.path == old(self).path,
                self.symlink == old(self).symlink,
                self.is_symlink == old(self).is_symlink,
                self.remotes == old(self).remotes,
                self.templates == old(self).templates,
        {
            self.gitconfig[i].value = None;
        }

        clear_multis(&mut self.environment);
        clear_multis(&mut self.commands);
    }
}

/// Clear the cached value of every expression in every entry.
pub fn clear_multis(multis: &mut Vec<MultiVariable>)
    ensures
        multis_cleared(old(multis)@, final(multis)@),
{
    let n = multis.len();
    for i in 0..n
        invariant
            n == multis.len() == old(multis)@.len(),
            forall|j: int|
                0 <= j < i ==> old(multis)@[j].name@ == (#[trigger] multis@[j]).name@
                    && values_cleared(old(multis)@[j].values@, multis@[j].values@),
            forall|j: int| i <= j < n ==> #[trigger] multis@[j] == old(multis)@[j],
    {
        let m = multis[i].values.len();
        let ghost entry_at_start = multis@[i as int];
        for k in 0..m
            invariant
                0 <= i < multis.len(),
                multis.len() == old(multis)@.len(),
                m == multis@[i as int].values.len() == entry_at_start.values@.len(),
                entry_at_start == old(multis)@[i as int],
                multis@[i as int].name@ == entry_at_start.name@,
                forall|j: int|
                    0 <= j < i ==> old(multis)@[j].name@ == (#[trigger] multis@[j]).name@
                        && values_cleared(old(multis)@[j].values@, multis@[j].values@),
                forall|j: int| i < j < multis@.len() ==> #[trigger] multis@[j] == old(multis)@[j],
                forall|l: int|
                    0 <= l < k ==> entry_at_start.values@[l].expr@
                        == (#[trigger] multis@[i as int].values@[l]).expr@
                        && multis@[i as int].values@[l].value is None,
                forall|l: int|
                    k <= l < m ==> #[trigger] multis@[i as int].values@[l]
                        == entry_at_start.values@[l],
        {
            multis[i].values[k].value = None;
        }
    }
}

// --- configuration lifecycle -----------------------------------------------

/// The whole configuration after clearing: every variable, environment
/// and command cache is gone, in every scope, and everything else is
/// untouched.
pub open spec fn cfg_cleared(a: Configuration, b: Configuration) -> bool {
    &&& b == Configuration {
        variables: b.variables,
        environment: b.environment,
        commands: b.commands,
        grafts: b.grafts,
        trees: b.trees,
        gardens: b.gardens,
        ..a
    }
    &&& nvars_cleared(a.variables@, b.variables@)
    &&& multis_cleared(a.environment@, b.environment@)
    &&& multis_cleared(a.commands@, b.commands@)
    &&& nvars_cleared(a.grafts@, b.grafts@)
    &&& b.trees@.len() == a.trees@.len()
    &&& forall|i: int| 0 <= i < a.trees@.len() ==> tree_cleared(a.trees@[i], #[trigger] b.trees@[i])
    &&& b.gardens@.len() == a.gardens@.len()
    &&& forall|i: int|
        0 <= i < a.gardens@.len() ==> garden_cleared(a.gardens@[i], #[trigger] b.gardens@[i])
}

/// A garden after clearing: variable, environment and command caches
/// gone, everything else untouched.
pub open spec fn garden_cleared(before: Garden, after: Garden) -> bool {
    &&& nvars_cleared(before.variables@, after.variables@)
    &&& nvars_cleared(before.gitconfig@, after.gitconfig@)
    &&& multis_cleared(before.environment@, after.environment@)
    &&& multis_cleared(before.commands@, after.commands@)
    &&& after.name == before.name
    &&& after.groups == before.groups
    &&& after.trees == before.trees
    &&& after.index == before.index
}

/// Every expression in the list is uncached.
pub open spec fn values_none(vs: Seq<Variable>) -> bool {
    forall|i: int| 0 <= i < vs.len() ==> (#[trigger] vs[i]).value is None
}

/// Every cache of the configuration is empty, except possibly the
/// reserved built-in slots: the state evaluation epochs start from.
pub open spec fn caches_reset(c: Configuration) -> bool {
    &&& forall|i: int|
        0 <= i < c.variables@.len() ==> ((#[trigger] c.variables@[i]).value is None || (i == 0
            && c.variables@[0].name@ == "GARDEN_ROOT"@))
    &&& forall|i: int| 0 <= i < c.environment@.len() ==> values_none((#[trigger] c.environment@[i]).values@)
    &&& forall|i: int| 0 <= i < c.commands@.len() ==> values_none((#[trigger] c.commands@[i]).values@)
    &&& forall|i: int| 0 <= i < c.trees@.len() ==> tree_caches_reset(#[trigger] c.trees@[i])
    &&& forall|i: int| 0 <= i < c.gardens@.len() ==> garden_caches_reset(#[trigger] c.gardens@[i])
}

/// A tree's caches are empty except possibly its two reserved slots.
pub open spec fn tree_caches_reset(t: Tree) -> bool {
    &&& forall|j: int|
        0 <= j < t.variables@.len() ==> ((#[trigger] t.variables@[j]).value is None || (j == 0
            && t.variables@[0].name@ == "TREE_NAME"@) || (j == 1 && t.variables@[1].name@
            == "TREE_PATH"@))
    &&& forall|i: int| 0 <= i < t.environment@.len() ==> values_none((#[trigger] t.environment@[i]).values@)
    &&& forall|i: int| 0 <= i < t.commands@.len() ==> values_none((#[trigger] t.commands@[i]).values@)
}

/// A garden's caches are empty.
pub open spec fn garden_caches_reset(g: Garden) -> bool {
    &&& forall|j: int| 0 <= j < g.variables@.len() ==> (#[trigger] g.variables@[j]).value is None
    &&& forall|i: int| 0 <= i < g.environment@.len() ==> values_none((#[trigger] g.environment@[i]).values@)
    &&& forall|i: int| 0 <= i < g.commands@.len() ==> values_none((#[trigger] g.commands@[i]).values@)
}

proof fn lemma_multis_cleared_none(a: Seq<MultiVariable>, b: Seq<MultiVariable>)
    requires
        multis_cleared(a, b),
    ensures
        forall|i: int| 0 <= i < b.len() ==> values_none((#[trigger] b[i]).values@),
{
    assert forall|i: int| 0 <= i < b.len() implies values_none((#[trigger] b[i]).values@) by {
        assert(values_cleared(a[i].values@, b[i].values@));
        assert forall|v: int| 0 <= v < b[i].values@.len() implies (#[trigger] b[i].values@[v]).value
            is None by {
            assert(a[i].values@[v].expr@ == b[i].values@[v].expr@);
        }
    }
}

proof fn lemma_nvars_cleared_none(a: Seq<NamedVariable>, b: Seq<NamedVariable>)
    requires
        nvars_cleared(a, b),
    ensures
        forall|j: int| 0 <= j < b.len() ==> (#[trigger] b[j]).value is None,
{
    assert forall|j: int| 0 <= j < b.len() implies (#[trigger] b[j]).value is None by {
        assert(nv_same_def(a[j], b[j]) && b[j].value is None);
    }
}

/// The configuration-level variable list after the built-in root variable
/// is re-asserted: when the first entry is the reserved root name, it is
/// set directly to the resolved root value; every other entry is kept.
pub open spec fn builtins_seeded_config(
    a: Seq<NamedVariable>,
    b: Seq<NamedVariable>,
    root_val: Seq<char>,
) -> bool {
    &&& b.len() == a.len()
    &&& forall|i: int| 1 <= i < a.len() ==> #[trigger] b[i] == a[i]
    &&& (a.len() > 0 ==> (if a[0].name@ == "GARDEN_ROOT"@ {
        b[0].name == a[0].name && b[0].expr@ == root_val && opt_str_view(b[0].value) == Some(
            root_val,
        )
    } else {
        b[0] == a[0]
    }))
}

/// A tree's variable list after its built-in name and path variables are
/// re-asserted at their reserved positions.
pub open spec fn builtins_seeded_tree(
    a: Seq<NamedVariable>,
    b: Seq<NamedVariable>,
    tree_name: Seq<char>,
    tree_path: Seq<char>,
) -> bool {
    &&& b.len() == a.len()
    &&& forall|i: int| 2 <= i < a.len() ==> #[trigger] b[i] == a[i]
    &&& (a.len() >= 2 ==> (if a[0].name@ == "TREE_NAME"@ {
        b[0].name == a[0].name && b[0].expr@ == tree_name && opt_str_view(b[0].value) == Some(
            tree_name,
        )
    } else {
        b[0] == a[0]
    }) && (if a[1].name@ == "TREE_PATH"@ {
        b[1].name == a[1].name && b[1].expr@ == tree_path && opt_str_view(b[1].value) == Some(
            tree_path,
        )
    } else {
        b[1] == a[1]
    }))
    &&& (a.len() < 2 ==> forall|i: int| 0 <= i < a.len() ==> #[trigger] b[i] == a[i])
}

/// The view of an optional string.
pub open spec fn opt_str_view(o: Option<String>) -> Option<Seq<char>> {
    match o {
        Some(s) => Some(s@),
        None => None,
    }
}

/// Every tree's path expression, and every symlink tree's target
/// expression, is a literal template without placeholders: nothing
/// outside decides their evaluation.
pub open spec fn tree_exprs_literal(c: Configuration) -> bool {
    forall|i: int|
        0 <= i < c.trees@.len() ==> !crate::eval::spec_is_exec(
            (#[trigger] c.trees@[i]).path.expr@,
        ) && crate::eval::spec_names(c.trees@[i].path.expr@).len() == 0 && (c.trees@[i].is_symlink
            ==> !crate::eval::spec_is_exec(c.trees@[i].symlink.expr@) && crate::eval::spec_names(
            c.trees@[i].symlink.expr@,
        ).len() == 0)
}

/// A path resolved against the configuration root: an absolute path is
/// kept; a relative one is joined to the root with a separator.
pub open spec fn spec_abspath(root: Seq<char>, path: Seq<char>) -> Seq<char> {
    if path.len() > 0 && path[0] == '/' {
        path
    } else if root.len() == 0 {
        path
    } else if root[root.len() - 1] == '/' {
        root + path
    } else {
        root + seq!['/'] + path
    }
}

/// The path with trailing separators removed; a lone root separator is
/// kept.
pub open spec fn spec_strip_slashes(path: Seq<char>) -> Seq<char>
    decreases path.len(),
{
    if path.len() > 1 && path[path.len() - 1] == '/' {
        spec_strip_slashes(path.drop_last())
    } else {
        path
    }
}

/// The directory part of a separator-free-tailed path: everything before
/// the last separator, the root separator kept.
pub open spec fn spec_dir_core(path: Seq<char>) -> Seq<char>
    decreases path.len(),
{
    if path.len() == 0 {
        path
    } else if path[path.len() - 1] == '/' {
        if path.len() == 1 {
            path
        } else {
            path.take(path.len() - 1)
        }
    } else {
        spec_dir_core(path.take(path.len() - 1))
    }
}

/// The directory part of a path: trailing separators dropped first, then
/// the last component removed, as popping a path's file name does.
pub open spec fn spec_dirname(path: Seq<char>) -> Seq<char> {
    spec_dir_core(spec_strip_slashes(path))
}

impl Configuration {
    /// An empty configuration with the default shell.
    pub fn new() -> (r: Self)
        ensures
            r.shell@ == "zsh"@,
            r.variables@.len() == 0,
            r.environ@.len() == 0,
            r.environment@.len() == 0,
            r.commands@.len() == 0,
            r.trees@.len() == 0,
            r.gardens@.len() == 0,
            r.groups@.len() == 0,
            r.templates@.len() == 0,
            r.grafts@.len() == 0,
            r.debug@.len() == 0,
            r.tree_search_path@.len() == 0,
            r.root.expr@.len() == 0,
            r.root.value is None,
            r.root_path@.len() == 0,
            r.path is None,
            r.dirname is None,
            !r.verbose,
    {
        Configuration {
            commands: Vec::new(),
            debug: Vec::new(),
            environ: Vec::new(),
            environment: Vec::new(),
            gardens: Vec::new(),
            grafts: Vec::new(),
            groups: Vec::new(),
            path: None,
            dirname: None,
            root: Variable { expr: String::new(), value: None },
            root_path: String::new(),
            shell: String::from_str("zsh"),
            templates: Vec::new(),
            tree_search_path: Vec::new(),
            trees: Vec::new(),
            variables: Vec::new(),
            verbose: false,
        }
    }

    /// Clear every cached variable value, in every scope.
    #[verifier::loop_isolation(false)]
    pub fn reset_variables(&mut self)
        ensures
            cfg_cleared(*old(self), *final(self)),
    {
        clear_nvars(&mut self.variables);
        clear_multis(&mut self.environment);
        clear_multis(&mut self.commands);
        clear_nvars(&mut self.grafts);
        let n = self.trees.len();
        for i in 0..n
            invariant
                n == self.trees@.len() == old(self).trees@.len(),
                (*self == Configuration {
                    variables: self.variables,
                    environment: self.environment,
                    commands: self.commands,
                    grafts: self.grafts,
                    trees: self.trees,
                    ..*old(self)
                }),
                nvars_cleared(old(self).variables@, self.variables@),
                multis_cleared(old(self).environment@, self.environment@),
                multis_cleared(old(self).commands@, self.commands@),
                nvars_cleared(old(self).grafts@, self.grafts@),
                forall|j: int|
                    0 <= j < i ==> tree_cleared(old(self).trees@[j], #[trigger] self.trees@[j]),
                forall|j: int| i <= j < n ==> #[trigger] self.trees@[j] == old(self).trees@[j],
        {
            self.trees[i].reset_variables();
        }
        let n = self.gardens.len();
        for i in 0..n
            invariant
                n == self.gardens@.len() == old(self).gardens@.len(),
                (*self == Configuration {
                    variables: self.variables,
                    environment: self.environment,
                    commands: self.commands,
                    grafts: self.grafts,
                    trees: self.trees,
                    gardens: self.gardens,
                    ..*old(self)
                }),
                nvars_cleared(old(self).variables@, self.variables@),
                multis_cleared(old(self).environment@, self.environment@),
                multis_cleared(old(self).commands@, self.commands@),
                nvars_cleared(old(self).grafts@, self.grafts@),
                self.trees@.len() == old(self).trees@.len(),
                forall|j: int|
                    0 <= j < self.trees@.len() ==> tree_cleared(
                        old(self).trees@[j],
                        #[trigger] self.trees@[j],
                    ),
                forall|j: int|
                    0 <= j < i ==> garden_cleared(old(self).gardens@[j], #[trigger] self.gardens@[j]),
                forall|j: int| i <= j < n ==> #[trigger] self.gardens@[j] == old(self).gardens@[j],
        {
            clear_nvars(&mut self.gardens[i].variables);
            clear_nvars(&mut self.gardens[i].gitconfig);
            clear_multis(&mut self.gardens[i].environment);
            clear_multis(&mut self.gardens[i].commands);
        }
    }

    /// Re-assert the built-in positional variables: the root value at the
    /// reserved configuration slot, and each tree's name and resolved
    /// path at its two reserved slots.  Assigned directly, not through
    /// substitution.
    #[verifier::loop_isolation(false)]
    pub fn reset_builtin_variables(&mut self)
        requires
            old(self).root.value is Some,
            forall|i: int|
                0 <= i < old(self).trees@.len() ==> (#[trigger] old(self).trees@[i]).path.value
                    is Some,
        ensures
            (*final(self) == Configuration {
                variables: final(self).variables,
                trees: final(self).trees,
                ..*old(self)
            }),
            builtins_seeded_config(
                old(self).variables@,
                final(self).variables@,
                old(self).root.value->0@,
            ),
            final(self).trees@.len() == old(self).trees@.len(),
            (forall|i: int|
                0 <= i < old(self).trees@.len() ==> #[trigger] final(self).trees@[i] == (Tree {
                    variables: final(self).trees@[i].variables,
                    ..old(self).trees@[i]
                }) && builtins_seeded_tree(
                    old(self).trees@[i].variables@,
                    final(self).trees@[i].variables@,
                    old(self).trees@[i].name@,
                    old(self).trees@[i].path.value->0@,
                )),
    {
        proof {
            reveal_strlit("GARDEN_ROOT");
            reveal_strlit("TREE_NAME");
            reveal_strlit("TREE_PATH");
        }
        if self.variables.len() > 0 && s_eq(self.variables[0].name.as_str(), "GARDEN_ROOT") {
            let value = self.root.value.as_ref().unwrap().clone();
            self.variables[0].expr = value.clone();
            self.variables[0].value = Some(value);
        }
        let n = self.trees.len();
        for i in 0..n
            invariant
                n == self.trees@.len() == old(self).trees@.len(),
                (*self == Configuration {
                    variables: self.variables,
                    trees: self.trees,
                    ..*old(self)
                }),
                builtins_seeded_config(
                    old(self).variables@,
                    self.variables@,
                    old(self).root.value->0@,
                ),
                (forall|j: int|
                    0 <= j < i ==> #[trigger] self.trees@[j] == (Tree {
                        variables: self.trees@[j].variables,
                        ..old(self).trees@[j]
                    }) && builtins_seeded_tree(
                        old(self).trees@[j].variables@,
                        self.trees@[j].variables@,
                        old(self).trees@[j].name@,
                        old(self).trees@[j].path.value->0@,
                    )),
                forall|j: int| i <= j < n ==> #[trigger] self.trees@[j] == old(self).trees@[j],
        {
            let tree_path = self.trees[i].path.value.as_ref().unwrap().clone();
            if self.trees[i].variables.len() >= 2 {
                if s_eq(self.trees[i].variables[0].name.as_str(), "TREE_NAME") {
                    let tree_name = self.trees[i].name.clone();
                    self.trees[i].variables[0].expr = tree_name.clone();
                    self.trees[i].variables[0].value = Some(tree_name);
                }
                if s_eq(self.trees[i].variables[1].name.as_str(), "TREE_PATH") {
                    self.trees[i].variables[1].expr = tree_path.clone();
                    self.trees[i].variables[1].value = Some(tree_path);
                }
            }
            proof {
                assert(builtins_seeded_tree(
                    old(self).trees@[i as int].variables@,
                    self.trees@[i as int].variables@,
                    old(self).trees@[i as int].name@,
                    old(self).trees@[i as int].path.value->0@,
                ));
            }
        }
    }

    /// Clear every cached value, then re-assert the built-in positional
    /// variables: the state every evaluation epoch starts from.
    pub fn reset(&mut self)
        requires
            old(self).root.value is Some,
            forall|i: int|
                0 <= i < old(self).trees@.len() ==> (#[trigger] old(self).trees@[i]).path.value
                    is Some,
        ensures
            (exists|mid: Configuration|
                cfg_cleared(*old(self), mid) && (#[trigger] mid.root.value) == old(self).root.value
                    && *final(self) == (Configuration {
                    variables: final(self).variables,
                    trees: final(self).trees,
                    ..mid
                }) && builtins_seeded_config(
                    mid.variables@,
                    final(self).variables@,
                    old(self).root.value->0@,
                ) && final(self).trees@.len() == mid.trees@.len() && (forall|i: int|
                    0 <= i < mid.trees@.len() ==> #[trigger] final(self).trees@[i] == (Tree {
                        variables: final(self).trees@[i].variables,
                        ..mid.trees@[i]
                    }) && builtins_seeded_tree(
                        mid.trees@[i].variables@,
                        final(self).trees@[i].variables@,
                        mid.trees@[i].name@,
                        mid.trees@[i].path.value->0@,
                    ))),
            final(self).root == old(self).root,
            final(self).root_path == old(self).root_path,
            final(self).groups == old(self).groups,
            final(self).gardens@.len() == old(self).gardens@.len(),
            forall|i: int|
                0 <= i < old(self).gardens@.len() ==> (#[trigger] final(self).gardens@[i]).index
                    == old(self).gardens@[i].index && final(self).gardens@[i].name
                    == old(self).gardens@[i].name,
            final(self).trees@.len() == old(self).trees@.len(),
            forall|i: int|
                0 <= i < old(self).trees@.len() ==> (#[trigger] final(self).trees@[i]).path
                    == old(self).trees@[i].path && final(self).trees@[i].name
                    == old(self).trees@[i].name && final(self).trees@[i].is_symlink
                    == old(self).trees@[i].is_symlink,
            caches_reset(*final(self)),
    {
        self.reset_variables();
        let ghost mid = *self;
        proof {
            assert forall|i: int| 0 <= i < self.trees@.len() implies (
            #[trigger] self.trees@[i]).path.value is Some by {
                assert(tree_cleared(old(self).trees@[i], self.trees@[i]));
            }
        }
        self.reset_builtin_variables();
        proof {
            assert(cfg_cleared(*old(self), mid));
            lemma_multis_cleared_none(old(self).environment@, mid.environment@);
            lemma_multis_cleared_none(old(self).commands@, mid.commands@);
            assert forall|i: int| 0 <= i < self.variables@.len() implies ((
            #[trigger] self.variables@[i]).value is None || (i == 0 && self.variables@[0].name@
                == "GARDEN_ROOT"@)) by {
                if i >= 1 {
                    assert(self.variables@[i] == mid.variables@[i]);
                    assert(nv_same_def(old(self).variables@[i], mid.variables@[i]));
                }
            }
            assert forall|i: int| 0 <= i < self.trees@.len() implies tree_caches_reset(
                #[trigger] self.trees@[i],
            ) by {
                assert(tree_cleared(old(self).trees@[i], mid.trees@[i]));
                assert(self.trees@[i] == (Tree {
                    variables: self.trees@[i].variables,
                    ..mid.trees@[i]
                }));
                lemma_multis_cleared_none(
                    old(self).trees@[i].environment@,
                    mid.trees@[i].environment@,
                );
                lemma_multis_cleared_none(old(self).trees@[i].commands@, mid.trees@[i].commands@);
                assert(builtins_seeded_tree(
                    mid.trees@[i].variables@,
                    self.trees@[i].variables@,
                    mid.trees@[i].name@,
                    mid.trees@[i].path.value->0@,
                ));
                assert forall|j: int| 0 <= j < self.trees@[i].variables@.len() implies ((
                #[trigger] self.trees@[i].variables@[j]).value is None || (j == 0
                    && self.trees@[i].variables@[0].name@ == "TREE_NAME"@) || (j == 1
                    && self.trees@[i].variables@[1].name@ == "TREE_PATH"@)) by {
                    assert(nv_same_def(
                        old(self).trees@[i].variables@[j],
                        mid.trees@[i].variables@[j],
                    ));
                    if j >= 2 || mid.trees@[i].variables@.len() < 2 {
                        assert(self.trees@[i].variables@[j] == mid.trees@[i].variables@[j]);
                    }
                }
            }
            assert forall|i: int| 0 <= i < self.gardens@.len() implies garden_caches_reset(
                #[trigger] self.gardens@[i],
            ) by {
                assert(garden_cleared(old(self).gardens@[i], self.gardens@[i]));
                lemma_nvars_cleared_none(
                    old(self).gardens@[i].variables@,
                    self.gardens@[i].variables@,
                );
                lemma_multis_cleared_none(
                    old(self).gardens@[i].environment@,
                    self.gardens@[i].environment@,
                );
                lemma_multis_cleared_none(
                    old(self).gardens@[i].commands@,
                    self.gardens@[i].commands@,
                );
            }
            assert(caches_reset(*self));
        }
    }

    /// Assign each group and garden its declaration-order index.
    #[verifier::loop_isolation(false)]
    pub fn update_indexes(&mut self)
        ensures
            (*final(self) == Configuration {
                groups: final(self).groups,
                gardens: final(self).gardens,
                ..*old(self)
            }),
            final(self).groups@.len() == old(self).groups@.len(),
            final(self).gardens@.len() == old(self).gardens@.len(),
            (forall|i: int|
                0 <= i < old(self).groups@.len() ==> #[trigger] final(self).groups@[i] == Group {
                    index: i as usize,
                    ..old(self).groups@[i]
                }),
            (forall|i: int|
                0 <= i < old(self).gardens@.len() ==> #[trigger] final(self).gardens@[i] == Garden {
                    index: i as usize,
                    ..old(self).gardens@[i]
                }),
    {
        let n = self.groups.len();
        for i in 0..n
            invariant
                n == self.groups@.len() == old(self).groups@.len(),
                (*self == Configuration { groups: self.groups, ..*old(self) }),
                (forall|j: int|
                    0 <= j < i ==> #[trigger] self.groups@[j] == Group {
                        index: j as usize,
                        ..old(self).groups@[j]
                    }),
                forall|j: int| i <= j < n ==> #[trigger] self.groups@[j] == old(self).groups@[j],
        {
            self.groups[i].index = i;
        }
        let n = self.gardens.len();
        for i in 0..n
            invariant
                n == self.gardens@.len() == old(self).gardens@.len(),
                (*self == Configuration { groups: self.groups, gardens: self.gardens, ..*old(self) }),
                self.groups@.len() == old(self).groups@.len(),
                (forall|j: int|
                    0 <= j < self.groups@.len() ==> #[trigger] self.groups@[j] == Group {
                        index: j as usize,
                        ..old(self).groups@[j]
                    }),
                (forall|j: int|
                    0 <= j < i ==> #[trigger] self.gardens@[j] == Garden {
                        index: j as usize,
                        ..old(self).gardens@[j]
                    }),
                forall|j: int| i <= j < n ==> #[trigger] self.gardens@[j] == old(self).gardens@[j],
        {
            self.gardens[i].index = i;
        }
    }

    /// Resolve a path against the configuration root: an absolute path is
    /// kept as it is, a relative one is joined to the root.
    pub fn abspath(&self, path: &str) -> (r: String)
        ensures
            r@ == spec_abspath(self.root_path@, path@),
    {
        let n = path.unicode_len();
        if n > 0 && path.get_char(0) == '/' {
            return String::from_str(path);
        }
        let rn = self.root_path.as_str().unicode_len();
        if rn == 0 {
            return String::from_str(path);
        }
        let mut out = self.root_path.clone();
        if self.root_path.as_str().get_char(rn - 1) != '/' {
            out.append("/");
            proof {
                reveal_strlit("/");
                assert(out@ =~= self.root_path@ + seq!['/']);
            }
        }
        out.append(path);
        out
    }

    /// Evaluate an expression at configuration scope and resolve the
    /// result against the root.
    pub fn eval_abspath(&mut self, path: &str) -> (r: Result<String, GardenError>)
        ensures
            crate::eval::cfg_evolves(*old(self), *final(self)),
            r is Ok && !crate::eval::spec_is_exec(path@) ==> r->Ok_0@ == spec_abspath(
                final(self).root_path@,
                crate::eval::expr_value(*final(self), None, None, false, path@),
            ) && crate::eval::names_ready(*final(self), None, None, false, path@),
            !crate::eval::spec_is_exec(path@) && crate::eval::names_ready(
                *old(self),
                None,
                None,
                false,
                path@,
            ) ==> r is Ok,
            r is Err ==> (r->Err_0 is CyclicDefinition || r->Err_0 is ExecutionFailure),
    {
        match crate::eval::value(self, path) {
            Ok(v) => Ok(self.abspath(v.as_str())),
            Err(e) => Err(e),
        }
    }

    /// Resolve every tree's path expression, relative to the root unless
    /// absolute, and every symlink tree's target expression.
    #[verifier::loop_isolation(false)]
    pub fn update_tree_paths(&mut self) -> (r: Result<(), GardenError>)
        ensures
            final(self).root == old(self).root,
            final(self).root_path == old(self).root_path,
            final(self).gardens@.len() == old(self).gardens@.len(),
            final(self).groups == old(self).groups,
            final(self).trees@.len() == old(self).trees@.len(),
            forall|i: int|
                0 <= i < old(self).trees@.len() ==> (#[trigger] final(self).trees@[i]).name
                    == old(self).trees@[i].name && final(self).trees@[i].is_symlink
                    == old(self).trees@[i].is_symlink && final(self).trees@[i].path.expr
                    == old(self).trees@[i].path.expr && final(self).trees@[i].symlink.expr
                    == old(self).trees@[i].symlink.expr,
            r is Ok ==> forall|i: int|
                0 <= i < final(self).trees@.len() ==> (#[trigger] final(self).trees@[i]).path.value
                    is Some && (!crate::eval::spec_is_exec(old(self).trees@[i].path.expr@)
                    ==> opt_str_view(final(self).trees@[i].path.value) == Some(
                    spec_abspath(
                        final(self).root_path@,
                        crate::eval::expr_value(
                            *final(self),
                            None,
                            None,
                            false,
                            old(self).trees@[i].path.expr@,
                        ),
                    ),
                )) && (old(self).trees@[i].is_symlink ==> final(self).trees@[i].symlink.value
                    is Some && (!crate::eval::spec_is_exec(old(self).trees@[i].symlink.expr@)
                    ==> opt_str_view(final(self).trees@[i].symlink.value) == Some(
                    spec_abspath(
                        final(self).root_path@,
                        crate::eval::expr_value(
                            *final(self),
                            None,
                            None,
                            false,
                            old(self).trees@[i].symlink.expr@,
                        ),
                    ),
                ))),
            tree_exprs_literal(*old(self)) ==> r is Ok,
            r is Err ==> (r->Err_0 is CyclicDefinition || r->Err_0 is ExecutionFailure),
    {
        let n = self.trees.len();
        let mut path_exprs: Vec<String> = Vec::new();
        let mut symlink_exprs: Vec<String> = Vec::new();
        for i in 0..n
            invariant
                n == self.trees@.len(),
                *self == *old(self),
                path_exprs@.len() == i,
                symlink_exprs@.len() == i,
                forall|j: int|
                    0 <= j < i ==> (#[trigger] path_exprs@[j])@ == old(self).trees@[j].path.expr@,
                forall|j: int|
                    0 <= j < i ==> (#[trigger] symlink_exprs@[j])@
                        == old(self).trees@[j].symlink.expr@,
        {
            path_exprs.push(self.trees[i].path.expr.clone());
            symlink_exprs.push(self.trees[i].symlink.expr.clone());
        }

        let mut path_vals: Vec<String> = Vec::new();
        for i in 0..n
            invariant
                n == self.trees@.len() == old(self).trees@.len(),
                path_exprs@.len() == n,
                symlink_exprs@.len() == n,
                forall|j: int|
                    0 <= j < n ==> (#[trigger] path_exprs@[j])@ == old(self).trees@[j].path.expr@,
                forall|j: int|
                    0 <= j < n ==> (#[trigger] symlink_exprs@[j])@
                        == old(self).trees@[j].symlink.expr@,
                crate::eval::cfg_evolves(*old(self), *self),
                path_vals@.len() == i,
                forall|j: int|
                    0 <= j < i && !crate::eval::spec_is_exec(
                        (#[trigger] old(self).trees@[j]).path.expr@,
                    ) ==> crate::eval::names_ready(
                        *self,
                        None,
                        None,
                        false,
                        old(self).trees@[j].path.expr@,
                    ) && path_vals@[j]@ == spec_abspath(
                        self.root_path@,
                        crate::eval::expr_value(
                            *self,
                            None,
                            None,
                            false,
                            old(self).trees@[j].path.expr@,
                        ),
                    ),
        {
            let ghost pre = *self;
            let res = self.eval_abspath(path_exprs[i].as_str());
            proof {
                crate::eval::lemma_cfg_evolves_trans(*old(self), pre, *self);
                assert forall|j: int|
                    0 <= j < i && !crate::eval::spec_is_exec(
                        (#[trigger] old(self).trees@[j]).path.expr@,
                    ) implies crate::eval::names_ready(
                    *self,
                    None,
                    None,
                    false,
                    old(self).trees@[j].path.expr@,
                ) && path_vals@[j]@ == spec_abspath(
                    self.root_path@,
                    crate::eval::expr_value(
                        *self,
                        None,
                        None,
                        false,
                        old(self).trees@[j].path.expr@,
                    ),
                ) by {
                    assert(path_vals@[j]@ == spec_abspath(
                        pre.root_path@,
                        crate::eval::expr_value(
                            pre,
                            None,
                            None,
                            false,
                            old(self).trees@[j].path.expr@,
                        ),
                    ));
                    crate::eval::lemma_expr_value_stable(
                        pre,
                        *self,
                        None,
                        None,
                        false,
                        old(self).trees@[j].path.expr@,
                    );
                }
            }
            match res {
                Err(e) => {
                    proof {
                        if tree_exprs_literal(*old(self)) {
                            assert(!crate::eval::spec_is_exec(
                                (old(self).trees@[i as int]).path.expr@,
                            ));
                            assert(crate::eval::spec_names(
                                old(self).trees@[i as int].path.expr@,
                            ).len() == 0);
                            assert(crate::eval::names_ready(
                                pre,
                                None,
                                None,
                                false,
                                old(self).trees@[i as int].path.expr@,
                            ));
                            assert(false);
                        }
                    }
                    return Err(e);
                },
                Ok(v) => {
                    let ghost pre_vals = path_vals@;
                    path_vals.push(v);
                    proof {
                        assert forall|j: int|
                            0 <= j < i + 1 && !crate::eval::spec_is_exec(
                                (#[trigger] old(self).trees@[j]).path.expr@,
                            ) implies crate::eval::names_ready(
                            *self,
                            None,
                            None,
                            false,
                            old(self).trees@[j].path.expr@,
                        ) && path_vals@[j]@ == spec_abspath(
                            self.root_path@,
                            crate::eval::expr_value(
                                *self,
                                None,
                                None,
                                false,
                                old(self).trees@[j].path.expr@,
                            ),
                        ) by {
                            if j < i {
                                assert(path_vals@[j] == pre_vals[j]);
                            } else {
                                assert(path_vals@[j] == v);
                                assert(path_exprs@[j]@ == old(self).trees@[j].path.expr@);
                            }
                        }
                    }
                },
            }
        }

        let mut symlink_vals: Vec<String> = Vec::new();
        for i in 0..n
            invariant
                n == self.trees@.len() == old(self).trees@.len(),
                path_exprs@.len() == n,
                symlink_exprs@.len() == n,
                forall|j: int|
                    0 <= j < n ==> (#[trigger] path_exprs@[j])@ == old(self).trees@[j].path.expr@,
                forall|j: int|
                    0 <= j < n ==> (#[trigger] symlink_exprs@[j])@
                        == old(self).trees@[j].symlink.expr@,
                crate::eval::cfg_evolves(*old(self), *self),
                path_vals@.len() == n,
                symlink_vals@.len() == i,
                forall|j: int|
                    0 <= j < n && !crate::eval::spec_is_exec(
                        (#[trigger] old(self).trees@[j]).path.expr@,
                    ) ==> crate::eval::names_ready(
                        *self,
                        None,
                        None,
                        false,
                        old(self).trees@[j].path.expr@,
                    ) && path_vals@[j]@ == spec_abspath(
                        self.root_path@,
                        crate::eval::expr_value(
                            *self,
                            None,
                            None,
                            false,
                            old(self).trees@[j].path.expr@,
                        ),
                    ),
                forall|j: int|
                    0 <= j < i && old(self).trees@[j].is_symlink && !crate::eval::spec_is_exec(
                        (#[trigger] old(self).trees@[j]).symlink.expr@,
                    ) ==> crate::eval::names_ready(
                        *self,
                        None,
                        None,
                        false,
                        old(self).trees@[j].symlink.expr@,
                    ) && symlink_vals@[j]@ == spec_abspath(
                        self.root_path@,
                        crate::eval::expr_value(
                            *self,
                            None,
                            None,
                            false,
                            old(self).trees@[j].symlink.expr@,
                        ),
                    ),
        {
            let ghost pre = *self;
            if self.trees[i].is_symlink {
                let res = self.eval_abspath(symlink_exprs[i].as_str());
                proof {
                    crate::eval::lemma_cfg_evolves_trans(*old(self), pre, *self);
                    assert forall|j: int|
                        0 <= j < n && !crate::eval::spec_is_exec(
                            (#[trigger] old(self).trees@[j]).path.expr@,
                        ) implies crate::eval::names_ready(
                        *self,
                        None,
                        None,
                        false,
                        old(self).trees@[j].path.expr@,
                    ) && path_vals@[j]@ == spec_abspath(
                        self.root_path@,
                        crate::eval::expr_value(
                            *self,
                            None,
                            None,
                            false,
                            old(self).trees@[j].path.expr@,
                        ),
                    ) by {
                        assert(path_vals@[j]@ == spec_abspath(
                            pre.root_path@,
                            crate::eval::expr_value(
                                pre,
                                None,
                                None,
                                false,
                                old(self).trees@[j].path.expr@,
                            ),
                        ));
                        crate::eval::lemma_expr_value_stable(
                            pre,
                            *self,
                            None,
                            None,
                            false,
                            old(self).trees@[j].path.expr@,
                        );
                    }
                }
                proof {
                    assert forall|j: int|
                        0 <= j < i && old(self).trees@[j].is_symlink
                            && !crate::eval::spec_is_exec(
                            (#[trigger] old(self).trees@[j]).symlink.expr@,
                        ) implies crate::eval::names_ready(
                        *self,
                        None,
                        None,
                        false,
                        old(self).trees@[j].symlink.expr@,
                    ) && symlink_vals@[j]@ == spec_abspath(
                        self.root_path@,
                        crate::eval::expr_value(
                            *self,
                            None,
                            None,
                            false,
                            old(self).trees@[j].symlink.expr@,
                        ),
                    ) by {
                        assert(symlink_vals@[j]@ == spec_abspath(
                            pre.root_path@,
                            crate::eval::expr_value(
                                pre,
                                None,
                                None,
                                false,
                                old(self).trees@[j].symlink.expr@,
                            ),
                        ));
                        crate::eval::lemma_expr_value_stable(
                            pre,
                            *self,
                            None,
                            None,
                            false,
                            old(self).trees@[j].symlink.expr@,
                        );
                    }
                }
                match res {
                    Err(e) => {
                        proof {
                            if tree_exprs_literal(*old(self)) {
                                assert(old(self).trees@[i as int].is_symlink);
                                assert(!crate::eval::spec_is_exec(
                                    (old(self).trees@[i as int]).symlink.expr@,
                                ));
                                assert(crate::eval::spec_names(
                                    old(self).trees@[i as int].symlink.expr@,
                                ).len() == 0);
                                assert(crate::eval::names_ready(
                                    pre,
                                    None,
                                    None,
                                    false,
                                    old(self).trees@[i as int].symlink.expr@,
                                ));
                                assert(false);
                            }
                        }
                        return Err(e);
                    },
                    Ok(v) => {
                        let ghost pre_vals = symlink_vals@;
                        symlink_vals.push(v);
                        proof {
                            assert forall|j: int|
                                0 <= j < i + 1 && old(self).trees@[j].is_symlink
                                    && !crate::eval::spec_is_exec(
                                    (#[trigger] old(self).trees@[j]).symlink.expr@,
                                ) implies crate::eval::names_ready(
                                *self,
                                None,
                                None,
                                false,
                                old(self).trees@[j].symlink.expr@,
                            ) && symlink_vals@[j]@ == spec_abspath(
                                self.root_path@,
                                crate::eval::expr_value(
                                    *self,
                                    None,
                                    None,
                                    false,
                                    old(self).trees@[j].symlink.expr@,
                                ),
                            ) by {
                                if j < i {
                                    assert(symlink_vals@[j] == pre_vals[j]);
                                } else {
                                    assert(symlink_vals@[j] == v);
                                    assert(symlink_exprs@[j]@
                                        == old(self).trees@[j].symlink.expr@);
                                }
                            }
                        }
                    },
                }
            } else {
                let ghost pre_vals = symlink_vals@;
                symlink_vals.push(String::new());
                proof {
                    assert forall|j: int|
                        0 <= j < i + 1 && old(self).trees@[j].is_symlink
                            && !crate::eval::spec_is_exec(
                            (#[trigger] old(self).trees@[j]).symlink.expr@,
                        ) implies crate::eval::names_ready(
                        *self,
                        None,
                        None,
                        false,
                        old(self).trees@[j].symlink.expr@,
                    ) && symlink_vals@[j]@ == spec_abspath(
                        self.root_path@,
                        crate::eval::expr_value(
                            *self,
                            None,
                            None,
                            false,
                            old(self).trees@[j].symlink.expr@,
                        ),
                    ) by {
                        if j < i {
                            assert(symlink_vals@[j] == pre_vals[j]);
                        } else {
                            assert(!old(self).trees@[j].is_symlink);
                        }
                    }
                }
            }
        }

        let ghost evaluated = *self;
        for i in 0..n
            invariant
                n == self.trees@.len() == evaluated.trees@.len() == old(self).trees@.len(),
                path_vals@.len() == n,
                symlink_vals@.len() == n,
                (*self == Configuration { trees: self.trees, ..evaluated }),
                forall|j: int| i <= j < n ==> #[trigger] self.trees@[j] == evaluated.trees@[j],
                forall|j: int|
                    0 <= j < i ==> (#[trigger] self.trees@[j]) == (Tree {
                        path: self.trees@[j].path,
                        symlink: self.trees@[j].symlink,
                        ..evaluated.trees@[j]
                    }) && self.trees@[j].path.expr == evaluated.trees@[j].path.expr
                        && self.trees@[j].symlink.expr == evaluated.trees@[j].symlink.expr
                        && opt_str_view(self.trees@[j].path.value) == Some(path_vals@[j]@) && (
                    evaluated.trees@[j].is_symlink ==> self.trees@[j].symlink.value is Some
                        && opt_str_view(self.trees@[j].symlink.value) == Some(symlink_vals@[j]@)),
        {
            self.trees[i].path.value = Some(path_vals[i].clone());
            if self.trees[i].is_symlink {
                self.trees[i].symlink.value = Some(symlink_vals[i].clone());
            }
        }
        proof {
            assert(crate::eval::same_scopes(evaluated, *self)) by {
                assert forall|j: int| 0 <= j < evaluated.trees@.len() implies (
                #[trigger] self.trees@[j]).variables == evaluated.trees@[j].variables by {
                    assert(self.trees@[j] == (Tree {
                        path: self.trees@[j].path,
                        symlink: self.trees@[j].symlink,
                        ..evaluated.trees@[j]
                    }));
                }
            }
            assert forall|i: int|
                0 <= i < self.trees@.len() && !crate::eval::spec_is_exec(
                    old(self).trees@[i].path.expr@,
                ) implies opt_str_view((#[trigger] self.trees@[i]).path.value) == Some(
                spec_abspath(
                    self.root_path@,
                    crate::eval::expr_value(
                        *self,
                        None,
                        None,
                        false,
                        old(self).trees@[i].path.expr@,
                    ),
                ),
            ) by {
                assert(path_vals@[i]@ == spec_abspath(
                    evaluated.root_path@,
                    crate::eval::expr_value(
                        evaluated,
                        None,
                        None,
                        false,
                        old(self).trees@[i].path.expr@,
                    ),
                ));
                crate::eval::lemma_same_scopes_values(
                    evaluated,
                    *self,
                    None,
                    None,
                    false,
                    old(self).trees@[i].path.expr@,
                );
            }
            assert forall|i: int|
                0 <= i < self.trees@.len() && old(self).trees@[i].is_symlink
                    && !crate::eval::spec_is_exec(
                    (#[trigger] old(self).trees@[i]).symlink.expr@,
                ) implies opt_str_view(self.trees@[i].symlink.value) == Some(
                spec_abspath(
                    self.root_path@,
                    crate::eval::expr_value(
                        *self,
                        None,
                        None,
                        false,
                        old(self).trees@[i].symlink.expr@,
                    ),
                ),
            ) by {
                assert(symlink_vals@[i]@ == spec_abspath(
                    evaluated.root_path@,
                    crate::eval::expr_value(
                        evaluated,
                        None,
                        None,
                        false,
                        old(self).trees@[i].symlink.expr@,
                    ),
                ));
                crate::eval::lemma_same_scopes_values(
                    evaluated,
                    *self,
                    None,
                    None,
                    false,
                    old(self).trees@[i].symlink.expr@,
                );
            }
        }
        Ok(())
    }

    /// Resolve the root path, resolve every tree path, assign indexes,
    /// then reset the caches and re-assert the built-in variables: the
    /// one-time preparation of a freshly loaded configuration.
    pub fn initialize(&mut self) -> (r: Result<(), GardenError>)
        ensures
            r is Ok ==> final(self).root.value is Some,
            r is Ok ==> opt_str_view(final(self).root.value) == Some(final(self).root_path@),
            r is Ok && !crate::eval::spec_is_exec(old(self).root.expr@)
                && crate::eval::spec_names(old(self).root.expr@).len() == 0
                ==> final(self).root_path@ == old(self).root.expr@,
            r is Ok ==> forall|i: int|
                0 <= i < final(self).trees@.len() ==> (#[trigger] final(self).trees@[i]).path.value
                    is Some,
            r is Ok ==> forall|i: int|
                0 <= i < old(self).trees@.len() && !crate::eval::spec_is_exec(
                    (#[trigger] old(self).trees@[i]).path.expr@,
                ) && crate::eval::spec_names(old(self).trees@[i].path.expr@).len() == 0
                    ==> opt_str_view(final(self).trees@[i].path.value) == Some(
                    spec_abspath(final(self).root_path@, old(self).trees@[i].path.expr@),
                ),
            r is Ok ==> forall|i: int|
                0 <= i < old(self).trees@.len() && (#[trigger] old(self).trees@[i]).is_symlink
                    ==> final(self).trees@[i].symlink.value is Some,
            !crate::eval::spec_is_exec(old(self).root.expr@) && crate::eval::spec_names(
                old(self).root.expr@,
            ).len() == 0 && tree_exprs_literal(*old(self)) ==> r is Ok,
            r is Ok ==> forall|i: int|
                0 <= i < final(self).groups@.len() ==> (#[trigger] final(self).groups@[i]).index
                    == i,
            r is Ok ==> forall|i: int|
                0 <= i < final(self).gardens@.len() ==> (#[trigger] final(self).gardens@[i]).index
                    == i,
            r is Err ==> (r->Err_0 is CyclicDefinition || r->Err_0 is ExecutionFailure),
    {
        let expr = self.root.expr.clone();
        let value = match crate::eval::value(self, expr.as_str()) {
            Ok(v) => v,
            Err(e) => {
                proof {
                    if !crate::eval::spec_is_exec(old(self).root.expr@) && crate::eval::spec_names(
                        old(self).root.expr@,
                    ).len() == 0 {
                        assert(crate::eval::names_ready(
                            *old(self),
                            None,
                            None,
                            false,
                            old(self).root.expr@,
                        ));
                        assert(false);
                    }
                }
                return Err(e);
            },
        };
        proof {
            if !crate::eval::spec_is_exec(old(self).root.expr@) && crate::eval::spec_names(
                old(self).root.expr@,
            ).len() == 0 {
                crate::eval::lemma_expr_value_no_names(
                    *self,
                    None,
                    None,
                    false,
                    old(self).root.expr@,
                );
            }
        }
        self.root_path = value.clone();
        self.root.value = Some(value);
        let ghost seeded = *self;
        proof {
            if tree_exprs_literal(*old(self)) {
                assert forall|i: int| 0 <= i < seeded.trees@.len() implies !crate::eval::spec_is_exec(
                    (#[trigger] seeded.trees@[i]).path.expr@,
                ) && crate::eval::spec_names(seeded.trees@[i].path.expr@).len() == 0 && (
                seeded.trees@[i].is_symlink ==> !crate::eval::spec_is_exec(
                    seeded.trees@[i].symlink.expr@,
                ) && crate::eval::spec_names(seeded.trees@[i].symlink.expr@).len() == 0) by {
                    assert(seeded.trees@[i].path == old(self).trees@[i].path);
                    assert(seeded.trees@[i].symlink == old(self).trees@[i].symlink);
                    assert(seeded.trees@[i].is_symlink == old(self).trees@[i].is_symlink);
                }
                assert(tree_exprs_literal(seeded));
            }
        }
        if let Err(e) = self.update_tree_paths() {
            return Err(e);
        }
        proof {
            assert forall|i: int|
                0 <= i < old(self).trees@.len() && (#[trigger] old(self).trees@[i]).is_symlink
                    implies self.trees@[i].symlink.value is Some by {
                assert(seeded.trees@[i].is_symlink == old(self).trees@[i].is_symlink);
            }
        }
        let ghost pathed = *self;
        proof {
            assert forall|i: int|
                0 <= i < old(self).trees@.len() && !crate::eval::spec_is_exec(
                    (#[trigger] old(self).trees@[i]).path.expr@,
                ) && crate::eval::spec_names(old(self).trees@[i].path.expr@).len() == 0 implies
                opt_str_view(pathed.trees@[i].path.value) == Some(
                spec_abspath(pathed.root_path@, old(self).trees@[i].path.expr@),
            ) by {
                assert(seeded.trees@[i].path == old(self).trees@[i].path);
                assert(pathed.trees@[i] == pathed.trees@[i]);
                assert(opt_str_view(pathed.trees@[i].path.value) == Some(
                    spec_abspath(
                        pathed.root_path@,
                        crate::eval::expr_value(
                            pathed,
                            None,
                            None,
                            false,
                            seeded.trees@[i].path.expr@,
                        ),
                    ),
                ));
                crate::eval::lemma_expr_value_no_names(
                    pathed,
                    None,
                    None,
                    false,
                    old(self).trees@[i].path.expr@,
                );
            }
        }
        let ghost pre_idx = *self;
        self.update_indexes();
        let ghost indexed = *self;
        self.reset();
        proof {
            assert forall|i: int| 0 <= i < self.groups@.len() implies (
            #[trigger] self.groups@[i]).index == i by {
                assert(indexed.groups.len() == indexed.groups@.len());
                assert(indexed.groups@[i] == Group { index: i as usize, ..pre_idx.groups@[i] });
                assert(self.groups@[i] == indexed.groups@[i]);
            }
            assert forall|i: int| 0 <= i < self.gardens@.len() implies (
            #[trigger] self.gardens@[i]).index == i by {
                assert(indexed.gardens.len() == indexed.gardens@.len());
                assert(indexed.gardens@[i] == Garden { index: i as usize, ..pre_idx.gardens@[i] });
                assert(self.gardens@[i].index == indexed.gardens@[i].index);
            }
            assert(indexed.trees == pathed.trees);
            assert(indexed.root == pathed.root && indexed.root_path == pathed.root_path);
            assert forall|i: int|
                0 <= i < old(self).trees@.len() && !crate::eval::spec_is_exec(
                    (#[trigger] old(self).trees@[i]).path.expr@,
                ) && crate::eval::spec_names(old(self).trees@[i].path.expr@).len() == 0 implies
                opt_str_view(self.trees@[i].path.value) == Some(
                spec_abspath(self.root_path@, old(self).trees@[i].path.expr@),
            ) by {
                assert(self.trees@[i].path == indexed.trees@[i].path);
                assert(opt_str_view(pathed.trees@[i].path.value) == Some(
                    spec_abspath(pathed.root_path@, old(self).trees@[i].path.expr@),
                ));
            }
            assert forall|i: int|
                0 <= i < old(self).trees@.len() && (#[trigger] old(self).trees@[i]).is_symlink
                    implies self.trees@[i].symlink.value is Some by {
                assert(pathed.trees@[i].symlink.value is Some);
                assert(indexed.trees@[i].symlink == pathed.trees@[i].symlink);
                assert(self.trees@[i].symlink == indexed.trees@[i].symlink);
            }
        }
        Ok(())
    }

    /// Record where the configuration was loaded from, with its
    /// directory.
    pub fn set_path(&mut self, path: String)
        ensures
            (*final(self) == Configuration {
                path: final(self).path,
                dirname: final(self).dirname,
                ..*old(self)
            }),
            final(self).path == Some(path),
            final(self).dirname is Some,
            final(self).dirname->0@ == spec_dirname(path@),
    {
        let dirname = dirname_of(path.as_str());
        self.dirname = Some(dirname);
        self.path = Some(path);
    }
}

/// Clear the cached value of every named variable.
pub fn clear_nvars(vars: &mut Vec<NamedVariable>)
    ensures
        nvars_cleared(old(vars)@, final(vars)@),
{
    let n = vars.len();
    for i in 0..n
        invariant
            n == vars.len() == old(vars)@.len(),
            forall|j: int|
                0 <= j < i ==> nv_same_def(old(vars)@[j], #[trigger] vars@[j]) && vars@[j].value
                    is None,
            forall|j: int| i <= j < n ==> #[trigger] vars@[j] == old(vars)@[j],
    {
        vars[i].value = None;
    }
}

/// The directory part of a path: everything before the last separator,
/// or empty when there is none.
pub fn dirname_of(path: &str) -> (r: String)
    ensures
        r@ == spec_dirname(path@),
{
    let n = path.unicode_len();
    let mut end = n;
    proof {
        assert(path@.take(n as int) =~= path@);
    }
    while end > 1 && path.get_char(end - 1) == '/'
        invariant
            0 <= end <= n,
            n == path@.len(),
            spec_strip_slashes(path@) == spec_strip_slashes(path@.take(end as int)),
        decreases end,
    {
        proof {
            assert(path@.take(end as int)[end - 1] == path@[end - 1]);
            assert(path@.take(end as int).drop_last() =~= path@.take(end - 1));
        }
        end -= 1;
    }
    proof {
        assert(spec_strip_slashes(path@.take(end as int)) == path@.take(end as int));
    }
    let mut e = end;
    while e > 0 && path.get_char(e - 1) != '/'
        invariant
            0 <= e <= end <= n,
            n == path@.len(),
            spec_dirname(path@) == spec_dir_core(path@.take(e as int)),
        decreases e,
    {
        proof {
            assert(path@.take(e as int)[e - 1] == path@[e - 1]);
            assert(path@.take(e as int).take(e - 1) =~= path@.take(e - 1));
        }
        e -= 1;
    }
    if e == 0 {
        proof {
            assert(path@.take(0) =~= Seq::<char>::empty());
        }
        String::new()
    } else if e == 1 {
        proof {
            assert(path@.take(1)[0] == path@[0]);
        }
        let kept = path.substring_char(0, 1);
        proof {
            assert(kept@ =~= path@.take(1));
        }
        String::from_str(kept)
    } else {
        proof {
            assert(path@.take(e as int)[e - 1] == path@[e - 1]);
            assert(path@.take(e as int).take(e - 1) =~= path@.take(e - 1));
        }
        let kept = path.substring_char(0, e - 1);
        proof {
            assert(kept@ =~= path@.take(e - 1));
        }
        String::from_str(kept)
    }
}

// --- commands and color ----------------------------------------------------

/// The known subcommands, plus a catch-all that carries the literal name of
/// a user-defined command.
#[derive(Clone, Debug)]
pub enum Command {
    Add,
    Cmd,
    Custom(String),
    Exec,
    Eval,
    Grow,
    Help,
    Init,
    Inspect,
    List,
    Shell,
}

impl Command {
    /// Map a command word to its subcommand; an unknown word becomes a
    /// custom command carrying the word itself.
    pub fn from_name(src: &str) -> (r: Command)
        ensures
            match r {
                Command::Add => src@ == "add"@,
                Command::Cmd => src@ == "cmd"@,
                Command::Exec => src@ == "exec"@,
                Command::Eval => src@ == "eval"@,
                Command::Grow => src@ == "grow"@,
                Command::Help => src@ == "help"@,
                Command::Init => src@ == "init"@,
                Command::Inspect => src@ == "inspect"@,
                Command::List => src@ == "list"@ || src@ == "ls"@,
                Command::Shell => src@ == "sh"@ || src@ == "shell"@,
                Command::Custom(s) => s@ == src@ && !(src@ == "add"@ || src@ == "cmd"@ || src@
                    == "exec"@ || src@ == "eval"@ || src@ == "grow"@ || src@ == "help"@ || src@
                    == "init"@ || src@ == "inspect"@ || src@ == "list"@ || src@ == "ls"@ || src@
                    == "sh"@ || src@ == "shell"@),
            },
    {
        proof {
            reveal_strlit("add");
            reveal_strlit("cmd");
            reveal_strlit("exec");
            reveal_strlit("eval");
            reveal_strlit("grow");
            reveal_strlit("help");
            reveal_strlit("init");
            reveal_strlit("inspect");
            reveal_strlit("list");
            reveal_strlit("ls");
            reveal_strlit("sh");
            reveal_strlit("shell");
        }
        if s_eq(src, "add") {
            Command::Add
        } else if s_eq(src, "cmd") {
            Command::Cmd
        } else if s_eq(src, "exec") {
            Command::Exec
        } else if s_eq(src, "eval") {
            Command::Eval
        } else if s_eq(src, "grow") {
            Command::Grow
        } else if s_eq(src, "help") {
            Command::Help
        } else if s_eq(src, "init") {
            Command::Init
        } else if s_eq(src, "inspect") {
            Command::Inspect
        } else if s_eq(src, "list") || s_eq(src, "ls") {
            Command::List
        } else if s_eq(src, "sh") || s_eq(src, "shell") {
            Command::Shell
        } else {
            Command::Custom(String::from_str(src))
        }
    }
}

impl Default for Command {
    /// The default subcommand shows the usage text.
    fn default() -> (r: Self)
        ensures
            r is Help,
    {
        Command::Help
    }
}

/// Compare two string slices by their characters.
pub fn s_eq(a: &str, b: &str) -> (r: bool)
    ensures
        r == (a@ == b@),
{
    let x = String::from_str(a);
    let y = String::from_str(b);
    x.eq(&y)
}

/// A character's code with an upper-case ASCII letter folded to lower
/// case.
pub open spec fn spec_lower_code(c: char) -> u32 {
    if 65 <= c as u32 && c as u32 <= 90 {
        (c as u32 + 32) as u32
    } else {
        c as u32
    }
}

/// The first string, lower-cased ASCII-wise, equals the second.
pub open spec fn spec_fold_eq(a: Seq<char>, b: Seq<char>) -> bool {
    &&& a.len() == b.len()
    &&& forall|i: int| 0 <= i < a.len() ==> spec_lower_code(#[trigger] a[i]) == b[i] as u32
}

/// Compare a string against a lower-case word, ignoring ASCII case.
pub fn eq_fold(a: &str, b: &str) -> (r: bool)
    ensures
        r == spec_fold_eq(a@, b@),
{
    let n = a.unicode_len();
    if n != b.unicode_len() {
        return false;
    }
    for i in 0..n
        invariant
            n == a@.len() == b@.len(),
            forall|j: int| 0 <= j < i ==> spec_lower_code(#[trigger] a@[j]) == b@[j] as u32,
    {
        let ca = a.get_char(i) as u32;
        let cb = b.get_char(i) as u32;
        let folded = if 65 <= ca && ca <= 90 {
            ca + 32
        } else {
            ca
        };
        if folded != cb {
            return false;
        }
    }
    true
}

/// Whether colored output is enabled: `Auto` defers to a terminal check on
/// standard output.
#[derive(Clone, Debug, PartialEq, Eq, Structural)]
pub enum ColorMode {
    Auto,
    Off,
    On,
}

impl ColorMode {
    /// True when color should be used.  In `Auto` mode this consults
    /// whether standard output is a terminal.
    pub fn is_enabled(&self) -> (r: bool)
        ensures
            self is Off ==> !r,
            self is On ==> r,
    {
        match self {
            ColorMode::Auto => runtime::stdout_is_tty(),
            ColorMode::Off => false,
            ColorMode::On => true,
        }
    }

    /// The accepted spellings for the color mode option.
    pub fn names() -> (r: &'static str)
        ensures
            r@ == "auto, true, false, 1, 0, [y]es, [n]o, on, off, always, never"@,
    {
        "auto, true, false, 1, 0, [y]es, [n]o, on, off, always, never"
    }

    /// Pin `Auto` down to `On` or `Off` by probing the terminal once, and
    /// switch terminal colors off globally when the result is `Off`.
    pub fn update(&mut self)
        ensures
            !(*final(self) is Auto),
            *old(self) is On ==> *final(self) is On,
            *old(self) is Off ==> *final(self) is Off,
    {
        if *self == ColorMode::Auto {
            if self.is_enabled() {
                *self = ColorMode::On;
            } else {
                *self = ColorMode::Off;
            }
        }

        if *self == ColorMode::Off {
            runtime::disable_terminal_colors();
        }
    }

    /// Parse a color mode word, ignoring ASCII case; `None` for an
    /// unrecognized word.
    pub fn from_name(src: &str) -> (r: Option<ColorMode>)
        ensures
            match r {
                Some(ColorMode::Auto) => spec_fold_eq(src@, "auto"@) || spec_fold_eq(src@, "-1"@),
                Some(ColorMode::Off) => spec_fold_eq(src@, "0"@) || spec_fold_eq(src@, "false"@)
                    || spec_fold_eq(src@, "never"@) || spec_fold_eq(src@, "always"@)
                    || spec_fold_eq(src@, "off"@) || spec_fold_eq(src@, "n"@) || spec_fold_eq(
                    src@,
                    "no"@,
                ),
                Some(ColorMode::On) => spec_fold_eq(src@, "1"@) || spec_fold_eq(src@, "true"@)
                    || spec_fold_eq(src@, "on"@) || spec_fold_eq(src@, "y"@) || spec_fold_eq(
                    src@,
                    "yes"@,
                ),
                None => !(spec_fold_eq(src@, "auto"@) || spec_fold_eq(src@, "-1"@) || spec_fold_eq(
                    src@,
                    "0"@,
                ) || spec_fold_eq(src@, "false"@) || spec_fold_eq(src@, "never"@) || spec_fold_eq(
                    src@,
                    "always"@,
                ) || spec_fold_eq(src@, "off"@) || spec_fold_eq(src@, "n"@) || spec_fold_eq(
                    src@,
                    "no"@,
                ) || spec_fold_eq(src@, "1"@) || spec_fold_eq(src@, "true"@) || spec_fold_eq(
                    src@,
                    "on"@,
                ) || spec_fold_eq(src@, "y"@) || spec_fold_eq(src@, "yes"@)),
            },
    {
        if eq_fold(src, "auto") || eq_fold(src, "-1") {
            Some(ColorMode::Auto)
        } else if eq_fold(src, "0") || eq_fold(src, "false") || eq_fold(src, "never") || eq_fold(
            src,
            "always",
        ) || eq_fold(src, "off") || eq_fold(src, "n") || eq_fold(src, "no") {
            Some(ColorMode::Off)
        } else if eq_fold(src, "1") || eq_fold(src, "true") || eq_fold(src, "on") || eq_fold(
            src,
            "y",
        ) || eq_fold(src, "yes") {
            Some(ColorMode::On)
        } else {
            None
        }
    }
}

impl Default for ColorMode {
    /// Color defaults to the terminal probe.
    fn default() -> (r: Self)
        ensures
            r is Auto,
    {
        ColorMode::Auto
    }
}

// --- tree display ----------------------------------------------------------

/// The notice shown for a tree whose path is missing from disk.
pub open spec fn spec_display_missing_tree(name: Seq<char>, path: Seq<char>, verbose: bool) -> Seq<
    char,
> {
    if verbose {
        "# "@ + name + "  "@ + path + " (skipped)"@
    } else {
        "# "@ + name + " (skipped)"@
    }
}

/// Describe a tree that is skipped because its path does not exist.
pub fn display_missing_tree(tree: &Tree, path: &str, verbose: bool) -> (r: String)
    ensures
        r@ == spec_display_missing_tree(tree.name@, path@, verbose),
{
    let mut out = String::from_str("# ");
    out.append(tree.name.as_str());
    if verbose {
        out.append("  ");
        out.append(path);
        out.append(" (skipped)");
    } else {
        out.append(" (skipped)");
    }
    out
}

/// The header shown for a tree before its commands run.
pub open spec fn spec_display_tree(name: Seq<char>, path: Seq<char>, verbose: bool) -> Seq<char> {
    if verbose {
        "# "@ + name + "  "@ + path
    } else {
        "# "@ + name
    }
}

/// Describe a tree, with its path when verbose.
pub fn display_tree(tree: &Tree, path: &str, verbose: bool) -> (r: String)
    ensures
        r@ == spec_display_tree(tree.name@, path@, verbose),
{
    let mut out = String::from_str("# ");
    out.append(tree.name.as_str());
    if verbose {
        out.append("  ");
        out.append(path);
    }
    out
}

/// Print a tree header if its path exists on disk; otherwise print a
/// missing-tree notice (unless quiet) and report `false`.
pub fn print_tree(tree: &Tree, verbose: bool, quiet: bool) -> (r: bool)
    requires
        tree.path.value is Some,
{
    let path = tree.path.value.as_ref().unwrap().clone();
    if !runtime::path_exists(path.as_str()) {
        if !quiet {
            let line = display_missing_tree(tree, path.as_str(), verbose);
            runtime::eprint_line(line.as_str());
        }
        return false;
    }
    print_tree_details(tree, verbose, quiet);
    true
}

/// Print a tree header.
pub fn print_tree_details(tree: &Tree, verbose: bool, quiet: bool)
    requires
        tree.path.value is Some,
{
    if !quiet {
        let path = tree.path.value.as_ref().unwrap().clone();
        let line = display_tree(tree, path.as_str(), verbose);
        runtime::eprint_line(line.as_str());
    }
}

// --- command-line level state ----------------------------------------------

/// Options captured once from the command line.
///
/// `current_exe` is the path of the running executable, supplied by the
/// embedding program; it is handed to every spawned command so that
/// commands can re-invoke the tool.
#[derive(Clone, Debug)]
pub struct CommandOptions {
    pub args: Vec<String>,
    pub breadth_first: bool,
    pub chdir: String,
    pub color_mode: ColorMode,
    pub current_exe: String,
    pub debug: Vec<String>,
    pub filename: Option<String>,
    pub filename_str: String,
    pub keep_going: bool,
    pub quiet: bool,
    pub root: String,
    pub subcommand: Command,
    pub variables: Vec<String>,
    pub verbose: bool,
}

impl CommandOptions {
    /// An option set with everything off and the help subcommand selected.
    pub fn new() -> (r: CommandOptions)
        ensures
            r.args@.len() == 0,
            r.debug@.len() == 0,
            !r.breadth_first,
            !r.keep_going,
            !r.quiet,
            !r.verbose,
            r.color_mode is Auto,
            r.subcommand is Help,
    {
        CommandOptions {
            args: Vec::new(),
            breadth_first: false,
            chdir: String::new(),
            color_mode: ColorMode::Auto,
            current_exe: String::new(),
            debug: Vec::new(),
            filename: None,
            filename_str: String::new(),
            keep_going: false,
            quiet: false,
            root: String::new(),
            subcommand: Command::Help,
            variables: Vec::new(),
            verbose: false,
        }
    }

    /// True when debugging was requested for the given category.
    pub fn is_debug(&self, name: &str) -> (r: bool)
        ensures
            r == exists|i: int| 0 <= i < self.debug@.len() && self.debug@[i]@ == name@,
    {
        let n = self.debug.len();
        for i in 0..n
            invariant
                n == self.debug@.len(),
                forall|j: int| 0 <= j < i ==> self.debug@[j]@ != name@,
        {
            if s_eq(self.debug[i].as_str(), name) {
                return true;
            }
        }
        false
    }
}

/// The configuration together with the command-line options.
#[derive(Clone, Debug)]
pub struct ApplicationContext {
    pub config: Configuration,
    pub options: CommandOptions,
}

impl ApplicationContext {
    /// Bundle a loaded configuration with the parsed options.
    pub fn new(config: Configuration, options: CommandOptions) -> (r: Self)
        ensures
            r.config == config,
            r.options == options,
    {
        ApplicationContext { config, options }
    }
}

/// Parameters of the expression-evaluation subcommand: the expression and
/// the optional tree and garden giving its scope.
#[derive(Clone, Debug)]
pub struct EvalOptions {
    pub expr: String,
    pub tree: Option<String>,
    pub garden: Option<String>,
}

} // verus!
