//! Query resolution: classify a query string, match it against gardens,
//! groups and trees with glob semantics, and expand memberships into an
//! ordered list of resolved contexts.
//!
//! Matching walks entities in declaration order, so the resulting
//! contexts preserve the declaration order of the matched entities.
//! Group membership may nest; a member chain that revisits a group
//! already being expanded is a structural error, not an infinite loop.

use vstd::prelude::*;
use vstd::string::StringExecFns;

use crate::errors::GardenError;
use crate::model::Configuration;
use crate::model::TreeContext;
use crate::model::s_eq;
use crate::runtime;
use crate::syntax;

verus! {

/// A parsed query: its classification and the glob pattern with the
/// type-discriminating marker stripped.
#[derive(Clone, Debug)]
pub struct TreeQuery {
    pub query: String,
    pub pattern: String,
    pub is_default: bool,
    pub is_garden: bool,
    pub is_group: bool,
    pub is_tree: bool,
    pub include_gardens: bool,
    pub include_groups: bool,
    pub include_trees: bool,
}

impl TreeQuery {
    /// Classify a query string and validate its glob pattern.  A
    /// malformed pattern is a parse error, which aborts the query.
    pub fn new(query: &str) -> (r: Result<TreeQuery, GardenError>)
        ensures
            r is Ok <==> runtime::glob_pattern_ok(syntax::spec_trim(query@)),
            r is Err ==> r->Err_0 is ParseError,
            r is Ok ==> {
                let q = r->Ok_0;
                &&& q.query@ == query@
                &&& q.pattern@ == syntax::spec_trim(query@)
                &&& q.is_garden == syntax::spec_is_garden(query@)
                &&& q.is_group == (!syntax::spec_is_garden(query@) && syntax::spec_is_group(query@))
                &&& q.is_tree == (!syntax::spec_is_garden(query@) && !syntax::spec_is_group(query@)
                    && syntax::spec_is_tree(query@))
                &&& q.is_default == (!q.is_garden && !q.is_group && !q.is_tree)
                &&& q.include_gardens == (q.is_garden || q.is_default)
                &&& q.include_groups == (q.is_group || q.is_default)
                &&& q.include_trees == (q.is_tree || q.is_default)
            },
    {
        let mut is_default = false;
        let mut is_tree = false;
        let mut is_garden = false;
        let mut is_group = false;
        let mut include_gardens = true;
        let mut include_groups = true;
        let mut include_trees = true;

        if syntax::is_garden(query) {
            is_garden = true;
            include_groups = false;
            include_trees = false;
        } else if syntax::is_group(query) {
            is_group = true;
            include_gardens = false;
            include_trees = false;
        } else if syntax::is_tree(query) {
            is_tree = true;
            include_gardens = false;
            include_groups = false;
        } else {
            is_default = true;
        }
        let pattern = syntax::trim(query);
        if !runtime::glob_pattern_valid(pattern.as_str()) {
            return Err(GardenError::ParseError);
        }
        Ok(
            TreeQuery {
                query: String::from_str(query),
                pattern,
                is_default,
                is_garden,
                is_group,
                is_tree,
                include_gardens,
                include_groups,
                include_trees,
            },
        )
    }
}

/// Every context points into the configuration.
pub open spec fn ctx_valid(c: Configuration, ctx: TreeContext) -> bool {
    &&& ctx.tree < c.trees@.len()
    &&& (ctx.garden is Some ==> ctx.garden->0 < c.gardens@.len())
    &&& (ctx.group is Some ==> ctx.group->0 < c.groups@.len())
}

/// All contexts of the list point into the configuration.
pub open spec fn ctxs_valid(c: Configuration, ctxs: Seq<TreeContext>) -> bool {
    forall|k: int| 0 <= k < ctxs.len() ==> ctx_valid(c, #[trigger] ctxs[k])
}

/// Find the first tree with this exact name.
fn find_tree_index(config: &Configuration, name: &str) -> (r: Option<usize>)
    ensures
        r is Some ==> r->0 < config.trees@.len() && config.trees@[r->0 as int].name@ == name@
            && (forall|j: int| 0 <= j < r->0 ==> (#[trigger] config.trees@[j]).name@ != name@),
        r is None ==> forall|i: int|
            0 <= i < config.trees@.len() ==> (#[trigger] config.trees@[i]).name@ != name@,
{
    let n = config.trees.len();
    for i in 0..n
        invariant
            n == config.trees@.len(),
            forall|j: int| 0 <= j < i ==> (#[trigger] config.trees@[j]).name@ != name@,
    {
        if s_eq(config.trees[i].name.as_str(), name) {
            return Some(i);
        }
    }
    None
}

/// Find the first group with this exact name.
fn find_group_index(config: &Configuration, name: &str) -> (r: Option<usize>)
    ensures
        r is Some ==> r->0 < config.groups@.len() && config.groups@[r->0 as int].name@ == name@
            && (forall|j: int| 0 <= j < r->0 ==> (#[trigger] config.groups@[j]).name@ != name@),
        r is None ==> forall|i: int|
            0 <= i < config.groups@.len() ==> (#[trigger] config.groups@[i]).name@ != name@,
{
    let n = config.groups.len();
    for i in 0..n
        invariant
            n == config.groups@.len(),
            forall|j: int| 0 <= j < i ==> (#[trigger] config.groups@[j]).name@ != name@,
    {
        if s_eq(config.groups[i].name.as_str(), name) {
            return Some(i);
        }
    }
    None
}

/// Find the first garden with this exact name.
fn find_garden_index(config: &Configuration, name: &str) -> (r: Option<usize>)
    ensures
        r is Some ==> r->0 < config.gardens@.len() && config.gardens@[r->0 as int].name@ == name@
            && (forall|j: int| 0 <= j < r->0 ==> (#[trigger] config.gardens@[j]).name@ != name@),
        r is None ==> forall|i: int|
            0 <= i < config.gardens@.len() ==> (#[trigger] config.gardens@[i]).name@ != name@,
{
    let n = config.gardens.len();
    for i in 0..n
        invariant
            n == config.gardens@.len(),
            forall|j: int| 0 <= j < i ==> (#[trigger] config.gardens@[j]).name@ != name@,
    {
        if s_eq(config.gardens[i].name.as_str(), name) {
            return Some(i);
        }
    }
    None
}

/// A member name that refers to a group: it carries no garden marker, no
/// tree shadows it, and the named group is the given one.
pub open spec fn member_is_group(c: Configuration, member: Seq<char>, group: int) -> bool {
    &&& !syntax::spec_is_garden(member)
    &&& (forall|i: int| 0 <= i < c.trees@.len() ==> (#[trigger] c.trees@[i]).name@ != member)
    &&& 0 <= group < c.groups@.len()
    &&& c.groups@[group].name@ == member
    &&& (forall|i: int| 0 <= i < group ==> (#[trigger] c.groups@[i]).name@ != member)
}

/// Index of the first tree with this name, or the tree count when none
/// matches.
pub open spec fn spec_tree_index(c: Configuration, name: Seq<char>) -> nat
    decreases c.trees@.len() via spec_tree_index_decreases
{
    spec_tree_index_in(c.trees@, name)
}

/// Index of the first tree of the list with this name.
pub open spec fn spec_tree_index_in(trees: Seq<crate::model::Tree>, name: Seq<char>) -> nat
    decreases trees.len(),
{
    if trees.len() == 0 {
        0
    } else if trees[0].name@ == name {
        0
    } else {
        1 + spec_tree_index_in(trees.drop_first(), name)
    }
}

#[via_fn]
proof fn spec_tree_index_decreases(c: Configuration, name: Seq<char>) {
}

proof fn lemma_tree_index_at(trees: Seq<crate::model::Tree>, name: Seq<char>, j: int)
    requires
        0 <= j < trees.len(),
        trees[j].name@ == name,
        forall|k: int| 0 <= k < j ==> (#[trigger] trees[k]).name@ != name,
    ensures
        spec_tree_index_in(trees, name) == j,
    decreases j,
{
    if j > 0 {
        lemma_tree_index_at(trees.drop_first(), name, j - 1);
    }
}

proof fn lemma_tree_index_none(trees: Seq<crate::model::Tree>, name: Seq<char>)
    requires
        forall|k: int| 0 <= k < trees.len() ==> (#[trigger] trees[k]).name@ != name,
    ensures
        spec_tree_index_in(trees, name) == trees.len(),
    decreases trees.len(),
{
    if trees.len() > 0 {
        lemma_tree_index_none(trees.drop_first(), name);
    }
}

/// The contexts a garden's tree-member list yields: one per member that
/// names a declared tree, in declared member order, stamped with the
/// garden identity.
pub open spec fn garden_tree_ctxs(
    c: Configuration,
    members: Seq<String>,
    stamp: usize,
    group: Option<usize>,
) -> Seq<TreeContext>
    decreases members.len(),
{
    if members.len() == 0 {
        Seq::empty()
    } else {
        let rest = garden_tree_ctxs(c, members.drop_first(), stamp, group);
        if spec_tree_index_in(c.trees@, members[0]@) < c.trees@.len() {
            seq![
                TreeContext {
                    tree: spec_tree_index_in(c.trees@, members[0]@) as usize,
                    garden: Some(stamp),
                    group,
                },
            ] + rest
        } else {
            rest
        }
    }
}

proof fn lemma_garden_tree_ctxs_take_step(
    c: Configuration,
    members: Seq<String>,
    stamp: usize,
    group: Option<usize>,
    i: int,
)
    requires
        0 <= i < members.len(),
    ensures
        garden_tree_ctxs(c, members.take(i + 1), stamp, group) == (if spec_tree_index_in(
            c.trees@,
            members[i]@,
        ) < c.trees@.len() {
            garden_tree_ctxs(c, members.take(i), stamp, group).push(
                TreeContext {
                    tree: spec_tree_index_in(c.trees@, members[i]@) as usize,
                    garden: Some(stamp),
                    group,
                },
            )
        } else {
            garden_tree_ctxs(c, members.take(i), stamp, group)
        }),
    decreases i,
{
    if i == 0 {
        assert(members.take(1).drop_first() =~= Seq::<String>::empty());
        assert(members.take(0) =~= Seq::<String>::empty());
        assert(members.take(1)[0] == members[0]);
        assert(garden_tree_ctxs(c, Seq::<String>::empty(), stamp, group) == Seq::<
            TreeContext,
        >::empty());
        if spec_tree_index_in(c.trees@, members[0]@) < c.trees@.len() {
            assert(garden_tree_ctxs(c, members.take(1), stamp, group) =~= Seq::<
                TreeContext,
            >::empty().push(
                TreeContext {
                    tree: spec_tree_index_in(c.trees@, members[0]@) as usize,
                    garden: Some(stamp),
                    group,
                },
            ));
        }
    } else {
        lemma_garden_tree_ctxs_take_step(c, members.drop_first(), stamp, group, i - 1);
        assert(members.take(i + 1).drop_first() =~= members.drop_first().take(i));
        assert(members.take(i).drop_first() =~= members.drop_first().take(i - 1));
        assert(members.take(i + 1)[0] == members[0]);
        assert(members.drop_first()[i - 1] == members[i]);
        if spec_tree_index_in(c.trees@, members[0]@) < c.trees@.len() {
            if spec_tree_index_in(c.trees@, members[i]@) < c.trees@.len() {
                assert(garden_tree_ctxs(c, members.take(i + 1), stamp, group) =~= (seq![
                    TreeContext {
                        tree: spec_tree_index_in(c.trees@, members[0]@) as usize,
                        garden: Some(stamp),
                        group,
                    },
                ] + garden_tree_ctxs(c, members.drop_first().take(i - 1), stamp, group)).push(
                    TreeContext {
                        tree: spec_tree_index_in(c.trees@, members[i]@) as usize,
                        garden: Some(stamp),
                        group,
                    },
                ));
            }
        }
    }
}

/// Some member of the garden's tree list names a declared tree.
pub open spec fn garden_has_tree_member(c: Configuration, garden: int) -> bool {
    exists|m: int|
        0 <= m < c.gardens@[garden].trees@.len() && tree_named(
            c,
            (#[trigger] c.gardens@[garden].trees@[m])@,
        )
}

/// Some context of the list carries this garden identity.
pub open spec fn has_garden_ctx(ctxs: Seq<TreeContext>, garden: int) -> bool {
    exists|k: int| 0 <= k < ctxs.len() && (#[trigger] ctxs[k]).garden == Some(garden as usize)
}

/// Expand a garden: its member trees in declared order, then its member
/// groups, every resulting context stamped with the given garden
/// identity.
#[verifier::loop_isolation(false)]
fn expand_garden(
    config: &Configuration,
    garden: usize,
    stamp: usize,
    group: Option<usize>,
    visited: &mut Vec<usize>,
    out: &mut Vec<TreeContext>,
    fuel: u64,
) -> (r: Result<(), GardenError>)
    requires
        garden < config.gardens@.len(),
        stamp < config.gardens@.len(),
        group is Some ==> group->0 < config.groups@.len(),
        ctxs_valid(*config, old(out)@),
    ensures
        final(visited)@ == old(visited)@,
        ctxs_valid(*config, final(out)@),
        final(out)@.len() >= old(out)@.len(),
        forall|k: int|
            old(out)@.len() <= k < final(out)@.len() ==> (#[trigger] final(out)@[k]).garden == Some(
                stamp,
            ) && (group is Some ==> final(out)@[k].group is Some),
        forall|k: int| 0 <= k < old(out)@.len() ==> #[trigger] final(out)@[k] == old(out)@[k],
        r is Err ==> r->Err_0 is CyclicGroupMembership,
        config.groups@.len() == 0 ==> r is Ok,
        r is Ok && garden_has_tree_member(*config, garden as int) ==> final(out)@.len() > old(
            out,
        )@.len(),
        r is Ok ==> final(out)@.len() >= old(out)@.len() + garden_tree_ctxs(
            *config,
            config.gardens@[garden as int].trees@,
            stamp,
            group,
        ).len() && final(out)@.subrange(
            old(out)@.len() as int,
            (old(out)@.len() + garden_tree_ctxs(
                *config,
                config.gardens@[garden as int].trees@,
                stamp,
                group,
            ).len()) as int,
        ) == garden_tree_ctxs(*config, config.gardens@[garden as int].trees@, stamp, group),
        (config.gardens@[garden as int].groups@.len() == 0 ==> r is Ok && final(out)@ == old(
            out,
        )@ + garden_tree_ctxs(*config, config.gardens@[garden as int].trees@, stamp, group)),
    decreases fuel, 1int,
{
    let tn = config.gardens[garden].trees.len();
    for ti in 0..tn
        invariant
            tn == config.gardens@[garden as int].trees@.len(),
            ctxs_valid(*config, out@),
            out@.len() >= old(out)@.len(),
            forall|k: int|
                old(out)@.len() <= k < out@.len() ==> (#[trigger] out@[k]).garden == Some(stamp)
                    && (group is Some ==> out@[k].group is Some),
            forall|k: int| 0 <= k < old(out)@.len() ==> #[trigger] out@[k] == old(out)@[k],
            visited@ == old(visited)@,
            (exists|m: int|
                0 <= m < ti && tree_named(
                    *config,
                    (#[trigger] config.gardens@[garden as int].trees@[m])@,
                )) ==> out@.len() > old(out)@.len(),
            out@ == old(out)@ + garden_tree_ctxs(
                *config,
                config.gardens@[garden as int].trees@.take(ti as int),
                stamp,
                group,
            ),
        decreases tn - ti,
    {
        let ghost members = config.gardens@[garden as int].trees@;
        proof {
            lemma_garden_tree_ctxs_take_step(*config, members, stamp, group, ti as int);
        }
        let tname = config.gardens[garden].trees[ti].clone();
        if let Some(tidx) = find_tree_index(config, tname.as_str()) {
            proof {
                lemma_tree_index_at(config.trees@, members[ti as int]@, tidx as int);
            }
            let ghost pre_out = out@;
            out.push(TreeContext { tree: tidx, garden: Some(stamp), group });
            proof {
                assert(tree_named(*config, config.gardens@[garden as int].trees@[ti as int]@));
                assert(out@ =~= old(out)@ + garden_tree_ctxs(
                    *config,
                    members.take(ti as int),
                    stamp,
                    group,
                ).push(
                    TreeContext {
                        tree: spec_tree_index_in(config.trees@, members[ti as int]@) as usize,
                        garden: Some(stamp),
                        group,
                    },
                ));
            }
        } else {
            proof {
                assert(!tree_named(*config, config.gardens@[garden as int].trees@[ti as int]@));
                lemma_tree_index_none(config.trees@, members[ti as int]@);
            }
        }
    }
    proof {
        assert(config.gardens@[garden as int].trees@.take(tn as int) =~= config.gardens@[
            garden as int].trees@);
    }
    let gn = config.gardens[garden].groups.len();
    for gi in 0..gn
        invariant
            gn == config.gardens@[garden as int].groups@.len(),
            ctxs_valid(*config, out@),
            out@.len() >= old(out)@.len(),
            forall|k: int|
                old(out)@.len() <= k < out@.len() ==> (#[trigger] out@[k]).garden == Some(stamp)
                    && (group is Some ==> out@[k].group is Some),
            forall|k: int| 0 <= k < old(out)@.len() ==> #[trigger] out@[k] == old(out)@[k],
            visited@ == old(visited)@,
            garden_has_tree_member(*config, garden as int) ==> out@.len() > old(out)@.len(),
            out@.len() >= old(out)@.len() + garden_tree_ctxs(
                *config,
                config.gardens@[garden as int].trees@,
                stamp,
                group,
            ).len(),
            out@.subrange(
                old(out)@.len() as int,
                (old(out)@.len() + garden_tree_ctxs(
                    *config,
                    config.gardens@[garden as int].trees@,
                    stamp,
                    group,
                ).len()) as int,
            ) == garden_tree_ctxs(*config, config.gardens@[garden as int].trees@, stamp, group),
            gn == 0 ==> out@ == old(out)@ + garden_tree_ctxs(
                *config,
                config.gardens@[garden as int].trees@,
                stamp,
                group,
            ),
        decreases gn - gi,
    {
        let gname = config.gardens[garden].groups[gi].clone();
        if let Some(gidx) = find_group_index(config, gname.as_str()) {
            if contains_index(visited, gidx) {
                return Err(GardenError::CyclicGroupMembership);
            }
            if fuel == 0 {
                return Err(GardenError::CyclicGroupMembership);
            }
            let ghost pre_visited = visited@;
            visited.push(gidx);
            proof {
                assert(visited@[pre_visited.len() as int] == gidx);
                assert(visited@.contains(gidx));
            }
            let ghost pre_rec = out@;
            let res = expand_group(config, gidx, Some(stamp), visited, out, fuel - 1);
            let _ = visited.pop();
            proof {
                assert(visited@ =~= pre_visited);
                assert(out@.subrange(
                    old(out)@.len() as int,
                    (old(out)@.len() + garden_tree_ctxs(
                        *config,
                        config.gardens@[garden as int].trees@,
                        stamp,
                        group,
                    ).len()) as int,
                ) =~= pre_rec.subrange(
                    old(out)@.len() as int,
                    (old(out)@.len() + garden_tree_ctxs(
                        *config,
                        config.gardens@[garden as int].trees@,
                        stamp,
                        group,
                    ).len()) as int,
                ));
            }
            if let Err(e) = res {
                return Err(e);
            }
        }
    }
    Ok(())
}

/// Whether this group is already being expanded.
fn contains_index(keys: &Vec<usize>, key: usize) -> (r: bool)
    ensures
        r == keys@.contains(key),
{
    let n = keys.len();
    for i in 0..n
        invariant
            n == keys@.len(),
            forall|j: int| 0 <= j < i ==> keys@[j] != key,
    {
        if keys[i] == key {
            return true;
        }
    }
    false
}

/// Every member of the group is plain: not garden-qualified and not a
/// reference to another group, so expansion cannot meet a cycle.
pub open spec fn members_plain(c: Configuration, group: int) -> bool {
    forall|m: int|
        0 <= m < c.groups@[group].members@.len() ==> !syntax::spec_is_garden(
            (#[trigger] c.groups@[group].members@[m])@,
        ) && (forall|h: int| !member_is_group(c, c.groups@[group].members@[m]@, h))
}

/// Some member of the group plainly names a declared tree: it carries no
/// garden marker and a tree of that name exists.
pub open spec fn group_has_tree_member(c: Configuration, group: int) -> bool {
    exists|m: int|
        0 <= m < c.groups@[group].members@.len() && !syntax::spec_is_garden(
            (#[trigger] c.groups@[group].members@[m])@,
        ) && tree_named(c, c.groups@[group].members@[m]@)
}

/// Some context of the list carries this group identity.
pub open spec fn has_group_ctx(ctxs: Seq<TreeContext>, group: int) -> bool {
    exists|k: int| 0 <= k < ctxs.len() && (#[trigger] ctxs[k]).group == Some(group as usize)
}

/// Expand a group's members in declared order: a garden-qualified member
/// expands that garden; otherwise a tree with the member's name wins,
/// else a group with that name is expanded recursively; an unknown name
/// contributes nothing.  `visited` carries the groups being expanded:
/// meeting one of them again is a cyclic membership, detected rather than
/// looped on.  In particular a group that contains itself fails.
#[verifier::loop_isolation(false)]
pub fn expand_group(
    config: &Configuration,
    group: usize,
    garden: Option<usize>,
    visited: &mut Vec<usize>,
    out: &mut Vec<TreeContext>,
    fuel: u64,
) -> (r: Result<(), GardenError>)
    requires
        group < config.groups@.len(),
        garden is Some ==> garden->0 < config.gardens@.len(),
        old(visited)@.contains(group),
        ctxs_valid(*config, old(out)@),
    ensures
        final(visited)@ == old(visited)@,
        ctxs_valid(*config, final(out)@),
        final(out)@.len() >= old(out)@.len(),
        forall|k: int|
            old(out)@.len() <= k < final(out)@.len() ==> (garden is Some ==> (
            #[trigger] final(out)@[k]).garden == garden) && final(out)@[k].group is Some,
        forall|k: int| 0 <= k < old(out)@.len() ==> #[trigger] final(out)@[k] == old(out)@[k],
        r is Err ==> r->Err_0 is CyclicGroupMembership,
        (exists|m: int, h: int|
            0 <= m < config.groups@[group as int].members@.len() && #[trigger] member_is_group(
                *config,
                config.groups@[group as int].members@[m]@,
                h,
            ) && old(visited)@.contains(h as usize)) ==> r is Err,
        members_plain(*config, group as int) ==> r is Ok,
        r is Ok && group_has_tree_member(*config, group as int) ==> has_group_ctx(
            final(out)@,
            group as int,
        ),
    decreases fuel, 0int,
{
    let n = config.groups[group].members.len();
    let mut i: usize = 0;
    while i < n
        invariant
            n == config.groups@[group as int].members@.len(),
            0 <= i <= n,
            ctxs_valid(*config, out@),
            out@.len() >= old(out)@.len(),
            (exists|m: int|
                0 <= m < i && !syntax::spec_is_garden(
                    (#[trigger] config.groups@[group as int].members@[m])@,
                ) && tree_named(*config, config.groups@[group as int].members@[m]@))
                ==> has_group_ctx(out@, group as int),
            forall|k: int|
                old(out)@.len() <= k < out@.len() ==> (garden is Some ==> (
                #[trigger] out@[k]).garden == garden) && out@[k].group is Some,
            forall|k: int| 0 <= k < old(out)@.len() ==> #[trigger] out@[k] == old(out)@[k],
            visited@ == old(visited)@,
            forall|m: int, h: int|
                0 <= m < i && #[trigger] member_is_group(
                    *config,
                    config.groups@[group as int].members@[m]@,
                    h,
                ) ==> !old(visited)@.contains(h as usize),
        decreases n - i,
    {
        let ghost pre_out = out@;
        let member = config.groups[group].members[i].clone();
        if syntax::is_garden(member.as_str()) {
            proof {
                if members_plain(*config, group as int) {
                    assert(!syntax::spec_is_garden(
                        (config.groups@[group as int].members@[i as int])@,
                    ));
                    assert(false);
                }
            }
            let bare = syntax::trim(member.as_str());
            if let Some(g2) = find_garden_index(config, bare.as_str()) {
                let stamp = match garden {
                    Some(e) => e,
                    None => g2,
                };
                if fuel == 0 {
                    return Err(GardenError::CyclicGroupMembership);
                }
                let res = expand_garden(config, g2, stamp, Some(group), visited, out, fuel - 1);
                if let Err(e) = res {
                    return Err(e);
                }
            }
        } else if let Some(tidx) = find_tree_index(config, member.as_str()) {
            out.push(TreeContext { tree: tidx, garden, group: Some(group) });
            proof {
                assert(out@[pre_out.len() as int].group == Some(group));
                assert(has_group_ctx(out@, group as int));
            }
        } else if let Some(h) = find_group_index(config, member.as_str()) {
            proof {
                if members_plain(*config, group as int) {
                    assert(!syntax::spec_is_garden(
                        (config.groups@[group as int].members@[i as int])@,
                    ));
                    assert(member_is_group(*config, member@, h as int));
                    assert(!member_is_group(
                        *config,
                        config.groups@[group as int].members@[i as int]@,
                        h as int,
                    ));
                    assert(false);
                }
            }
            if contains_index(visited, h) {
                return Err(GardenError::CyclicGroupMembership);
            }
            if fuel == 0 {
                return Err(GardenError::CyclicGroupMembership);
            }
            let ghost pre_visited = visited@;
            visited.push(h);
            proof {
                assert(visited@[pre_visited.len() as int] == h);
                assert(visited@.contains(h));
            }
            let res = expand_group(config, h, garden, visited, out, fuel - 1);
            let _ = visited.pop();
            proof {
                assert(visited@ =~= pre_visited);
            }
            if let Err(e) = res {
                return Err(e);
            }
            proof {
                assert(member_is_group(*config, member@, h as int));
                assert forall|h2: int| member_is_group(*config, member@, h2) implies !old(
                    visited,
                )@.contains(h2 as usize) by {
                    if h2 < h as int {
                        assert(config.groups@[h2].name@ != member@);
                        assert(false);
                    }
                    if (h as int) < h2 {
                        assert(config.groups@[h as int].name@ != member@);
                        assert(false);
                    }
                    assert(h2 == h as int);
                }
            }
        }
        proof {
            if has_group_ctx(pre_out, group as int) {
                let k = choose|k: int|
                    0 <= k < pre_out.len() && (#[trigger] pre_out[k]).group == Some(
                        group as usize,
                    );
                assert(out@[k] == pre_out[k]);
                assert(has_group_ctx(out@, group as int));
            }
            if exists|m: int|
                0 <= m < i + 1 && !syntax::spec_is_garden(
                    (#[trigger] config.groups@[group as int].members@[m])@,
                ) && tree_named(*config, config.groups@[group as int].members@[m]@) {
                let m = choose|m: int|
                    0 <= m < i + 1 && !syntax::spec_is_garden(
                        (#[trigger] config.groups@[group as int].members@[m])@,
                    ) && tree_named(*config, config.groups@[group as int].members@[m]@);
                if m < i {
                    assert(has_group_ctx(pre_out, group as int) || has_group_ctx(
                        out@,
                        group as int,
                    ));
                }
            }
        }
        i += 1;
    }
    Ok(())
}

/// Whether any garden name matches the pattern.
#[verifier::loop_isolation(false)]
fn any_garden_matches(config: &Configuration, pattern: &str) -> (r: bool)
    requires
        runtime::glob_pattern_ok(pattern@),
    ensures
        r == exists|i: int|
            0 <= i < config.gardens@.len() && runtime::glob_matches(
                pattern@,
                (#[trigger] config.gardens@[i]).name@,
            ),
{
    let n = config.gardens.len();
    for i in 0..n
        invariant
            n == config.gardens@.len(),
            forall|j: int|
                0 <= j < i ==> !runtime::glob_matches(
                    pattern@,
                    (#[trigger] config.gardens@[j]).name@,
                ),
    {
        if runtime::glob_match(pattern, config.gardens[i].name.as_str()) {
            return true;
        }
    }
    false
}

/// Whether any group name matches the pattern.
#[verifier::loop_isolation(false)]
fn any_group_matches(config: &Configuration, pattern: &str) -> (r: bool)
    requires
        runtime::glob_pattern_ok(pattern@),
    ensures
        r == exists|i: int|
            0 <= i < config.groups@.len() && runtime::glob_matches(
                pattern@,
                (#[trigger] config.groups@[i]).name@,
            ),
{
    let n = config.groups.len();
    for i in 0..n
        invariant
            n == config.groups@.len(),
            forall|j: int|
                0 <= j < i ==> !runtime::glob_matches(
                    pattern@,
                    (#[trigger] config.groups@[j]).name@,
                ),
    {
        if runtime::glob_match(pattern, config.groups[i].name.as_str()) {
            return true;
        }
    }
    false
}

/// Exactly this garden's name matches the pattern.
pub open spec fn unique_garden_match(c: Configuration, pattern: Seq<char>, garden: int) -> bool {
    &&& 0 <= garden < c.gardens@.len()
    &&& runtime::glob_matches(pattern, c.gardens@[garden].name@)
    &&& forall|j: int|
        0 <= j < c.gardens@.len() && j != garden ==> !runtime::glob_matches(
            pattern,
            (#[trigger] c.gardens@[j]).name@,
        )
}

/// Expand every garden whose name matches the pattern, in declaration
/// order.  Every context carries the identity of the matched garden it
/// came through, so contexts arrive grouped by garden, in declaration
/// order of the matched gardens.
#[verifier::loop_isolation(false)]
pub fn resolve_gardens(config: &Configuration, pattern: &str) -> (r: Result<
    Vec<TreeContext>,
    GardenError,
>)
    requires
        runtime::glob_pattern_ok(pattern@),
    ensures
        r is Ok ==> ctxs_valid(*config, r->Ok_0@),
        r is Ok ==> forall|k: int|
            0 <= k < r->Ok_0@.len() ==> (#[trigger] r->Ok_0@[k]).garden is Some
                && runtime::glob_matches(
                pattern@,
                config.gardens@[r->Ok_0@[k].garden->0 as int].name@,
            ),
        r is Ok ==> forall|k: int, l: int|
            0 <= k < l < r->Ok_0@.len() ==> (#[trigger] r->Ok_0@[k]).garden->0 <= (
            #[trigger] r->Ok_0@[l]).garden->0,
        r is Err ==> r->Err_0 is CyclicGroupMembership,
        config.groups@.len() == 0 ==> r is Ok,
        r is Ok ==> forall|gi: int|
            0 <= gi < config.gardens@.len() && runtime::glob_matches(
                pattern@,
                (#[trigger] config.gardens@[gi]).name@,
            ) && garden_has_tree_member(*config, gi) ==> has_garden_ctx(r->Ok_0@, gi),
        r is Ok ==> forall|gi: int|
            #[trigger] unique_garden_match(*config, pattern@, gi)
                && config.gardens@[gi].groups@.len() == 0 ==> r->Ok_0@ == garden_tree_ctxs(
                *config,
                config.gardens@[gi].trees@,
                gi as usize,
                None,
            ),
{
    let mut out: Vec<TreeContext> = Vec::new();
    let mut visited: Vec<usize> = Vec::new();
    let n = config.gardens.len();
    let fuel: u64 = 0xffff_ffff_ffff_ffff;
    for gi in 0..n
        invariant
            n == config.gardens@.len(),
            ctxs_valid(*config, out@),
            forall|k: int|
                0 <= k < out@.len() ==> (#[trigger] out@[k]).garden is Some && out@[k].garden->0
                    < gi && runtime::glob_matches(
                    pattern@,
                    config.gardens@[out@[k].garden->0 as int].name@,
                ),
            forall|k: int, l: int|
                0 <= k < l < out@.len() ==> (#[trigger] out@[k]).garden->0 <= (
                #[trigger] out@[l]).garden->0,
            visited@.len() == 0,
            forall|gj: int|
                0 <= gj < gi && runtime::glob_matches(
                    pattern@,
                    (#[trigger] config.gardens@[gj]).name@,
                ) && garden_has_tree_member(*config, gj) ==> has_garden_ctx(out@, gj),
            forall|gj: int|
                #[trigger] unique_garden_match(*config, pattern@, gj)
                    && config.gardens@[gj].groups@.len() == 0 ==> (gj < gi ==> out@
                    == garden_tree_ctxs(*config, config.gardens@[gj].trees@, gj as usize, None))
                    && (gj >= gi ==> out@ == Seq::<TreeContext>::empty()),
    {
        let ghost pre_out = out@;
        if runtime::glob_match(pattern, config.gardens[gi].name.as_str()) {
            let ghost pre_len = out@.len();
            let res = expand_garden(config, gi, gi, None, &mut visited, &mut out, fuel);
            if let Err(e) = res {
                return Err(e);
            }
            proof {
                assert forall|k: int| 0 <= k < out@.len() implies (#[trigger] out@[k]).garden
                    is Some && out@[k].garden->0 <= gi && runtime::glob_matches(
                    pattern@,
                    config.gardens@[out@[k].garden->0 as int].name@,
                ) by {
                    if k < pre_len {
                    } else {
                        assert(out@[k].garden == Some(gi));
                    }
                }
                if garden_has_tree_member(*config, gi as int) {
                    assert(out@.len() > pre_len);
                    assert(out@[pre_len as int].garden == Some(gi));
                    assert(has_garden_ctx(out@, gi as int));
                }
            }
        }
        proof {
            assert forall|gj: int|
                0 <= gj < gi + 1 && runtime::glob_matches(
                    pattern@,
                    (#[trigger] config.gardens@[gj]).name@,
                ) && garden_has_tree_member(*config, gj) implies has_garden_ctx(out@, gj) by {
                if gj < gi {
                    let k = choose|k: int|
                        0 <= k < pre_out.len() && (#[trigger] pre_out[k]).garden == Some(
                            gj as usize,
                        );
                    assert(out@[k] == pre_out[k]);
                    assert(has_garden_ctx(out@, gj));
                }
            }
        }
    }
    Ok(out)
}

/// Expand every group whose name matches the pattern, in declaration
/// order of the matched groups.
#[verifier::loop_isolation(false)]
pub fn resolve_groups(config: &Configuration, pattern: &str) -> (r: Result<
    Vec<TreeContext>,
    GardenError,
>)
    requires
        runtime::glob_pattern_ok(pattern@),
    ensures
        r is Ok ==> ctxs_valid(*config, r->Ok_0@),
        r is Ok ==> forall|k: int|
            0 <= k < r->Ok_0@.len() ==> (#[trigger] r->Ok_0@[k]).group is Some,
        r is Err ==> r->Err_0 is CyclicGroupMembership,
        (forall|gi: int| 0 <= gi < config.groups@.len() ==> #[trigger] members_plain(*config, gi))
            ==> r is Ok,
        r is Ok ==> forall|gi: int|
            0 <= gi < config.groups@.len() && runtime::glob_matches(
                pattern@,
                (#[trigger] config.groups@[gi]).name@,
            ) && group_has_tree_member(*config, gi) ==> has_group_ctx(r->Ok_0@, gi),
        (exists|gi: int, m: int|
            0 <= gi < config.groups@.len() && 0 <= m < config.groups@[gi].members@.len()
                && runtime::glob_matches(pattern@, config.groups@[gi].name@)
                && #[trigger] member_is_group(
                *config,
                config.groups@[gi].members@[m]@,
                gi,
            )) ==> r is Err,
{
    let mut out: Vec<TreeContext> = Vec::new();
    let n = config.groups.len();
    let fuel: u64 = 0xffff_ffff_ffff_ffff;
    for gi in 0..n
        invariant
            n == config.groups@.len(),
            ctxs_valid(*config, out@),
            forall|k: int| 0 <= k < out@.len() ==> (#[trigger] out@[k]).group is Some,
            forall|gj: int|
                0 <= gj < gi && runtime::glob_matches(
                    pattern@,
                    (#[trigger] config.groups@[gj]).name@,
                ) && group_has_tree_member(*config, gj) ==> has_group_ctx(out@, gj),
            forall|gj: int, m: int|
                0 <= gj < gi && 0 <= m < config.groups@[gj].members@.len()
                    && runtime::glob_matches(pattern@, config.groups@[gj].name@)
                    ==> !#[trigger] member_is_group(
                    *config,
                    config.groups@[gj].members@[m]@,
                    gj,
                ),
    {
        let ghost pre_out = out@;
        if runtime::glob_match(pattern, config.groups[gi].name.as_str()) {
            let mut visited: Vec<usize> = Vec::new();
            visited.push(gi);
            proof {
                assert(visited@[0] == gi);
                assert(visited@.contains(gi));
            }
            let res = expand_group(config, gi, None, &mut visited, &mut out, fuel);
            if let Err(e) = res {
                proof {
                    if forall|gj: int|
                        0 <= gj < config.groups@.len() ==> #[trigger] members_plain(*config, gj) {
                        assert(members_plain(*config, gi as int));
                        assert(false);
                    }
                }
                return Err(e);
            }
            proof {
                assert forall|m: int|
                    0 <= m < config.groups@[gi as int].members@.len() implies !(
                #[trigger] member_is_group(
                    *config,
                    config.groups@[gi as int].members@[m]@,
                    gi as int,
                )) by {
                    if member_is_group(
                        *config,
                        config.groups@[gi as int].members@[m]@,
                        gi as int,
                    ) {
                        assert(visited@.contains(gi));
                        assert(false);
                    }
                }
            }
        }
        proof {
            assert forall|gj: int|
                0 <= gj < gi + 1 && runtime::glob_matches(
                    pattern@,
                    (#[trigger] config.groups@[gj]).name@,
                ) && group_has_tree_member(*config, gj) implies has_group_ctx(out@, gj) by {
                if gj < gi {
                    let k = choose|k: int|
                        0 <= k < pre_out.len() && (#[trigger] pre_out[k]).group == Some(
                            gj as usize,
                        );
                    assert(out@[k] == pre_out[k]);
                    assert(has_group_ctx(out@, gj));
                }
            }
        }
    }
    Ok(out)
}

/// Yield a bare context for every tree whose name matches the pattern:
/// exactly the matching trees, in declaration order.
#[verifier::loop_isolation(false)]
#[verifier::rlimit(60)]
pub fn resolve_trees_only(config: &Configuration, pattern: &str) -> (r: Vec<TreeContext>)
    requires
        runtime::glob_pattern_ok(pattern@),
    ensures
        forall|k: int|
            0 <= k < r@.len() ==> (#[trigger] r@[k]).tree < config.trees@.len()
                && runtime::glob_matches(pattern@, config.trees@[r@[k].tree as int].name@)
                && r@[k].garden is None && r@[k].group is None,
        forall|k: int, l: int| 0 <= k < l < r@.len() ==> (#[trigger] r@[k]).tree < (
        #[trigger] r@[l]).tree,
        forall|i: int|
            0 <= i < config.trees@.len() && runtime::glob_matches(
                pattern@,
                (#[trigger] config.trees@[i]).name@,
            ) ==> exists|k: int| 0 <= k < r@.len() && (#[trigger] r@[k]).tree == i,
{
    let mut out: Vec<TreeContext> = Vec::new();
    let n = config.trees.len();
    for i in 0..n
        invariant
            n == config.trees@.len(),
            forall|k: int|
                0 <= k < out@.len() ==> (#[trigger] out@[k]).tree < i && runtime::glob_matches(
                    pattern@,
                    config.trees@[out@[k].tree as int].name@,
                ) && out@[k].garden is None && out@[k].group is None,
            forall|k: int, l: int| 0 <= k < l < out@.len() ==> (#[trigger] out@[k]).tree < (
            #[trigger] out@[l]).tree,
            forall|j: int|
                0 <= j < i && runtime::glob_matches(
                    pattern@,
                    (#[trigger] config.trees@[j]).name@,
                ) ==> exists|k: int| 0 <= k < out@.len() && (#[trigger] out@[k]).tree == j,
    {
        if runtime::glob_match(pattern, config.trees[i].name.as_str()) {
            let ghost pre = out@;
            out.push(TreeContext { tree: i, garden: None, group: None });
            proof {
                assert(out@[pre.len() as int].tree == i);
                assert forall|j: int|
                    0 <= j < i + 1 && runtime::glob_matches(
                        pattern@,
                        (#[trigger] config.trees@[j]).name@,
                    ) implies exists|k: int|
                    0 <= k < out@.len() && (#[trigger] out@[k]).tree == j by {
                    if j < i {
                        let k = choose|k: int| 0 <= k < pre.len() && (#[trigger] pre[k]).tree == j;
                        assert(out@[k].tree == j);
                    } else {
                        assert(out@[pre.len() as int].tree == j);
                    }
                }
            }
        }
    }
    out
}

/// The query takes the garden tier: garden-marked or unconstrained, and
/// some garden name matches its pattern.
pub open spec fn takes_gardens(c: Configuration, q: Seq<char>) -> bool {
    let p = syntax::spec_trim(q);
    let garden_q = syntax::spec_is_garden(q);
    let group_q = !garden_q && syntax::spec_is_group(q);
    let tree_q = !garden_q && !group_q && syntax::spec_is_tree(q);
    let default_q = !garden_q && !group_q && !tree_q;
    &&& (garden_q || default_q)
    &&& exists|i: int|
        0 <= i < c.gardens@.len() && runtime::glob_matches(p, (#[trigger] c.gardens@[i]).name@)
}

/// The query takes the group tier: group-marked or unconstrained, no
/// garden name matches, and some group name does.
pub open spec fn takes_groups(c: Configuration, q: Seq<char>) -> bool {
    let p = syntax::spec_trim(q);
    let garden_q = syntax::spec_is_garden(q);
    let group_q = !garden_q && syntax::spec_is_group(q);
    let tree_q = !garden_q && !group_q && syntax::spec_is_tree(q);
    let default_q = !garden_q && !group_q && !tree_q;
    &&& (group_q || default_q)
    &&& (default_q ==> !(exists|i: int|
        0 <= i < c.gardens@.len() && runtime::glob_matches(p, (#[trigger] c.gardens@[i]).name@)))
    &&& exists|i: int|
        0 <= i < c.groups@.len() && runtime::glob_matches(p, (#[trigger] c.groups@[i]).name@)
}

/// The query falls through to bare trees: it is tree-marked or
/// unconstrained, and, when unconstrained, no garden and no group name
/// matches its pattern.
pub open spec fn falls_to_trees(c: Configuration, q: Seq<char>) -> bool {
    let p = syntax::spec_trim(q);
    let garden_q = syntax::spec_is_garden(q);
    let group_q = !garden_q && syntax::spec_is_group(q);
    let tree_q = !garden_q && !group_q && syntax::spec_is_tree(q);
    let default_q = !garden_q && !group_q && !tree_q;
    &&& (tree_q || default_q)
    &&& (default_q ==> !(exists|i: int|
        0 <= i < c.gardens@.len() && runtime::glob_matches(p, (#[trigger] c.gardens@[i]).name@))
        && !(exists|i: int|
        0 <= i < c.groups@.len() && runtime::glob_matches(p, (#[trigger] c.groups@[i]).name@)))
}

/// Resolve a query to an ordered list of contexts.  A garden-marked or
/// unconstrained query matching at least one garden expands those
/// gardens; otherwise a group-marked or unconstrained query matching a
/// group expands the matched groups; otherwise the query falls through
/// to bare trees.  A malformed glob pattern is a parse error; a cyclic
/// group membership aborts resolution.
pub fn resolve_trees(config: &Configuration, query: &str) -> (r: Result<
    Vec<TreeContext>,
    GardenError,
>)
    ensures
        r == Err::<Vec<TreeContext>, GardenError>(GardenError::ParseError) <==> !runtime::glob_pattern_ok(
            syntax::spec_trim(query@),
        ),
        r is Err ==> (r->Err_0 is ParseError || r->Err_0 is CyclicGroupMembership),
        r is Ok ==> ctxs_valid(*config, r->Ok_0@),
        runtime::glob_pattern_ok(syntax::spec_trim(query@)) && config.groups@.len() == 0 ==> r
            is Ok,
        runtime::glob_pattern_ok(syntax::spec_trim(query@)) && falls_to_trees(*config, query@)
            ==> r is Ok,
        takes_groups(*config, query@) && (exists|gi: int, m: int|
            0 <= gi < config.groups@.len() && 0 <= m < config.groups@[gi].members@.len()
                && runtime::glob_matches(syntax::spec_trim(query@), config.groups@[gi].name@)
                && #[trigger] member_is_group(
                *config,
                config.groups@[gi].members@[m]@,
                gi,
            )) ==> r is Err,
        r is Ok && takes_gardens(*config, query@) ==> {
            let ctxs = r->Ok_0@;
            let p = syntax::spec_trim(query@);
            &&& (forall|k: int|
                0 <= k < ctxs.len() ==> (#[trigger] ctxs[k]).garden is Some
                    && runtime::glob_matches(p, config.gardens@[ctxs[k].garden->0 as int].name@))
            &&& (forall|k: int, l: int|
                0 <= k < l < ctxs.len() ==> (#[trigger] ctxs[k]).garden->0 <= (
                #[trigger] ctxs[l]).garden->0)
            &&& (forall|gi: int|
                0 <= gi < config.gardens@.len() && runtime::glob_matches(
                    p,
                    (#[trigger] config.gardens@[gi]).name@,
                ) && garden_has_tree_member(*config, gi) ==> has_garden_ctx(ctxs, gi))
            &&& (forall|gi: int|
                #[trigger] unique_garden_match(*config, p, gi)
                    && config.gardens@[gi].groups@.len() == 0 ==> ctxs == garden_tree_ctxs(
                    *config,
                    config.gardens@[gi].trees@,
                    gi as usize,
                    None,
                ))
        },
        r is Ok && takes_groups(*config, query@) ==> {
            let ctxs = r->Ok_0@;
            let p = syntax::spec_trim(query@);
            &&& (forall|k: int| 0 <= k < ctxs.len() ==> (#[trigger] ctxs[k]).group is Some)
            &&& (forall|gi: int|
                0 <= gi < config.groups@.len() && runtime::glob_matches(
                    p,
                    (#[trigger] config.groups@[gi]).name@,
                ) && group_has_tree_member(*config, gi) ==> has_group_ctx(ctxs, gi))
        },
        r is Ok && falls_to_trees(*config, query@) ==> {
            let ctxs = r->Ok_0@;
            let p = syntax::spec_trim(query@);
            &&& (forall|k: int|
                0 <= k < ctxs.len() ==> (#[trigger] ctxs[k]).tree < config.trees@.len()
                    && runtime::glob_matches(p, config.trees@[ctxs[k].tree as int].name@)
                    && ctxs[k].garden is None && ctxs[k].group is None)
            &&& (forall|k: int, l: int| 0 <= k < l < ctxs.len() ==> (#[trigger] ctxs[k]).tree < (
            #[trigger] ctxs[l]).tree)
            &&& (forall|i: int|
                0 <= i < config.trees@.len() && runtime::glob_matches(
                    p,
                    (#[trigger] config.trees@[i]).name@,
                ) ==> exists|k: int| 0 <= k < ctxs.len() && (#[trigger] ctxs[k]).tree == i)
        },
{
    let q = match TreeQuery::new(query) {
        Ok(q) => q,
        Err(e) => {
            return Err(e);
        },
    };
    if q.include_gardens && any_garden_matches(config, q.pattern.as_str()) {
        return resolve_gardens(config, q.pattern.as_str());
    }
    if q.include_groups && any_group_matches(config, q.pattern.as_str()) {
        return resolve_groups(config, q.pattern.as_str());
    }
    if q.include_trees {
        return Ok(resolve_trees_only(config, q.pattern.as_str()));
    }
    Ok(Vec::new())
}

/// Some tree carries this exact name.
pub open spec fn tree_named(c: Configuration, name: Seq<char>) -> bool {
    exists|ti: int| 0 <= ti < c.trees@.len() && (#[trigger] c.trees@[ti]).name@ == name
}

/// The first garden with this name lists the tree among its members.
pub open spec fn garden_lists_tree(c: Configuration, gname: Seq<char>, tname: Seq<char>) -> bool {
    exists|gi: int|
        0 <= gi < c.gardens@.len() && (#[trigger] c.gardens@[gi]).name@ == gname && (forall|j: int|
            0 <= j < gi ==> (#[trigger] c.gardens@[j]).name@ != gname) && (exists|m: int|
            0 <= m < c.gardens@[gi].trees@.len() && (#[trigger] c.gardens@[gi].trees@[m])@ == tname)
}

/// Point lookup for single-tree operations.  Without a garden name the
/// first declared tree with the given name wins; with one, membership is
/// restricted to that garden's member list.  `NotFound` when nothing
/// matches.
#[verifier::loop_isolation(false)]
pub fn find_tree(config: &Configuration, tree_name: &str, garden_name: Option<&str>) -> (r: Result<
    TreeContext,
    GardenError,
>)
    ensures
        r is Ok ==> ctx_valid(*config, r->Ok_0),
        r is Ok ==> config.trees@[r->Ok_0.tree as int].name@ == tree_name@,
        garden_name is None ==> ((r is Ok) <==> exists|i: int|
            0 <= i < config.trees@.len() && (#[trigger] config.trees@[i]).name@ == tree_name@),
        garden_name is None && r is Ok ==> r->Ok_0.garden is None,
        garden_name is Some && r is Ok ==> r->Ok_0.garden is Some
            && config.gardens@[r->Ok_0.garden->0 as int].name@ == garden_name->0@,
        garden_name is Some ==> ((r is Ok) <==> garden_lists_tree(
            *config,
            garden_name->0@,
            tree_name@,
        ) && tree_named(*config, tree_name@)),
        r is Err ==> r->Err_0 is NotFound,
{
    match garden_name {
        None => {
            match find_tree_index(config, tree_name) {
                Some(tidx) => Ok(TreeContext { tree: tidx, garden: None, group: None }),
                None => Err(GardenError::NotFound),
            }
        },
        Some(gname) => {
            let gidx = match find_garden_index(config, gname) {
                Some(g) => g,
                None => {
                    proof {
                        if garden_lists_tree(*config, gname@, tree_name@) {
                            let gi = choose|gi: int|
                                0 <= gi < config.gardens@.len() && (
                                #[trigger] config.gardens@[gi]).name@ == gname@ && (forall|j: int|
                                    0 <= j < gi ==> (#[trigger] config.gardens@[j]).name@ != gname@)
                                    && (exists|m: int|
                                    0 <= m < config.gardens@[gi].trees@.len() && (
                                    #[trigger] config.gardens@[gi].trees@[m])@ == tree_name@);
                            assert(config.gardens@[gi].name@ != gname@);
                        }
                    }
                    return Err(GardenError::NotFound);
                },
            };
            let n = config.gardens[gidx].trees.len();
            let mut i: usize = 0;
            while i < n
                invariant
                    gidx < config.gardens@.len(),
                    config.gardens@[gidx as int].name@ == gname@,
                    forall|j: int|
                        0 <= j < gidx ==> (#[trigger] config.gardens@[j]).name@ != gname@,
                    n == config.gardens@[gidx as int].trees@.len(),
                    0 <= i <= n,
                    tree_named(*config, tree_name@) ==> forall|j: int|
                        0 <= j < i ==> (#[trigger] config.gardens@[gidx as int].trees@[j])@
                            != tree_name@,
                decreases n - i,
            {
                if s_eq(config.gardens[gidx].trees[i].as_str(), tree_name) {
                    if let Some(tidx) = find_tree_index(config, tree_name) {
                        proof {
                            assert(config.gardens@[gidx as int].trees@[i as int]@ == tree_name@);
                            assert(garden_lists_tree(*config, gname@, tree_name@));
                            assert(config.trees@[tidx as int].name@ == tree_name@);
                            assert(tree_named(*config, tree_name@));
                        }
                        return Ok(TreeContext { tree: tidx, garden: Some(gidx), group: None });
                    }
                }
                i += 1;
            }
            proof {
                if garden_lists_tree(*config, gname@, tree_name@) && tree_named(
                    *config,
                    tree_name@,
                ) {
                    let gi = choose|gi: int|
                        0 <= gi < config.gardens@.len() && (#[trigger] config.gardens@[gi]).name@
                            == gname@ && (forall|j: int|
                            0 <= j < gi ==> (#[trigger] config.gardens@[j]).name@ != gname@) && (
                        exists|m: int|
                            0 <= m < config.gardens@[gi].trees@.len() && (
                            #[trigger] config.gardens@[gi].trees@[m])@ == tree_name@);
                    if gi < gidx as int {
                        assert(config.gardens@[gi].name@ != gname@);
                        assert(false);
                    }
                    if (gidx as int) < gi {
                        assert(config.gardens@[gidx as int].name@ != gname@);
                        assert(false);
                    }
                    let m = choose|m: int|
                        0 <= m < config.gardens@[gi].trees@.len() && (
                        #[trigger] config.gardens@[gi].trees@[m])@ == tree_name@;
                    assert(config.gardens@[gidx as int].trees@[m]@ != tree_name@);
                    assert(false);
                }
            }
            Err(GardenError::NotFound)
        },
    }
}

} // verus!
