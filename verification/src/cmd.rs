//! The execution orchestrator: drive the resolved contexts and requested
//! command names in depth-first or breadth-first order, spawn each
//! resolved shell command, and aggregate a final exit status under the
//! keep-going policy.
//!
//! Execution is strictly sequential.  With keep-going disabled the first
//! failing invocation stops the whole run and its status is the result;
//! with it enabled the run continues and the status of the last failing
//! invocation wins.  Caches are reset before each command name is
//! evaluated, so no resolved value leaks across command or tree
//! boundaries.

use vstd::prelude::*;
use vstd::seq_lib::lemma_multiset_commutative;
use vstd::string::StringExecFns;

use crate::errors::EX_IOERR;
use crate::errors::EX_OK;
use crate::errors::GardenError;
use crate::eval;
use crate::model::ApplicationContext;
use crate::model::TreeContext;
use crate::model::print_tree;
use crate::model::s_eq;
use crate::query;
use crate::runtime;

verus! {

// --- argument splitting ----------------------------------------------------

/// Index of the first double-dash separator, or the length when there is
/// none.
pub open spec fn dash_idx(vs: Seq<Seq<char>>) -> nat
    decreases vs.len(),
{
    if vs.len() == 0 {
        0
    } else if vs[0] == "--"@ {
        0
    } else {
        1 + dash_idx(vs.drop_first())
    }
}

proof fn lemma_dash_idx_at(vs: Seq<Seq<char>>, j: int)
    requires
        0 <= j < vs.len(),
        vs[j] == "--"@,
        forall|k: int| 0 <= k < j ==> vs[k] != "--"@,
    ensures
        dash_idx(vs) == j,
    decreases j,
{
    if j > 0 {
        lemma_dash_idx_at(vs.drop_first(), j - 1);
    }
}

proof fn lemma_dash_idx_none(vs: Seq<Seq<char>>)
    requires
        forall|k: int| 0 <= k < vs.len() ==> vs[k] != "--"@,
    ensures
        dash_idx(vs) == vs.len(),
    decreases vs.len(),
{
    if vs.len() > 0 {
        lemma_dash_idx_none(vs.drop_first());
    }
}

/// The views of a list of strings.
pub open spec fn views_of(v: Seq<String>) -> Seq<Seq<char>> {
    v.map_values(|s: String| s@)
}

/// Split a word list at the first double-dash marker: everything before
/// it lands in `commands`, everything after it in `arguments`.
#[verifier::loop_isolation(false)]
pub fn split_on_dash(args: &Vec<String>, commands: &mut Vec<String>, arguments: &mut Vec<String>)
    ensures
        views_of(final(commands)@) == views_of(args@).take(dash_idx(views_of(args@)) as int),
        views_of(final(arguments)@) == (if dash_idx(views_of(args@)) < views_of(args@).len() {
            views_of(args@).skip(dash_idx(views_of(args@)) as int + 1)
        } else {
            Seq::<Seq<char>>::empty()
        }),
{
    proof {
        reveal_strlit("--");
    }
    let ghost vs = views_of(args@);
    commands.clear();
    arguments.clear();
    let n = args.len();
    let mut i: usize = 0;
    let mut seen = false;
    let ghost mut cut: int = n as int;
    while i < n
        invariant
            n == args@.len() == vs.len(),
            0 <= i <= n,
            vs == views_of(args@),
            !seen ==> cut == n as int && commands@.len() == i && arguments@.len() == 0 && (
            forall|k: int| 0 <= k < i ==> vs[k] != "--"@),
            seen ==> 0 <= cut < i && vs[cut] == "--"@ && (forall|k: int|
                0 <= k < cut ==> vs[k] != "--"@) && commands@.len() == cut && arguments@.len() == i
                - cut - 1,
            forall|k: int| 0 <= k < commands@.len() ==> (#[trigger] commands@[k])@ == vs[k],
            forall|k: int|
                0 <= k < arguments@.len() ==> (#[trigger] arguments@[k])@ == vs[cut + 1 + k],
        decreases n - i,
    {
        if !seen && s_eq(args[i].as_str(), "--") {
            seen = true;
            proof {
                cut = i as int;
            }
        } else if !seen {
            commands.push(args[i].clone());
        } else {
            arguments.push(args[i].clone());
        }
        i += 1;
    }
    proof {
        if seen {
            lemma_dash_idx_at(vs, cut);
        } else {
            lemma_dash_idx_none(vs);
        }
        assert(views_of(commands@) =~= vs.take(dash_idx(vs) as int));
        if dash_idx(vs) < vs.len() {
            assert(views_of(arguments@) =~= vs.skip(dash_idx(vs) as int + 1));
        } else {
            assert(views_of(arguments@) =~= Seq::<Seq<char>>::empty());
        }
    }
}

// --- status aggregation ----------------------------------------------------

/// The status recorded after one invocation: a failure overwrites the
/// running status, a success leaves it alone (last failure wins).
pub open spec fn spec_next_exit_status(current: i32, status: i32) -> i32 {
    if status != EX_OK {
        status
    } else {
        current
    }
}

/// Record one invocation's status over the running status.
pub fn next_exit_status(current: i32, status: i32) -> (r: i32)
    ensures
        r == spec_next_exit_status(current, status),
{
    if status != EX_OK {
        status
    } else {
        current
    }
}

/// The status of one spawn outcome: the process status when it ran, or
/// the input/output failure code when it could not be spawned.
pub open spec fn spec_run_status(o: Option<(Option<u32>, Option<i32>)>) -> i32 {
    match o {
        Some((code, signal)) => eval::spec_exec_status(code, signal),
        None => EX_IOERR,
    }
}

/// Condense one spawn outcome into a status number.
pub fn run_status(o: Option<(Option<u32>, Option<i32>)>) -> (r: i32)
    ensures
        r == spec_run_status(o),
{
    match o {
        Some((code, signal)) => eval::exec_status(code, signal),
        None => EX_IOERR,
    }
}

// --- the two traversal orders ----------------------------------------------

/// The invocations of one context across the command names.
pub open spec fn row_pairs(c: int, nk: int) -> Seq<(int, int)> {
    Seq::new(nk as nat, |k: int| (c, k))
}

/// The invocations of one command name across the contexts.
pub open spec fn col_pairs(nc: int, k: int) -> Seq<(int, int)> {
    Seq::new(nc as nat, |c: int| (c, k))
}

/// Depth-first traversal: contexts outermost, so every command name
/// finishes in one tree before the next tree starts.
pub open spec fn depth_first_plan(nc: int, nk: int) -> Seq<(int, int)>
    decreases nc,
{
    if nc <= 0 {
        Seq::empty()
    } else {
        depth_first_plan(nc - 1, nk) + row_pairs(nc - 1, nk)
    }
}

/// Breadth-first traversal: command names outermost, so one command runs
/// across every tree before the next command name starts.
pub open spec fn breadth_first_plan(nc: int, nk: int) -> Seq<(int, int)>
    decreases nk,
{
    if nk <= 0 {
        Seq::empty()
    } else {
        breadth_first_plan(nc, nk - 1) + col_pairs(nc, nk - 1)
    }
}

proof fn lemma_breadth_plan_empty(nk: int)
    ensures
        breadth_first_plan(0, nk).to_multiset() == Seq::<(int, int)>::empty().to_multiset(),
        breadth_first_plan(0, nk).len() == 0,
    decreases nk,
{
    if nk > 0 {
        lemma_breadth_plan_empty(nk - 1);
        assert(col_pairs(0, nk - 1) =~= Seq::<(int, int)>::empty());
        assert(breadth_first_plan(0, nk) =~= breadth_first_plan(0, nk - 1));
    }
}

proof fn lemma_breadth_plan_peel(nc: int, nk: int)
    requires
        nc > 0,
        nk >= 0,
    ensures
        breadth_first_plan(nc, nk).to_multiset() == breadth_first_plan(nc - 1, nk).to_multiset().add(
            row_pairs(nc - 1, nk).to_multiset(),
        ),
        breadth_first_plan(nc, nk).len() == breadth_first_plan(nc - 1, nk).len() + nk,
    decreases nk,
{
    broadcast use vstd::seq_lib::group_to_multiset_ensures;

    if nk <= 0 {
        assert(row_pairs(nc - 1, 0) =~= Seq::<(int, int)>::empty());
        assert(breadth_first_plan(nc, nk).to_multiset() =~= breadth_first_plan(
            nc - 1,
            nk,
        ).to_multiset().add(row_pairs(nc - 1, nk).to_multiset()));
    } else {
        lemma_breadth_plan_peel(nc, nk - 1);
        lemma_multiset_commutative(breadth_first_plan(nc, nk - 1), col_pairs(nc, nk - 1));
        lemma_multiset_commutative(breadth_first_plan(nc - 1, nk - 1), col_pairs(nc - 1, nk - 1));
        assert(col_pairs(nc, nk - 1) =~= col_pairs(nc - 1, nk - 1).push((nc - 1, nk - 1)));
        assert(row_pairs(nc - 1, nk) =~= row_pairs(nc - 1, nk - 1).push((nc - 1, nk - 1)));
        assert(col_pairs(nc, nk - 1).to_multiset() =~= col_pairs(nc - 1, nk - 1).to_multiset().insert(
            (nc - 1, nk - 1),
        ));
        assert(row_pairs(nc - 1, nk).to_multiset() =~= row_pairs(nc - 1, nk - 1).to_multiset().insert(
            (nc - 1, nk - 1),
        ));
        assert(breadth_first_plan(nc, nk).to_multiset() =~= breadth_first_plan(
            nc - 1,
            nk,
        ).to_multiset().add(row_pairs(nc - 1, nk).to_multiset()));
    }
}

/// Depth-first and breadth-first traversal over the same contexts and
/// command names visit the same set of invocations: the two plans are
/// equal as multisets (and so of equal length), differing only in order.
pub proof fn lemma_traversal_plans_equal(nc: int, nk: int)
    requires
        nc >= 0,
        nk >= 0,
    ensures
        depth_first_plan(nc, nk).to_multiset() == breadth_first_plan(nc, nk).to_multiset(),
        depth_first_plan(nc, nk).len() == breadth_first_plan(nc, nk).len(),
    decreases nc,
{
    broadcast use vstd::seq_lib::group_to_multiset_ensures;

    if nc == 0 {
        lemma_breadth_plan_empty(nk);
        assert(depth_first_plan(0, nk).to_multiset() =~= breadth_first_plan(0, nk).to_multiset());
    } else {
        lemma_traversal_plans_equal(nc - 1, nk);
        lemma_breadth_plan_peel(nc, nk);
        lemma_multiset_commutative(depth_first_plan(nc - 1, nk), row_pairs(nc - 1, nk));
        assert(depth_first_plan(nc, nk).to_multiset() =~= breadth_first_plan(nc, nk).to_multiset());
    }
}

// --- running ---------------------------------------------------------------

/// The configuration is ready to run: the root and every tree path are
/// resolved.
pub open spec fn config_runnable(c: crate::model::Configuration) -> bool {
    &&& c.root.value is Some
    &&& forall|i: int| 0 <= i < c.trees@.len() ==> (#[trigger] c.trees@[i]).path.value is Some
}

/// Run one resolved command sequence in a tree: each step in order, in
/// the tree's directory with the resolved environment, stopping the
/// sequence at its first failing step.  Reports the last recorded status
/// and whether this sequence failed.
#[verifier::loop_isolation(false)]
fn run_sequence(
    seq_cmds: &Vec<String>,
    path: &str,
    current_exe: &str,
    arguments: &Vec<String>,
    env: &Vec<(String, String)>,
    verbose: bool,
    exit_status: i32,
) -> (r: (i32, bool))
    ensures
        !r.1 ==> r.0 == exit_status,
        r.1 ==> r.0 != EX_OK,
{
    let mut status = exit_status;
    let n = seq_cmds.len();
    for i in 0..n
        invariant
            n == seq_cmds@.len(),
            status == exit_status,
    {
        let cmd_str = seq_cmds[i].as_str();
        if verbose {
            runtime::print_line(cmd_str);
        }
        let outcome = runtime::shell_run(cmd_str, path, current_exe, arguments, env);
        let st = run_status(outcome);
        if st != EX_OK {
            status = next_exit_status(status, st);
            return (status, true);
        }
    }
    (status, false)
}

/// Run one (context, command name) cell: evaluate the environment and
/// the command sequences, reset the caches, and run each sequence.
/// Returns the updated status and whether anything failed.
#[verifier::loop_isolation(false)]
fn run_cell(
    app: &mut ApplicationContext,
    quiet: bool,
    verbose: bool,
    context: &TreeContext,
    name: &str,
    arguments: &Vec<String>,
    exit_status: i32,
) -> (r: Result<(i32, bool), GardenError>)
    requires
        config_runnable(old(app).config),
        context.tree < old(app).config.trees@.len(),
        context.garden is Some ==> context.garden->0 < old(app).config.gardens@.len(),
    ensures
        config_runnable(final(app).config),
        final(app).config.trees@.len() == old(app).config.trees@.len(),
        final(app).config.gardens@.len() == old(app).config.gardens@.len(),
        final(app).options == old(app).options,
        r is Err ==> (r->Err_0 is CyclicDefinition || r->Err_0 is ExecutionFailure),
        r is Ok ==> (!r->Ok_0.1 ==> r->Ok_0.0 == exit_status) && (r->Ok_0.1 ==> r->Ok_0.0
            != EX_OK),
        r is Ok ==> crate::model::caches_reset(final(app).config),
{
    let env = match eval::environment(&mut app.config, context) {
        Ok(env) => env,
        Err(e) => {
            return Err(e);
        },
    };
    let path = app.config.trees[context.tree].path.value.as_ref().unwrap().clone();
    let cmd_seq_vec = match eval::command(&mut app.config, context, name) {
        Ok(v) => v,
        Err(e) => {
            return Err(e);
        },
    };
    app.config.reset();
    let mut status = exit_status;
    let mut error = false;
    let n = cmd_seq_vec.len();
    for i in 0..n
        invariant
            n == cmd_seq_vec@.len(),
            config_runnable(app.config),
            app.config.trees@.len() == old(app).config.trees@.len(),
            app.config.gardens@.len() == old(app).config.gardens@.len(),
            app.options == old(app).options,
            crate::model::caches_reset(app.config),
            !error && status == exit_status,
    {
        let (st, err) = run_sequence(
            &cmd_seq_vec[i],
            path.as_str(),
            app.options.current_exe.as_str(),
            arguments,
            &env,
            verbose,
            status,
        );
        status = st;
        if err {
            error = true;
            return Ok((status, true));
        }
    }
    Ok((status, error))
}

/// Depth-first run: every command name finishes in one tree before the
/// next tree starts.  Symlink trees and trees whose path is missing on
/// disk are skipped without affecting the error state.  With keep-going
/// disabled the first failure stops the whole run; the result is the
/// status of the last failing invocation, or success when none failed.
///
/// A configuration with an unresolved tree path is excluded by the
/// `config_runnable` requires rather than reported as an error:
/// `initialize` resolves every tree path and establishes it.
#[verifier::loop_isolation(false)]
pub fn run_cmd_depth_first(
    app: &mut ApplicationContext,
    quiet: bool,
    verbose: bool,
    keep_going: bool,
    contexts: &Vec<TreeContext>,
    commands: &Vec<String>,
    arguments: &Vec<String>,
) -> (r: Result<i32, GardenError>)
    requires
        config_runnable(old(app).config),
        query::ctxs_valid(old(app).config, contexts@),
    ensures
        config_runnable(final(app).config),
        r is Err ==> (r->Err_0 is CyclicDefinition || r->Err_0 is ExecutionFailure),
        contexts@.len() == 0 ==> r == Ok::<i32, GardenError>(EX_OK),
        commands@.len() == 0 ==> r == Ok::<i32, GardenError>(EX_OK),
        (forall|k: int|
            0 <= k < contexts@.len() ==> old(app).config.trees@[(
            #[trigger] contexts@[k]).tree as int].is_symlink) ==> r == Ok::<i32, GardenError>(
            EX_OK,
        ) && *final(app) == *old(app),
{
    let ghost all_symlink = forall|k: int|
        0 <= k < contexts@.len() ==> old(app).config.trees@[(
        #[trigger] contexts@[k]).tree as int].is_symlink;
    let mut exit_status: i32 = EX_OK;
    let nc = contexts.len();
    for ci in 0..nc
        invariant
            nc == contexts@.len(),
            config_runnable(app.config),
            app.config.trees@.len() == old(app).config.trees@.len(),
            app.config.gardens@.len() == old(app).config.gardens@.len(),
            app.options == old(app).options,
            nc == 0 || commands@.len() == 0 ==> exit_status == EX_OK,
            all_symlink ==> *app == *old(app) && exit_status == EX_OK,
    {
        let context = contexts[ci];
        proof {
            if all_symlink {
                assert(old(app).config.trees@[contexts@[ci as int].tree as int].is_symlink);
            }
        }
        if !app.config.trees[context.tree].is_symlink {
            if print_tree(&app.config.trees[context.tree], verbose, quiet) {
                let mut error = false;
                let nk = commands.len();
                for ki in 0..nk
                    invariant
                        nk == commands@.len(),
                        nc == contexts@.len(),
                        0 <= ci < nc,
                        config_runnable(app.config),
                        app.config.trees@.len() == old(app).config.trees@.len(),
                        app.config.gardens@.len() == old(app).config.gardens@.len(),
                        app.options == old(app).options,
                        nk == 0 ==> exit_status == EX_OK,
                {
                    let res = run_cell(
                        app,
                        quiet,
                        verbose,
                        &context,
                        commands[ki].as_str(),
                        arguments,
                        exit_status,
                    );
                    match res {
                        Ok((st, err)) => {
                            exit_status = st;
                            error = err;
                        },
                        Err(e) => {
                            return Err(e);
                        },
                    }
                    if error && !keep_going {
                        return Ok(exit_status);
                    }
                }
            }
        }
    }
    Ok(exit_status)
}

/// Breadth-first run: one command name runs across every tree before the
/// next command name starts.  The skip and keep-going rules are those of
/// the depth-first run; only the visiting order differs.
#[verifier::loop_isolation(false)]
pub fn run_cmd_breadth_first(
    app: &mut ApplicationContext,
    quiet: bool,
    verbose: bool,
    keep_going: bool,
    contexts: &Vec<TreeContext>,
    commands: &Vec<String>,
    arguments: &Vec<String>,
) -> (r: Result<i32, GardenError>)
    requires
        config_runnable(old(app).config),
        query::ctxs_valid(old(app).config, contexts@),
    ensures
        config_runnable(final(app).config),
        r is Err ==> (r->Err_0 is CyclicDefinition || r->Err_0 is ExecutionFailure),
        commands@.len() == 0 ==> r == Ok::<i32, GardenError>(EX_OK),
        contexts@.len() == 0 ==> r == Ok::<i32, GardenError>(EX_OK),
        (forall|k: int|
            0 <= k < contexts@.len() ==> old(app).config.trees@[(
            #[trigger] contexts@[k]).tree as int].is_symlink) ==> r == Ok::<i32, GardenError>(
            EX_OK,
        ) && *final(app) == *old(app),
{
    let ghost all_symlink = forall|k: int|
        0 <= k < contexts@.len() ==> old(app).config.trees@[(
        #[trigger] contexts@[k]).tree as int].is_symlink;
    let mut exit_status: i32 = EX_OK;
    let nk = commands.len();
    for ki in 0..nk
        invariant
            nk == commands@.len(),
            config_runnable(app.config),
            app.config.trees@.len() == old(app).config.trees@.len(),
            app.config.gardens@.len() == old(app).config.gardens@.len(),
            app.options == old(app).options,
            nk == 0 || contexts@.len() == 0 ==> exit_status == EX_OK,
            all_symlink ==> *app == *old(app) && exit_status == EX_OK,
    {
        let mut error = false;
        let nc = contexts.len();
        for ci in 0..nc
            invariant
                nc == contexts@.len(),
                nk == commands@.len(),
                0 <= ki < nk,
                config_runnable(app.config),
                app.config.trees@.len() == old(app).config.trees@.len(),
                app.config.gardens@.len() == old(app).config.gardens@.len(),
                app.options == old(app).options,
                nc == 0 ==> !error && exit_status == EX_OK,
                all_symlink ==> *app == *old(app) && !error && exit_status == EX_OK,
        {
            let context = contexts[ci];
            proof {
                if all_symlink {
                    assert(old(app).config.trees@[contexts@[ci as int].tree as int].is_symlink);
                }
            }
            error = false;
            if !app.config.trees[context.tree].is_symlink {
                if print_tree(&app.config.trees[context.tree], verbose, quiet) {
                    let res = run_cell(
                        app,
                        quiet,
                        verbose,
                        &context,
                        commands[ki].as_str(),
                        arguments,
                        exit_status,
                    );
                    match res {
                        Ok((st, err)) => {
                            exit_status = st;
                            error = err;
                        },
                        Err(e) => {
                            return Err(e);
                        },
                    }
                    if error && !keep_going {
                        return Ok(exit_status);
                    }
                }
            }
        }
        if error && !keep_going {
            return Ok(exit_status);
        }
    }
    Ok(exit_status)
}

/// Resolve a query to contexts and run the command names across them in
/// the requested traversal order.  A malformed query pattern is a parse
/// error; cyclic group memberships and cyclic variable definitions abort
/// the run before or during evaluation.
pub fn cmd(
    app: &mut ApplicationContext,
    quiet: bool,
    verbose: bool,
    breadth_first: bool,
    keep_going: bool,
    query_str: &str,
    commands: &Vec<String>,
    arguments: &Vec<String>,
) -> (r: Result<i32, GardenError>)
    requires
        config_runnable(old(app).config),
    ensures
        config_runnable(final(app).config),
        !runtime::glob_pattern_ok(crate::syntax::spec_trim(query_str@)) <==> r == Err::<
            i32,
            GardenError,
        >(GardenError::ParseError),
        r is Err ==> (r->Err_0 is ParseError || r->Err_0 is CyclicGroupMembership || r->Err_0
            is CyclicDefinition || r->Err_0 is ExecutionFailure),
        runtime::glob_pattern_ok(crate::syntax::spec_trim(query_str@)) && old(
            app,
        ).config.groups@.len() == 0 && (forall|i: int|
            0 <= i < old(app).config.trees@.len() ==> (#[trigger] old(app).config.trees@[i]).is_symlink)
            ==> r == Ok::<i32, GardenError>(EX_OK) && *final(app) == *old(app),
{
    let contexts = match query::resolve_trees(&app.config, query_str) {
        Ok(c) => c,
        Err(e) => {
            return Err(e);
        },
    };
    proof {
        if forall|i: int|
            0 <= i < app.config.trees@.len() ==> (#[trigger] app.config.trees@[i]).is_symlink {
            assert forall|k: int| 0 <= k < contexts@.len() implies app.config.trees@[(
            #[trigger] contexts@[k]).tree as int].is_symlink by {
                assert(query::ctx_valid(app.config, contexts@[k]));
            }
        }
    }
    if breadth_first {
        run_cmd_breadth_first(app, quiet, verbose, keep_going, &contexts, commands, arguments)
    } else {
        run_cmd_depth_first(app, quiet, verbose, keep_going, &contexts, commands, arguments)
    }
}

/// Run one custom command name over a list of tree queries, visiting
/// each query's trees breadth-first.  A query that fails to run at all
/// records an input/output failure status; the final status is the last
/// failing query's, subject to keep-going.  The aggregate comes back as
/// the plain exit status; the embedding program turns a non-zero status
/// into its process exit code.
#[verifier::loop_isolation(false)]
pub fn cmds(
    app: &mut ApplicationContext,
    quiet: bool,
    verbose: bool,
    keep_going: bool,
    command: &str,
    queries: &Vec<String>,
    arguments: &Vec<String>,
) -> (r: i32)
    requires
        config_runnable(old(app).config),
    ensures
        config_runnable(final(app).config),
        queries@.len() == 0 ==> r == EX_OK,
        queries@.len() > 0 && !runtime::glob_pattern_ok(crate::syntax::spec_trim(queries@[0]@))
            && !keep_going ==> r == EX_IOERR,
        keep_going && queries@.len() > 0 && !runtime::glob_pattern_ok(
            crate::syntax::spec_trim(queries@[queries@.len() - 1]@),
        ) ==> r == EX_IOERR,
{
    let mut exit_status: i32 = EX_OK;
    let commands: Vec<String> = vec![String::from_str(command)];
    let n = queries.len();
    for qi in 0..n
        invariant
            n == queries@.len(),
            config_runnable(app.config),
            n == 0 ==> exit_status == EX_OK,
            n > 0 && !runtime::glob_pattern_ok(crate::syntax::spec_trim(queries@[0]@))
                && !keep_going ==> qi == 0,
            keep_going && n > 0 && !runtime::glob_pattern_ok(
                crate::syntax::spec_trim(queries@[n - 1]@),
            ) && qi == n ==> exit_status == EX_IOERR,
    {
        let status = match cmd(
            app,
            quiet,
            verbose,
            true,
            keep_going,
            queries[qi].as_str(),
            &commands,
            arguments,
        ) {
            Ok(st) => st,
            Err(_) => EX_IOERR,
        };
        if status != EX_OK {
            exit_status = status;
            if !keep_going {
                return exit_status;
            }
        }
    }
    exit_status
}

/// Run a custom command over the given queries; with none, the query
/// defaults to the current directory.
pub fn custom(
    app: &mut ApplicationContext,
    command: &str,
    queries: &Vec<String>,
    arguments: &Vec<String>,
) -> (r: i32)
    requires
        config_runnable(old(app).config),
    ensures
        config_runnable(final(app).config),
        queries@.len() > 0 && !runtime::glob_pattern_ok(crate::syntax::spec_trim(queries@[0]@))
            && !old(app).options.keep_going ==> r == EX_IOERR,
        old(app).options.keep_going && queries@.len() > 0 && !runtime::glob_pattern_ok(
            crate::syntax::spec_trim(queries@[queries@.len() - 1]@),
        ) ==> r == EX_IOERR,
{
    let quiet = app.options.quiet;
    let verbose = app.options.verbose;
    let keep_going = app.options.keep_going;
    if queries.len() == 0 {
        let mut defaulted: Vec<String> = Vec::new();
        defaulted.push(String::from_str("."));
        cmds(app, quiet, verbose, keep_going, command, &defaulted, arguments)
    } else {
        cmds(app, quiet, verbose, keep_going, command, queries, arguments)
    }
}

} // verus!
