//! The variable evaluator: a small template language with `${name}`
//! placeholders, lazily-demanded scope-chained lookup with memoization and
//! cycle detection, and exec expressions whose value is the captured
//! output of a shell command.
//!
//! An expression is an *exec template* when it starts with the reserved
//! marker `"$ "` (dollar sign, space): its placeholders are substituted
//! first, then the remainder runs as a shell command and its trimmed
//! standard output becomes the value.  Any other expression is a *literal
//! template*: placeholders are substituted and the result is the value.

use vstd::prelude::*;
use vstd::string::StrSliceExecFns;
use vstd::string::StringExecFns;

use crate::errors::EX_IOERR;
use crate::errors::GardenError;
use crate::model::Configuration;
use crate::model::Garden;
use crate::model::Tree;
use crate::model::MultiVariable;
use crate::model::NamedValue;
use crate::model::NamedVariable;
use crate::model::TreeContext;
use crate::runtime;

verus! {

// --- the surface forms -----------------------------------------------------

/// An exec template: marked by a leading dollar sign and space.
pub open spec fn spec_is_exec(s: Seq<char>) -> bool {
    s.len() >= 2 && s[0] == '$' && s[1] == ' '
}

/// The shell text of an exec template: everything after the marker.
pub open spec fn spec_exec_body(s: Seq<char>) -> Seq<char> {
    s.skip(2)
}

/// True when the expression starts with the exec marker.
pub fn is_exec_expr(expr: &str) -> (r: bool)
    ensures
        r == spec_is_exec(expr@),
{
    let n = expr.unicode_len();
    n >= 2 && expr.get_char(0) == '$' && expr.get_char(1) == ' '
}

// --- placeholder scanning --------------------------------------------------

/// Index of the first closing brace, or the length when there is none.
pub open spec fn close_idx(s: Seq<char>) -> nat
    decreases s.len(),
{
    if s.len() == 0 {
        0
    } else if s[0] == '}' {
        0
    } else {
        1 + close_idx(s.drop_first())
    }
}

/// The string starts with a complete `${name}` placeholder.
pub open spec fn placeholder_head(s: Seq<char>) -> bool {
    s.len() >= 2 && s[0] == '$' && s[1] == '{' && close_idx(s.skip(2)) < s.len() - 2
}

/// The placeholder names occurring in the string, leftmost first.
pub open spec fn spec_names(s: Seq<char>) -> Seq<Seq<char>>
    decreases s.len(),
{
    if s.len() == 0 {
        Seq::empty()
    } else if placeholder_head(s) {
        let rest = s.skip(2);
        let j = close_idx(rest);
        seq![rest.take(j as int)] + spec_names(rest.skip(j as int + 1))
    } else {
        spec_names(s.drop_first())
    }
}

/// The string with its k-th placeholder replaced by the k-th value; a
/// placeholder beyond the value list becomes empty.
pub open spec fn subst_pos(s: Seq<char>, vals: Seq<Seq<char>>) -> Seq<char>
    decreases s.len(),
{
    if s.len() == 0 {
        Seq::empty()
    } else if placeholder_head(s) {
        let rest = s.skip(2);
        let j = close_idx(rest);
        let head = if vals.len() > 0 {
            vals[0]
        } else {
            Seq::empty()
        };
        let tail = if vals.len() > 0 {
            vals.drop_first()
        } else {
            vals
        };
        head + subst_pos(rest.skip(j as int + 1), tail)
    } else {
        seq![s[0]] + subst_pos(s.drop_first(), vals)
    }
}

/// The first closing brace is where the scan found it.
proof fn lemma_close_idx_at(s: Seq<char>, j: int)
    requires
        0 <= j < s.len(),
        s[j] == '}',
        forall|k: int| 0 <= k < j ==> s[k] != '}',
    ensures
        close_idx(s) == j,
    decreases j,
{
    if j == 0 {
    } else {
        lemma_close_idx_at(s.drop_first(), j - 1);
    }
}

/// Without a closing brace the scan runs to the end.
proof fn lemma_close_idx_none(s: Seq<char>)
    requires
        forall|k: int| 0 <= k < s.len() ==> s[k] != '}',
    ensures
        close_idx(s) == s.len(),
    decreases s.len(),
{
    if s.len() > 0 {
        lemma_close_idx_none(s.drop_first());
    }
}

/// Collect the placeholder names of an expression, leftmost first.
#[verifier::rlimit(100)]
#[verifier::spinoff_prover]
pub fn collect_names(expr: &str) -> (r: Vec<String>)
    ensures
        r@.len() == spec_names(expr@).len(),
        forall|k: int| 0 <= k < r@.len() ==> r@[k]@ == spec_names(expr@)[k],
{
    let n = expr.unicode_len();
    let mut names: Vec<String> = Vec::new();
    let mut i: usize = 0;
    proof {
        assert(expr@.skip(0) =~= expr@);
        assert(names@.map_values(|s: String| s@) + spec_names(expr@) =~= spec_names(expr@));
    }
    while i < n
        invariant
            n == expr@.len(),
            0 <= i <= n,
            spec_names(expr@) == names@.map_values(|s: String| s@) + spec_names(expr@.skip(i as int)),
        decreases n - i,
    {
        let ghost suffix = expr@.skip(i as int);
        let c = expr.get_char(i);
        let mut is_ph = false;
        let mut close: usize = 0;
        if c == '$' && i + 1 < n && expr.get_char(i + 1) == '{' {
            let mut j = i + 2;
            while j < n && expr.get_char(j) != '}'
                invariant
                    n == expr@.len(),
                    i + 2 <= j <= n,
                    forall|k: int| i + 2 <= k < j ==> expr@[k] != '}',
                decreases n - j,
            {
                j += 1;
            }
            if j < n {
                is_ph = true;
                close = j;
                proof {
                    assert forall|k: int| 0 <= k < close - i - 2 implies suffix.skip(2)[k] != '}' by {
                        assert(suffix.skip(2)[k] == expr@[i + 2 + k]);
                    }
                    assert(suffix.skip(2)[close - i - 2] == expr@[close as int]);
                    lemma_close_idx_at(suffix.skip(2), close - i - 2);
                }
            } else {
                proof {
                    assert forall|k: int| 0 <= k < suffix.skip(2).len() implies suffix.skip(2)[k]
                        != '}' by {
                        assert(suffix.skip(2)[k] == expr@[i + 2 + k]);
                    }
                    lemma_close_idx_none(suffix.skip(2));
                    assert(!placeholder_head(suffix));
                }
            }
        }
        if is_ph {
            proof {
                assert(suffix[0] == '$' && suffix[1] == '{');
                assert(placeholder_head(suffix));
            }
            let name = expr.substring_char(i + 2, close);
            proof {
                assert(name@ =~= suffix.skip(2).take(close_idx(suffix.skip(2)) as int));
                assert(suffix.skip(2).skip(close - i - 2 + 1) =~= expr@.skip(close + 1));
                assert(spec_names(suffix) == seq![name@] + spec_names(expr@.skip(close + 1)));
            }
            let ghost pre_names = names@;
            names.push(String::from_str(name));
            proof {
                assert(names@.map_values(|s: String| s@) =~= pre_names.map_values(|s: String| s@)
                    + seq![name@]);
            }
            i = close + 1;
        } else {
            proof {
                if suffix.len() >= 2 && suffix[0] == '$' && suffix[1] == '{' {
                } else {
                    assert(!placeholder_head(suffix));
                }
                assert(spec_names(suffix) == spec_names(suffix.drop_first()));
                assert(suffix.drop_first() =~= expr@.skip(i + 1));
            }
            i += 1;
        }
    }
    proof {
        assert(expr@.skip(n as int) =~= Seq::<char>::empty());
        assert(spec_names(Seq::<char>::empty()) == Seq::<Seq<char>>::empty());
        assert(names@.map_values(|s: String| s@).len() == names@.len());
    }
    names
}

/// Replace the k-th placeholder of the expression by the k-th value.
#[verifier::rlimit(100)]
#[verifier::spinoff_prover]
pub fn substitute_pos(expr: &str, vals: &Vec<String>) -> (r: String)
    requires
        vals@.len() == spec_names(expr@).len(),
    ensures
        r@ == subst_pos(expr@, vals@.map_values(|s: String| s@)),
{
    let ghost vseq = vals@.map_values(|s: String| s@);
    let n = expr.unicode_len();
    let mut out = String::new();
    let mut i: usize = 0;
    let mut k: usize = 0;
    proof {
        assert(expr@.skip(0) =~= expr@);
        assert(vseq.skip(0) =~= vseq);
    }
    while i < n
        invariant
            n == expr@.len(),
            0 <= i <= n,
            0 <= k <= vals@.len(),
            vseq == vals@.map_values(|s: String| s@),
            vseq.len() == spec_names(expr@).len(),
            spec_names(expr@.skip(i as int)).len() == vseq.len() - k,
            subst_pos(expr@, vseq) == out@ + subst_pos(expr@.skip(i as int), vseq.skip(k as int)),
        decreases n - i,
    {
        let ghost suffix = expr@.skip(i as int);
        let ghost rem = vseq.skip(k as int);
        let c = expr.get_char(i);
        let mut is_ph = false;
        let mut close: usize = 0;
        if c == '$' && i + 1 < n && expr.get_char(i + 1) == '{' {
            let mut j = i + 2;
            while j < n && expr.get_char(j) != '}'
                invariant
                    n == expr@.len(),
                    i + 2 <= j <= n,
                    forall|t: int| i + 2 <= t < j ==> expr@[t] != '}',
                decreases n - j,
            {
                j += 1;
            }
            if j < n {
                is_ph = true;
                close = j;
                proof {
                    assert forall|t: int| 0 <= t < close - i - 2 implies suffix.skip(2)[t] != '}' by {
                        assert(suffix.skip(2)[t] == expr@[i + 2 + t]);
                    }
                    assert(suffix.skip(2)[close - i - 2] == expr@[close as int]);
                    lemma_close_idx_at(suffix.skip(2), close - i - 2);
                }
            } else {
                proof {
                    assert forall|t: int| 0 <= t < suffix.skip(2).len() implies suffix.skip(2)[t]
                        != '}' by {
                        assert(suffix.skip(2)[t] == expr@[i + 2 + t]);
                    }
                    lemma_close_idx_none(suffix.skip(2));
                    assert(!placeholder_head(suffix));
                }
            }
        }
        if is_ph {
            proof {
                assert(suffix[0] == '$' && suffix[1] == '{');
                assert(placeholder_head(suffix));
                assert(spec_names(suffix).len() > 0);
                assert(rem.len() > 0);
                assert(rem[0] == vseq[k as int]);
                assert(vseq[k as int] == vals@[k as int]@);
                assert(suffix.skip(2).skip(close - i - 2 + 1) =~= expr@.skip(close + 1));
                assert(subst_pos(suffix, rem) == rem[0] + subst_pos(
                    expr@.skip(close + 1),
                    rem.drop_first(),
                ));
                assert(spec_names(suffix) == seq![suffix.skip(2).take(close_idx(suffix.skip(2)) as int)]
                    + spec_names(expr@.skip(close + 1)));
                assert(rem.drop_first() =~= vseq.skip(k + 1));
            }
            proof {
                assert(k < vals.len());
            }
            out.append(vals[k].as_str());
            k += 1;
            i = close + 1;
        } else {
            proof {
                if suffix.len() >= 2 && suffix[0] == '$' && suffix[1] == '{' {
                } else {
                    assert(!placeholder_head(suffix));
                }
                assert(spec_names(suffix) == spec_names(suffix.drop_first()));
                assert(subst_pos(suffix, rem) == seq![suffix[0]] + subst_pos(
                    suffix.drop_first(),
                    rem,
                ));
                assert(suffix.drop_first() =~= expr@.skip(i + 1));
                assert(suffix[0] == expr@[i as int]);
            }
            let piece = expr.substring_char(i, i + 1);
            proof {
                assert(piece@ =~= seq![expr@[i as int]]);
            }
            out.append(piece);
            i += 1;
        }
    }
    proof {
        assert(expr@.skip(n as int) =~= Seq::<char>::empty());
        assert(subst_pos(Seq::<char>::empty(), vseq.skip(k as int)) == Seq::<char>::empty());
        assert(out@ + Seq::<char>::empty() =~= out@);
    }
    out
}

// --- exec expression plumbing ----------------------------------------------

/// The value with every trailing newline removed.
pub open spec fn spec_trim_newlines(s: Seq<char>) -> Seq<char>
    decreases s.len(),
{
    if s.len() > 0 && s[s.len() - 1] == '\n' {
        spec_trim_newlines(s.drop_last())
    } else {
        s
    }
}

/// Strip trailing newlines from captured shell output.
pub fn trim_trailing_newlines(s: &str) -> (r: String)
    ensures
        r@ == spec_trim_newlines(s@),
{
    let mut end = s.unicode_len();
    proof {
        assert(s@.take(end as int) =~= s@);
    }
    while end > 0 && s.get_char(end - 1) == '\n'
        invariant
            0 <= end <= s@.len(),
            spec_trim_newlines(s@) == spec_trim_newlines(s@.take(end as int)),
        decreases end,
    {
        proof {
            assert(s@.take(end as int).drop_last() =~= s@.take(end - 1));
            assert(s@.take(end as int)[end - 1] == s@[end - 1]);
        }
        end -= 1;
    }
    let kept = s.substring_char(0, end);
    proof {
        assert(kept@ =~= s@.take(end as int));
        if end > 0 {
            assert(s@.take(end as int)[end - 1] == s@[end - 1]);
        }
    }
    String::from_str(kept)
}

// --- scope-chain lookup ----------------------------------------------------

/// Index of the first variable with the given name, or the length when
/// none matches.
pub open spec fn find_var(vars: Seq<NamedVariable>, name: Seq<char>) -> nat
    decreases vars.len(),
{
    if vars.len() == 0 {
        0
    } else if vars[0].name@ == name {
        0
    } else {
        1 + find_var(vars.drop_first(), name)
    }
}

proof fn lemma_find_var_at(vars: Seq<NamedVariable>, name: Seq<char>, j: int)
    requires
        0 <= j < vars.len(),
        vars[j].name@ == name,
        forall|k: int| 0 <= k < j ==> vars[k].name@ != name,
    ensures
        find_var(vars, name) == j,
    decreases j,
{
    if j > 0 {
        lemma_find_var_at(vars.drop_first(), name, j - 1);
    }
}

proof fn lemma_find_var_none(vars: Seq<NamedVariable>, name: Seq<char>)
    requires
        forall|k: int| 0 <= k < vars.len() ==> vars[k].name@ != name,
    ensures
        find_var(vars, name) == vars.len(),
    decreases vars.len(),
{
    if vars.len() > 0 {
        lemma_find_var_none(vars.drop_first(), name);
    }
}

proof fn lemma_find_var_props(vars: Seq<NamedVariable>, name: Seq<char>)
    ensures
        find_var(vars, name) <= vars.len(),
        find_var(vars, name) < vars.len() ==> vars[find_var(vars, name) as int].name@ == name,
    decreases vars.len(),
{
    if vars.len() > 0 && vars[0].name@ != name {
        lemma_find_var_props(vars.drop_first(), name);
    }
}

/// Two variable lists with the same names agree on every lookup.
proof fn lemma_find_var_congruent(a: Seq<NamedVariable>, b: Seq<NamedVariable>, name: Seq<char>)
    requires
        a.len() == b.len(),
        forall|i: int| 0 <= i < a.len() ==> crate::model::nv_same_def(a[i], #[trigger] b[i]),
    ensures
        find_var(a, name) == find_var(b, name),
    decreases a.len(),
{
    if a.len() > 0 {
        assert(crate::model::nv_same_def(a[0], b[0]));
        assert forall|i: int| 0 <= i < a.drop_first().len() implies crate::model::nv_same_def(
            a.drop_first()[i],
            #[trigger] b.drop_first()[i],
        ) by {
            assert(a.drop_first()[i] == a[i + 1]);
            assert(b.drop_first()[i] == b[i + 1]);
        }
        lemma_find_var_congruent(a.drop_first(), b.drop_first(), name);
    }
}

/// Index of the first ambient environment entry with the given name, or
/// the length when none matches.
pub open spec fn find_env(env: Seq<NamedValue>, name: Seq<char>) -> nat
    decreases env.len(),
{
    if env.len() == 0 {
        0
    } else if env[0].name@ == name {
        0
    } else {
        1 + find_env(env.drop_first(), name)
    }
}

proof fn lemma_find_env_at(env: Seq<NamedValue>, name: Seq<char>, j: int)
    requires
        0 <= j < env.len(),
        env[j].name@ == name,
        forall|k: int| 0 <= k < j ==> env[k].name@ != name,
    ensures
        find_env(env, name) == j,
    decreases j,
{
    if j > 0 {
        lemma_find_env_at(env.drop_first(), name, j - 1);
    }
}

proof fn lemma_find_env_none(env: Seq<NamedValue>, name: Seq<char>)
    requires
        forall|k: int| 0 <= k < env.len() ==> env[k].name@ != name,
    ensures
        find_env(env, name) == env.len(),
    decreases env.len(),
{
    if env.len() > 0 {
        lemma_find_env_none(env.drop_first(), name);
    }
}

/// Identity of one variable slot: its scope (tree, garden or
/// configuration), the owning entity and the position in its list.
#[derive(Clone, Copy, Debug, PartialEq, Eq, Structural)]
pub struct VarKey {
    pub scope: u8,
    pub owner: usize,
    pub idx: usize,
}

/// The tree scope tag.
pub const SCOPE_TREE: u8 = 0;

/// The garden scope tag.
pub const SCOPE_GARDEN: u8 = 1;

/// The configuration scope tag.
pub const SCOPE_CONFIG: u8 = 2;

/// The tree and garden giving an evaluation its scope chain.  When
/// `garden_first` is set the garden's variables shadow the tree's, as they
/// do for garden-defined commands.
pub open spec fn scope_ok(c: Configuration, t: Option<usize>, g: Option<usize>) -> bool {
    &&& (t is Some ==> t->0 < c.trees@.len())
    &&& (g is Some ==> g->0 < c.gardens@.len())
}

/// The cached value sitting at a variable slot; `None` when the slot is
/// out of range or not yet resolved.
pub open spec fn key_value(c: Configuration, k: VarKey) -> Option<Seq<char>> {
    if k.scope == SCOPE_TREE {
        if k.owner < c.trees@.len() && k.idx < c.trees@[k.owner as int].variables@.len() {
            opt_str_view(c.trees@[k.owner as int].variables@[k.idx as int].value)
        } else {
            None
        }
    } else if k.scope == SCOPE_GARDEN {
        if k.owner < c.gardens@.len() && k.idx < c.gardens@[k.owner as int].variables@.len() {
            opt_str_view(c.gardens@[k.owner as int].variables@[k.idx as int].value)
        } else {
            None
        }
    } else if k.scope == SCOPE_CONFIG {
        if k.owner == 0 && k.idx < c.variables@.len() {
            opt_str_view(c.variables@[k.idx as int].value)
        } else {
            None
        }
    } else {
        None
    }
}

/// The view of an optional string.
pub open spec fn opt_str_view(o: Option<String>) -> Option<Seq<char>> {
    match o {
        Some(s) => Some(s@),
        None => None,
    }
}

/// The raw expression sitting at a variable slot; empty when the slot is
/// out of range.
pub open spec fn key_expr(c: Configuration, k: VarKey) -> Seq<char> {
    if k.scope == SCOPE_TREE {
        if k.owner < c.trees@.len() && k.idx < c.trees@[k.owner as int].variables@.len() {
            c.trees@[k.owner as int].variables@[k.idx as int].expr@
        } else {
            Seq::empty()
        }
    } else if k.scope == SCOPE_GARDEN {
        if k.owner < c.gardens@.len() && k.idx < c.gardens@[k.owner as int].variables@.len() {
            c.gardens@[k.owner as int].variables@[k.idx as int].expr@
        } else {
            Seq::empty()
        }
    } else if k.scope == SCOPE_CONFIG {
        if k.owner == 0 && k.idx < c.variables@.len() {
            c.variables@[k.idx as int].expr@
        } else {
            Seq::empty()
        }
    } else {
        Seq::empty()
    }
}

/// A name whose uncached defining slot names itself in a literal
/// template: resolving it must meet its own in-progress slot.
pub open spec fn direct_self_reference(
    c: Configuration,
    t: Option<usize>,
    g: Option<usize>,
    garden_first: bool,
    name: Seq<char>,
) -> bool {
    match lookup_def(c, t, g, garden_first, name) {
        Some(k) => key_value(c, k) is None && !spec_is_exec(key_expr(c, k)) && spec_names(
            key_expr(c, k),
        ).contains(name),
        None => false,
    }
}

/// The slot that defines a name in this scope chain: the first match,
/// innermost scope first.
pub open spec fn lookup_def(
    c: Configuration,
    t: Option<usize>,
    g: Option<usize>,
    garden_first: bool,
    name: Seq<char>,
) -> Option<VarKey> {
    let tdef: Option<VarKey> = if t is Some && find_var(c.trees@[t->0 as int].variables@, name)
        < c.trees@[t->0 as int].variables@.len() {
        Some(
            VarKey {
                scope: SCOPE_TREE,
                owner: t->0,
                idx: find_var(c.trees@[t->0 as int].variables@, name) as usize,
            },
        )
    } else {
        None
    };
    let gdef: Option<VarKey> = if g is Some && find_var(c.gardens@[g->0 as int].variables@, name)
        < c.gardens@[g->0 as int].variables@.len() {
        Some(
            VarKey {
                scope: SCOPE_GARDEN,
                owner: g->0,
                idx: find_var(c.gardens@[g->0 as int].variables@, name) as usize,
            },
        )
    } else {
        None
    };
    let cdef: Option<VarKey> = if find_var(c.variables@, name) < c.variables@.len() {
        Some(
            VarKey { scope: SCOPE_CONFIG, owner: 0, idx: find_var(c.variables@, name) as usize },
        )
    } else {
        None
    };
    let first = if garden_first {
        gdef
    } else {
        tdef
    };
    let second = if garden_first {
        tdef
    } else {
        gdef
    };
    if first is Some {
        first
    } else if second is Some {
        second
    } else {
        cdef
    }
}

/// A name is ready when its defining slot is cached, or when no slot
/// defines it (the ambient environment never needs resolution).
pub open spec fn name_ready(
    c: Configuration,
    t: Option<usize>,
    g: Option<usize>,
    garden_first: bool,
    name: Seq<char>,
) -> bool {
    match lookup_def(c, t, g, garden_first, name) {
        Some(k) => key_value(c, k) is Some,
        None => true,
    }
}

/// What a name resolves to once ready: the cached value of its defining
/// slot, else the ambient environment entry, else the empty string.
pub open spec fn resolved_val(
    c: Configuration,
    t: Option<usize>,
    g: Option<usize>,
    garden_first: bool,
    name: Seq<char>,
) -> Seq<char> {
    match lookup_def(c, t, g, garden_first, name) {
        Some(k) => match key_value(c, k) {
            Some(v) => v,
            None => Seq::empty(),
        },
        None => {
            let e = find_env(c.environ@, name);
            if e < c.environ@.len() {
                c.environ@[e as int].value@
            } else {
                Seq::empty()
            }
        },
    }
}

/// The value of a literal template under a configuration's current
/// caches: each placeholder replaced by what its name resolves to.
pub open spec fn expr_value(
    c: Configuration,
    t: Option<usize>,
    g: Option<usize>,
    garden_first: bool,
    e: Seq<char>,
) -> Seq<char> {
    subst_pos(
        e,
        Seq::new(spec_names(e).len(), |i: int| resolved_val(c, t, g, garden_first, spec_names(e)[i])),
    )
}

/// Every placeholder name of the expression is ready.
pub open spec fn names_ready(
    c: Configuration,
    t: Option<usize>,
    g: Option<usize>,
    garden_first: bool,
    e: Seq<char>,
) -> bool {
    forall|i: int|
        0 <= i < spec_names(e).len() ==> name_ready(c, t, g, garden_first, spec_names(e)[i])
}

// --- cache evolution -------------------------------------------------------

/// Same definitions, and no cached value is lost or changed.
pub open spec fn nvars_evolve(a: Seq<NamedVariable>, b: Seq<NamedVariable>) -> bool {
    &&& b.len() == a.len()
    &&& forall|i: int|
        0 <= i < a.len() ==> crate::model::nv_same_def(a[i], #[trigger] b[i]) && (a[i].value is Some
            ==> b[i].value == a[i].value)
}

/// Evaluation only adds cached values: the variable lists keep their
/// shape and definitions, values only go from absent to present, and the
/// ambient environment is untouched.
pub open spec fn cfg_evolves(a: Configuration, b: Configuration) -> bool {
    &&& b == Configuration { variables: b.variables, trees: b.trees, gardens: b.gardens, ..a }
    &&& b.trees@.len() == a.trees@.len()
    &&& b.gardens@.len() == a.gardens@.len()
    &&& nvars_evolve(a.variables@, b.variables@)
    &&& forall|i: int|
        0 <= i < a.trees@.len() ==> #[trigger] b.trees@[i] == Tree {
            variables: b.trees@[i].variables,
            ..a.trees@[i]
        } && nvars_evolve(a.trees@[i].variables@, b.trees@[i].variables@)
    &&& forall|i: int|
        0 <= i < a.gardens@.len() ==> #[trigger] b.gardens@[i] == Garden {
            variables: b.gardens@[i].variables,
            ..a.gardens@[i]
        } && nvars_evolve(a.gardens@[i].variables@, b.gardens@[i].variables@)
}

/// Evolution is transitive.
pub proof fn lemma_cfg_evolves_trans(a: Configuration, b: Configuration, c: Configuration)
    requires
        cfg_evolves(a, b),
        cfg_evolves(b, c),
    ensures
        cfg_evolves(a, c),
{
    assert forall|i: int| 0 <= i < a.trees@.len() implies nvars_evolve(
        a.trees@[i].variables@,
        #[trigger] c.trees@[i].variables@,
    ) by {
        assert(nvars_evolve(a.trees@[i].variables@, b.trees@[i].variables@));
        assert(nvars_evolve(b.trees@[i].variables@, c.trees@[i].variables@));
    }
    assert forall|i: int| 0 <= i < a.gardens@.len() implies nvars_evolve(
        a.gardens@[i].variables@,
        #[trigger] c.gardens@[i].variables@,
    ) by {
        assert(nvars_evolve(a.gardens@[i].variables@, b.gardens@[i].variables@));
        assert(nvars_evolve(b.gardens@[i].variables@, c.gardens@[i].variables@));
    }
}

/// Under evolution, the defining slot of a name does not move.
proof fn lemma_lookup_def_stable(
    a: Configuration,
    b: Configuration,
    t: Option<usize>,
    g: Option<usize>,
    garden_first: bool,
    name: Seq<char>,
)
    requires
        cfg_evolves(a, b),
        scope_ok(a, t, g),
    ensures
        scope_ok(b, t, g),
        lookup_def(b, t, g, garden_first, name) == lookup_def(a, t, g, garden_first, name),
    decreases 0int,
{
    if t is Some {
        lemma_find_var_congruent(a.trees@[t->0 as int].variables@, b.trees@[t->0 as int].variables@, name);
    }
    if g is Some {
        lemma_find_var_congruent(
            a.gardens@[g->0 as int].variables@,
            b.gardens@[g->0 as int].variables@,
            name,
        );
    }
    lemma_find_var_congruent(a.variables@, b.variables@, name);
}

/// A ready name stays ready under evolution and keeps its value.
pub proof fn lemma_resolved_stable(
    a: Configuration,
    b: Configuration,
    t: Option<usize>,
    g: Option<usize>,
    garden_first: bool,
    name: Seq<char>,
)
    requires
        cfg_evolves(a, b),
        scope_ok(a, t, g),
        name_ready(a, t, g, garden_first, name),
    ensures
        scope_ok(b, t, g),
        name_ready(b, t, g, garden_first, name),
        resolved_val(b, t, g, garden_first, name) == resolved_val(a, t, g, garden_first, name),
{
    lemma_lookup_def_stable(a, b, t, g, garden_first, name);
    match lookup_def(a, t, g, garden_first, name) {
        Some(k) => {
            assert(key_value(b, k) == key_value(a, k)) by {
                if k.scope == SCOPE_TREE {
                    assert(nvars_evolve(
                        a.trees@[k.owner as int].variables@,
                        b.trees@[k.owner as int].variables@,
                    ));
                } else if k.scope == SCOPE_GARDEN {
                    assert(nvars_evolve(
                        a.gardens@[k.owner as int].variables@,
                        b.gardens@[k.owner as int].variables@,
                    ));
                }
            }
        },
        None => {},
    }
}

/// A literal template whose names are all ready keeps its value under
/// evolution.
pub proof fn lemma_expr_value_stable(
    a: Configuration,
    b: Configuration,
    t: Option<usize>,
    g: Option<usize>,
    garden_first: bool,
    e: Seq<char>,
)
    requires
        cfg_evolves(a, b),
        scope_ok(a, t, g),
        names_ready(a, t, g, garden_first, e),
    ensures
        scope_ok(b, t, g),
        names_ready(b, t, g, garden_first, e),
        expr_value(b, t, g, garden_first, e) == expr_value(a, t, g, garden_first, e),
{
    assert forall|i: int| 0 <= i < spec_names(e).len() implies name_ready(
        b,
        t,
        g,
        garden_first,
        spec_names(e)[i],
    ) && resolved_val(b, t, g, garden_first, spec_names(e)[i]) == resolved_val(
        a,
        t,
        g,
        garden_first,
        spec_names(e)[i],
    ) by {
        lemma_resolved_stable(a, b, t, g, garden_first, spec_names(e)[i]);
    }
    assert(Seq::new(spec_names(e).len(), |i: int| resolved_val(b, t, g, garden_first, spec_names(e)[i]))
        =~= Seq::new(spec_names(e).len(), |i: int| resolved_val(a, t, g, garden_first, spec_names(e)[i])));
}

/// A template without placeholders is its own value, under any caches.
pub proof fn lemma_subst_no_names(e: Seq<char>, vals: Seq<Seq<char>>)
    requires
        spec_names(e).len() == 0,
    ensures
        subst_pos(e, vals) == e,
    decreases e.len(),
{
    if e.len() > 0 {
        if placeholder_head(e) {
            assert(spec_names(e).len() > 0);
        } else {
            assert(spec_names(e) == spec_names(e.drop_first()));
            lemma_subst_no_names(e.drop_first(), vals);
            assert(seq![e[0]] + e.drop_first() =~= e);
        }
    } else {
        assert(subst_pos(e, vals) =~= e);
    }
}

/// A placeholder-free template evaluates to its own text, under any
/// configuration.
pub proof fn lemma_expr_value_no_names(
    c: Configuration,
    t: Option<usize>,
    g: Option<usize>,
    garden_first: bool,
    e: Seq<char>,
)
    requires
        spec_names(e).len() == 0,
    ensures
        expr_value(c, t, g, garden_first, e) == e,
        names_ready(c, t, g, garden_first, e),
{
    lemma_subst_no_names(
        e,
        Seq::new(spec_names(e).len(), |i: int| resolved_val(c, t, g, garden_first, spec_names(e)[i])),
    );
}

/// Two configurations with the same variable scopes and ambient
/// environment resolve names and templates alike, whatever their other
/// fields hold.
pub open spec fn same_scopes(a: Configuration, b: Configuration) -> bool {
    &&& b.trees@.len() == a.trees@.len()
    &&& b.gardens@.len() == a.gardens@.len()
    &&& b.variables == a.variables
    &&& b.environ == a.environ
    &&& forall|i: int|
        0 <= i < a.trees@.len() ==> (#[trigger] b.trees@[i]).variables == a.trees@[i].variables
    &&& forall|i: int|
        0 <= i < a.gardens@.len() ==> (#[trigger] b.gardens@[i]).variables
            == a.gardens@[i].variables
}

/// Templates keep their value across a scope-preserving change.
pub proof fn lemma_same_scopes_values(
    a: Configuration,
    b: Configuration,
    t: Option<usize>,
    g: Option<usize>,
    garden_first: bool,
    e: Seq<char>,
)
    requires
        same_scopes(a, b),
        scope_ok(a, t, g),
    ensures
        scope_ok(b, t, g),
        names_ready(a, t, g, garden_first, e) ==> names_ready(b, t, g, garden_first, e),
        expr_value(b, t, g, garden_first, e) == expr_value(a, t, g, garden_first, e),
{
    assert forall|i: int| 0 <= i < spec_names(e).len() implies lookup_def(
        b,
        t,
        g,
        garden_first,
        #[trigger] spec_names(e)[i],
    ) == lookup_def(a, t, g, garden_first, spec_names(e)[i]) && resolved_val(
        b,
        t,
        g,
        garden_first,
        spec_names(e)[i],
    ) == resolved_val(a, t, g, garden_first, spec_names(e)[i]) && (name_ready(
        a,
        t,
        g,
        garden_first,
        spec_names(e)[i],
    ) ==> name_ready(b, t, g, garden_first, spec_names(e)[i])) by {
        if t is Some {
            assert(b.trees@[t->0 as int].variables == a.trees@[t->0 as int].variables);
        }
        if g is Some {
            assert(b.gardens@[g->0 as int].variables == a.gardens@[g->0 as int].variables);
        }
        match lookup_def(a, t, g, garden_first, spec_names(e)[i]) {
            Some(k) => {
                if k.scope == SCOPE_TREE {
                    assert(b.trees@[k.owner as int].variables
                        == a.trees@[k.owner as int].variables);
                } else if k.scope == SCOPE_GARDEN {
                    assert(b.gardens@[k.owner as int].variables
                        == a.gardens@[k.owner as int].variables);
                }
            },
            None => {},
        }
    }
    assert(Seq::new(
        spec_names(e).len(),
        |i: int| resolved_val(b, t, g, garden_first, spec_names(e)[i]),
    ) =~= Seq::new(
        spec_names(e).len(),
        |i: int| resolved_val(a, t, g, garden_first, spec_names(e)[i]),
    ));
}

// --- the resolver ----------------------------------------------------------

/// Find the first variable with this name.
fn find_var_idx(vars: &Vec<NamedVariable>, name: &str) -> (r: usize)
    ensures
        r == find_var(vars@, name@),
{
    let n = vars.len();
    for i in 0..n
        invariant
            n == vars@.len(),
            forall|j: int| 0 <= j < i ==> vars@[j].name@ != name@,
    {
        if crate::model::s_eq(vars[i].name.as_str(), name) {
            proof {
                lemma_find_var_at(vars@, name@, i as int);
            }
            return i;
        }
    }
    proof {
        lemma_find_var_none(vars@, name@);
    }
    n
}

/// Find the first ambient environment entry with this name.
fn find_env_idx(env: &Vec<NamedValue>, name: &str) -> (r: usize)
    ensures
        r == find_env(env@, name@),
{
    let n = env.len();
    for i in 0..n
        invariant
            n == env@.len(),
            forall|j: int| 0 <= j < i ==> env@[j].name@ != name@,
    {
        if crate::model::s_eq(env[i].name.as_str(), name) {
            proof {
                lemma_find_env_at(env@, name@, i as int);
            }
            return i;
        }
    }
    proof {
        lemma_find_env_none(env@, name@);
    }
    n
}

/// Find the slot defining a name in the scope chain.
fn find_defining(
    config: &Configuration,
    t: Option<usize>,
    g: Option<usize>,
    garden_first: bool,
    name: &str,
) -> (r: Option<VarKey>)
    requires
        scope_ok(*config, t, g),
    ensures
        r == lookup_def(*config, t, g, garden_first, name@),
{
    let tdef: Option<VarKey> = match t {
        Some(ti) => {
            let k = find_var_idx(&config.trees[ti].variables, name);
            if k < config.trees[ti].variables.len() {
                Some(VarKey { scope: SCOPE_TREE, owner: ti, idx: k })
            } else {
                None
            }
        },
        None => None,
    };
    let gdef: Option<VarKey> = match g {
        Some(gi) => {
            let k = find_var_idx(&config.gardens[gi].variables, name);
            if k < config.gardens[gi].variables.len() {
                Some(VarKey { scope: SCOPE_GARDEN, owner: gi, idx: k })
            } else {
                None
            }
        },
        None => None,
    };
    let cdef: Option<VarKey> = {
        let k = find_var_idx(&config.variables, name);
        if k < config.variables.len() {
            Some(VarKey { scope: SCOPE_CONFIG, owner: 0, idx: k })
        } else {
            None
        }
    };
    let first = if garden_first {
        gdef
    } else {
        tdef
    };
    let second = if garden_first {
        tdef
    } else {
        gdef
    };
    if first.is_some() {
        first
    } else if second.is_some() {
        second
    } else {
        cdef
    }
}

/// Whether this slot is among those being resolved right now.
fn contains_key(keys: &Vec<VarKey>, key: VarKey) -> (r: bool)
    ensures
        r == keys@.contains(key),
{
    let n = keys.len();
    for i in 0..n
        invariant
            n == keys@.len(),
            forall|j: int| 0 <= j < i ==> keys@[j] != key,
    {
        if keys[i] == key {
            return true;
        }
    }
    false
}

/// Resolve one name through the scope chain, on demand.
///
/// A cached slot answers immediately and leaves everything untouched (the
/// memoization guarantee).  An uncached slot is resolved by evaluating its
/// expression, with `visiting` carrying the slots already in progress:
/// meeting one of them again is a cyclic definition, not a loop.  A name
/// no slot defines falls back to the ambient environment and finally to
/// the empty string.
pub fn resolve_name(
    config: &mut Configuration,
    t: Option<usize>,
    g: Option<usize>,
    garden_first: bool,
    name: &str,
    visiting: &mut Vec<VarKey>,
    fuel: u64,
) -> (r: Result<String, GardenError>)
    requires
        scope_ok(*old(config), t, g),
    ensures
        cfg_evolves(*old(config), *final(config)),
        final(visiting)@ == old(visiting)@,
        forall|j: int|
            0 <= j < old(visiting)@.len() ==> key_value(*final(config), #[trigger] old(visiting)@[j])
                == key_value(*old(config), old(visiting)@[j]),
        r is Ok ==> name_ready(*final(config), t, g, garden_first, name@) && r->Ok_0@
            == resolved_val(*final(config), t, g, garden_first, name@),
        r is Err ==> (r->Err_0 is CyclicDefinition || r->Err_0 is ExecutionFailure),
        name_ready(*old(config), t, g, garden_first, name@) ==> *final(config) == *old(config)
            && r is Ok,
        direct_self_reference(*old(config), t, g, garden_first, name@) ==> r is Err,
    decreases fuel, 0int,
{
    let def = find_defining(config, t, g, garden_first, name);
    match def {
        None => {
            let e = find_env_idx(&config.environ, name);
            if e < config.environ.len() {
                Ok(config.environ[e].value.clone())
            } else {
                Ok(String::new())
            }
        },
        Some(key) => {
            let cached: Option<String> = if key.scope == SCOPE_TREE {
                config.trees[key.owner].variables[key.idx].value.clone()
            } else if key.scope == SCOPE_GARDEN {
                config.gardens[key.owner].variables[key.idx].value.clone()
            } else {
                config.variables[key.idx].value.clone()
            };
            match cached {
                Some(v) => Ok(v),
                None => {
                    if contains_key(visiting, key) {
                        return Err(GardenError::CyclicDefinition);
                    }
                    if fuel == 0 {
                        return Err(GardenError::CyclicDefinition);
                    }
                    let expr: String = if key.scope == SCOPE_TREE {
                        config.trees[key.owner].variables[key.idx].expr.clone()
                    } else if key.scope == SCOPE_GARDEN {
                        config.gardens[key.owner].variables[key.idx].expr.clone()
                    } else {
                        config.variables[key.idx].expr.clone()
                    };
                    let ghost pre = *config;
                    let ghost pre_visiting = visiting@;
                    visiting.push(key);
                    let sub = eval_expr(
                        config,
                        t,
                        g,
                        garden_first,
                        expr.as_str(),
                        visiting,
                        fuel - 1,
                    );
                    let _ = visiting.pop();
                    proof {
                        assert(visiting@ =~= pre_visiting);
                    }
                    match sub {
                        Err(err) => Err(err),
                        Ok(v) => {
                            let ghost mid = *config;
                            proof {
                                assert(pre_visiting.push(key)[pre_visiting.len() as int] == key);
                                assert(key_value(mid, key) == key_value(pre, key));
                                if direct_self_reference(*old(config), t, g, garden_first, name@) {
                                    assert(expr@ == key_expr(*old(config), key));
                                    assert(!spec_is_exec(expr@));
                                    assert(names_ready(mid, t, g, garden_first, expr@));
                                    let idx = choose|idx: int|
                                        0 <= idx < spec_names(expr@).len() && spec_names(
                                            expr@,
                                        )[idx] == name@;
                                    assert(name_ready(mid, t, g, garden_first, spec_names(expr@)[idx]));
                                    assert(name_ready(mid, t, g, garden_first, name@));
                                    lemma_lookup_def_stable(pre, mid, t, g, garden_first, name@);
                                    assert(lookup_def(mid, t, g, garden_first, name@) == Some(key));
                                    assert(key_value(mid, key) is Some);
                                    assert(false);
                                }
                            }
                            if key.scope == SCOPE_TREE {
                                config.trees[key.owner].variables[key.idx].value = Some(v.clone());
                            } else if key.scope == SCOPE_GARDEN {
                                config.gardens[key.owner].variables[key.idx].value = Some(
                                    v.clone(),
                                );
                            } else {
                                config.variables[key.idx].value = Some(v.clone());
                            }
                            proof {
                                assert(cfg_evolves(mid, *config));
                                lemma_cfg_evolves_trans(pre, mid, *config);
                                lemma_lookup_def_stable(pre, *config, t, g, garden_first, name@);
                                assert(key_value(*config, key) == Some(v@));
                                assert forall|j: int| 0 <= j < pre_visiting.len() implies key_value(
                                    *config,
                                    #[trigger] pre_visiting[j],
                                ) == key_value(pre, pre_visiting[j]) by {
                                    assert(pre_visiting.push(key)[j] == pre_visiting[j]);
                                    assert(!pre_visiting.contains(key));
                                    assert(pre_visiting[j] != key);
                                }
                            }
                            Ok(v)
                        },
                    }
                },
            }
        },
    }
}

/// The part of a template that placeholders are read from: the shell text
/// for an exec template, the whole text otherwise.
pub open spec fn template_body(s: Seq<char>) -> Seq<char> {
    if spec_is_exec(s) {
        spec_exec_body(s)
    } else {
        s
    }
}

/// Evaluate one expression in a scope: substitute each placeholder by its
/// resolved name, demand-resolving and memoizing on the way; then, for an
/// exec template, run the substituted text as a shell command and capture
/// its trimmed standard output.
///
/// For a literal template the result is exactly the substitution under
/// the final caches.  A non-zero exit or a spawn failure of an exec
/// template is an `ExecutionFailure` carrying the status.
#[verifier::loop_isolation(false)]
pub fn eval_expr(
    config: &mut Configuration,
    t: Option<usize>,
    g: Option<usize>,
    garden_first: bool,
    expr: &str,
    visiting: &mut Vec<VarKey>,
    fuel: u64,
) -> (r: Result<String, GardenError>)
    requires
        scope_ok(*old(config), t, g),
    ensures
        cfg_evolves(*old(config), *final(config)),
        final(visiting)@ == old(visiting)@,
        forall|j: int|
            0 <= j < old(visiting)@.len() ==> key_value(*final(config), #[trigger] old(visiting)@[j])
                == key_value(*old(config), old(visiting)@[j]),
        r is Ok && !spec_is_exec(expr@) ==> names_ready(*final(config), t, g, garden_first, expr@)
            && r->Ok_0@ == expr_value(*final(config), t, g, garden_first, expr@),
        r is Err ==> (r->Err_0 is CyclicDefinition || r->Err_0 is ExecutionFailure),
        names_ready(*old(config), t, g, garden_first, template_body(expr@)) ==> *final(config)
            == *old(config),
        !spec_is_exec(expr@) && names_ready(*old(config), t, g, garden_first, expr@) ==> r is Ok,
    decreases fuel, 1int,
{
    let is_exec = is_exec_expr(expr);
    let body_string: String = if is_exec {
        let n = expr.unicode_len();
        String::from_str(expr.substring_char(2, n))
    } else {
        String::from_str(expr)
    };
    let body = body_string.as_str();
    proof {
        if spec_is_exec(expr@) {
            assert(body@ =~= spec_exec_body(expr@));
        }
        assert(body@ == template_body(expr@));
    }
    let names = collect_names(body);
    let mut vals: Vec<String> = Vec::new();
    let n = names.len();
    let mut idx: usize = 0;
    while idx < n
        invariant
            scope_ok(*old(config), t, g),
            scope_ok(*config, t, g),
            n == names@.len() == spec_names(body@).len(),
            forall|k: int| 0 <= k < n ==> names@[k]@ == spec_names(body@)[k],
            0 <= idx <= n,
            vals@.len() == idx,
            cfg_evolves(*old(config), *config),
            visiting@ == old(visiting)@,
            forall|j: int|
                0 <= j < old(visiting)@.len() ==> key_value(*config, #[trigger] old(visiting)@[j])
                    == key_value(*old(config), old(visiting)@[j]),
            forall|j: int|
                0 <= j < idx ==> name_ready(
                    *config,
                    t,
                    g,
                    garden_first,
                    #[trigger] spec_names(body@)[j],
                ),
            forall|j: int|
                0 <= j < idx ==> (#[trigger] vals@[j])@ == resolved_val(
                    *config,
                    t,
                    g,
                    garden_first,
                    spec_names(body@)[j],
                ),
            names_ready(*old(config), t, g, garden_first, body@) ==> *config == *old(config),
        decreases n - idx,
    {
        let ghost pre = *config;
        let res = resolve_name(config, t, g, garden_first, names[idx].as_str(), visiting, fuel);
        match res {
            Err(err) => {
                proof {
                    if names_ready(*old(config), t, g, garden_first, body@) {
                        assert(name_ready(
                            *old(config),
                            t,
                            g,
                            garden_first,
                            spec_names(body@)[idx as int],
                        ));
                        assert(pre == *old(config));
                        assert(names@[idx as int]@ == spec_names(body@)[idx as int]);
                        assert(name_ready(pre, t, g, garden_first, names@[idx as int]@));
                        assert(false);
                    }
                }
                return Err(err);
            },
            Ok(v) => {
                let ghost pre_vals = vals@;
                let ghost pre_idx = idx as int;
                proof {
                    assert forall|j: int| 0 <= j < pre_idx implies name_ready(
                        *config,
                        t,
                        g,
                        garden_first,
                        spec_names(body@)[j],
                    ) && (#[trigger] pre_vals[j])@ == resolved_val(
                        *config,
                        t,
                        g,
                        garden_first,
                        spec_names(body@)[j],
                    ) by {
                        assert(pre_vals[j]@ == resolved_val(
                            pre,
                            t,
                            g,
                            garden_first,
                            spec_names(body@)[j],
                        ));
                        lemma_resolved_stable(pre, *config, t, g, garden_first, spec_names(body@)[j]);
                    }
                    lemma_cfg_evolves_trans(*old(config), pre, *config);
                    if names_ready(*old(config), t, g, garden_first, body@) {
                        assert(name_ready(
                            *old(config),
                            t,
                            g,
                            garden_first,
                            spec_names(body@)[idx as int],
                        ));
                        assert(pre == *old(config));
                        assert(names@[idx as int]@ == spec_names(body@)[idx as int]);
                        assert(name_ready(pre, t, g, garden_first, names@[idx as int]@));
                        assert(*config == pre);
                    }
                }
                vals.push(v);
                idx += 1;
                proof {
                    assert forall|j: int| 0 <= j < idx implies (#[trigger] vals@[j])@
                        == resolved_val(*config, t, g, garden_first, spec_names(body@)[j]) by {
                        if j < pre_idx {
                            assert(vals@[j] == pre_vals[j]);
                            assert((#[trigger] pre_vals[j])@ == resolved_val(
                                *config,
                                t,
                                g,
                                garden_first,
                                spec_names(body@)[j],
                            ));
                        } else {
                            assert(vals@[j] == v);
                            assert(names@[j]@ == spec_names(body@)[j]);
                            assert(v@ == resolved_val(*config, t, g, garden_first, names@[j]@));
                        }
                    }
                    assert forall|j: int| 0 <= j < idx implies name_ready(
                        *config,
                        t,
                        g,
                        garden_first,
                        #[trigger] spec_names(body@)[j],
                    ) by {
                        if j < pre_idx {
                            assert((#[trigger] pre_vals[j])@ == resolved_val(
                                *config,
                                t,
                                g,
                                garden_first,
                                spec_names(body@)[j],
                            ));
                            assert(name_ready(*config, t, g, garden_first, spec_names(body@)[j]));
                        } else {
                            assert(names@[j]@ == spec_names(body@)[j]);
                            assert(name_ready(*config, t, g, garden_first, names@[j]@));
                        }
                    }
                }
            },
        }
    }
    let substituted = substitute_pos(body, &vals);
    proof {
        assert forall|i: int| 0 <= i < spec_names(body@).len() implies name_ready(
            *config,
            t,
            g,
            garden_first,
            spec_names(body@)[i],
        ) && (#[trigger] spec_names(body@)[i]) == spec_names(body@)[i] by {
            assert(vals@[i]@ == resolved_val(*config, t, g, garden_first, spec_names(body@)[i]));
        }
        assert(vals@.map_values(|s: String| s@) =~= Seq::new(
            spec_names(body@).len(),
            |i: int| resolved_val(*config, t, g, garden_first, spec_names(body@)[i]),
        ));
        if !spec_is_exec(expr@) {
            assert(body@ == expr@);
            assert(substituted@ == expr_value(*config, t, g, garden_first, expr@));
        }
    }
    if is_exec {
        match runtime::shell_capture(substituted.as_str()) {
            None => Err(GardenError::ExecutionFailure(EX_IOERR)),
            Some((out, code, signal)) => {
                let status = exec_status(code, signal);
                if status == 0 {
                    Ok(trim_trailing_newlines(out.as_str()))
                } else {
                    Err(GardenError::ExecutionFailure(status))
                }
            },
        }
    } else {
        Ok(substituted)
    }
}

/// Evaluate an expression in an explicit scope, starting a fresh
/// resolution session.
pub fn scoped_value(
    config: &mut Configuration,
    t: Option<usize>,
    g: Option<usize>,
    garden_first: bool,
    expr: &str,
) -> (r: Result<String, GardenError>)
    requires
        scope_ok(*old(config), t, g),
    ensures
        cfg_evolves(*old(config), *final(config)),
        r is Ok && !spec_is_exec(expr@) ==> names_ready(*final(config), t, g, garden_first, expr@)
            && r->Ok_0@ == expr_value(*final(config), t, g, garden_first, expr@),
        r is Err ==> (r->Err_0 is CyclicDefinition || r->Err_0 is ExecutionFailure),
        names_ready(*old(config), t, g, garden_first, template_body(expr@)) ==> *final(config)
            == *old(config),
        !spec_is_exec(expr@) && names_ready(*old(config), t, g, garden_first, expr@) ==> r is Ok,
{
    let mut visiting: Vec<VarKey> = Vec::new();
    eval_expr(config, t, g, garden_first, expr, &mut visiting, 0xffff_ffff_ffff_ffff)
}

/// Evaluate an expression at configuration scope: only the top-level
/// variables and the ambient environment are in the chain.
pub fn value(config: &mut Configuration, expr: &str) -> (r: Result<String, GardenError>)
    ensures
        cfg_evolves(*old(config), *final(config)),
        r is Ok && !spec_is_exec(expr@) ==> names_ready(
            *final(config),
            None,
            None,
            false,
            expr@,
        ) && r->Ok_0@ == expr_value(*final(config), None, None, false, expr@),
        r is Err ==> (r->Err_0 is CyclicDefinition || r->Err_0 is ExecutionFailure),
        names_ready(*old(config), None, None, false, template_body(expr@)) ==> *final(config)
            == *old(config),
        !spec_is_exec(expr@) && names_ready(*old(config), None, None, false, expr@) ==> r is Ok,
{
    scoped_value(config, None, None, false, expr)
}

/// Evaluate an expression inside a tree, with its enclosing garden, if
/// any, next in the scope chain.
pub fn tree_value(
    config: &mut Configuration,
    expr: &str,
    tree: crate::model::TreeIndex,
    garden: Option<crate::model::GardenIndex>,
) -> (r: Result<String, GardenError>)
    requires
        tree < old(config).trees@.len(),
        garden is Some ==> garden->0 < old(config).gardens@.len(),
    ensures
        cfg_evolves(*old(config), *final(config)),
        r is Ok && !spec_is_exec(expr@) ==> r->Ok_0@ == expr_value(
            *final(config),
            Some(tree),
            garden,
            false,
            expr@,
        ),
        r is Err ==> (r->Err_0 is CyclicDefinition || r->Err_0 is ExecutionFailure),
        !spec_is_exec(expr@) && names_ready(*old(config), Some(tree), garden, false, expr@) ==> r
            is Ok,
{
    scoped_value(config, Some(tree), garden, false, expr)
}

// --- copying entry lists ---------------------------------------------------

/// The same entry, seen through views: same name, and values with the
/// same expressions and caches.
pub open spec fn mv_like(a: MultiVariable, b: MultiVariable) -> bool {
    &&& a.name@ == b.name@
    &&& a.values@.len() == b.values@.len()
    &&& forall|j: int|
        0 <= j < a.values@.len() ==> a.values@[j].expr@ == (#[trigger] b.values@[j]).expr@
            && opt_str_view(a.values@[j].value) == opt_str_view(b.values@[j].value)
}

/// Entry lists that agree through views, position by position.
pub open spec fn multis_like(a: Seq<MultiVariable>, b: Seq<MultiVariable>) -> bool {
    &&& a.len() == b.len()
    &&& forall|i: int| 0 <= i < a.len() ==> mv_like(a[i], #[trigger] b[i])
}

/// Copy an expression, cache included.
fn copy_variable(v: &crate::model::Variable) -> (r: crate::model::Variable)
    ensures
        r.expr@ == v.expr@,
        opt_str_view(r.value) == opt_str_view(v.value),
{
    let value = match &v.value {
        Some(s) => Some(s.clone()),
        None => None,
    };
    crate::model::Variable { expr: v.expr.clone(), value }
}

/// Copy a list of named sequences, so that a scope's entries can be read
/// while the configuration is being evaluated against.
#[verifier::loop_isolation(false)]
fn copy_multis(v: &Vec<MultiVariable>) -> (r: Vec<MultiVariable>)
    ensures
        multis_like(v@, r@),
{
    let mut out: Vec<MultiVariable> = Vec::new();
    let n = v.len();
    for i in 0..n
        invariant
            n == v@.len(),
            out@.len() == i,
            forall|j: int| 0 <= j < i ==> mv_like(v@[j], #[trigger] out@[j]),
    {
        let m = v[i].values.len();
        let mut values: Vec<crate::model::Variable> = Vec::new();
        for k in 0..m
            invariant
                m == v@[i as int].values@.len(),
                values@.len() == k,
                forall|l: int|
                    0 <= l < k ==> v@[i as int].values@[l].expr@ == (#[trigger] values@[l]).expr@
                        && opt_str_view(v@[i as int].values@[l].value) == opt_str_view(
                        values@[l].value,
                    ),
        {
            values.push(copy_variable(&v[i].values[k]));
        }
        out.push(MultiVariable { name: v[i].name.clone(), values });
        proof {
            assert(mv_like(v@[i as int], out@[i as int]));
        }
    }
    out
}

/// Matching goes by names alone, so like lists match alike, entry by
/// entry.
proof fn lemma_matching_like(a: Seq<MultiVariable>, b: Seq<MultiVariable>, name: Seq<char>)
    requires
        multis_like(a, b),
    ensures
        multis_like(matching_commands(a, name), matching_commands(b, name)),
        matching_commands(a, name).len() == matching_commands(b, name).len(),
    decreases a.len(),
{
    if a.len() > 0 {
        assert(mv_like(a[0], b[0]));
        assert forall|i: int| 0 <= i < a.drop_first().len() implies mv_like(
            a.drop_first()[i],
            #[trigger] b.drop_first()[i],
        ) by {
            assert(a.drop_first()[i] == a[i + 1]);
            assert(b.drop_first()[i] == b[i + 1]);
            assert(mv_like(a[i + 1], b[i + 1]));
        }
        lemma_matching_like(a.drop_first(), b.drop_first(), name);
        let ra = matching_commands(a.drop_first(), name);
        let rb = matching_commands(b.drop_first(), name);
        if a[0].name@ == name {
            assert(matching_commands(a, name) =~= seq![a[0]] + ra);
            assert(matching_commands(b, name) =~= seq![b[0]] + rb);
            assert forall|i: int| 0 <= i < matching_commands(a, name).len() implies mv_like(
                matching_commands(a, name)[i],
                #[trigger] matching_commands(b, name)[i],
            ) by {
                if i == 0 {
                } else {
                    assert(matching_commands(a, name)[i] == ra[i - 1]);
                    assert(matching_commands(b, name)[i] == rb[i - 1]);
                    assert(mv_like(ra[i - 1], rb[i - 1]));
                }
            }
        }
    }
}

// --- environment resolution ------------------------------------------------

/// The value an environment entry contributes: its expressions'
/// values, in declared order, joined with `:`.
pub open spec fn spec_joined(
    c: Configuration,
    t: Option<usize>,
    g: Option<usize>,
    vals: Seq<crate::model::Variable>,
) -> Seq<char>
    decreases vals.len(),
{
    if vals.len() == 0 {
        Seq::empty()
    } else if vals.len() == 1 {
        expr_value(c, t, g, false, vals[0].expr@)
    } else {
        spec_joined(c, t, g, vals.drop_last()) + seq![':'] + expr_value(
            c,
            t,
            g,
            false,
            vals.last().expr@,
        )
    }
}

/// One entry's values are all literal templates with resolved names.
pub open spec fn entry_ready(
    c: Configuration,
    t: Option<usize>,
    g: Option<usize>,
    vals: Seq<crate::model::Variable>,
) -> bool {
    forall|l: int|
        0 <= l < vals.len() ==> !spec_is_exec((#[trigger] vals[l]).expr@) && names_ready(
            c,
            t,
            g,
            false,
            vals[l].expr@,
        )
}

/// A joined value keeps its text as the caches only grow.
proof fn lemma_joined_stable(
    a: Configuration,
    b: Configuration,
    t: Option<usize>,
    g: Option<usize>,
    vals: Seq<crate::model::Variable>,
)
    requires
        cfg_evolves(a, b),
        scope_ok(a, t, g),
        entry_ready(a, t, g, vals),
    ensures
        entry_ready(b, t, g, vals),
        spec_joined(b, t, g, vals) == spec_joined(a, t, g, vals),
    decreases vals.len(),
{
    assert forall|l: int|
        0 <= l < vals.len() implies !spec_is_exec((#[trigger] vals[l]).expr@) && names_ready(
        b,
        t,
        g,
        false,
        vals[l].expr@,
    ) by {
        assert(!spec_is_exec((#[trigger] vals[l]).expr@) && names_ready(a, t, g, false, vals[l].expr@));
        lemma_expr_value_stable(a, b, t, g, false, vals[l].expr@);
    }
    if vals.len() > 0 {
        assert forall|l: int|
            0 <= l < vals.drop_last().len() implies !spec_is_exec(
            (#[trigger] vals.drop_last()[l]).expr@,
        ) && names_ready(a, t, g, false, vals.drop_last()[l].expr@) by {
            assert(vals.drop_last()[l] == vals[l]);
            assert(!spec_is_exec((#[trigger] vals[l]).expr@) && names_ready(
                a,
                t,
                g,
                false,
                vals[l].expr@,
            ));
        }
        lemma_joined_stable(a, b, t, g, vals.drop_last());
        assert(!spec_is_exec(vals.last().expr@) && names_ready(a, t, g, false, vals.last().expr@));
        lemma_expr_value_stable(a, b, t, g, false, vals.last().expr@);
    }
}

/// The mapping carries this name with exactly this value.
pub open spec fn env_final_value(
    out: Seq<(String, String)>,
    name: Seq<char>,
    val: Seq<char>,
) -> bool {
    exists|k: int| 0 <= k < out.len() && (#[trigger] out[k]).0@ == name && out[k].1@ == val
}

/// Joined values depend on the expression text alone.
proof fn lemma_joined_like(
    c: Configuration,
    t: Option<usize>,
    g: Option<usize>,
    a: Seq<crate::model::Variable>,
    b: Seq<crate::model::Variable>,
)
    requires
        a.len() == b.len(),
        forall|l: int| 0 <= l < a.len() ==> (#[trigger] a[l]).expr@ == b[l].expr@,
    ensures
        spec_joined(c, t, g, a) == spec_joined(c, t, g, b),
        entry_ready(c, t, g, a) ==> entry_ready(c, t, g, b),
    decreases a.len(),
{
    if a.len() > 0 {
        assert forall|l: int| 0 <= l < a.drop_last().len() implies (
        #[trigger] a.drop_last()[l]).expr@ == b.drop_last()[l].expr@ by {
            assert(a.drop_last()[l] == a[l] && b.drop_last()[l] == b[l]);
            assert((#[trigger] a[l]).expr@ == b[l].expr@);
        }
        lemma_joined_like(c, t, g, a.drop_last(), b.drop_last());
        assert(a.last().expr@ == b.last().expr@);
    }
    if entry_ready(c, t, g, a) {
        assert forall|l: int|
            0 <= l < b.len() implies !spec_is_exec((#[trigger] b[l]).expr@) && names_ready(
            c,
            t,
            g,
            false,
            b[l].expr@,
        ) by {
            assert(!spec_is_exec((#[trigger] a[l]).expr@) && names_ready(c, t, g, false, a[l].expr@));
        }
    }
}

/// A name/value pair survives an upsert of a different name.
proof fn lemma_env_value_kept(
    before: Seq<(String, String)>,
    after: Seq<(String, String)>,
    name: Seq<char>,
    val: Seq<char>,
    upname: Seq<char>,
)
    requires
        env_final_value(before, name, val),
        after.len() >= before.len(),
        forall|k: int| 0 <= k < before.len() ==> (#[trigger] after[k]).0 == before[k].0,
        forall|k: int|
            0 <= k < before.len() ==> (before[k].0@ != upname ==> (#[trigger] after[k]).1
                == before[k].1),
        name != upname,
    ensures
        env_final_value(after, name, val),
{
    let k = choose|k: int|
        0 <= k < before.len() && (#[trigger] before[k]).0@ == name && before[k].1@ == val;
    assert(after[k].0 == before[k].0);
    assert(after[k].1 == before[k].1);
    assert(after[k].0@ == name && after[k].1@ == val);
}

/// Insert a name/value pair, overriding the value of an existing entry
/// with the same name in place.
#[verifier::loop_isolation(false)]
fn upsert(out: &mut Vec<(String, String)>, name: &str, val: String)
    requires
        env_names_unique(old(out)@),
    ensures
        env_names_unique(final(out)@),
        final(out)@.len() >= old(out)@.len(),
        exists|k: int|
            0 <= k < final(out)@.len() && (#[trigger] final(out)@[k]).0@ == name@
                && final(out)@[k].1@ == val@,
        forall|k: int|
            0 <= k < old(out)@.len() ==> (#[trigger] final(out)@[k]).0 == old(out)@[k].0
                && (old(out)@[k].0@ != name@ ==> final(out)@[k].1 == old(out)@[k].1),
{
    let n = out.len();
    let mut i: usize = 0;
    while i < n
        invariant
            n == out@.len(),
            0 <= i <= n,
            *out == *old(out),
            forall|k: int| 0 <= k < i ==> (#[trigger] out@[k]).0@ != name@,
        decreases n - i,
    {
        if crate::model::s_eq(out[i].0.as_str(), name) {
            out[i].1 = val;
            proof {
                assert(out@[i as int].0@ == name@);
                assert(out@[i as int].1@ == val@);
            }
            return ;
        }
        i += 1;
    }
    let ghost pre = out@;
    out.push((String::from_str(name), val));
    proof {
        assert(out@[pre.len() as int].0@ == name@);
        assert(out@[pre.len() as int].1@ == val@);
        assert forall|k: int, l: int| 0 <= k < l < out@.len() implies (#[trigger] out@[k]).0@ != (
        #[trigger] out@[l]).0@ by {
            if l < pre.len() {
                assert(out@[k] == pre[k] && out@[l] == pre[l]);
            } else {
                assert(out@[l].0@ == name@);
                if k < pre.len() {
                    assert(out@[k] == pre[k]);
                    assert(pre[k].0@ != name@);
                }
            }
        }
    }
}

/// Every name occurs at most once: the mapping is keyed.
pub open spec fn env_names_unique(env: Seq<(String, String)>) -> bool {
    forall|k: int, l: int| 0 <= k < l < env.len() ==> (#[trigger] env[k]).0@ != (
    #[trigger] env[l]).0@
}

/// The mapping carries an entry with this name.
pub open spec fn env_has_name(out: Seq<(String, String)>, name: Seq<char>) -> bool {
    exists|k: int| 0 <= k < out.len() && (#[trigger] out[k]).0@ == name
}

/// Every entry name of the scope appears in the mapping.
pub open spec fn env_covers(out: Seq<(String, String)>, entries: Seq<MultiVariable>) -> bool {
    forall|e: int|
        0 <= e < entries.len() ==> env_has_name(out, (#[trigger] entries[e]).name@)
}

/// A name stays in the mapping as it grows in place.
proof fn lemma_env_has_name_grows(
    before: Seq<(String, String)>,
    after: Seq<(String, String)>,
    name: Seq<char>,
)
    requires
        env_has_name(before, name),
        after.len() >= before.len(),
        forall|k: int| 0 <= k < before.len() ==> (#[trigger] after[k]).0 == before[k].0,
    ensures
        env_has_name(after, name),
{
    let k = choose|k: int| 0 <= k < before.len() && (#[trigger] before[k]).0@ == name;
    assert(after[k].0 == before[k].0);
    assert(after[k].0@ == name);
}

/// Evaluate one scope's environment entries into the mapping: each
/// entry's values are evaluated in declared order and joined with `:`;
/// an entry overrides an earlier entry with the same name.
#[verifier::loop_isolation(false)]
fn apply_env_entries(
    config: &mut Configuration,
    t: Option<usize>,
    g: Option<usize>,
    entries: &Vec<MultiVariable>,
    out: &mut Vec<(String, String)>,
) -> (r: Result<(), GardenError>)
    requires
        scope_ok(*old(config), t, g),
        env_names_unique(old(out)@),
    ensures
        cfg_evolves(*old(config), *final(config)),
        env_names_unique(final(out)@),
        final(out)@.len() >= old(out)@.len(),
        forall|k: int|
            0 <= k < old(out)@.len() ==> (#[trigger] final(out)@[k]).0 == old(out)@[k].0,
        r is Ok ==> env_covers(final(out)@, entries@),
        entries_ready(*old(config), t, g, false, entries@) ==> r is Ok,
        r is Ok ==> forall|e: int|
            0 <= e < entries@.len() && entry_ready(
                *old(config),
                t,
                g,
                (#[trigger] entries@[e]).values@,
            ) && (forall|e2: int|
                e < e2 < entries@.len() ==> (#[trigger] entries@[e2]).name@ != entries@[e].name@)
                ==> env_final_value(
                final(out)@,
                entries@[e].name@,
                spec_joined(*final(config), t, g, entries@[e].values@),
            ),
        r is Err ==> (r->Err_0 is CyclicDefinition || r->Err_0 is ExecutionFailure),
{
    let n = entries.len();
    for i in 0..n
        invariant
            n == entries@.len(),
            scope_ok(*config, t, g),
            cfg_evolves(*old(config), *config),
            env_names_unique(out@),
            out@.len() >= old(out)@.len(),
            forall|k: int| 0 <= k < old(out)@.len() ==> (#[trigger] out@[k]).0 == old(out)@[k].0,
            forall|e: int| 0 <= e < i ==> env_has_name(out@, (#[trigger] entries@[e]).name@),
            forall|e: int|
                0 <= e < i && entry_ready(*old(config), t, g, (#[trigger] entries@[e]).values@)
                    && (forall|e2: int|
                    e < e2 < entries@.len() ==> (#[trigger] entries@[e2]).name@
                        != entries@[e].name@) ==> env_final_value(
                    out@,
                    entries@[e].name@,
                    spec_joined(*config, t, g, entries@[e].values@),
                ),
    {
        let ghost pre = *config;
        let m = entries[i].values.len();
        let mut combined = String::new();
        let mut any = false;
        for j in 0..m
            invariant
                0 <= i < entries@.len(),
                m == entries@[i as int].values@.len(),
                scope_ok(*config, t, g),
                cfg_evolves(pre, *config),
                any == (j > 0),
                entry_ready(*old(config), t, g, entries@[i as int].values@) ==> combined@
                    == spec_joined(*config, t, g, entries@[i as int].values@.take(j as int)),
        {
            let ghost mid = *config;
            let res = scoped_value(config, t, g, false, entries[i].values[j].expr.as_str());
            proof {
                lemma_cfg_evolves_trans(pre, mid, *config);
                if entry_ready(*old(config), t, g, entries@[i as int].values@) {
                    lemma_cfg_evolves_trans(*old(config), pre, mid);
                    lemma_joined_stable(
                        *old(config),
                        mid,
                        t,
                        g,
                        entries@[i as int].values@,
                    );
                    assert forall|l: int|
                        0 <= l < entries@[i as int].values@.take(j as int).len() implies
                        !spec_is_exec(
                        (#[trigger] entries@[i as int].values@.take(j as int)[l]).expr@,
                    ) && names_ready(
                        mid,
                        t,
                        g,
                        false,
                        entries@[i as int].values@.take(j as int)[l].expr@,
                    ) by {
                        assert(entries@[i as int].values@.take(j as int)[l]
                            == entries@[i as int].values@[l]);
                        assert(!spec_is_exec(
                            (#[trigger] entries@[i as int].values@[l]).expr@,
                        ) && names_ready(mid, t, g, false, entries@[i as int].values@[l].expr@));
                    }
                    lemma_joined_stable(
                        mid,
                        *config,
                        t,
                        g,
                        entries@[i as int].values@.take(j as int),
                    );
                    lemma_joined_stable(mid, *config, t, g, entries@[i as int].values@);
                }
            }
            match res {
                Err(err) => {
                    proof {
                        lemma_cfg_evolves_trans(*old(config), pre, *config);
                        if entries_ready(*old(config), t, g, false, entries@) {
                            assert(!spec_is_exec(
                                (entries@[i as int].values@[j as int]).expr@,
                            ) && names_ready(
                                *old(config),
                                t,
                                g,
                                false,
                                entries@[i as int].values@[j as int].expr@,
                            ));
                            lemma_cfg_evolves_trans(*old(config), pre, mid);
                            lemma_expr_value_stable(
                                *old(config),
                                mid,
                                t,
                                g,
                                false,
                                entries@[i as int].values@[j as int].expr@,
                            );
                            assert(false);
                        }
                    }
                    return Err(err);
                },
                Ok(v) => {
                    let ghost pre_combined = combined@;
                    if any {
                        combined.append(":");
                    }
                    combined.append(v.as_str());
                    any = true;
                    proof {
                        reveal_strlit(":");
                        if entry_ready(*old(config), t, g, entries@[i as int].values@) {
                            assert(!spec_is_exec(
                                (entries@[i as int].values@[j as int]).expr@,
                            ) && names_ready(
                                mid,
                                t,
                                g,
                                false,
                                entries@[i as int].values@[j as int].expr@,
                            ));
                            assert(v@ == expr_value(
                                *config,
                                t,
                                g,
                                false,
                                entries@[i as int].values@[j as int].expr@,
                            ));
                            let vals = entries@[i as int].values@;
                            assert(vals.take(j + 1).drop_last() =~= vals.take(j as int));
                            assert(vals.take(j + 1).last() == vals[j as int]);
                            if j == 0 {
                                assert(vals.take(1)[0] == vals[0]);
                                assert(combined@ =~= expr_value(
                                    *config,
                                    t,
                                    g,
                                    false,
                                    vals[0].expr@,
                                ));
                                assert(combined@ == spec_joined(*config, t, g, vals.take(1)));
                            } else {
                                assert(":"@ =~= seq![':']);
                                assert(combined@ =~= pre_combined + seq![':'] + v@);
                                assert(combined@ == spec_joined(*config, t, g, vals.take(j + 1)));
                            }
                        }
                    }
                },
            }
        }
        let ghost pre_out = out@;
        let ghost pre_cfg2 = *config;
        upsert(out, entries[i].name.as_str(), combined);
        proof {
            lemma_cfg_evolves_trans(*old(config), pre, *config);
            assert forall|e: int| 0 <= e < i + 1 implies env_has_name(
                out@,
                (#[trigger] entries@[e]).name@,
            ) by {
                if e < i {
                    lemma_env_has_name_grows(pre_out, out@, entries@[e].name@);
                } else {
                    let k = choose|k: int|
                        0 <= k < out@.len() && (#[trigger] out@[k]).0@
                            == entries@[i as int].name@ && out@[k].1@ == combined@;
                    assert(out@[k].0@ == entries@[e].name@);
                    assert(env_has_name(out@, entries@[e].name@));
                }
            }
            assert forall|e: int|
                0 <= e < i + 1 && entry_ready(*old(config), t, g, (#[trigger] entries@[e]).values@)
                    && (forall|e2: int|
                    e < e2 < entries@.len() ==> (#[trigger] entries@[e2]).name@
                        != entries@[e].name@) implies env_final_value(
                out@,
                entries@[e].name@,
                spec_joined(*config, t, g, entries@[e].values@),
            ) by {
                if e < i {
                    lemma_joined_stable(*old(config), pre, t, g, entries@[e].values@);
                    lemma_joined_stable(pre, *config, t, g, entries@[e].values@);
                    assert(env_final_value(
                        pre_out,
                        entries@[e].name@,
                        spec_joined(*config, t, g, entries@[e].values@),
                    ));
                    assert(entries@[i as int].name@ != entries@[e].name@);
                    lemma_env_value_kept(
                        pre_out,
                        out@,
                        entries@[e].name@,
                        spec_joined(*config, t, g, entries@[e].values@),
                        entries@[i as int].name@,
                    );
                } else {
                    assert(entries@[i as int].values@.take(m as int) =~= entries@[i as int].values@);
                    assert(combined@ == spec_joined(*config, t, g, entries@[e].values@));
                    let k = choose|k: int|
                        0 <= k < out@.len() && (#[trigger] out@[k]).0@
                            == entries@[i as int].name@ && out@[k].1@ == combined@;
                    assert(env_final_value(
                        out@,
                        entries@[e].name@,
                        spec_joined(*config, t, g, entries@[e].values@),
                    ));
                }
            }
        }
    }
    proof {
        assert forall|e: int| 0 <= e < entries@.len() implies env_has_name(
            out@,
            (#[trigger] entries@[e]).name@,
        ) by {
            assert(0 <= e < n);
        }
    }
    Ok(())
}

/// Resolve the full environment of a context: configuration entries
/// first, then the garden's (if the context has one), then the tree's;
/// a later scope overrides an earlier entry with the same name in place.
pub fn environment(config: &mut Configuration, context: &TreeContext) -> (r: Result<
    Vec<(String, String)>,
    GardenError,
>)
    requires
        context.tree < old(config).trees@.len(),
        context.garden is Some ==> context.garden->0 < old(config).gardens@.len(),
    ensures
        cfg_evolves(*old(config), *final(config)),
        r is Ok ==> env_names_unique(r->Ok_0@),
        r is Ok ==> env_covers(r->Ok_0@, old(config).environment@),
        r is Ok && context.garden is Some ==> env_covers(
            r->Ok_0@,
            old(config).gardens@[context.garden->0 as int].environment@,
        ),
        r is Ok ==> env_covers(r->Ok_0@, old(config).trees@[context.tree as int].environment@),
        entries_ready(*old(config), None, None, false, old(config).environment@) && (
        context.garden is Some ==> entries_ready(
            *old(config),
            None,
            context.garden,
            false,
            old(config).gardens@[context.garden->0 as int].environment@,
        )) && entries_ready(
            *old(config),
            Some(context.tree),
            context.garden,
            false,
            old(config).trees@[context.tree as int].environment@,
        ) ==> r is Ok,
        r is Ok ==> forall|e: int|
            0 <= e < old(config).trees@[context.tree as int].environment@.len() && entry_ready(
                *old(config),
                Some(context.tree),
                context.garden,
                (#[trigger] old(config).trees@[context.tree as int].environment@[e]).values@,
            ) && (forall|e2: int|
                e < e2 < old(config).trees@[context.tree as int].environment@.len() ==> (
                #[trigger] old(config).trees@[context.tree as int].environment@[e2]).name@
                    != old(config).trees@[context.tree as int].environment@[e].name@)
                ==> env_final_value(
                r->Ok_0@,
                old(config).trees@[context.tree as int].environment@[e].name@,
                spec_joined(
                    *final(config),
                    Some(context.tree),
                    context.garden,
                    old(config).trees@[context.tree as int].environment@[e].values@,
                ),
            ),
        r is Err ==> (r->Err_0 is CyclicDefinition || r->Err_0 is ExecutionFailure),
{
    let mut out: Vec<(String, String)> = Vec::new();
    let cfg_entries = copy_multis(&config.environment);
    proof {
        if entries_ready(*old(config), None, None, false, old(config).environment@) {
            lemma_entries_ready_like(
                *old(config),
                None,
                None,
                false,
                old(config).environment@,
                cfg_entries@,
            );
        }
    }
    let res = apply_env_entries(config, None, None, &cfg_entries, &mut out);
    if let Err(err) = res {
        return Err(err);
    }
    let ghost out1 = out@;
    let ghost mid1 = *config;
    if let Some(gi) = context.garden {
        let entries = copy_multis(&config.gardens[gi].environment);
        proof {
            if entries_ready(
                *old(config),
                None,
                Some(gi),
                false,
                old(config).gardens@[gi as int].environment@,
            ) {
                lemma_entries_ready_like(
                    *old(config),
                    None,
                    Some(gi),
                    false,
                    old(config).gardens@[gi as int].environment@,
                    entries@,
                );
                lemma_entries_ready_stable(*old(config), mid1, None, Some(gi), false, entries@);
            }
        }
        let res = apply_env_entries(config, None, Some(gi), &entries, &mut out);
        proof {
            lemma_cfg_evolves_trans(*old(config), mid1, *config);
        }
        if let Err(err) = res {
            return Err(err);
        }
        proof {
            lemma_env_covers_like(out@, entries@, old(config).gardens@[gi as int].environment@);
        }
    }
    let ghost out2 = out@;
    let ghost mid2 = *config;
    let tree_entries = copy_multis(&config.trees[context.tree].environment);
    proof {
        if entries_ready(
            *old(config),
            Some(context.tree),
            context.garden,
            false,
            old(config).trees@[context.tree as int].environment@,
        ) {
            lemma_entries_ready_like(
                *old(config),
                Some(context.tree),
                context.garden,
                false,
                old(config).trees@[context.tree as int].environment@,
                tree_entries@,
            );
            lemma_entries_ready_stable(
                *old(config),
                mid2,
                Some(context.tree),
                context.garden,
                false,
                tree_entries@,
            );
        }
    }
    let res = apply_env_entries(config, Some(context.tree), context.garden, &tree_entries, &mut out);
    proof {
        lemma_cfg_evolves_trans(*old(config), mid2, *config);
    }
    if let Err(err) = res {
        return Err(err);
    }
    proof {
        lemma_env_covers_like(
            out@,
            tree_entries@,
            old(config).trees@[context.tree as int].environment@,
        );
        assert forall|e: int|
            0 <= e < old(config).trees@[context.tree as int].environment@.len() && entry_ready(
                *old(config),
                Some(context.tree),
                context.garden,
                (#[trigger] old(config).trees@[context.tree as int].environment@[e]).values@,
            ) && (forall|e2: int|
                e < e2 < old(config).trees@[context.tree as int].environment@.len() ==> (
                #[trigger] old(config).trees@[context.tree as int].environment@[e2]).name@
                    != old(config).trees@[context.tree as int].environment@[e].name@) implies
            env_final_value(
            out@,
            old(config).trees@[context.tree as int].environment@[e].name@,
            spec_joined(
                *config,
                Some(context.tree),
                context.garden,
                old(config).trees@[context.tree as int].environment@[e].values@,
            ),
        ) by {
            let src_entries = old(config).trees@[context.tree as int].environment@;
            assert(mv_like(src_entries[e], tree_entries@[e]));
            lemma_joined_stable(
                *old(config),
                mid2,
                Some(context.tree),
                context.garden,
                src_entries[e].values@,
            );
            lemma_joined_like(
                mid2,
                Some(context.tree),
                context.garden,
                src_entries[e].values@,
                tree_entries@[e].values@,
            );
            assert forall|e2: int| e < e2 < tree_entries@.len() implies (
            #[trigger] tree_entries@[e2]).name@ != tree_entries@[e].name@ by {
                assert(mv_like(src_entries[e2], tree_entries@[e2]));
                assert((#[trigger] src_entries[e2]).name@ != src_entries[e].name@);
            }
            assert(env_final_value(
                out@,
                tree_entries@[e].name@,
                spec_joined(*config, Some(context.tree), context.garden, tree_entries@[e].values@),
            ));
            lemma_joined_like(
                *config,
                Some(context.tree),
                context.garden,
                src_entries[e].values@,
                tree_entries@[e].values@,
            );
        }
        lemma_env_covers_prefix(out1, out2, cfg_entries@);
        lemma_env_covers_prefix(out2, out@, cfg_entries@);
        lemma_env_covers_like(out@, cfg_entries@, old(config).environment@);
        if context.garden is Some {
            lemma_env_covers_prefix(
                out2,
                out@,
                old(config).gardens@[context.garden->0 as int].environment@,
            );
        }
    }
    Ok(out)
}

/// Coverage carries over to a like entry list: names are shared.
proof fn lemma_env_covers_like(
    out: Seq<(String, String)>,
    a: Seq<MultiVariable>,
    b: Seq<MultiVariable>,
)
    requires
        multis_like(b, a),
        env_covers(out, a),
    ensures
        env_covers(out, b),
{
    assert forall|e: int| 0 <= e < b.len() implies env_has_name(
        out,
        (#[trigger] b[e]).name@,
    ) by {
        assert(mv_like(b[e], a[e]));
        assert(env_has_name(out, a[e].name@));
    }
}

/// Coverage survives growing the mapping when the existing names are
/// kept in place.
proof fn lemma_env_covers_prefix(
    before: Seq<(String, String)>,
    after: Seq<(String, String)>,
    entries: Seq<MultiVariable>,
)
    requires
        env_covers(before, entries),
        after.len() >= before.len(),
        forall|k: int| 0 <= k < before.len() ==> (#[trigger] after[k]).0 == before[k].0,
    ensures
        env_covers(after, entries),
{
    assert forall|e: int| 0 <= e < entries.len() implies env_has_name(
        after,
        (#[trigger] entries[e]).name@,
    ) by {
        assert(env_has_name(before, entries[e].name@));
        lemma_env_has_name_grows(before, after, entries[e].name@);
    }
}

// --- command resolution ----------------------------------------------------

/// The command entries carrying the given name, in declared order.
pub open spec fn matching_commands(cmds: Seq<MultiVariable>, name: Seq<char>) -> Seq<MultiVariable>
    decreases cmds.len(),
{
    if cmds.len() == 0 {
        Seq::empty()
    } else {
        let rest = matching_commands(cmds.drop_first(), name);
        if cmds[0].name@ == name {
            seq![cmds[0]] + rest
        } else {
            rest
        }
    }
}

proof fn lemma_matching_take_step(cmds: Seq<MultiVariable>, name: Seq<char>, i: int)
    requires
        0 <= i < cmds.len(),
    ensures
        matching_commands(cmds.take(i + 1), name) == if cmds[i].name@ == name {
            matching_commands(cmds.take(i), name).push(cmds[i])
        } else {
            matching_commands(cmds.take(i), name)
        },
    decreases i,
{
    if i == 0 {
        assert(cmds.take(1).drop_first() =~= Seq::<MultiVariable>::empty());
        assert(cmds.take(0) =~= Seq::<MultiVariable>::empty());
        assert(matching_commands(Seq::<MultiVariable>::empty(), name) == Seq::<
            MultiVariable,
        >::empty());
        assert(cmds.take(1)[0] == cmds[0]);
        if cmds[0].name@ == name {
            assert(matching_commands(cmds.take(1), name) == seq![cmds[0]] + Seq::<
                MultiVariable,
            >::empty());
            assert(seq![cmds[0]] + Seq::<MultiVariable>::empty() =~= Seq::<
                MultiVariable,
            >::empty().push(cmds[0]));
        }
    } else {
        lemma_matching_take_step(cmds.drop_first(), name, i - 1);
        assert(cmds.take(i + 1).drop_first() =~= cmds.drop_first().take(i));
        assert(cmds.take(i).drop_first() =~= cmds.drop_first().take(i - 1));
        assert(cmds.take(i + 1)[0] == cmds[0]);
        assert(cmds.drop_first()[i - 1] == cmds[i]);
        if cmds[0].name@ == name {
            if cmds[i].name@ == name {
                assert(matching_commands(cmds.take(i + 1), name) =~= (seq![cmds[0]]
                    + matching_commands(cmds.drop_first().take(i - 1), name)).push(cmds[i]));
            }
        }
    }
}

/// Every step of every entry is a literal template whose names are
/// already resolved: nothing outside decides, so evaluation is owed
/// success.
pub open spec fn entries_ready(
    c: Configuration,
    t: Option<usize>,
    g: Option<usize>,
    garden_first: bool,
    entries: Seq<MultiVariable>,
) -> bool {
    forall|k: int, l: int|
        0 <= k < entries.len() && 0 <= l < entries[k].values@.len() ==> !spec_is_exec(
            (#[trigger] entries[k].values@[l]).expr@,
        ) && names_ready(c, t, g, garden_first, entries[k].values@[l].expr@)
}

/// Every step of every entry carrying the given name is a literal
/// template whose names are already resolved: the entries another name
/// selects, or none, play no part.
pub open spec fn named_entries_ready(
    c: Configuration,
    t: Option<usize>,
    g: Option<usize>,
    garden_first: bool,
    entries: Seq<MultiVariable>,
    name: Seq<char>,
) -> bool {
    forall|k: int, l: int|
        0 <= k < entries.len() && entries[k].name@ == name && 0 <= l < entries[k].values@.len()
            ==> !spec_is_exec((#[trigger] entries[k].values@[l]).expr@) && names_ready(
            c,
            t,
            g,
            garden_first,
            entries[k].values@[l].expr@,
        )
}

/// Named readiness speaks only of expression text and entry names, so it
/// carries over to any like entry list.
proof fn lemma_named_ready_like(
    c: Configuration,
    t: Option<usize>,
    g: Option<usize>,
    garden_first: bool,
    a: Seq<MultiVariable>,
    b: Seq<MultiVariable>,
    name: Seq<char>,
)
    requires
        multis_like(a, b),
        named_entries_ready(c, t, g, garden_first, a, name),
    ensures
        named_entries_ready(c, t, g, garden_first, b, name),
{
    assert forall|k: int, l: int|
        0 <= k < b.len() && b[k].name@ == name && 0 <= l < b[k].values@.len() implies !spec_is_exec(
        (#[trigger] b[k].values@[l]).expr@,
    ) && names_ready(c, t, g, garden_first, b[k].values@[l].expr@) by {
        assert(mv_like(a[k], b[k]));
        assert(a[k].name@ == name);
        assert(!spec_is_exec((#[trigger] a[k].values@[l]).expr@) && names_ready(
            c,
            t,
            g,
            garden_first,
            a[k].values@[l].expr@,
        ));
    }
}

/// Ready named entries stay ready as the caches only grow.
proof fn lemma_named_ready_stable(
    a: Configuration,
    b: Configuration,
    t: Option<usize>,
    g: Option<usize>,
    garden_first: bool,
    entries: Seq<MultiVariable>,
    name: Seq<char>,
)
    requires
        cfg_evolves(a, b),
        scope_ok(a, t, g),
        named_entries_ready(a, t, g, garden_first, entries, name),
    ensures
        named_entries_ready(b, t, g, garden_first, entries, name),
{
    assert forall|k: int, l: int|
        0 <= k < entries.len() && entries[k].name@ == name && 0 <= l < entries[k].values@.len()
            implies !spec_is_exec((#[trigger] entries[k].values@[l]).expr@) && names_ready(
        b,
        t,
        g,
        garden_first,
        entries[k].values@[l].expr@,
    ) by {
        assert(!spec_is_exec((#[trigger] entries[k].values@[l]).expr@) && names_ready(
            a,
            t,
            g,
            garden_first,
            entries[k].values@[l].expr@,
        ));
        lemma_expr_value_stable(a, b, t, g, garden_first, entries[k].values@[l].expr@);
    }
}

/// Readiness speaks only of expression text, so it carries over to any
/// like entry list.
proof fn lemma_entries_ready_like(
    c: Configuration,
    t: Option<usize>,
    g: Option<usize>,
    garden_first: bool,
    a: Seq<MultiVariable>,
    b: Seq<MultiVariable>,
)
    requires
        multis_like(a, b),
        entries_ready(c, t, g, garden_first, a),
    ensures
        entries_ready(c, t, g, garden_first, b),
{
    assert forall|k: int, l: int|
        0 <= k < b.len() && 0 <= l < b[k].values@.len() implies !spec_is_exec(
        (#[trigger] b[k].values@[l]).expr@,
    ) && names_ready(c, t, g, garden_first, b[k].values@[l].expr@) by {
        assert(mv_like(a[k], b[k]));
        assert(!spec_is_exec((#[trigger] a[k].values@[l]).expr@) && names_ready(
            c,
            t,
            g,
            garden_first,
            a[k].values@[l].expr@,
        ));
    }
}

/// Ready entries stay ready as the caches only grow.
proof fn lemma_entries_ready_stable(
    a: Configuration,
    b: Configuration,
    t: Option<usize>,
    g: Option<usize>,
    garden_first: bool,
    entries: Seq<MultiVariable>,
)
    requires
        cfg_evolves(a, b),
        scope_ok(a, t, g),
        entries_ready(a, t, g, garden_first, entries),
    ensures
        entries_ready(b, t, g, garden_first, entries),
{
    assert forall|k: int, l: int|
        0 <= k < entries.len() && 0 <= l < entries[k].values@.len() implies !spec_is_exec(
        (#[trigger] entries[k].values@[l]).expr@,
    ) && names_ready(b, t, g, garden_first, entries[k].values@[l].expr@) by {
        assert(!spec_is_exec((#[trigger] entries[k].values@[l]).expr@) && names_ready(
            a,
            t,
            g,
            garden_first,
            entries[k].values@[l].expr@,
        ));
        lemma_expr_value_stable(a, b, t, g, garden_first, entries[k].values@[l].expr@);
    }
}

/// The steps evaluated so far: each literal step's value is exactly the
/// substitution of its expression under the current caches.
pub open spec fn steps_track(
    c: Configuration,
    t: Option<usize>,
    g: Option<usize>,
    garden_first: bool,
    values: Seq<crate::model::Variable>,
    outvals: Seq<String>,
    j: int,
) -> bool {
    forall|l: int|
        0 <= l < j && !spec_is_exec((#[trigger] values[l]).expr@) ==> names_ready(
            c,
            t,
            g,
            garden_first,
            values[l].expr@,
        ) && outvals[l]@ == expr_value(c, t, g, garden_first, values[l].expr@)
}

/// Evaluated command sequences, row by row: one row per entry, one
/// value per step, and every literal step's value is exactly the
/// substitution of its expression under the configuration's caches.
pub open spec fn command_values_match(
    c: Configuration,
    t: Option<usize>,
    g: Option<usize>,
    garden_first: bool,
    entries: Seq<MultiVariable>,
    added: Seq<Vec<String>>,
) -> bool {
    &&& added.len() == entries.len()
    &&& forall|k: int|
        0 <= k < entries.len() ==> (#[trigger] added[k])@.len() == entries[k].values@.len()
    &&& forall|k: int, l: int|
        0 <= k < entries.len() && 0 <= l < entries[k].values@.len() && !spec_is_exec(
            (#[trigger] entries[k].values@[l]).expr@,
        ) ==> names_ready(c, t, g, garden_first, entries[k].values@[l].expr@) && added[k]@[l]@
            == expr_value(c, t, g, garden_first, entries[k].values@[l].expr@)
}

/// The rows keep matching under cache evolution.
proof fn lemma_values_match_stable(
    a: Configuration,
    b: Configuration,
    t: Option<usize>,
    g: Option<usize>,
    garden_first: bool,
    entries: Seq<MultiVariable>,
    added: Seq<Vec<String>>,
)
    requires
        cfg_evolves(a, b),
        scope_ok(a, t, g),
        command_values_match(a, t, g, garden_first, entries, added),
    ensures
        command_values_match(b, t, g, garden_first, entries, added),
{
    assert forall|k: int| 0 <= k < entries.len() implies (#[trigger] added[k])@.len()
        == entries[k].values@.len() by {
        assert((#[trigger] added[k])@.len() == entries[k].values@.len());
    }
    assert forall|k: int, l: int|
        0 <= k < entries.len() && 0 <= l < entries[k].values@.len() && !spec_is_exec(
            (#[trigger] entries[k].values@[l]).expr@,
        ) implies names_ready(b, t, g, garden_first, entries[k].values@[l].expr@) && added[k]@[l]@
            == expr_value(b, t, g, garden_first, entries[k].values@[l].expr@) by {
        assert(added[k]@[l]@ == expr_value(a, t, g, garden_first, entries[k].values@[l].expr@));
        lemma_expr_value_stable(a, b, t, g, garden_first, entries[k].values@[l].expr@);
    }
}

/// The rows speak only of names, step counts and expression text, so
/// they carry over to any like entry list.
proof fn lemma_values_match_like(
    c: Configuration,
    t: Option<usize>,
    g: Option<usize>,
    garden_first: bool,
    a: Seq<MultiVariable>,
    b: Seq<MultiVariable>,
    added: Seq<Vec<String>>,
)
    requires
        multis_like(a, b),
        command_values_match(c, t, g, garden_first, b, added),
    ensures
        command_values_match(c, t, g, garden_first, a, added),
{
    assert forall|k: int| 0 <= k < a.len() implies (#[trigger] added[k])@.len()
        == a[k].values@.len() by {
        assert(mv_like(a[k], b[k]));
    }
    assert forall|k: int, l: int|
        0 <= k < a.len() && 0 <= l < a[k].values@.len() && !spec_is_exec(
            (#[trigger] a[k].values@[l]).expr@,
        ) implies names_ready(c, t, g, garden_first, a[k].values@[l].expr@) && added[k]@[l]@
            == expr_value(c, t, g, garden_first, a[k].values@[l].expr@) by {
        assert(mv_like(a[k], b[k]));
        assert(a[k].values@[l].expr@ == b[k].values@[l].expr@);
        assert(b[k].values@[l] == b[k].values@[l]);
        assert(added[k]@[l]@ == expr_value(c, t, g, garden_first, b[k].values@[l].expr@));
    }
}

/// Gather the command entries with this name and evaluate each one's
/// steps in the given scope, appending one sequence of shell commands per
/// matching entry.
#[verifier::loop_isolation(false)]
#[verifier::rlimit(100)]
fn append_command_sequences(
    config: &mut Configuration,
    t: Option<usize>,
    g: Option<usize>,
    garden_first: bool,
    entries: &Vec<MultiVariable>,
    name: &str,
    out: &mut Vec<Vec<String>>,
) -> (r: Result<(), GardenError>)
    requires
        scope_ok(*old(config), t, g),
    ensures
        cfg_evolves(*old(config), *final(config)),
        r is Err ==> (r->Err_0 is CyclicDefinition || r->Err_0 is ExecutionFailure),
        r is Ok ==> final(out)@.len() == old(out)@.len() + matching_commands(
            entries@,
            name@,
        ).len(),
        r is Ok ==> forall|k: int| 0 <= k < old(out)@.len() ==> #[trigger] final(out)@[k] == old(
            out,
        )@[k],
        r is Ok ==> command_values_match(
            *final(config),
            t,
            g,
            garden_first,
            matching_commands(entries@, name@),
            final(out)@.skip(old(out)@.len() as int),
        ),
        named_entries_ready(*old(config), t, g, garden_first, entries@, name@) ==> r is Ok,
{
    let n = entries.len();
    proof {
        assert(entries@.take(0) =~= Seq::<MultiVariable>::empty());
        assert(out@.skip(old(out)@.len() as int) =~= Seq::<Vec<String>>::empty());
    }
    let mut i: usize = 0;
    while i < n
        invariant
            n == entries@.len(),
            0 <= i <= n,
            scope_ok(*config, t, g),
            cfg_evolves(*old(config), *config),
            out@.len() == old(out)@.len() + matching_commands(entries@.take(i as int), name@).len(),
            forall|k: int| 0 <= k < old(out)@.len() ==> #[trigger] out@[k] == old(out)@[k],
            command_values_match(
                *config,
                t,
                g,
                garden_first,
                matching_commands(entries@.take(i as int), name@),
                out@.skip(old(out)@.len() as int),
            ),
        decreases n - i,
    {
        let ghost pre = *config;
        let ghost matched = matching_commands(entries@.take(i as int), name@);
        if crate::model::s_eq(entries[i].name.as_str(), name) {
            let m = entries[i].values.len();
            let mut seq_out: Vec<String> = Vec::new();
            let mut j: usize = 0;
            while j < m
                invariant
                    0 <= j <= m,
                    0 <= i < entries@.len(),
                    m == entries@[i as int].values@.len(),
                    scope_ok(*config, t, g),
                    cfg_evolves(pre, *config),
                    seq_out@.len() == j,
                    command_values_match(
                        *config,
                        t,
                        g,
                        garden_first,
                        matched,
                        out@.skip(old(out)@.len() as int),
                    ),
                    steps_track(
                        *config,
                        t,
                        g,
                        garden_first,
                        entries@[i as int].values@,
                        seq_out@,
                        j as int,
                    ),
                decreases m - j,
            {
                let ghost mid = *config;
                let res = scoped_value(
                    config,
                    t,
                    g,
                    garden_first,
                    entries[i].values[j].expr.as_str(),
                );
                proof {
                    lemma_cfg_evolves_trans(pre, mid, *config);
                    lemma_values_match_stable(
                        mid,
                        *config,
                        t,
                        g,
                        garden_first,
                        matched,
                        out@.skip(old(out)@.len() as int),
                    );
                    assert(steps_track(
                        *config,
                        t,
                        g,
                        garden_first,
                        entries@[i as int].values@,
                        seq_out@,
                        j as int,
                    )) by {
                        assert forall|l: int|
                            0 <= l < j && !spec_is_exec(
                                (#[trigger] entries@[i as int].values@[l]).expr@,
                            ) implies names_ready(
                            *config,
                            t,
                            g,
                            garden_first,
                            entries@[i as int].values@[l].expr@,
                        ) && seq_out@[l]@ == expr_value(
                            *config,
                            t,
                            g,
                            garden_first,
                            entries@[i as int].values@[l].expr@,
                        ) by {
                            assert(seq_out@[l]@ == expr_value(
                                mid,
                                t,
                                g,
                                garden_first,
                                entries@[i as int].values@[l].expr@,
                            ));
                            lemma_expr_value_stable(
                                mid,
                                *config,
                                t,
                                g,
                                garden_first,
                                entries@[i as int].values@[l].expr@,
                            );
                        }
                    }
                }
                match res {
                    Err(err) => {
                        proof {
                            lemma_cfg_evolves_trans(*old(config), pre, *config);
                            if named_entries_ready(
                                *old(config),
                                t,
                                g,
                                garden_first,
                                entries@,
                                name@,
                            ) {
                                assert(entries@[i as int].name@ == name@);
                                assert(!spec_is_exec(
                                    (entries@[i as int].values@[j as int]).expr@,
                                ) && names_ready(
                                    *old(config),
                                    t,
                                    g,
                                    garden_first,
                                    entries@[i as int].values@[j as int].expr@,
                                ));
                                lemma_cfg_evolves_trans(*old(config), pre, mid);
                                lemma_expr_value_stable(
                                    *old(config),
                                    mid,
                                    t,
                                    g,
                                    garden_first,
                                    entries@[i as int].values@[j as int].expr@,
                                );
                                assert(false);
                            }
                        }
                        return Err(err);
                    },
                    Ok(v) => {
                        let ghost pre_seq = seq_out@;
                        seq_out.push(v);
                        proof {
                            assert(seq_out@ == pre_seq.push(v));
                            if !spec_is_exec(entries@[i as int].values@[j as int].expr@) {
                                assert(seq_out@[j as int]@ == expr_value(
                                    *config,
                                    t,
                                    g,
                                    garden_first,
                                    entries@[i as int].values@[j as int].expr@,
                                ));
                            }
                            assert(steps_track(
                                *config,
                                t,
                                g,
                                garden_first,
                                entries@[i as int].values@,
                                seq_out@,
                                j + 1,
                            )) by {
                                assert forall|l: int|
                                    0 <= l < j + 1 && !spec_is_exec(
                                        (#[trigger] entries@[i as int].values@[l]).expr@,
                                    ) implies names_ready(
                                    *config,
                                    t,
                                    g,
                                    garden_first,
                                    entries@[i as int].values@[l].expr@,
                                ) && seq_out@[l]@ == expr_value(
                                    *config,
                                    t,
                                    g,
                                    garden_first,
                                    entries@[i as int].values@[l].expr@,
                                ) by {
                                    if l < j {
                                        assert(seq_out@[l] == pre_seq[l]);
                                        assert(pre_seq[l]@ == expr_value(
                                            *config,
                                            t,
                                            g,
                                            garden_first,
                                            entries@[i as int].values@[l].expr@,
                                        ));
                                    } else {
                                        assert(seq_out@[l] == v);
                                    }
                                }
                            }
                        }
                    },
                }
                j += 1;
            }
            let ghost pre_out = out@;
            out.push(seq_out);
            proof {
                lemma_matching_take_step(entries@, name@, i as int);
                assert(out@.skip(old(out)@.len() as int) =~= pre_out.skip(
                    old(out)@.len() as int,
                ).push(out@[pre_out.len() as int]));
                assert forall|k: int|
                    0 <= k < matched.push(entries@[i as int]).len() implies (#[trigger] out@.skip(
                    old(out)@.len() as int,
                )[k])@.len() == matched.push(entries@[i as int])[k].values@.len() by {
                    if k < matched.len() {
                        assert(out@.skip(old(out)@.len() as int)[k] == pre_out.skip(
                            old(out)@.len() as int,
                        )[k]);
                        assert((#[trigger] pre_out.skip(old(out)@.len() as int)[k])@.len()
                            == matched[k].values@.len());
                    } else {
                        assert(out@.skip(old(out)@.len() as int)[k] == out@[pre_out.len() as int]);
                    }
                }
                assert forall|k: int, l: int|
                    0 <= k < matched.push(entries@[i as int]).len() && 0 <= l < matched.push(
                        entries@[i as int],
                    )[k].values@.len() && !spec_is_exec(
                        (#[trigger] matched.push(entries@[i as int])[k].values@[l]).expr@,
                    ) implies names_ready(
                    *config,
                    t,
                    g,
                    garden_first,
                    matched.push(entries@[i as int])[k].values@[l].expr@,
                ) && out@.skip(old(out)@.len() as int)[k]@[l]@ == expr_value(
                    *config,
                    t,
                    g,
                    garden_first,
                    matched.push(entries@[i as int])[k].values@[l].expr@,
                ) by {
                    if k < matched.len() {
                        assert(out@.skip(old(out)@.len() as int)[k] == pre_out.skip(
                            old(out)@.len() as int,
                        )[k]);
                        assert((pre_out.skip(old(out)@.len() as int)[k]@[l])@ == expr_value(
                            *config,
                            t,
                            g,
                            garden_first,
                            matched[k].values@[l].expr@,
                        ));
                    } else {
                        assert(out@.skip(old(out)@.len() as int)[k] == out@[pre_out.len() as int]);
                        assert(steps_track(
                            *config,
                            t,
                            g,
                            garden_first,
                            entries@[i as int].values@,
                            seq_out@,
                            m as int,
                        ));
                        assert((seq_out@[l])@ == expr_value(
                            *config,
                            t,
                            g,
                            garden_first,
                            entries@[i as int].values@[l].expr@,
                        ));
                    }
                }
            }
        }
        proof {
            lemma_cfg_evolves_trans(*old(config), pre, *config);
            lemma_matching_take_step(entries@, name@, i as int);
        }
        i += 1;
    }
    proof {
        assert(entries@.take(n as int) =~= entries@);
    }
    Ok(())
}

/// Resolve a command name in a context: the tree's matching command
/// entries give the first sequences, evaluated at tree scope; when the
/// context carries a garden, that garden's matching entries follow,
/// evaluated with the garden's variables shadowing the tree's.  A name
/// neither scope defines yields the empty list.
pub fn command(config: &mut Configuration, context: &TreeContext, name: &str) -> (r: Result<
    Vec<Vec<String>>,
    GardenError,
>)
    requires
        context.tree < old(config).trees@.len(),
        context.garden is Some ==> context.garden->0 < old(config).gardens@.len(),
    ensures
        cfg_evolves(*old(config), *final(config)),
        r is Err ==> (r->Err_0 is CyclicDefinition || r->Err_0 is ExecutionFailure),
        r is Ok ==> r->Ok_0@.len() == matching_commands(
            old(config).trees@[context.tree as int].commands@,
            name@,
        ).len() + (match context.garden {
            Some(gi) => matching_commands(old(config).gardens@[gi as int].commands@, name@).len(),
            None => 0,
        }),
        r is Ok ==> command_values_match(
            *final(config),
            Some(context.tree),
            context.garden,
            false,
            matching_commands(old(config).trees@[context.tree as int].commands@, name@),
            r->Ok_0@.take(
                matching_commands(
                    old(config).trees@[context.tree as int].commands@,
                    name@,
                ).len() as int,
            ),
        ),
        r is Ok && context.garden is Some ==> command_values_match(
            *final(config),
            Some(context.tree),
            context.garden,
            true,
            matching_commands(
                old(config).gardens@[context.garden->0 as int].commands@,
                name@,
            ),
            r->Ok_0@.skip(
                matching_commands(
                    old(config).trees@[context.tree as int].commands@,
                    name@,
                ).len() as int,
            ),
        ),
        named_entries_ready(
            *old(config),
            Some(context.tree),
            context.garden,
            false,
            old(config).trees@[context.tree as int].commands@,
            name@,
        ) && (context.garden is Some ==> named_entries_ready(
            *old(config),
            Some(context.tree),
            context.garden,
            true,
            old(config).gardens@[context.garden->0 as int].commands@,
            name@,
        )) ==> r is Ok,
{
    let mut out: Vec<Vec<String>> = Vec::new();
    let tree_entries = copy_multis(&config.trees[context.tree].commands);
    let garden_entries = match context.garden {
        Some(gi) => Some(copy_multis(&config.gardens[gi].commands)),
        None => None,
    };
    let ghost tree_cmds = old(config).trees@[context.tree as int].commands@;
    proof {
        lemma_matching_like(tree_cmds, tree_entries@, name@);
        if named_entries_ready(
            *old(config),
            Some(context.tree),
            context.garden,
            false,
            tree_cmds,
            name@,
        ) {
            lemma_named_ready_like(
                *old(config),
                Some(context.tree),
                context.garden,
                false,
                tree_cmds,
                tree_entries@,
                name@,
            );
        }
    }
    let res = append_command_sequences(
        config,
        Some(context.tree),
        context.garden,
        false,
        &tree_entries,
        name,
        &mut out,
    );
    if let Err(err) = res {
        return Err(err);
    }
    let ghost mid = *config;
    let ghost tree_segment = out@;
    proof {
        assert(out@.skip(0) =~= out@);
        lemma_values_match_like(
            mid,
            Some(context.tree),
            context.garden,
            false,
            matching_commands(tree_cmds, name@),
            matching_commands(tree_entries@, name@),
            tree_segment,
        );
    }
    if let Some(gi) = context.garden {
        let entries = match garden_entries {
            Some(e) => e,
            None => Vec::new(),
        };
        let ghost garden_cmds = old(config).gardens@[gi as int].commands@;
        proof {
            lemma_matching_like(garden_cmds, entries@, name@);
            if named_entries_ready(
                *old(config),
                Some(context.tree),
                Some(gi),
                true,
                garden_cmds,
                name@,
            ) {
                lemma_named_ready_like(
                    *old(config),
                    Some(context.tree),
                    Some(gi),
                    true,
                    garden_cmds,
                    entries@,
                    name@,
                );
                assert(scope_ok(*old(config), Some(context.tree), Some(gi)));
                lemma_named_ready_stable(
                    *old(config),
                    mid,
                    Some(context.tree),
                    Some(gi),
                    true,
                    entries@,
                    name@,
                );
            }
        }
        let res = append_command_sequences(
            config,
            Some(context.tree),
            Some(gi),
            true,
            &entries,
            name,
            &mut out,
        );
        proof {
            lemma_cfg_evolves_trans(*old(config), mid, *config);
        }
        if let Err(err) = res {
            return Err(err);
        }
        proof {
            assert(out@.take(tree_segment.len() as int) =~= tree_segment);
            lemma_values_match_stable(
                mid,
                *config,
                Some(context.tree),
                context.garden,
                false,
                matching_commands(tree_cmds, name@),
                tree_segment,
            );
            lemma_values_match_like(
                *config,
                Some(context.tree),
                Some(gi),
                true,
                matching_commands(garden_cmds, name@),
                matching_commands(entries@, name@),
                out@.skip(tree_segment.len() as int),
            );
        }
    }
    Ok(out)
}

/// The exit status of a finished process: its exit code when it exited,
/// else the signal that ended it, else a generic failure.
pub open spec fn spec_exec_status(code: Option<u32>, signal: Option<i32>) -> i32 {
    match code {
        Some(c) => if c > 0x7fffffff {
            0x7fffffff
        } else {
            c as i32
        },
        None => match signal {
            Some(s) => s,
            None => 1,
        },
    }
}

/// Condense an exit code and signal into one status number.
pub fn exec_status(code: Option<u32>, signal: Option<i32>) -> (r: i32)
    ensures
        r == spec_exec_status(code, signal),
{
    match code {
        Some(c) => if c > 0x7fffffff {
            0x7fffffff
        } else {
            c as i32
        },
        None => match signal {
            Some(s) => s,
            None => 1,
        },
    }
}

} // verus!
