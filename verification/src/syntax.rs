//! Query-string classification.
//!
//! A query token may carry a one-character marker that constrains which
//! entity kind it matches: `@` selects gardens only, `%` selects groups
//! only and `+` selects trees only.  A token without a marker is
//! unconstrained and may match any entity kind.  `trim` strips the marker
//! to obtain the bare glob pattern.

use vstd::prelude::*;
use vstd::string::StrSliceExecFns;
use vstd::string::StringExecFns;

verus! {

/// The marker constraining a query to gardens.
pub open spec fn spec_is_garden(s: Seq<char>) -> bool {
    s.len() > 0 && s[0] == '@'
}

/// The marker constraining a query to groups.
pub open spec fn spec_is_group(s: Seq<char>) -> bool {
    s.len() > 0 && s[0] == '%'
}

/// The marker constraining a query to trees.
pub open spec fn spec_is_tree(s: Seq<char>) -> bool {
    s.len() > 0 && s[0] == '+'
}

/// The query with any leading marker stripped.
pub open spec fn spec_trim(s: Seq<char>) -> Seq<char> {
    if spec_is_garden(s) || spec_is_group(s) || spec_is_tree(s) {
        s.drop_first()
    } else {
        s
    }
}

/// True when the query is marked as garden-only.
pub fn is_garden(s: &str) -> (r: bool)
    ensures
        r == spec_is_garden(s@),
{
    s.unicode_len() > 0 && s.get_char(0) == '@'
}

/// True when the query is marked as group-only.
pub fn is_group(s: &str) -> (r: bool)
    ensures
        r == spec_is_group(s@),
{
    s.unicode_len() > 0 && s.get_char(0) == '%'
}

/// True when the query is marked as tree-only.
pub fn is_tree(s: &str) -> (r: bool)
    ensures
        r == spec_is_tree(s@),
{
    s.unicode_len() > 0 && s.get_char(0) == '+'
}

/// Strip the leading marker, if any, leaving the glob pattern.
pub fn trim(s: &str) -> (r: String)
    ensures
        r@ == spec_trim(s@),
{
    let n = s.unicode_len();
    if is_garden(s) || is_group(s) || is_tree(s) {
        let rest = s.substring_char(1, n);
        proof {
            assert(rest@ =~= s@.drop_first());
        }
        String::from_str(rest)
    } else {
        String::from_str(s)
    }
}

} // verus!
