//! Users in the first layout: only the id rule.
use vstd::prelude::*;
use crate::util::user::id_looks_valid;

verus! {

/// Whether actions such as signing in can be performed for a user with this
/// id: whether the id looks valid.
pub fn is_actionable(id: &str) -> (r: bool)
    ensures
        exists|y: int| -262143 <= y <= 262142 && r == id_looks_valid(y, id@),
{
    validate_id(id)
}

/// Whether a user with this id could be created without suspicion: whether
/// the id matches the pattern of the current year.
pub fn validate_id(id: &str) -> (r: bool)
    ensures
        exists|y: int| -262143 <= y <= 262142 && r == id_looks_valid(y, id@),
{
    crate::util::user::validate_id(id)
}

} // verus!
