use vstd::prelude::*;

verus! {

/// Relies on cuid2::create_id: a freshly drawn random identifier.
/// Nothing is assumed of its value — in particular not that it differs
/// from any identifier already in use; callers check that themselves.
#[verifier::external_body]
pub(crate) fn new_id() -> String {
    cuid2::create_id()
}

} // verus!
