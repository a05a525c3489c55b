//! Values that are known to be there.
use vstd::prelude::*;

verus! {

/// `orengine_utils::hints::unwrap_or_bug_message_hint` on an `Option`: the value in it. It must not
/// be called without one: it panics with `message`, or goes on as if there were a value.
#[verifier::external_body]
fn unwrap_hint<T>(item: Option<T>, message: &'static str) -> (r: T)
    requires
        item is Some,
    ensures
        r == item->0,
{
    orengine_utils::hints::unwrap_or_bug_message_hint(item, message)
}

/// The value of `item`, of which the caller knows that it is there; `message` says what is wrong
/// where it is not.
pub fn unwrap_or_bug_message_hint<T>(item: Option<T>, message: &'static str) -> (r: T)
    requires
        item is Some,
    ensures
        Some(r) == item,
{
    unwrap_hint(item, message)
}

} // verus!
