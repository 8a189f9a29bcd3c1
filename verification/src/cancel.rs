//! The cancellation flag shared between the request handlers and the
//! running job.
use vstd::prelude::*;
use std::sync::Arc;
use std::sync::atomic::AtomicBool;

verus! {

/// A flag that a handler raises to ask the running job to stop.
pub type CancelFlag = Arc<AtomicBool>;

/// A new, lowered cancellation flag.
///
/// That the flag starts lowered is shown by the body and not stated: the
/// value held by an `AtomicBool` has no model in specifications.
pub fn new_cancel_flag() -> CancelFlag {
    Arc::new(AtomicBool::new(false))
}

} // verus!
