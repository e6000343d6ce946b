use vstd::prelude::*;

verus! {

/// Failures surfaced by store operations.
///
/// `StoreFailure` stands for a fault of the store itself: an I/O error, a
/// lock-wait timeout, or — in this in-memory model — a counter or identity
/// that can no longer grow. It is propagated to the caller verbatim.
///
/// `ConsistencyViolation` reports a broken internal expectation, such as a
/// row missing right after a conflict-ignoring insert, or an absent
/// uniqueness constraint. It indicates a logic or schema bug rather than an
/// environment fault. The verified operations prove they never produce it;
/// a store binding maps such conditions to this variant.
#[derive(Clone, Copy, Debug, PartialEq, Eq, Structural)]
pub enum StoreError {
    StoreFailure,
    ConsistencyViolation,
}

} // verus!
