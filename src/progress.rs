//! Where long operations report how far they are.

use vstd::prelude::*;

verus! {

/// An observer of a long operation: its length, its position, a message, and
/// its end. Every method may be a no-op; none of them may block.
pub trait ProgressSink {
    fn set_len(&self, len: u64) {
    }

    fn inc(&self, n: u64) {
    }

    fn set_message(&self, msg: &str) {
    }

    fn finish(&self, msg: &str) {
    }
}

/// A sink that ignores everything.
pub struct NullProgress;

impl ProgressSink for NullProgress {

}

} // verus!
