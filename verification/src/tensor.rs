//! Handles into the autograd tape.
use vstd::prelude::*;

verus! {

/// A value on the tape: node `node`, and within a fused layer node the
/// output `index`.
#[derive(Copy, Clone, Debug)]
pub struct TensorHandle {
    pub node: usize,
    pub index: usize,
}

} // verus!
