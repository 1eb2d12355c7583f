//! Mask composition types of the develop pipeline.

use vstd::prelude::*;

verus! {

/// How a mask component combines with the running per-mask alpha.
#[derive(Debug, Clone, Copy, PartialEq, Eq, Structural)]
pub enum MaskOp {
    /// Union: `alpha = max(alpha, a)`.
    Add,
    /// `alpha = alpha * (1 - a)`.
    Subtract,
    /// `alpha = alpha * a`.
    Intersect,
}

impl Default for MaskOp {
    fn default() -> (r: Self)
        ensures
            r == MaskOp::Add,
    {
        MaskOp::Add
    }
}

/// Bytes per brush dab instance: two `vec4<f32>` (centre, size, hardness; strength, padding).
pub const DAB_STRIDE: usize = 32;

/// One stroke's instanced dabs, ready to upload as a vertex buffer.
pub struct StrokeBatch {
    pub is_erase: bool,
    pub instances: Vec<u8>,
    pub count: u32,
}

impl StrokeBatch {
    /// The instance bytes hold exactly `count` dabs.
    pub open spec fn wf(&self) -> bool {
        self.instances@.len() == DAB_STRIDE * self.count
    }
}

} // verus!
