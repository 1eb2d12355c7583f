//! Global alignment models for bracketed frames.

use vstd::prelude::*;

verus! {

/// Global motion model to fit between two frames.
#[derive(Clone, Copy, Debug, PartialEq, Eq, Structural)]
pub enum AlignModel {
    /// 6-DOF affine (translation, rotation, scale, shear): well conditioned on textureless content,
    /// the default for hand-held brackets.
    Affine,
    /// 8-DOF projective homography: correct for a pure rotation about the optical centre.
    Homography,
}

} // verus!
