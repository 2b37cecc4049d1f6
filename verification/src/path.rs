//! Policies that say when a box blocks a region, and the two indexes built
//! under them.

use std::marker::PhantomData;
use vstd::prelude::*;
use crate::scene::Bounds;

pub mod grid;
pub mod octtree;

verus! {

/// A policy that decides, of two boxes, whether the first blocks the second.
pub trait VoxelStrategy {
    /// What the policy decides of the two boxes.
    spec fn blocks(rhs: Bounds, lhs: Bounds) -> bool;

    /// Whether `rhs` blocks `lhs` under the policy.
    fn is_valid(rhs: &Bounds, lhs: &Bounds) -> (valid: bool)
        ensures
            valid == Self::blocks(*rhs, *lhs),
    ;
}

/// A box blocks what crosses its shell; what lies wholly inside it, or wholly
/// outside, is left free.
pub struct AllowInterior {}

impl VoxelStrategy for AllowInterior {
    open spec fn blocks(rhs: Bounds, lhs: Bounds) -> bool {
        rhs.crosses_shell(lhs)
    }

    fn is_valid(rhs: &Bounds, lhs: &Bounds) -> (valid: bool) {
        rhs.collides_with(lhs)
    }
}

/// A box blocks what it shares a region of positive volume with.
pub struct DisallowInterior {}

impl VoxelStrategy for DisallowInterior {
    open spec fn blocks(rhs: Bounds, lhs: Bounds) -> bool {
        rhs.overlaps(lhs)
    }

    fn is_valid(rhs: &Bounds, lhs: &Bounds) -> (valid: bool) {
        rhs.contains(lhs)
    }
}

/// The opposite of the policy `S`: a box blocks what it does not block under `S`.
pub struct Neg<S: VoxelStrategy> {
    _marker: PhantomData<S>,
}

impl<S: VoxelStrategy> VoxelStrategy for Neg<S> {
    open spec fn blocks(rhs: Bounds, lhs: Bounds) -> bool {
        !S::blocks(rhs, lhs)
    }

    fn is_valid(rhs: &Bounds, lhs: &Bounds) -> (valid: bool) {
        !S::is_valid(rhs, lhs)
    }
}

/// Taking the opposite twice gives the policy back.
pub proof fn lemma_opposite_of_opposite<S: VoxelStrategy>(rhs: Bounds, lhs: Bounds)
    ensures
        Neg::<Neg<S>>::blocks(rhs, lhs) == S::blocks(rhs, lhs),
{
}

/// A well-formed box that blocks a box by its shell also blocks it by its
/// volume: what the first policy blocks, the second blocks too.
pub proof fn lemma_shell_blocks_less(rhs: Bounds, lhs: Bounds)
    requires
        rhs.well_formed(),
        AllowInterior::blocks(rhs, lhs),
    ensures
        DisallowInterior::blocks(rhs, lhs),
{
    crate::scene::bounds::lemma_shell_is_part_of_box(rhs, lhs);
}

} // verus!
