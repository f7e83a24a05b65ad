//! The adaptive mask kernel: build update, mask update, change vector.

use vstd::prelude::*;

verus! {

use crate::bits::{seq_or, seq_xor, zeros};
use crate::bitvector::BitVector;

/// Update the build vector: reset at the first step or on a new-mask step,
/// otherwise accumulate the changed positions.
pub fn update_build(
    build: &mut BitVector,
    input: &BitVector,
    prev_input: &BitVector,
    new_mask_flag: bool,
    t: usize,
)
    requires
        old(build)@.len() == input@.len(),
        input@.len() == prev_input@.len(),
    ensures
        final(build)@ == (if t == 0 || new_mask_flag {
            zeros(old(build)@.len())
        } else {
            seq_or(seq_xor(input@, prev_input@), old(build)@)
        }),
{
    if t == 0 || new_mask_flag {
        build.zero();
    } else {
        let changes = input.xor(prev_input);
        let new_build = changes.or(build);
        build.copy_from(&new_build);
    }
}

/// Update the mask vector: the changed positions joined with the previous
/// mask, or with the previous build on a new-mask step.
pub fn update_mask(
    mask: &mut BitVector,
    input: &BitVector,
    prev_input: &BitVector,
    build_prev: &BitVector,
    new_mask_flag: bool,
)
    requires
        old(mask)@.len() == input@.len(),
        input@.len() == prev_input@.len(),
        input@.len() == build_prev@.len(),
    ensures
        final(mask)@ == seq_or(
            seq_xor(input@, prev_input@),
            if new_mask_flag {
                build_prev@
            } else {
                old(mask)@
            },
        ),
{
    let changes = input.xor(prev_input);
    if new_mask_flag {
        let new_mask = changes.or(build_prev);
        mask.copy_from(&new_mask);
    } else {
        let new_mask = changes.or(mask);
        mask.copy_from(&new_mask);
    }
}

/// The change vector: the mask itself at the first step, else the positions
/// on which the mask differs from its predecessor.
pub fn compute_change(mask: &BitVector, prev_mask: &BitVector, t: usize) -> (r: BitVector)
    requires
        t > 0 ==> mask@.len() == prev_mask@.len(),
    ensures
        r@ == (if t == 0 {
            mask@
        } else {
            seq_xor(mask@, prev_mask@)
        }),
{
    if t == 0 {
        mask.clone()
    } else {
        mask.xor(prev_mask)
    }
}

} // verus!
