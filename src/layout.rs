//! The facade's decisions on a reallocation: keep the block, resize a huge
//! mapping in place, or move to a new block.
use crate::bins::{
    class_block_size, is_pow2, pad_to, pad_to_align, size_class, size_class_of, SizeClass, OS_PAGE_SIZE,
};
use vstd::prelude::*;

verus! {

/// How a reallocation is carried out.
#[derive(PartialEq, Eq, Structural, Clone, Copy, Debug)]
pub enum ReallocPlan {
    /// The block already serves the new size: return it unchanged.
    Keep,
    /// Both sizes are huge and the mapping grows: try to resize it in
    /// place, and move the block if that fails.
    Grow { old_mapped: usize, new_mapped: usize },
    /// Both sizes are huge and the mapping shrinks: resize it in place.
    Shrink { old_mapped: usize, new_mapped: usize },
    /// Allocate a new block, copy `copy_len` bytes, free the old block.
    Move { copy_len: usize },
}

/// The plan for moving a block of `old_size` bytes aligned to `align` to
/// `new_size` bytes.
pub open spec fn realloc_plan_of(old_size: nat, align: nat, new_size: nat) -> ReallocPlan {
    let oc = size_class_of(pad_to(old_size, align), align);
    let nc = size_class_of(pad_to(new_size, align), align);
    let copy_len = if old_size < new_size {
        old_size
    } else {
        new_size
    };
    if oc is Huge && nc is Huge {
        let om = class_block_size(oc);
        let nm = class_block_size(nc);
        if om == nm {
            ReallocPlan::Keep
        } else if om < nm {
            ReallocPlan::Grow { old_mapped: om as usize, new_mapped: nm as usize }
        } else {
            ReallocPlan::Shrink { old_mapped: om as usize, new_mapped: nm as usize }
        }
    } else if oc == nc {
        ReallocPlan::Keep
    } else {
        ReallocPlan::Move { copy_len: copy_len as usize }
    }
}

/// Decides how to reallocate a block of `old_size` bytes aligned to
/// `align` to `new_size` bytes: the block stays where it is when both sizes
/// fall in the same bin (or the same rounded huge size).
pub fn plan_realloc(old_size: usize, align: usize, new_size: usize) -> (r: ReallocPlan)
    requires
        old_size >= 1,
        new_size >= 1,
        is_pow2(align as nat),
        old_size + align + OS_PAGE_SIZE <= usize::MAX,
        new_size + align + OS_PAGE_SIZE <= usize::MAX,
    ensures
        r == realloc_plan_of(old_size as nat, align as nat, new_size as nat),
{
    proof {
        crate::bins::lemma_pow2_positive(align as nat);
    }
    let old_padded = pad_to_align(old_size, align);
    let new_padded = pad_to_align(new_size, align);
    proof {
        crate::bins::lemma_pad_bound(old_padded as nat, OS_PAGE_SIZE as nat);
        crate::bins::lemma_pad_bound(new_padded as nat, OS_PAGE_SIZE as nat);
    }
    let oc = size_class(old_padded, align);
    let nc = size_class(new_padded, align);
    let copy_len = if old_size < new_size {
        old_size
    } else {
        new_size
    };
    match (oc, nc) {
        (SizeClass::Huge { mapped_size: om }, SizeClass::Huge { mapped_size: nm }) => {
            if om == nm {
                ReallocPlan::Keep
            } else if om < nm {
                ReallocPlan::Grow { old_mapped: om, new_mapped: nm }
            } else {
                ReallocPlan::Shrink { old_mapped: om, new_mapped: nm }
            }
        },
        _ => {
            if oc == nc {
                ReallocPlan::Keep
            } else {
                ReallocPlan::Move { copy_len }
            }
        },
    }
}

} // verus!
