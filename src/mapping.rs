//! Aligned mappings. The operating system maps at page granularity only; a
//! region aligned to a larger power of two is obtained by mapping its size
//! anywhere and then shifting it: up, by mapping the missing tail just past
//! the region and unmapping as much at its start, or down, by mapping the
//! missing head just before it and unmapping as much at its end. Both
//! extra mappings must land exactly where asked or fail.
use vstd::prelude::*;

verus! {

/// One way to shift a mapping `[addr, addr + size)` onto an aligned start:
/// map `fill_len` bytes at `fill_at`, then unmap `unmap_len` bytes at
/// `unmap_at`; the region is then `[result, result + size)`.
#[derive(PartialEq, Eq, Structural, Clone, Copy, Debug)]
pub struct Shift {
    pub fill_at: usize,
    pub fill_len: usize,
    pub unmap_at: usize,
    pub unmap_len: usize,
    pub result: usize,
}

/// What to do with a fresh mapping.
#[derive(PartialEq, Eq, Structural, Clone, Copy, Debug)]
pub enum AlignPlan {
    /// The mapping is already aligned.
    Aligned,
    /// Try `up` first, then `down` if there is one.
    Shift { up: Shift, down: Option<Shift> },
}

/// The up-shift of `[addr, addr + size)` to an `alignment` boundary.
pub open spec fn up_shift(addr: int, size: int, alignment: int) -> Shift {
    let m = addr % alignment;
    Shift {
        fill_at: (addr + size) as usize,
        fill_len: (alignment - m) as usize,
        unmap_at: addr as usize,
        unmap_len: (alignment - m) as usize,
        result: (addr + alignment - m) as usize,
    }
}

/// The down-shift of `[addr, addr + size)` to an `alignment` boundary.
pub open spec fn down_shift(addr: int, size: int, alignment: int) -> Shift {
    let m = addr % alignment;
    Shift {
        fill_at: (addr - m) as usize,
        fill_len: m as usize,
        unmap_at: (addr + size - m) as usize,
        unmap_len: m as usize,
        result: (addr - m) as usize,
    }
}

/// The plan for a fresh mapping at `addr` of `size` bytes.
pub open spec fn align_plan_of(addr: int, size: int, alignment: int) -> AlignPlan {
    let m = addr % alignment;
    if m == 0 {
        AlignPlan::Aligned
    } else {
        AlignPlan::Shift {
            up: up_shift(addr, size, alignment),
            down: if addr > m {
                Some(down_shift(addr, size, alignment))
            } else {
                None
            },
        }
    }
}

/// Decides how to align the fresh mapping `[addr, addr + size)` to
/// `alignment`: each shift keeps the region's size, lands on a multiple of
/// `alignment`, and stays within the fresh mapping and its fill.
pub fn plan_alignment(addr: usize, size: usize, alignment: usize) -> (r: AlignPlan)
    requires
        alignment >= 1,
        addr + size + alignment <= usize::MAX,
    ensures
        r == align_plan_of(addr as int, size as int, alignment as int),
        r matches AlignPlan::Shift { up, down } ==> {
            &&& up.result as int % alignment as int == 0
            &&& up.result + size == up.fill_at + up.fill_len
            &&& up.unmap_at + up.unmap_len == up.result
            &&& down matches Some(d) ==> {
                &&& d.result as int % alignment as int == 0
                &&& d.fill_at + d.fill_len == addr
                &&& d.result + size == d.unmap_at
                &&& d.unmap_at + d.unmap_len == addr + size
            }
        },
{
    let m = addr % alignment;
    if m == 0 {
        return AlignPlan::Aligned;
    }
    proof {
        vstd::arithmetic::div_mod::lemma_fundamental_div_mod(addr as int, alignment as int);
        let q = addr as int / alignment as int;
        vstd::arithmetic::div_mod::lemma_mod_multiples_basic(q + 1, alignment as int);
        vstd::arithmetic::div_mod::lemma_mod_multiples_basic(q, alignment as int);
        assert((q + 1) * alignment == alignment * q + alignment) by (nonlinear_arith);
        vstd::arithmetic::mul::lemma_mul_is_commutative(q, alignment as int);
    }
    let up = Shift {
        fill_at: addr + size,
        fill_len: alignment - m,
        unmap_at: addr,
        unmap_len: alignment - m,
        result: addr + (alignment - m),
    };
    let down = if addr > m {
        Some(
            Shift {
                fill_at: addr - m,
                fill_len: m,
                unmap_at: addr + size - m,
                unmap_len: m,
                result: addr - m,
            },
        )
    } else {
        None
    };
    AlignPlan::Shift { up, down }
}

} // verus!
