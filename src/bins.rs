//! Size classes: how a padded request size is routed to a small, medium,
//! large or huge allocation, and the power-law binning of the medium and
//! large classes.
use vstd::arithmetic::power2::{lemma_pow2_unfold, pow2};
use vstd::prelude::*;

verus! {

/// The largest alignment that a small-object arena guarantees.
pub const SMALL_MAX_ALIGN: usize = 256;

/// The largest alignment that a medium-object arena guarantees.
pub const MEDIUM_MAX_ALIGN: usize = 1024;

/// The largest alignment that a large-object arena guarantees.
pub const LARGE_MAX_ALIGN: usize = 524288;

/// Number of small bins: sizes 8, 16, ..., 512 (stride 8).
pub const NUM_SMALL_OBJECT_BINS: usize = 64;

/// Number of medium bins: sizes 512 ..= 1792 (512 only when its alignment
/// is above `SMALL_MAX_ALIGN`), four bins per binade.
pub const NUM_MEDIUM_OBJECT_BINS: usize = 8;

/// Number of large bins: sizes 1793 ..= 917504, four bins per binade.
pub const NUM_LARGE_OBJECT_BINS: usize = 36;

/// The largest padded size served by a small-object page
/// (`2 * SMALL_MAX_ALIGN`).
pub const SMALL_CUTOFF: usize = 512;

/// The largest padded size served by a medium-object page
/// (`1024 + 512 + 256`).
pub const MEDIUM_CUTOFF: usize = 1792;

/// The largest padded size served by a large-object arena
/// (`512 KiB + 256 KiB + 128 KiB`).
pub const LARGE_CUTOFF: usize = 917504;

/// The granularity of the operating system's mappings.
pub const OS_PAGE_SIZE: usize = 4096;

/// Power-law bin of the smallest medium size (`powerlaw_bin(512)`).
pub const FIRST_MEDIUM_POWERLAW_BIN: u32 = 28;

/// Power-law bin of the smallest large size (`powerlaw_bin(2048)`).
pub const FIRST_LARGE_POWERLAW_BIN: u32 = 36;

/// `floor(log2(n))`, with `log2(0) == 0`.
pub open spec fn log2(n: nat) -> nat
    decreases n,
{
    if n < 2 {
        0
    } else {
        1 + log2(n / 2)
    }
}

/// `ceil(a / d)`.
pub open spec fn ceil_div(a: nat, d: nat) -> nat
    recommends
        d > 0,
{
    a / d + if a % d == 0 {
        0nat
    } else {
        1nat
    }
}

/// The width of one power-law bin around `s`: a quarter of the binade
/// `[2^b, 2^(b+1))` that holds `s`.
pub open spec fn bin_step(s: nat) -> nat {
    pow2((log2(s) - 2) as nat)
}

/// The power-law bin of `s` (for `s >= 4`): every binade is split into four
/// bins of equal width.
pub open spec fn powerlaw_bin(s: nat) -> int {
    (log2(s) - 2) * 4 + ceil_div(s, bin_step(s)) - 4
}

/// The representative of the power-law bin of `s`: `s` rounded up to a
/// multiple of its bin width.
pub open spec fn round_up_to_bin(s: nat) -> nat {
    ceil_div(s, bin_step(s)) * bin_step(s)
}

/// `n` is a power of two.
pub open spec fn is_pow2(n: nat) -> bool {
    exists|e: nat| pow2(e) == n
}

/// `s` rounded up to a multiple of `a`.
pub open spec fn pad_to(s: nat, a: nat) -> nat {
    ceil_div(s, a) * a
}

/// Where an allocation of a padded size is served from.
#[derive(PartialEq, Eq, Structural, Clone, Copy, Debug)]
pub enum SizeClass {
    /// A small-object page; `bin` indexes the small bins.
    Small { bin: usize, object_size: u32 },
    /// A medium-object page; `bin` indexes the medium bins.
    Medium { bin: usize, object_size: u32 },
    /// A large-object arena; `bin` indexes the large bins.
    Large { bin: usize, object_size: u32 },
    /// A mapping of its own, of `mapped_size` bytes.
    Huge { mapped_size: usize },
}

/// A padded size `s` with alignment `a` is served by a small-object page:
/// larger alignments than the small pages guarantee go to medium pages.
pub open spec fn is_small(s: nat, a: nat) -> bool {
    s <= SMALL_CUTOFF && a <= SMALL_MAX_ALIGN
}

/// The class that serves a padded size `s >= 1` with alignment `a`.
pub open spec fn size_class_of(s: nat, a: nat) -> SizeClass {
    if is_small(s, a) {
        SizeClass::Small { bin: (ceil_div(s, 8) - 1) as usize, object_size: (ceil_div(s, 8) * 8) as u32 }
    } else if s <= MEDIUM_CUTOFF {
        SizeClass::Medium {
            bin: (powerlaw_bin(s) - FIRST_MEDIUM_POWERLAW_BIN) as usize,
            object_size: round_up_to_bin(s) as u32,
        }
    } else if s <= LARGE_CUTOFF {
        SizeClass::Large {
            bin: (powerlaw_bin(s) - FIRST_LARGE_POWERLAW_BIN) as usize,
            object_size: round_up_to_bin(s) as u32,
        }
    } else {
        SizeClass::Huge { mapped_size: pad_to(s, OS_PAGE_SIZE as nat) as usize }
    }
}

/// The number of bytes a block of the class spans.
pub open spec fn class_block_size(c: SizeClass) -> nat {
    match c {
        SizeClass::Small { object_size, .. } => object_size as nat,
        SizeClass::Medium { object_size, .. } => object_size as nat,
        SizeClass::Large { object_size, .. } => object_size as nat,
        SizeClass::Huge { mapped_size } => mapped_size as nat,
    }
}

proof fn lemma_ceil_div_char(a: nat, d: nat, c: nat)
    requires
        d > 0,
        c >= 1,
        (c - 1) * d < a <= c * d,
    ensures
        ceil_div(a, d) == c,
{
    let q = a / d;
    let r = a % d;
    vstd::arithmetic::div_mod::lemma_fundamental_div_mod(a as int, d as int);
    vstd::arithmetic::mul::lemma_mul_is_commutative(d as int, q as int);
    if r == 0 {
        assert(q == c) by (nonlinear_arith)
            requires
                a == q * d,
                (c - 1) * d < a <= c * d,
                d > 0,
        ;
    } else {
        assert(q + 1 == c) by (nonlinear_arith)
            requires
                a == q * d + r,
                0 < r < d,
                (c - 1) * d < a <= c * d,
                d > 0,
        ;
    }
}

proof fn lemma_ceil_div_bounds(a: nat, d: nat)
    requires
        d > 0,
    ensures
        ceil_div(a, d) * d >= a,
        ceil_div(a, d) * d < a + d,
        a > 0 ==> ceil_div(a, d) >= 1,
        a > 0 ==> (ceil_div(a, d) - 1) * d < a,
{
    let q = a / d;
    let r = a % d;
    vstd::arithmetic::div_mod::lemma_fundamental_div_mod(a as int, d as int);
    vstd::arithmetic::mul::lemma_mul_is_commutative(d as int, q as int);
    assert(0 <= r < d);
    if r == 0 {
        assert(ceil_div(a, d) == q);
        assert(a > 0 ==> q >= 1) by (nonlinear_arith)
            requires
                a == q * d,
                d > 0,
        ;
        assert((q - 1) * d == q * d - d) by (nonlinear_arith);
    } else {
        assert(ceil_div(a, d) == q + 1);
        assert((q + 1) * d == q * d + d) by (nonlinear_arith);
    }
}

proof fn lemma_log2_bounds(s: nat)
    requires
        s >= 1,
    ensures
        pow2(log2(s)) <= s < 2 * pow2(log2(s)),
    decreases s,
{
    if s < 2 {
        vstd::arithmetic::power2::lemma2_to64();
    } else {
        lemma_log2_bounds(s / 2);
        lemma_pow2_unfold(log2(s));
    }
}

proof fn lemma_log2_unique(s: nat, b: nat)
    requires
        pow2(b) <= s < 2 * pow2(b),
    ensures
        log2(s) == b,
    decreases b,
{
    if b == 0 {
        vstd::arithmetic::power2::lemma2_to64();
    } else {
        lemma_pow2_unfold(b);
        lemma_log2_unique(s / 2, (b - 1) as nat);
    }
}

/// For `s >= 4`, with `b = log2(s)` and `st = bin_step(s)`:
/// `s` lies in `[4 st, 8 st)`, and `2^b == 4 st`.
proof fn lemma_binade(s: nat)
    requires
        s >= 4,
    ensures
        log2(s) >= 2,
        pow2(log2(s)) == 4 * bin_step(s),
        4 * bin_step(s) <= s < 8 * bin_step(s),
        bin_step(s) >= 1,
{
    lemma_log2_bounds(s);
    vstd::arithmetic::power2::lemma2_to64();
    if log2(s) < 2 {
        assert(pow2(log2(s)) <= 2);
    }
    let b = log2(s);
    lemma_pow2_unfold(b);
    lemma_pow2_unfold((b - 1) as nat);
    vstd::arithmetic::power2::lemma_pow2_pos((b - 2) as nat);
}

/// The power-law bin of `s` lies in `[(b-2)*4, (b-2)*4 + 4]` and the
/// representative lies in `[s, 2^(b+1)]`.
proof fn lemma_bin_shape(s: nat)
    requires
        s >= 4,
    ensures
        4 <= ceil_div(s, bin_step(s)) <= 8,
        s <= round_up_to_bin(s) <= 8 * bin_step(s),
        round_up_to_bin(s) < s + bin_step(s),
{
    lemma_binade(s);
    let st = bin_step(s);
    lemma_ceil_div_bounds(s, st);
    let c = ceil_div(s, st);
    assert(c >= 4) by (nonlinear_arith)
        requires
            c * st >= s,
            s >= 4 * st,
            st >= 1,
    ;
    assert(c <= 8) by (nonlinear_arith)
        requires
            (c - 1) * st < s,
            s < 8 * st,
            st >= 1,
    ;
    assert(c * st <= 8 * st) by (nonlinear_arith)
        requires
            c <= 8,
            st >= 1,
    ;
}

/// Bin routing is monotone: a larger size never lands in a smaller
/// power-law bin.
pub proof fn lemma_powerlaw_bin_monotone(s: nat)
    requires
        s >= 4,
    ensures
        powerlaw_bin(s) <= powerlaw_bin(s + 1),
{
    lemma_binade(s);
    lemma_binade(s + 1);
    lemma_bin_shape(s);
    lemma_bin_shape(s + 1);
    let st = bin_step(s);
    let b = log2(s);
    lemma_log2_bounds(s + 1);
    if log2(s + 1) == b {
        let c0 = ceil_div(s, st);
        let c1 = ceil_div(s + 1, st);
        lemma_ceil_div_bounds(s, st);
        lemma_ceil_div_bounds(s + 1, st);
        if c0 > c1 {
            assert((c0 - 1) * st >= c1 * st) by (nonlinear_arith)
                requires
                    c0 - 1 >= c1,
                    st >= 1,
            ;
        }
    } else {
        // s + 1 opens the next binade: s + 1 == 2^(b+1) == 8 st.
        if s + 1 < 8 * st {
            lemma_log2_unique(s + 1, b);
        }
        assert(s + 1 == 8 * st);
        lemma_pow2_unfold(b + 1);
        vstd::arithmetic::power2::lemma_pow2_pos(b + 1);
        lemma_log2_unique(s + 1, b + 1);
        lemma_pow2_unfold((b - 1) as nat);
        assert(bin_step(s + 1) == 2 * st);
        lemma_ceil_div_char(s + 1, 2 * st, 4);
    }
}

/// A representative is its own representative, and it is never smaller than
/// the size it represents; it also lies in the same bin.
pub proof fn lemma_round_up_to_bin(s: nat)
    requires
        s >= 4,
    ensures
        round_up_to_bin(s) >= s,
        round_up_to_bin(round_up_to_bin(s)) == round_up_to_bin(s),
        powerlaw_bin(round_up_to_bin(s)) == powerlaw_bin(s),
{
    lemma_binade(s);
    lemma_bin_shape(s);
    let st = bin_step(s);
    let b = log2(s);
    let c = ceil_div(s, st);
    let r = round_up_to_bin(s);
    if c == 8 {
        // r == 2^(b+1): the first size of the next binade.
        lemma_pow2_unfold(b + 1);
        lemma_log2_unique(r, b + 1);
        lemma_pow2_unfold((b - 1) as nat);
        assert(bin_step(r) == 2 * st);
        lemma_ceil_div_char(r, 2 * st, 4);
        assert(r == 8 * st);
        assert(round_up_to_bin(r) == 4 * (2 * st));
        lemma_ceil_div_char(s, st, 8);
        assert(s > 7 * st);
    } else {
        assert(4 * st <= r) by (nonlinear_arith)
            requires
                r == c * st,
                c >= 4,
        ;
        assert(r < 8 * st) by (nonlinear_arith)
            requires
                r == c * st,
                c <= 7,
                st >= 1,
        ;
        lemma_log2_unique(r, b);
        assert(bin_step(r) == st);
        assert((c - 1) * st < r) by (nonlinear_arith)
            requires
                r == c * st,
                st >= 1,
        ;
        lemma_ceil_div_char(r, st, c);
    }
}

/// The representative of the bin lies on a boundary of every power of two
/// that is at most its bin width, and of every power of two that divides `s`.
pub proof fn lemma_round_up_keeps_alignment(s: nat, a: nat)
    requires
        s >= 4,
        a >= 1,
        s % a == 0,
        bin_step(s) % a == 0 || a % bin_step(s) == 0,
    ensures
        round_up_to_bin(s) % a == 0,
{
    lemma_binade(s);
    let st = bin_step(s);
    let c = ceil_div(s, st);
    if st % a == 0 {
        let k = st / a;
        vstd::arithmetic::div_mod::lemma_fundamental_div_mod(st as int, a as int);
        assert(c * st == (c * k) * a) by (nonlinear_arith)
            requires
                st == a * k,
        ;
        vstd::arithmetic::div_mod::lemma_mod_multiples_basic((c * k) as int, a as int);
    } else {
        // The bin width divides `a`, which divides `s`: `s` is already a
        // multiple of the width.
        let k = a / st;
        vstd::arithmetic::div_mod::lemma_fundamental_div_mod(a as int, st as int);
        let m = s / a;
        vstd::arithmetic::div_mod::lemma_fundamental_div_mod(s as int, a as int);
        assert(s == (m * k) * st) by (nonlinear_arith)
            requires
                a == st * k,
                s == a * m,
        ;
        vstd::arithmetic::div_mod::lemma_mod_multiples_basic((m * k) as int, st as int);
        vstd::arithmetic::div_mod::lemma_div_multiples_vanish((m * k) as int, st as int);
        vstd::arithmetic::mul::lemma_mul_is_commutative((m * k) as int, st as int);
        assert(c == m * k);
    }
}

/// Computes `(floor(log2(size)), 2^floor(log2(size)))`.
fn floor_log2(size: usize) -> (r: (u32, usize))
    requires
        size >= 1,
    ensures
        r.0 as nat == log2(size as nat),
        r.1 as nat == pow2(log2(size as nat)),
        r.0 < 64,
{
    let mut b: u32 = 0;
    let mut p: usize = 1;
    let mut x: usize = size;
    proof {
        vstd::arithmetic::power2::lemma2_to64();
        vstd::arithmetic::power2::lemma2_to64_rest();
        lemma_log2_bounds(size as nat);
        if log2(size as nat) >= 64 {
            if log2(size as nat) > 64 {
                vstd::arithmetic::power2::lemma_pow2_strictly_increases(64, log2(size as nat));
            }
        }
    }
    while x >= 2
        invariant
            1 <= x <= size,
            log2(size as nat) == b + log2(x as nat),
            log2(size as nat) < 64,
            p as nat == pow2(b as nat),
            p as nat * x <= size,
        decreases x,
    {
        proof {
            lemma_pow2_unfold((b + 1) as nat);
            assert(p as nat * 2 * (x / 2) <= p as nat * x) by (nonlinear_arith)
                requires
                    x >= 2,
            ;
            assert(p * 2 <= size) by (nonlinear_arith)
                requires
                    x >= 2,
                    p as nat * x <= size,
            ;
        }
        x = x / 2;
        p = p * 2;
        b = b + 1;
    }
    (b, p)
}

/// The power-law bin of `size` (`size >= 4`): each binade `[2^b, 2^(b+1))`
/// is split into four bins of equal width.
pub fn powerlaw_bin_from_size(size: usize) -> (r: u32)
    requires
        size >= 4,
    ensures
        r as int == powerlaw_bin(size as nat),
{
    let (b, p) = floor_log2(size);
    proof {
        lemma_binade(size as nat);
        lemma_bin_shape(size as nat);
    }
    let step = p / 4;
    let q = size / step + if size % step != 0 {
        1usize
    } else {
        0usize
    };
    (b - 2) * 4 + (q as u32 - 4)
}

/// `size` (`size >= 8`) rounded up to the representative of its power-law
/// bin: a value with at most three significant bits.
pub fn powerlaw_bins_round_up_size(size: usize) -> (r: usize)
    requires
        size >= 8,
        size <= usize::MAX - usize::MAX / 8,
    ensures
        r as nat == round_up_to_bin(size as nat),
        r >= size,
{
    proof {
        vstd::arithmetic::power2::lemma2_to64();
        vstd::arithmetic::power2::lemma2_to64_rest();
        if usize::MAX == 0xffff_ffff {
            lemma_round_up_fits(size as nat, 32);
        } else {
            assert(usize::MAX == 0xffff_ffff_ffff_ffff);
            lemma_round_up_fits(size as nat, 64);
        }
    }
    let (_b, p) = floor_log2(size);
    proof {
        lemma_binade(size as nat);
        lemma_bin_shape(size as nat);
        lemma_round_up_to_bin(size as nat);
    }
    let step = p / 4;
    let q = size / step + if size % step != 0 {
        1usize
    } else {
        0usize
    };
    q * step
}

proof fn lemma_log2_at_least(s: nat, k: nat)
    requires
        s >= pow2(k),
        s >= 1,
    ensures
        log2(s) >= k,
{
    lemma_log2_bounds(s);
    if log2(s) < k {
        lemma_pow2_unfold(log2(s) + 1);
        if log2(s) + 1 < k {
            vstd::arithmetic::power2::lemma_pow2_strictly_increases(log2(s) + 1, k);
        }
    }
}

proof fn lemma_log2_below(s: nat, k: nat)
    requires
        s < pow2(k),
        s >= 1,
    ensures
        log2(s) < k,
{
    lemma_log2_bounds(s);
    if log2(s) > k {
        vstd::arithmetic::power2::lemma_pow2_strictly_increases(k, log2(s));
    }
}

proof fn lemma_medium_bin_range(s: nat)
    requires
        SMALL_CUTOFF <= s <= MEDIUM_CUTOFF,
    ensures
        FIRST_MEDIUM_POWERLAW_BIN <= powerlaw_bin(s) < FIRST_MEDIUM_POWERLAW_BIN + NUM_MEDIUM_OBJECT_BINS,
        round_up_to_bin(s) <= 2048,
{
    vstd::arithmetic::power2::lemma2_to64();
    lemma_binade(s);
    lemma_bin_shape(s);
    lemma_log2_at_least(s, 9);
    lemma_log2_below(s, 11);
    let st = bin_step(s);
    let c = ceil_div(s, st);
    lemma_ceil_div_bounds(s, st);
    if log2(s) == 10 {
        assert(st == 256);
        assert(c <= 7) by (nonlinear_arith)
            requires
                (c - 1) * 256 < s,
                s <= 1792,
        ;
    }
}

proof fn lemma_large_bin_range(s: nat)
    requires
        MEDIUM_CUTOFF < s <= LARGE_CUTOFF,
    ensures
        FIRST_LARGE_POWERLAW_BIN <= powerlaw_bin(s) < FIRST_LARGE_POWERLAW_BIN + NUM_LARGE_OBJECT_BINS,
        round_up_to_bin(s) <= 1048576,
{
    vstd::arithmetic::power2::lemma2_to64();
    lemma_binade(s);
    lemma_bin_shape(s);
    lemma_log2_at_least(s, 10);
    lemma_log2_below(s, 20);
    let st = bin_step(s);
    let c = ceil_div(s, st);
    lemma_ceil_div_bounds(s, st);
    if log2(s) == 10 {
        assert(st == 256);
        assert(c == 8) by (nonlinear_arith)
            requires
                c * 256 >= s,
                s > 1792,
                c <= 8,
        ;
    } else if log2(s) == 19 {
        assert(st == 131072);
        assert(c <= 7) by (nonlinear_arith)
            requires
                (c - 1) * 131072 < s,
                s <= 917504,
        ;
    }
    assert(8 * st <= 1048576) by {
        assert(pow2(log2(s)) <= pow2(19)) by {
            if log2(s) < 19 {
                vstd::arithmetic::power2::lemma_pow2_strictly_increases(log2(s), 19);
            }
        }
    }
}

/// `ceil(a / d)` for a positive divisor.
fn div_ceil(a: usize, d: usize) -> (r: usize)
    requires
        d > 0,
    ensures
        r as nat == ceil_div(a as nat, d as nat),
{
    proof {
        if a % d != 0 {
            vstd::arithmetic::div_mod::lemma_fundamental_div_mod(a as int, d as int);
            let q = a / d;
            assert(q < a) by (nonlinear_arith)
                requires
                    a == d * q + a % d,
                    a % d > 0,
                    d >= 2,
                    q >= 0,
            ;
        }
    }
    a / d + if a % d != 0 {
        1usize
    } else {
        0usize
    }
}

/// Routes a padded size to the class and bin that serve it.
pub fn size_class(size: usize, align: usize) -> (r: SizeClass)
    requires
        size >= 1,
        is_pow2(align as nat),
        size as nat % align as nat == 0,
        pad_to(size as nat, OS_PAGE_SIZE as nat) <= usize::MAX,
    ensures
        r == size_class_of(size as nat, align as nat),
{
    if size <= SMALL_CUTOFF && align <= SMALL_MAX_ALIGN {
        let bin = div_ceil(size, 8);
        proof {
            lemma_ceil_div_bounds(size as nat, 8);
        }
        SizeClass::Small { bin: bin - 1, object_size: (bin * 8) as u32 }
    } else if size <= MEDIUM_CUTOFF {
        proof {
            lemma_not_small(size as nat, align as nat);
            lemma_medium_bin_range(size as nat);
            lemma_round_up_to_bin(size as nat);
        }
        let bin = powerlaw_bin_from_size(size);
        let object_size = powerlaw_bins_round_up_size(size);
        SizeClass::Medium { bin: (bin - FIRST_MEDIUM_POWERLAW_BIN) as usize, object_size: object_size as u32 }
    } else if size <= LARGE_CUTOFF {
        proof {
            lemma_large_bin_range(size as nat);
        }
        let bin = powerlaw_bin_from_size(size);
        let object_size = powerlaw_bins_round_up_size(size);
        SizeClass::Large { bin: (bin - FIRST_LARGE_POWERLAW_BIN) as usize, object_size: object_size as u32 }
    } else {
        SizeClass::Huge { mapped_size: div_ceil(size, OS_PAGE_SIZE) * OS_PAGE_SIZE }
    }
}

/// Number of bins of a heap: the small, then the medium, then the large
/// bins.
pub const NUM_BINS: usize = NUM_SMALL_OBJECT_BINS + NUM_MEDIUM_OBJECT_BINS + NUM_LARGE_OBJECT_BINS;

/// Index of the first medium bin among a heap's bins.
pub const FIRST_MEDIUM_SLOT: usize = NUM_SMALL_OBJECT_BINS;

/// Index of the first large bin among a heap's bins.
pub const FIRST_LARGE_SLOT: usize = NUM_SMALL_OBJECT_BINS + NUM_MEDIUM_OBJECT_BINS;

/// The representative size of power-law bin `b`.
pub open spec fn bin_rep(b: int) -> int {
    (b % 4 + 4) * pow2((b / 4) as nat)
}

/// The object size served by the heap bin `slot`.
pub open spec fn slot_object_size(slot: int) -> int {
    if slot < FIRST_MEDIUM_SLOT {
        (slot + 1) * 8
    } else if slot < FIRST_LARGE_SLOT {
        bin_rep(slot - FIRST_MEDIUM_SLOT + FIRST_MEDIUM_POWERLAW_BIN)
    } else {
        bin_rep(slot - FIRST_LARGE_SLOT + FIRST_LARGE_POWERLAW_BIN)
    }
}

/// The heap bin that serves a non-huge class.
pub open spec fn class_slot(c: SizeClass) -> int {
    match c {
        SizeClass::Small { bin, .. } => bin as int,
        SizeClass::Medium { bin, .. } => FIRST_MEDIUM_SLOT + bin,
        SizeClass::Large { bin, .. } => FIRST_LARGE_SLOT + bin,
        SizeClass::Huge { .. } => -1,
    }
}

/// The representative of the bin of `s` depends on the bin number alone.
proof fn lemma_round_up_is_rep(s: nat)
    requires
        s >= 4,
    ensures
        round_up_to_bin(s) == bin_rep(powerlaw_bin(s)),
{
    lemma_binade(s);
    lemma_bin_shape(s);
    let b = log2(s);
    let c = ceil_div(s, bin_step(s));
    let bn = powerlaw_bin(s);
    let st = bin_step(s);
    if c < 8 {
        vstd::arithmetic::div_mod::lemma_fundamental_div_mod_converse(bn, 4, b - 2, c - 4);
        assert(bn / 4 == b - 2 && bn % 4 == c - 4);
        assert(pow2((bn / 4) as nat) == st);
        assert(bin_rep(bn) == c * st);
        assert(round_up_to_bin(s) == c * st);
        assert(round_up_to_bin(s) == bin_rep(bn));
    } else {
        vstd::arithmetic::div_mod::lemma_fundamental_div_mod_converse(bn, 4, b - 1, 0);
        lemma_pow2_unfold((b - 1) as nat);
        assert(bn / 4 == b - 1 && bn % 4 == 0);
        assert(pow2((bn / 4) as nat) == 2 * st);
        assert(bin_rep(bn) == 4 * (2 * st));
        assert(round_up_to_bin(s) == 8 * st);
        assert(round_up_to_bin(s) == bin_rep(bn));
    }
}

/// A non-huge class is served by a bin whose objects hold the padded size.
pub proof fn lemma_class_slot(s: nat, a: nat)
    requires
        1 <= s <= LARGE_CUTOFF,
        is_pow2(a),
        s % a == 0,
    ensures
        0 <= class_slot(size_class_of(s, a)) < NUM_BINS,
        slot_object_size(class_slot(size_class_of(s, a))) == class_block_size(size_class_of(s, a)),
        class_block_size(size_class_of(s, a)) >= s,
        is_small(s, a) ==> class_slot(size_class_of(s, a)) < FIRST_MEDIUM_SLOT
            && class_block_size(size_class_of(s, a)) <= 512,
        !is_small(s, a) && s <= MEDIUM_CUTOFF ==> FIRST_MEDIUM_SLOT <= class_slot(size_class_of(s, a))
            < FIRST_LARGE_SLOT && class_block_size(size_class_of(s, a)) <= 2048,
        MEDIUM_CUTOFF < s ==> FIRST_LARGE_SLOT <= class_slot(size_class_of(s, a))
            && class_block_size(size_class_of(s, a)) <= 1048576,
{
    if is_small(s, a) {
        lemma_ceil_div_bounds(s, 8);
    } else if s <= MEDIUM_CUTOFF {
        lemma_not_small(s, a);
        lemma_medium_bin_range(s);
        lemma_round_up_to_bin(s);
        lemma_round_up_is_rep(s);
    } else {
        lemma_large_bin_range(s);
        lemma_round_up_to_bin(s);
        lemma_round_up_is_rep(s);
    }
}

/// The heap bin that serves a non-huge class.
pub fn bin_slot(c: SizeClass) -> (r: usize)
    requires
        !(c is Huge),
        class_slot(c) < NUM_BINS,
    ensures
        r as int == class_slot(c),
{
    match c {
        SizeClass::Small { bin, .. } => bin,
        SizeClass::Medium { bin, .. } => FIRST_MEDIUM_SLOT + bin,
        SizeClass::Large { bin, .. } => FIRST_LARGE_SLOT + bin,
        SizeClass::Huge { .. } => 0,
    }
}

/// `size` rounded up to a multiple of `align`.
pub fn pad_to_align(size: usize, align: usize) -> (r: usize)
    requires
        align >= 1,
        size + align <= usize::MAX,
    ensures
        r as nat == pad_to(size as nat, align as nat),
        r >= size,
        r < size + align,
        r as nat % align as nat == 0,
{
    proof {
        lemma_ceil_div_bounds(size as nat, align as nat);
        vstd::arithmetic::div_mod::lemma_mod_multiples_basic(ceil_div(size as nat, align as nat) as int, align as int);
    }
    div_ceil(size, align) * align
}

/// The object size of a non-huge class.
pub fn class_object_size(c: SizeClass) -> (r: u32)
    requires
        !(c is Huge),
    ensures
        r as nat == class_block_size(c),
{
    match c {
        SizeClass::Small { object_size, .. } => object_size,
        SizeClass::Medium { object_size, .. } => object_size,
        SizeClass::Large { object_size, .. } => object_size,
        SizeClass::Huge { .. } => 0,
    }
}

/// Rounding up to a multiple of `a` adds less than `a`.
pub proof fn lemma_pad_bound(s: nat, a: nat)
    requires
        a > 0,
    ensures
        s <= pad_to(s, a) < s + a,
{
    lemma_ceil_div_bounds(s, a);
}

/// A smaller power of two divides a larger one.
pub proof fn lemma_pow2_divides(e1: nat, e2: nat)
    requires
        e1 <= e2,
    ensures
        pow2(e2) % pow2(e1) == 0,
{
    vstd::arithmetic::power2::lemma_pow2_adds(e1, (e2 - e1) as nat);
    vstd::arithmetic::power2::lemma_pow2_pos(e1);
    vstd::arithmetic::div_mod::lemma_mod_multiples_basic(pow2((e2 - e1) as nat) as int, pow2(e1) as int);
    vstd::arithmetic::mul::lemma_mul_is_commutative(pow2((e2 - e1) as nat) as int, pow2(e1) as int);
}

/// Of two powers of two, one divides the other.
pub proof fn lemma_pow2_comparable(a: nat, b: nat)
    requires
        is_pow2(a),
        is_pow2(b),
    ensures
        a % b == 0 || b % a == 0,
{
    let ea = choose|e: nat| pow2(e) == a;
    let eb = choose|e: nat| pow2(e) == b;
    if ea <= eb {
        lemma_pow2_divides(ea, eb);
    } else {
        lemma_pow2_divides(eb, ea);
    }
}

/// A power of two below `2^(k+1)` divides `2^k`.
pub proof fn lemma_pow2_below(a: nat, k: nat)
    requires
        is_pow2(a),
        a < pow2(k + 1),
    ensures
        pow2(k) % a == 0,
        a <= pow2(k),
{
    let ea = choose|e: nat| pow2(e) == a;
    if ea > k {
        if ea > k + 1 {
            vstd::arithmetic::power2::lemma_pow2_strictly_increases(k + 1, ea);
        }
    }
    lemma_pow2_divides(ea, k);
    if ea < k {
        vstd::arithmetic::power2::lemma_pow2_strictly_increases(ea, k);
    }
}

/// The object size that serves a padded size is a multiple of every power
/// of two that divides the padded size, and such a power of two never
/// exceeds the largest alignment of the flavour that serves it.
pub proof fn lemma_class_aligned(s: nat, a: nat)
    requires
        1 <= s <= LARGE_CUTOFF,
        is_pow2(a),
        s % a == 0,
    ensures
        class_block_size(size_class_of(s, a)) % a == 0,
        is_small(s, a) ==> 256nat % a == 0,
        !is_small(s, a) && s <= MEDIUM_CUTOFF ==> 1024nat % a == 0,
        MEDIUM_CUTOFF < s ==> 524288nat % a == 0,
{
    vstd::arithmetic::power2::lemma2_to64();
    let ea = choose|e: nat| pow2(e) == a;
    vstd::arithmetic::power2::lemma_pow2_pos(ea);
    assert(a <= s) by {
        vstd::arithmetic::div_mod::lemma_fundamental_div_mod(s as int, a as int);
        let q = s / a;
        assert(s == a * q);
        assert(q >= 1) by (nonlinear_arith)
            requires
                s == a * q,
                s >= 1,
                a >= 1,
        ;
        assert(a * q >= a) by (nonlinear_arith)
            requires
                q >= 1,
                a >= 1,
        ;
    }
    if is_small(s, a) {
        lemma_ceil_div_bounds(s, 8);
        lemma_pow2_below(a, 8);
        assert(is_pow2(8)) by {
            assert(pow2(3) == 8);
        }
        lemma_pow2_comparable(a, 8);
        let c = ceil_div(s, 8);
        if 8nat % a == 0 {
            let m = 8nat / a;
            vstd::arithmetic::div_mod::lemma_fundamental_div_mod(8int, a as int);
            assert(c * 8 == (c * m) * a) by (nonlinear_arith)
                requires
                    8 == a * m,
            ;
            vstd::arithmetic::div_mod::lemma_mod_multiples_basic((c * m) as int, a as int);
        } else {
            // 8 divides `a`, which divides `s`.
            vstd::arithmetic::div_mod::lemma_fundamental_div_mod(a as int, 8int);
            vstd::arithmetic::div_mod::lemma_fundamental_div_mod(s as int, a as int);
            let m = a / 8nat;
            let q = s / a;
            assert(s == (q * m) * 8) by (nonlinear_arith)
                requires
                    a == 8 * m,
                    s == a * q,
            ;
            vstd::arithmetic::div_mod::lemma_mod_multiples_basic((q * m) as int, 8);
            vstd::arithmetic::div_mod::lemma_div_multiples_vanish((q * m) as int, 8);
            vstd::arithmetic::mul::lemma_mul_is_commutative((q * m) as int, 8);
            assert(c == q * m);
        }
    } else {
        lemma_binade(s);
        let st = bin_step(s);
        assert(is_pow2(st));
        lemma_pow2_comparable(st, a);
        lemma_round_up_keeps_alignment(s, a);
        if s <= MEDIUM_CUTOFF {
            lemma_not_small(s, a);
            lemma_medium_bin_range(s);
        } else {
            lemma_large_bin_range(s);
        }
        if s <= MEDIUM_CUTOFF {
            lemma_pow2_below(a, 10);
        } else {
            vstd::arithmetic::power2::lemma2_to64_rest();
            lemma_pow2_below(a, 19);
        }
    }
}

/// A size up to seven eighths of `2^w` has a representative below `2^w`.
proof fn lemma_round_up_fits(s: nat, w: nat)
    requires
        w >= 4,
        8 <= s <= 7 * pow2((w - 3) as nat),
    ensures
        round_up_to_bin(s) < pow2(w),
{
    lemma_binade(s);
    lemma_bin_shape(s);
    let b = log2(s);
    let st = bin_step(s);
    lemma_pow2_unfold(w);
    lemma_pow2_unfold((w - 1) as nat);
    lemma_pow2_unfold((w - 2) as nat);
    let top = pow2((w - 3) as nat);
    assert(pow2(w) == 8 * top);
    if s >= 4 * top {
        // The top binade: the bin width is `2^(w-3)`.
        assert(pow2((w - 1) as nat) == 4 * top);
        lemma_log2_unique(s, (w - 1) as nat);
        assert(st == top);
        let c = ceil_div(s, st);
        lemma_ceil_div_bounds(s, st);
        assert(c <= 7) by (nonlinear_arith)
            requires
                (c - 1) * st < s,
                s <= 7 * st,
                st >= 1,
        ;
        assert(c * st <= 7 * st) by (nonlinear_arith)
            requires
                c <= 7,
                st >= 1,
        ;
    } else {
        lemma_log2_below(s, (w - 1) as nat);
        if b < w - 2 {
            vstd::arithmetic::power2::lemma_pow2_strictly_increases(b, (w - 2) as nat);
        }
        assert(pow2(b) <= 2 * top);
    }
}

/// A padded size that is not small but at most the medium cutoff is at
/// least the small cutoff: only an alignment above `SMALL_MAX_ALIGN`, which
/// is then at least 512, sends a size at or below it to the medium pages.
proof fn lemma_not_small(s: nat, a: nat)
    requires
        s >= 1,
        is_pow2(a),
        s % a == 0,
        !is_small(s, a),
    ensures
        s >= SMALL_CUTOFF,
{
    if s < SMALL_CUTOFF {
        vstd::arithmetic::power2::lemma2_to64();
        assert(a > 256);
        if a < 512 {
            lemma_pow2_below(a, 8);
        }
        vstd::arithmetic::div_mod::lemma_fundamental_div_mod(s as int, a as int);
        let q = s / a;
        assert(s >= a) by (nonlinear_arith)
            requires
                s == a * q,
                s >= 1,
                a >= 1,
        ;
    }
}

/// A power of two is positive.
pub proof fn lemma_pow2_positive(a: nat)
    requires
        is_pow2(a),
    ensures
        a >= 1,
{
    let e = choose|e: nat| pow2(e) == a;
    vstd::arithmetic::power2::lemma_pow2_pos(e);
}

} // verus!
