//! Alignment arithmetic on byte positions inside a block.
//!
//! A position is a byte offset from the start of the block, and a position is
//! aligned when it is a multiple of the alignment. Where the block starts on a
//! cache line, an aligned position is also an aligned address, for every
//! alignment that is a power of two up to the cache line size.

use vstd::arithmetic::div_mod::lemma_fundamental_div_mod;
use vstd::arithmetic::div_mod::lemma_mod_multiples_vanish;
use vstd::prelude::*;

verus! {

/// Size in bytes of one L1 cache line: the alignment at which a block starts.
pub const L1_CACHE_LINE_SIZE: usize = 64;

/// Largest block whose size, rounded up to whole cache lines, still fits a
/// signed offset.
pub open spec fn max_block_size() -> nat {
    (isize::MAX - (L1_CACHE_LINE_SIZE - 1)) as nat
}

/// `n` is a power of two: not zero, and with a single bit set. The alignment
/// of a machine type is always one.
pub open spec fn is_power_of_two(n: usize) -> bool {
    n != 0 && (n as u64) & ((n - 1) as u64) == 0
}

/// `position` is a multiple of `alignment`.
pub open spec fn is_aligned(position: nat, alignment: nat) -> bool {
    position % alignment == 0
}

/// Padding that takes `position` to the next multiple of `alignment`.
pub open spec fn spec_align_offset(position: nat, alignment: nat) -> nat {
    if position % alignment == 0 {
        0
    } else {
        (alignment - position % alignment) as nat
    }
}

/// The first multiple of `alignment` at or after `position`.
pub open spec fn spec_align_up(position: nat, alignment: nat) -> nat {
    position + spec_align_offset(position, alignment)
}

/// Tells whether `n` is a power of two.
pub fn check_power_of_two(n: usize) -> (valid: bool)
    ensures
        valid == is_power_of_two(n),
{
    if n == 0 {
        return false;
    }
    let wide: u64 = n as u64;
    let below: u64 = (n - 1) as u64;
    wide & below == 0
}

/// Padding that takes `position` to the next multiple of `alignment`.
pub fn align_offset(position: usize, alignment: usize) -> (padding: usize)
    requires
        alignment > 0,
    ensures
        padding == spec_align_offset(position as nat, alignment as nat),
        padding < alignment,
{
    let rem: usize = position % alignment;
    if rem == 0 {
        0
    } else {
        alignment - rem
    }
}

/// The cache line size is not zero, and a power of two.
pub proof fn lemma_cache_line_is_power_of_two()
    ensures
        L1_CACHE_LINE_SIZE != 0,
        is_power_of_two(L1_CACHE_LINE_SIZE),
{
    assert(64u64 & 63u64 == 0) by (bit_vector);
}

/// `spec_align_up` is aligned, skips less than one alignment, and is the least
/// aligned position that is not before `position`.
pub proof fn lemma_align_up_is_least(position: nat, alignment: nat)
    requires
        alignment > 0,
    ensures
        is_aligned(spec_align_up(position, alignment), alignment),
        position <= spec_align_up(position, alignment) < position + alignment,
        forall|q: nat|
            position <= q && #[trigger] is_aligned(q, alignment) ==> spec_align_up(
                position,
                alignment,
            ) <= q,
{
    let a = alignment as int;
    let p = position as int;
    let up = spec_align_up(position, alignment) as int;
    lemma_fundamental_div_mod(p, a);
    if p % a != 0 {
        // p == a * (p / a) + p % a, so up == a * (p / a + 1)
        assert(up == a * (p / a) + a);
        lemma_mod_multiples_vanish(p / a, a, a);
        assert((a * (p / a) + a) % a == a % a);
        assert(a % a == 0) by (nonlinear_arith)
            requires
                a > 0,
        ;
    }
    assert forall|q: nat| position <= q && #[trigger] is_aligned(q, alignment) implies up <= q by {
        let qi = q as int;
        lemma_fundamental_div_mod(qi, a);
        if p % a != 0 && qi < up {
            // a * (p / a) < q < a * (p / a + 1) leaves no room for a multiple
            assert(qi == a * (qi / a));
            assert(false) by (nonlinear_arith)
                requires
                    a > 0,
                    qi == a * (qi / a),
                    a * (p / a) < qi,
                    qi < a * (p / a) + a,
            ;
        }
    }
}

/// A power of two up to the cache line size divides the cache line size.
pub proof fn lemma_alignment_divides_cache_line(alignment: usize)
    requires
        is_power_of_two(alignment),
        alignment <= L1_CACHE_LINE_SIZE,
    ensures
        L1_CACHE_LINE_SIZE % alignment == 0,
{
    let a = alignment as u64;
    assert(a != 0 && a & ((a - 1) as u64) == 0 && a <= 64 ==> 64u64 % a == 0) by (bit_vector);
}

/// In a block that starts on a cache line, a position is aligned exactly when
/// the address that it stands for is, for every power of two up to the cache
/// line size.
pub proof fn lemma_position_alignment_is_address_alignment(
    block_start: nat,
    position: nat,
    alignment: usize,
)
    requires
        block_start % (L1_CACHE_LINE_SIZE as nat) == 0,
        is_power_of_two(alignment),
        alignment <= L1_CACHE_LINE_SIZE,
    ensures
        (block_start + position) % (alignment as nat) == position % (alignment as nat),
{
    lemma_alignment_divides_cache_line(alignment);
    let a = alignment as int;
    let b = block_start as int;
    lemma_fundamental_div_mod(b, 64);
    lemma_fundamental_div_mod(64, a);
    let k: int = (b / 64) * (64int / a);
    assert(b == a * k) by (nonlinear_arith)
        requires
            b == 64 * (b / 64),
            64 == a * (64int / a),
            k == (b / 64) * (64int / a),
    ;
    lemma_mod_multiples_vanish(k, position as int, a);
    assert(a * k + position as int == b + position);
}

} // verus!
