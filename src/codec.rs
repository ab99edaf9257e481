//! Splitting addresses into (tag, index) pairs and translating a block's
//! identity between the two levels' addressing schemes.
use vstd::prelude::*;
use vstd::arithmetic::power2::pow2;
use vstd::arithmetic::power2::{lemma_pow2_adds, lemma_pow2_pos};
use vstd::arithmetic::div_mod::lemma_div_denominator;
use vstd::bits::{lemma_u64_shl_is_mul, lemma_u64_shr_is_div};

use crate::cache::Config;

verus! {

/// The mask that keeps the low `n` bits of a word.
pub open spec fn mask(n: u64) -> u64 {
    ((1u64 << n) - 1) as u64
}

/// The block number named by `tag` and an `n`-bit `index`.
pub open spec fn join(tag: u64, index: u64, n: u64) -> u64 {
    (tag << n) | index
}

/// A tag loses no bits when shifted left past an `n`-bit index.
pub open spec fn fits(tag: u64, n: u64) -> bool {
    (tag << n) >> n == tag
}

/// A zero tag fits any index width.
pub proof fn lemma_fits_zero(n: u64)
    requires
        n < 64,
    ensures
        fits(0, n),
{
    assert((0u64 << n) >> n == 0) by (bit_vector);
}

/// Splitting a block number and joining the parts gives it back.
pub proof fn lemma_split(x: u64, n: u64)
    requires
        n < 64,
    ensures
        join(x >> n, x & mask(n), n) == x,
        fits(x >> n, n),
        x & mask(n) <= mask(n),
{
    assert(((x >> n) << n) | (x & (((1u64 << n) - 1) as u64)) == x) by (bit_vector)
        requires n < 64;
    assert(((x >> n) << n) >> n == x >> n) by (bit_vector)
        requires n < 64;
    assert(x & (((1u64 << n) - 1) as u64) <= (((1u64 << n) - 1) as u64)) by (bit_vector);
}

/// Joining a fitting tag with an index below the mask can be split again.
pub proof fn lemma_join(t: u64, i: u64, n: u64)
    requires
        n < 64,
        i <= mask(n),
        fits(t, n),
    ensures
        join(t, i, n) >> n == t,
        join(t, i, n) & mask(n) == i,
{
    assert(((t << n) | i) >> n == t && ((t << n) | i) & (((1u64 << n) - 1) as u64) == i)
        by (bit_vector)
        requires
            n < 64,
            i <= (((1u64 << n) - 1) as u64),
            (t << n) >> n == t,
    ;
}

/// A shift by `c` is a shift by `b` followed by one by `c - b`.
pub proof fn lemma_shr_shr(a: u64, b: u64, c: u64)
    requires
        b <= c < 64,
    ensures
        (a >> b) >> ((c - b) as u64) == a >> c,
{
    let d = (c - b) as u64;
    lemma_u64_shr_is_div(a, b);
    lemma_u64_shr_is_div(a >> b, d);
    lemma_u64_shr_is_div(a, c);
    lemma_pow2_pos(b as nat);
    lemma_pow2_pos(d as nat);
    lemma_pow2_adds(b as nat, d as nat);
    lemma_div_denominator(a as int, pow2(b as nat) as int, pow2(d as nat) as int);
}

/// The mask of `n` bits is one below the `n`-th power of two.
pub proof fn lemma_mask_pow2(n: u64)
    requires
        n < 64,
    ensures
        mask(n) + 1 == pow2(n as nat),
        (1u64 << n) == pow2(n as nat),
{
    vstd::bits::lemma_u64_pow2_no_overflow(n as nat);
    lemma_u64_shl_is_mul(1u64, n);
}

/// The tag of `address` in a level whose capacity exponent is `c` and whose
/// associativity exponent is `s`.
pub fn get_tag(address: u64, c: u64, s: u64) -> (r: u64)
    requires
        s <= c < 64,
    ensures
        r == address >> ((c - s) as u64),
{
    address >> (c - s)
}

/// The index (L1 line or L2 set) of `address` in a level with capacity
/// exponent `c`, block exponent `b` and associativity exponent `s`.
pub fn get_index(address: u64, c: u64, b: u64, s: u64) -> (r: u64)
    requires
        b < 64,
        b + s <= c < 64,
    ensures
        r == (address >> b) & mask((c - b - s) as u64),
        r <= mask((c - b - s) as u64),
{
    let n = c - b - s;
    proof {
        lemma_split(address >> b, n);
        lemma_mask_pow2(n);
    }
    (address >> b) & ((1u64 << n) - 1)
}

/// The L2 tag of the block held by an L1 line with `tag` at `index`.
pub fn convert_tag_l1_to_l2(tag: u64, index: u64, config: &Config) -> (r: u64)
    requires
        config.valid_geometry(),
    ensures
        r == join(tag, index, config.l1_bits()) >> config.l2_bits(),
{
    let reconstructed_address = (tag << (config.c1 - config.b)) | index;
    reconstructed_address >> (config.c2 - config.b - config.s)
}

/// The L2 set of the block held by an L1 line with `tag` at `index`.
pub fn convert_index_l1_to_l2(tag: u64, index: u64, config: &Config) -> (r: u64)
    requires
        config.valid_geometry(),
    ensures
        r == join(tag, index, config.l1_bits()) & mask(config.l2_bits()),
        r <= mask(config.l2_bits()),
{
    let reconstructed_address = (tag << (config.c1 - config.b)) | index;
    let n = config.c2 - config.b - config.s;
    proof {
        lemma_split(reconstructed_address, n);
        lemma_mask_pow2(n);
    }
    reconstructed_address & ((1u64 << n) - 1)
}

/// The L1 tag of the block held by an L2 line with `tag` in set `index`.
pub fn convert_tag_l2_to_l1(tag: u64, index: u64, config: &Config) -> (r: u64)
    requires
        config.valid_geometry(),
    ensures
        r == join(tag, index, config.l2_bits()) >> config.l1_bits(),
{
    let reconstructed_address = (tag << (config.c2 - config.b - config.s)) | index;
    reconstructed_address >> (config.c1 - config.b)
}

/// The L1 line index of the block held by an L2 line with `tag` in set `index`.
pub fn convert_index_l2_to_l1(tag: u64, index: u64, config: &Config) -> (r: u64)
    requires
        config.valid_geometry(),
    ensures
        r == join(tag, index, config.l2_bits()) & mask(config.l1_bits()),
        r <= mask(config.l1_bits()),
{
    let reconstructed_address = (tag << (config.c2 - config.b - config.s)) | index;
    let n = config.c1 - config.b;
    proof {
        lemma_split(reconstructed_address, n);
        lemma_mask_pow2(n);
    }
    reconstructed_address & ((1u64 << n) - 1)
}

} // verus!
