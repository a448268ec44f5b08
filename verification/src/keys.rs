//! Canonical pair keys.
//!
//! A pool is identified by the unordered pair of its two token
//! identifiers. The canonical key sorts the pair and packs it into a
//! single `u128`, so that lookups are independent of argument order and
//! there is exactly one key per unordered pair.

use vstd::prelude::*;

verus! {

use vstd::arithmetic::div_mod::lemma_fundamental_div_mod_converse;

/// Weight of the low identifier in a packed key: 2^64.
pub const PAIR_BASE: u128 = 0x1_0000_0000_0000_0000;

/// Packs an ordered pair of identifiers into one `u128`.
pub open spec fn pack_key(lo: u64, hi: u64) -> u128 {
    ((lo as u128) * PAIR_BASE + (hi as u128)) as u128
}

/// The canonical key of an unordered token pair: the two identifiers
/// sorted, then packed.
pub open spec fn canonical_key(a: u64, b: u64) -> u128 {
    if a <= b {
        pack_key(a, b)
    } else {
        pack_key(b, a)
    }
}

/// Packing never overflows `u128`.
pub proof fn lemma_pack_key_bounds(lo: u64, hi: u64)
    ensures
        (lo as u128) * (PAIR_BASE as u128) + (hi as u128) <= u128::MAX,
{
    assert((lo as u128) * (PAIR_BASE as u128) <= 0xffff_ffff_ffff_ffff * 0x1_0000_0000_0000_0000)
        by (nonlinear_arith)
        requires
            lo <= 0xffff_ffff_ffff_ffffu64,
    ;
}

/// Executable canonical key, exactly `canonical_key`.
pub fn get_pool_key(token_a: u64, token_b: u64) -> (r: u128)
    ensures
        r == canonical_key(token_a, token_b),
{
    let lo: u64 = if token_a <= token_b {
        token_a
    } else {
        token_b
    };
    let hi: u64 = if token_a <= token_b {
        token_b
    } else {
        token_a
    };
    proof {
        lemma_pack_key_bounds(lo, hi);
    }
    (lo as u128) * PAIR_BASE + (hi as u128)
}

/// Executable packing, exactly `pack_key`. Deposit-ledger entries are
/// keyed this way by (account, token).
pub fn make_packed_key(lo: u64, hi: u64) -> (r: u128)
    ensures
        r == pack_key(lo, hi),
{
    proof {
        lemma_pack_key_bounds(lo, hi);
    }
    (lo as u128) * PAIR_BASE + (hi as u128)
}

/// A packed key splits back into its parts by division and remainder.
pub proof fn lemma_pack_key_parts(lo: u64, hi: u64)
    ensures
        pack_key(lo, hi) as int / PAIR_BASE as int == lo as int,
        pack_key(lo, hi) as int % PAIR_BASE as int == hi as int,
{
    lemma_pack_key_bounds(lo, hi);
    lemma_fundamental_div_mod_converse(
        pack_key(lo, hi) as int,
        PAIR_BASE as int,
        lo as int,
        hi as int,
    );
}

/// The canonical key does not depend on the order of its arguments, so
/// pool lookups are order-independent.
pub proof fn lemma_canonical_key_symmetric(a: u64, b: u64)
    ensures
        canonical_key(a, b) == canonical_key(b, a),
{
}

/// Packing is injective: equal keys come from equal ordered pairs.
pub proof fn lemma_pack_key_injective(lo1: u64, hi1: u64, lo2: u64, hi2: u64)
    requires
        pack_key(lo1, hi1) == pack_key(lo2, hi2),
    ensures
        lo1 == lo2 && hi1 == hi2,
{
    lemma_pack_key_bounds(lo1, hi1);
    lemma_pack_key_bounds(lo2, hi2);
    let x = pack_key(lo1, hi1) as int;
    lemma_fundamental_div_mod_converse(x, PAIR_BASE as int, lo1 as int, hi1 as int);
    lemma_fundamental_div_mod_converse(x, PAIR_BASE as int, lo2 as int, hi2 as int);
}

/// Equal canonical keys name the same unordered pair.
pub proof fn lemma_canonical_key_pair(a: u64, b: u64, c: u64, d: u64)
    requires
        canonical_key(a, b) == canonical_key(c, d),
    ensures
        (a == c && b == d) || (a == d && b == c),
{
    if a <= b {
        if c <= d {
            lemma_pack_key_injective(a, b, c, d);
        } else {
            lemma_pack_key_injective(a, b, d, c);
        }
    } else {
        if c <= d {
            lemma_pack_key_injective(b, a, c, d);
        } else {
            lemma_pack_key_injective(b, a, d, c);
        }
    }
}

} // verus!
