//! Conversion between CIDR prefix lengths and dotted-decimal netmasks,
//! modelled over the integers: the mask for prefix `p` is
//! `2^32 - 2^(32 - p)`, and a 32-bit value is a well-formed mask exactly
//! when it has that shape for some `p` in `[0, 32]`.

use vstd::prelude::*;
use vstd::arithmetic::power2::{
    pow2, lemma_pow2_adds, lemma_pow2_pos, lemma_pow2_strictly_increases, lemma2_to64,
    lemma2_to64_rest,
};
use vstd::arithmetic::div_mod::lemma_fundamental_div_mod_converse;
use vstd::bits::lemma_u32_shr_is_div;
use crate::errors::IpCalculatorError;

verus! {

/// Number of addresses in one block of the given prefix length:
/// `2^(32 - prefix)`.
pub open spec fn block_size(prefix: int) -> int
    recommends
        0 <= prefix <= 32,
{
    pow2((32 - prefix) as nat) as int
}

/// The netmask with `prefix` leading one bits, as an integer:
/// `2^32 - 2^(32 - prefix)`.
pub open spec fn mask_spec(prefix: int) -> int
    recommends
        0 <= prefix <= 32,
{
    0x1_0000_0000 - block_size(prefix)
}

/// A well-formed netmask: a run of one bits followed by zero bits, including
/// the all-zero and all-one masks.
pub open spec fn is_netmask(m: u32) -> bool {
    exists|p: int| 0 <= p <= 32 && m == mask_spec(p)
}

/// The prefix length of a well-formed netmask.
pub open spec fn prefix_of_mask(m: u32) -> int
    recommends
        is_netmask(m),
{
    choose|p: int| 0 <= p <= 32 && m == mask_spec(p)
}

/// What `cidr_to_mask` computes.
pub open spec fn cidr_to_mask_spec(cidr: u8) -> Option<u32> {
    if cidr <= 32 {
        Some((mask_spec(cidr as int)) as u32)
    } else {
        None
    }
}

/// What `mask_to_cidr` computes.
pub open spec fn mask_to_cidr_spec(mask: u32) -> Option<u8> {
    if is_netmask(mask) {
        Some(prefix_of_mask(mask) as u8)
    } else {
        None
    }
}

/// Block sizes and masks stay within 32 bits.
pub proof fn lemma_mask_bounds(prefix: int)
    requires
        0 <= prefix <= 32,
    ensures
        1 <= block_size(prefix) <= 0x1_0000_0000,
        0 <= mask_spec(prefix) <= 0xFFFF_FFFF,
{
    lemma_pow2_pos((32 - prefix) as nat);
    lemma2_to64();
    lemma2_to64_rest();
    if prefix > 0 {
        lemma_pow2_strictly_increases((32 - prefix) as nat, 32);
    }
}

/// Distinct prefix lengths give distinct masks.
pub proof fn lemma_mask_spec_injective(p1: int, p2: int)
    requires
        0 <= p1 <= 32,
        0 <= p2 <= 32,
        mask_spec(p1) == mask_spec(p2),
    ensures
        p1 == p2,
{
    if p1 < p2 {
        lemma_pow2_strictly_increases((32 - p2) as nat, (32 - p1) as nat);
    } else if p2 < p1 {
        lemma_pow2_strictly_increases((32 - p1) as nat, (32 - p2) as nat);
    }
}

/// For a prefix below 32, the complement of `0xFFFF_FFFF >> prefix` is the
/// mask of that prefix.
proof fn lemma_mask_shift_form(c: u32)
    requires
        c < 32,
    ensures
        !(0xFFFF_FFFFu32 >> c) == mask_spec(c as int),
{
    lemma_u32_shr_is_div(0xFFFF_FFFFu32, c);
    lemma_pow2_pos(c as nat);
    lemma_pow2_pos((32 - c) as nat);
    lemma_pow2_adds((32 - c) as nat, c as nat);
    lemma2_to64();
    let d = pow2(c as nat) as int;
    let q = pow2((32 - c) as nat) as int - 1;
    let r = d - 1;
    assert(q * d == pow2((32 - c) as nat) * pow2(c as nat) - pow2(c as nat)) by (nonlinear_arith)
        requires
            d == pow2(c as nat),
            q == pow2((32 - c) as nat) - 1,
    ;
    assert(pow2((32 - c) as nat) * pow2(c as nat) == pow2(32));
    assert(pow2(32) == 0x1_0000_0000);
    assert(0xFFFF_FFFF == q * d + r);
    lemma_fundamental_div_mod_converse(0xFFFF_FFFF, d, q, r);
    let y = 0xFFFF_FFFFu32 >> c;
    assert(y == q);
    assert(!y == 0xFFFF_FFFFu32 - y) by (bit_vector);
}

/// The mask for a prefix in `[0, 32]`.
pub(crate) fn mask_of_prefix(prefix: u8) -> (m: u32)
    requires
        prefix <= 32,
    ensures
        m == mask_spec(prefix as int),
{
    if prefix == 32 {
        proof {
            lemma2_to64();
        }
        0xFFFF_FFFFu32
    } else {
        proof {
            lemma_mask_shift_form(prefix as u32);
        }
        !(0xFFFF_FFFFu32 >> (prefix as u32))
    }
}

/// Converts a CIDR prefix length to the corresponding netmask; prefixes
/// above 32 are rejected.
pub fn cidr_to_mask(cidr: u8) -> (res: Result<u32, IpCalculatorError>)
    ensures
        cidr <= 32 ==> res == Ok::<u32, IpCalculatorError>((mask_spec(cidr as int)) as u32),
        cidr > 32 ==> res == Err::<u32, IpCalculatorError>(IpCalculatorError::InvalidPrefix),
{
    if cidr > 32 {
        return Err(IpCalculatorError::InvalidPrefix);
    }
    proof {
        lemma_mask_bounds(cidr as int);
    }
    Ok(mask_of_prefix(cidr))
}

/// Converts a netmask to its prefix length; values that are not a contiguous
/// run of ones followed by zeros are rejected.
pub fn mask_to_cidr(mask: u32) -> (res: Result<u8, IpCalculatorError>)
    ensures
        res is Ok <==> is_netmask(mask),
        res is Ok ==> res->Ok_0 <= 32 && mask == mask_spec(res->Ok_0 as int),
        res is Err ==> res == Err::<u8, IpCalculatorError>(IpCalculatorError::InvalidMask),
{
    let mut p: u8 = 0;
    while p <= 32
        invariant
            p <= 33,
            forall|q: int| 0 <= q < p ==> mask != mask_spec(q),
        decreases 33 - p,
    {
        if mask == mask_of_prefix(p) {
            return Ok(p);
        }
        p = p + 1;
    }
    Err(IpCalculatorError::InvalidMask)
}

/// Law: converting a prefix to its mask and back is lossless, so converting
/// the recovered prefix to a mask once more yields the same mask.
pub proof fn lemma_mask_cidr_round_trip(prefix: u8)
    requires
        prefix <= 32,
    ensures
        cidr_to_mask_spec(prefix) is Some,
        mask_to_cidr_spec(cidr_to_mask_spec(prefix)->0) == Some(prefix),
        cidr_to_mask_spec(mask_to_cidr_spec(cidr_to_mask_spec(prefix)->0)->0) == cidr_to_mask_spec(
            prefix,
        ),
{
    lemma_mask_bounds(prefix as int);
    let m = cidr_to_mask_spec(prefix)->0;
    assert(m == mask_spec(prefix as int));
    assert(is_netmask(m));
    let q = prefix_of_mask(m);
    assert(0 <= q <= 32 && m == mask_spec(q));
    lemma_mask_spec_injective(q, prefix as int);
}

} // verus!
