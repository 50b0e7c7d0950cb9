//! The `Subnet` value type: an IPv4 network block with its derived fields
//! (network and broadcast address, mask, usable range, host count), plus the
//! membership and overlap predicates built on it.

use vstd::prelude::*;
use vstd::arithmetic::power2::{pow2, lemma_pow2_adds, lemma_pow2_strictly_increases, lemma2_to64};
use vstd::arithmetic::div_mod::{
    lemma_fundamental_div_mod, lemma_mod_multiples_basic, lemma_multiply_divide_lt,
    lemma_small_mod,
};
use vstd::bits::{lemma_u32_low_bits_mask_is_mod, low_bits_mask};
use vstd::string::StringSliceAdditionalSpecFns;
use crate::errors::IpCalculatorError;
use crate::mask::{
    block_size, is_netmask, lemma_mask_bounds, lemma_mask_spec_injective, mask_of_prefix,
    mask_spec, mask_to_cidr, prefix_of_mask,
};
use crate::parse::{
    cidr_addr, cidr_parts, cidr_prefix, is_cidr_str, is_ipv4_str, is_prefix_str,
    parse_ipv4_bytes, parse_prefix_field, split_bytes,
};

verus! {

/// The network address obtained by clearing the host bits of `addr`:
/// `addr` rounded down to a multiple of the block size.
pub open spec fn network_of(addr: u32, prefix: int) -> int
    recommends
        0 <= prefix <= 32,
{
    addr - ((addr as int) % block_size(prefix))
}

/// The broadcast address of the block containing `addr`: the last address of
/// that block.
pub open spec fn broadcast_of(addr: u32, prefix: int) -> int
    recommends
        0 <= prefix <= 32,
{
    network_of(addr, prefix) + block_size(prefix) - 1
}

/// The usable host count of a block: the block size minus network and
/// broadcast address, except that a `/31` counts both point-to-point ends
/// and a `/32` counts its single host route.
pub open spec fn spec_num_hosts(prefix: int) -> int
    recommends
        0 <= prefix <= 32,
{
    if prefix == 32 {
        1
    } else if prefix == 31 {
        2
    } else {
        block_size(prefix) - 2
    }
}

/// One IPv4 network block. A value is immutable once constructed; all fields
/// are derived from the pair `(network, prefix)`.
#[derive(Clone, Copy, Debug)]
pub struct Subnet {
    pub network: u32,
    pub mask: u32,
    pub broadcast: u32,
    pub first_usable: Option<u32>,
    pub last_usable: Option<u32>,
    pub prefix: u8,
    pub num_hosts: u32,
}

/// `ip` lies in the inclusive range `[network, broadcast]` of `s`.
pub open spec fn spec_contains(s: Subnet, ip: u32) -> bool {
    s.network <= ip <= s.broadcast
}

/// The four-way endpoint test: some endpoint of one subnet lies inside the
/// other's range.
pub open spec fn spec_overlaps(a: Subnet, b: Subnet) -> bool {
    ||| spec_contains(a, b.network)
    ||| spec_contains(a, b.broadcast)
    ||| spec_contains(b, a.network)
    ||| spec_contains(b, a.broadcast)
}

impl Subnet {
    /// Well-formedness: every field is derived from `(network, prefix)` as
    /// the data model prescribes.
    pub open spec fn inv(self) -> bool {
        &&& self.prefix <= 32
        &&& self.mask == mask_spec(self.prefix as int)
        &&& (self.network as int) % block_size(self.prefix as int) == 0
        &&& self.broadcast == self.network + block_size(self.prefix as int) - 1
        &&& (self.prefix < 31 ==> self.first_usable == Some((self.network + 1) as u32)
            && self.last_usable == Some((self.broadcast - 1) as u32))
        &&& (self.prefix >= 31 ==> self.first_usable is None && self.last_usable is None)
        &&& self.num_hosts == spec_num_hosts(self.prefix as int)
    }
}

/// Splitting a word by a mask: the masked and the complement part add back
/// up to the word, are bit-disjoint, and the complement of the mask is its
/// distance from the all-one word.
proof fn lemma_and_not_split(addr: u32, m: u32)
    by (bit_vector)
    ensures
        (addr & m) + (addr & !m) == addr,
        (addr & m) & !m == 0,
        !m == 0xFFFF_FFFFu32 - m,
{
}

/// Bitwise or of bit-disjoint words is addition.
proof fn lemma_or_disjoint(a: u32, b: u32)
    by (bit_vector)
    requires
        a & b == 0,
    ensures
        a | b == a + b,
{
}

/// A 32-bit word masked to a prefix boundary equals the word rounded down to
/// a multiple of the prefix's block size, and the complement of the mask is
/// the block size minus one.
proof fn lemma_mask_rounds_down(addr: u32, prefix: u8)
    requires
        prefix <= 32,
    ensures
        !((mask_spec(prefix as int)) as u32) == block_size(prefix as int) - 1,
        addr & ((mask_spec(prefix as int)) as u32) == network_of(addr, prefix as int),
        network_of(addr, prefix as int) % block_size(prefix as int) == 0,
{
    lemma_mask_bounds(prefix as int);
    let m = (mask_spec(prefix as int)) as u32;
    let bs = block_size(prefix as int);
    lemma_and_not_split(addr, m);
    assert(!m == bs - 1);
    if prefix == 0 {
        lemma2_to64();
        assert(m == 0);
        assert(addr & m == 0) by (bit_vector)
            requires
                m == 0u32,
        ;
        assert(addr & !m == addr);
        lemma_small_mod(addr as nat, 0x1_0000_0000);
        assert(network_of(addr, 0) == 0);
    } else {
        let n = (32 - prefix) as nat;
        lemma_pow2_strictly_increases(n, 32);
        lemma2_to64();
        assert(bs < 0x1_0000_0000);
        assert(low_bits_mask(n) == bs - 1);
        lemma_u32_low_bits_mask_is_mod(addr, n);
        assert(addr & !m == addr % (bs as u32));
        assert((addr % (bs as u32)) as int == (addr as int) % bs);
        assert(addr & m == addr - ((addr as int) % bs));
    }
    // network_of is a multiple of the block size
    lemma_fundamental_div_mod(addr as int, bs);
    lemma_mod_multiples_basic(addr as int / bs, bs);
}

/// An aligned network address leaves room for its whole block below `2^32`.
pub proof fn lemma_block_fits(network: u32, prefix: int)
    requires
        0 <= prefix <= 32,
        (network as int) % block_size(prefix) == 0,
    ensures
        network + block_size(prefix) <= 0x1_0000_0000,
{
    let bs = block_size(prefix);
    lemma_mask_bounds(prefix);
    lemma_pow2_adds((32 - prefix) as nat, prefix as nat);
    lemma2_to64();
    assert(bs * pow2(prefix as nat) == 0x1_0000_0000);
    lemma_fundamental_div_mod(network as int, bs);
    let k = network as int / bs;
    assert(network == bs * k);
    assert(network < bs * pow2(prefix as nat));
    lemma_multiply_divide_lt(network as int, bs, pow2(prefix as nat) as int);
    assert(k < pow2(prefix as nat));
    assert(network + bs <= 0x1_0000_0000) by (nonlinear_arith)
        requires
            network == bs * k,
            k < pow2(prefix as nat),
            bs * pow2(prefix as nat) == 0x1_0000_0000,
            bs >= 1,
    ;
}

impl Subnet {
    /// Builds the subnet containing `address` with the given prefix length.
    /// A non-aligned address is silently normalized to its block's network
    /// address; only a prefix above 32 is rejected.
    pub fn new(address: u32, prefix: u8) -> (res: Result<Subnet, IpCalculatorError>)
        ensures
            prefix > 32 ==> res == Err::<Subnet, IpCalculatorError>(
                IpCalculatorError::InvalidPrefix,
            ),
            prefix <= 32 ==> res is Ok && (res->Ok_0).inv() && (res->Ok_0).prefix == prefix && (
            res->Ok_0).network == network_of(address, prefix as int),
    {
        if prefix > 32 {
            return Err(IpCalculatorError::InvalidPrefix);
        }
        let ghost bs = block_size(prefix as int);
        proof {
            lemma_mask_bounds(prefix as int);
            lemma_mask_rounds_down(address, prefix);
        }
        let mask = mask_of_prefix(prefix);
        let host = !mask;
        let network = address & mask;
        proof {
            lemma_block_fits(network, prefix as int);
            lemma_and_not_split(address, mask);
            assert(network & host == 0);
            lemma_or_disjoint(network, host);
        }
        let broadcast = network | host;
        let (first_usable, last_usable) = if prefix < 31 {
            proof {
                lemma_pow2_strictly_increases(1, (32 - prefix) as nat);
                lemma2_to64();
            }
            (Some(network + 1), Some(broadcast - 1))
        } else {
            (None, None)
        };
        let num_hosts: u32 = if prefix == 32 {
            1
        } else if prefix == 31 {
            2
        } else {
            proof {
                lemma_pow2_strictly_increases(1, (32 - prefix) as nat);
                lemma2_to64();
            }
            host - 1
        };
        Ok(Subnet { network, mask, broadcast, first_usable, last_usable, prefix, num_hosts })
    }

    /// `ip` lies between this subnet's network and broadcast address,
    /// inclusive.
    pub fn contains_ip(&self, ip: u32) -> (res: bool)
        ensures
            res == spec_contains(*self, ip),
    {
        ip >= self.network && ip <= self.broadcast
    }

    /// The endpoint test for overlap: an endpoint of one subnet lies in the
    /// other's range. For well-formed subnets this coincides with interval
    /// intersection (`lemma_overlaps_iff_intersects`).
    pub fn overlaps_with(&self, other: &Subnet) -> (res: bool)
        ensures
            res == spec_overlaps(*self, *other),
    {
        self.contains_ip(other.network) || self.contains_ip(other.broadcast)
            || other.contains_ip(self.network) || other.contains_ip(self.broadcast)
    }

    /// Every usable host address of this subnet, in ascending order. Subnets
    /// of prefix 31 or 32 have no usable-host range and are rejected.
    pub fn get_available_hosts(&self) -> (res: Result<Vec<u32>, IpCalculatorError>)
        requires
            self.inv(),
        ensures
            self.prefix >= 31 ==> res == Err::<Vec<u32>, IpCalculatorError>(
                IpCalculatorError::SubnetError,
            ),
            self.prefix < 31 ==> res is Ok && (res->Ok_0)@.len() == self.broadcast - self.network
                - 1 && (forall|k: int|
                0 <= k < (res->Ok_0)@.len() ==> (res->Ok_0)@[k] == self.network + 1 + k),
    {
        if self.prefix >= 31 {
            return Err(IpCalculatorError::SubnetError);
        }
        proof {
            lemma_pow2_strictly_increases(1, (32 - self.prefix) as nat);
            lemma2_to64();
        }
        let first = self.network + 1;
        let last = self.broadcast - 1;
        let mut hosts: Vec<u32> = Vec::new();
        let mut a = first;
        while a <= last
            invariant
                first <= a <= last + 1,
                last < 0xFFFF_FFFFu32,
                hosts@.len() == a - first,
                forall|k: int| 0 <= k < hosts@.len() ==> hosts@[k] == first + k,
            decreases last + 1 - a,
        {
            hosts.push(a);
            a = a + 1;
        }
        Ok(hosts)
    }
}

/// Law: a well-formed subnet's network address never exceeds its broadcast
/// address, and the subnet contains both of its own endpoints.
pub proof fn lemma_subnet_bounds(s: Subnet)
    requires
        s.inv(),
    ensures
        s.network <= s.broadcast,
        spec_contains(s, s.network),
        spec_contains(s, s.broadcast),
        s.first_usable is Some ==> s.first_usable->0 <= s.last_usable->0,
{
    lemma_mask_bounds(s.prefix as int);
    if s.prefix < 31 {
        lemma_pow2_strictly_increases(1, (32 - s.prefix) as nat);
        lemma2_to64();
    }
}

/// Parses CIDR notation (`address/prefix`) and builds the subnet it names.
/// The error tells which part was malformed: the shape, the address, or the
/// prefix.
pub fn calculate_subnet(cidr: &str) -> (res: Result<Subnet, IpCalculatorError>)
    ensures
        cidr_parts(cidr.spec_bytes()).len() != 2 ==> res == Err::<Subnet, IpCalculatorError>(
            IpCalculatorError::InvalidCIDR,
        ),
        cidr_parts(cidr.spec_bytes()).len() == 2 && !is_ipv4_str(
            cidr_parts(cidr.spec_bytes())[0],
        ) ==> res == Err::<Subnet, IpCalculatorError>(IpCalculatorError::InvalidIP),
        cidr_parts(cidr.spec_bytes()).len() == 2 && is_ipv4_str(cidr_parts(cidr.spec_bytes())[0])
            && !is_prefix_str(cidr_parts(cidr.spec_bytes())[1]) ==> res == Err::<
            Subnet,
            IpCalculatorError,
        >(IpCalculatorError::InvalidPrefix),
        is_cidr_str(cidr.spec_bytes()) ==> res is Ok && (res->Ok_0).inv() && (res->Ok_0).prefix
            == cidr_prefix(cidr.spec_bytes()) && (res->Ok_0).network == network_of(
            (cidr_addr(cidr.spec_bytes())) as u32,
            cidr_prefix(cidr.spec_bytes()),
        ),
{
    let parts = split_bytes(cidr.as_bytes(), 47);
    if parts.len() != 2 {
        return Err(IpCalculatorError::InvalidCIDR);
    }
    let addr = match parse_ipv4_bytes(parts[0].as_slice()) {
        Some(a) => a,
        None => {
            return Err(IpCalculatorError::InvalidIP);
        },
    };
    let prefix = match parse_prefix_field(parts[1].as_slice()) {
        Some(p) => p,
        None => {
            return Err(IpCalculatorError::InvalidPrefix);
        },
    };
    match Subnet::new(addr, prefix) {
        Ok(s) => Ok(s),
        Err(_) => {
            proof {
                assert(false);
            }
            Err(IpCalculatorError::InvalidPrefix)
        },
    }
}

/// Whether two addresses see each other as subnet neighbours: each address
/// is tested against the subnet built around the other address with that
/// address's own mask. The second mask defaults to the first.
pub fn are_in_same_subnet(ip1: u32, ip2: u32, mask1: u32, mask2: Option<u32>) -> (res: Result<
    bool,
    IpCalculatorError,
>)
    ensures
        !is_netmask(mask1) ==> res == Err::<bool, IpCalculatorError>(
            IpCalculatorError::InvalidMask,
        ),
        is_netmask(mask1) && mask2 is Some && !is_netmask(mask2->0) ==> res == Err::<
            bool,
            IpCalculatorError,
        >(IpCalculatorError::InvalidMask),
        is_netmask(mask1) && (mask2 is None || is_netmask(mask2->0)) ==> res is Ok && res->Ok_0
            == ({
            let p1 = prefix_of_mask(mask1);
            let p2 = prefix_of_mask(if mask2 is Some { mask2->0 } else { mask1 });
            network_of(ip1, p1) <= ip2 <= broadcast_of(ip1, p1) && network_of(ip2, p2) <= ip1
                <= broadcast_of(ip2, p2)
        }),
{
    let prefix1 = match mask_to_cidr(mask1) {
        Ok(p) => p,
        Err(e) => {
            return Err(e);
        },
    };
    let subnet1 = match Subnet::new(ip1, prefix1) {
        Ok(s) => s,
        Err(e) => {
            proof {
                assert(false);
            }
            return Err(e);
        },
    };
    let m2 = match mask2 {
        Some(m) => m,
        None => mask1,
    };
    let prefix2 = match mask_to_cidr(m2) {
        Ok(p) => p,
        Err(e) => {
            return Err(e);
        },
    };
    let subnet2 = match Subnet::new(ip2, prefix2) {
        Ok(s) => s,
        Err(e) => {
            proof {
                assert(false);
            }
            return Err(e);
        },
    };
    proof {
        lemma_mask_spec_injective(prefix_of_mask(mask1), prefix1 as int);
        lemma_mask_spec_injective(prefix_of_mask(m2), prefix2 as int);
    }
    Ok(subnet1.contains_ip(ip2) && subnet2.contains_ip(ip1))
}

/// Law: for well-formed subnets the four-way endpoint test agrees with
/// interval intersection.
pub proof fn lemma_overlaps_iff_intersects(a: Subnet, b: Subnet)
    requires
        a.inv(),
        b.inv(),
    ensures
        spec_overlaps(a, b) <==> !(a.broadcast < b.network || b.broadcast < a.network),
{
    lemma_subnet_bounds(a);
    lemma_subnet_bounds(b);
}

} // verus!
