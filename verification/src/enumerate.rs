//! Partitioning a network into child subnets of a longer prefix: the child
//! count, the ordered window of children selected by an optional result cap
//! and a 512-entry page, and the single-child lookup by index.
//!
//! Children are laid out contiguously: the i-th child's network address is
//! the base network plus `i` times the child block size, so children of one
//! request are pairwise disjoint by construction.

use vstd::prelude::*;
use vstd::string::StringSliceAdditionalSpecFns;
use vstd::arithmetic::power2::{pow2, lemma_pow2_adds, lemma_pow2_pos, lemma_pow2_strictly_increases, lemma2_to64};
use vstd::arithmetic::div_mod::{
    lemma_fundamental_div_mod, lemma_fundamental_div_mod_converse, lemma_mod_multiples_basic,
    lemma_add_mod_noop,
};
use vstd::arithmetic::mul::lemma_mul_inequality;
use crate::errors::IpCalculatorError;
use crate::mask::{block_size, lemma_mask_bounds};
use crate::parse::{cidr_addr, cidr_parts, cidr_prefix, is_cidr_str, is_ipv4_str, is_prefix_str};
use crate::subnet::{
    calculate_subnet, lemma_block_fits, network_of, spec_overlaps, Subnet,
};

verus! {

/// How many children a base prefix has when split into a longer prefix.
pub open spec fn spec_child_count(base_prefix: int, new_prefix: int) -> int
    recommends
        0 <= base_prefix <= new_prefix,
{
    pow2((new_prefix - base_prefix) as nat) as int
}

/// The network address of the `i`-th child subnet.
pub open spec fn spec_child_network(base_network: u32, new_prefix: int, i: int) -> int {
    base_network + i * block_size(new_prefix)
}

/// The requested result-set size: the caller's cap, or every child.
pub open spec fn spec_display_total(filter: Option<usize>, count: int) -> int {
    match filter {
        Option::Some(f) => f as int,
        Option::None => count,
    }
}

/// Number of 512-entry pages needed for `total` entries.
pub open spec fn spec_total_pages(total: int) -> int {
    (total + 511) / 512
}

/// The page actually shown: a request past the last page clamps to the last
/// page (page 0 when there are no pages at all).
pub open spec fn spec_page_clamped(page: Option<usize>, pages: int) -> int {
    match page {
        Option::Some(p) => if p >= pages {
            if pages > 0 {
                pages - 1
            } else {
                0
            }
        } else {
            p as int
        },
        Option::None => 0,
    }
}

/// The child index where the shown window begins.
pub open spec fn spec_window_start(page: Option<usize>, pages: int) -> int {
    spec_page_clamped(page, pages) * 512
}

/// The size of the logical result set: the child count capped by the
/// requested size. Paging runs over this set.
pub open spec fn spec_window_cap(count: int, filter: Option<usize>) -> int {
    let total = spec_display_total(filter, count);
    if count < total {
        count
    } else {
        total
    }
}

/// How many children the window holds: up to one page, cut off at the cap.
pub open spec fn spec_window_len(start: int, cap: int) -> int {
    if start >= cap {
        0
    } else if cap - start < 512 {
        cap - start
    } else {
        512
    }
}

/// Ceiling division by the page size, written without overflow.
proof fn lemma_ceil_pages(t: int)
    requires
        0 <= t,
    ensures
        spec_total_pages(t) == t / 512 + (if t % 512 != 0 {
            1int
        } else {
            0int
        }),
        t > 0 ==> (spec_total_pages(t) - 1) * 512 <= t - 1,
        spec_total_pages(t) >= 0,
{
    let q = t / 512;
    let r = t % 512;
    lemma_fundamental_div_mod(t, 512);
    if r == 0 {
        lemma_fundamental_div_mod_converse(t + 511, 512, q, 511);
    } else {
        lemma_fundamental_div_mod_converse(t + 511, 512, q + 1, r - 1);
    }
}

/// Law: two well-formed subnets of the same prefix length with different
/// network addresses never overlap; in particular the children of one
/// enumeration request are pairwise disjoint.
pub proof fn lemma_children_disjoint(a: Subnet, b: Subnet)
    requires
        a.inv(),
        b.inv(),
        a.prefix == b.prefix,
        a.network != b.network,
    ensures
        !spec_overlaps(a, b),
{
    let bs = block_size(a.prefix as int);
    lemma_mask_bounds(a.prefix as int);
    lemma_fundamental_div_mod(a.network as int, bs);
    lemma_fundamental_div_mod(b.network as int, bs);
    let ka = a.network as int / bs;
    let kb = b.network as int / bs;
    if a.network < b.network {
        assert(a.network + bs <= b.network) by (nonlinear_arith)
            requires
                a.network == bs * ka,
                b.network == bs * kb,
                a.network < b.network,
                bs >= 1,
        ;
    } else {
        assert(b.network + bs <= a.network) by (nonlinear_arith)
            requires
                a.network == bs * ka,
                b.network == bs * kb,
                b.network < a.network,
                bs >= 1,
        ;
    }
}

/// Whether the candidate overlaps any subnet already collected.
fn any_overlap(existing: &Vec<Subnet>, candidate: &Subnet) -> (res: bool)
    ensures
        res == exists|k: int|
            0 <= k < existing@.len() && spec_overlaps(existing@[k], *candidate),
{
    let mut k: usize = 0;
    while k < existing.len()
        invariant
            k <= existing@.len(),
            forall|j: int| 0 <= j < k ==> !spec_overlaps(existing@[j], *candidate),
        decreases existing@.len() - k,
    {
        if existing[k].overlaps_with(candidate) {
            return true;
        }
        k = k + 1;
    }
    false
}

/// Splits the network named by `cidr` into children of prefix `new_prefix`
/// and returns one 512-entry page of them, together with the total child
/// count and the page count. `filter` caps the logical result set; a `page`
/// past the last page clamps to the last page. The children returned are
/// consecutive blocks in ascending order and pairwise disjoint.
pub fn generate_subnets(cidr: &str, new_prefix: u8, filter: Option<usize>, page: Option<usize>)
    -> (res: Result<(Vec<Subnet>, u32, usize), IpCalculatorError>)
    ensures
        cidr_parts(cidr.spec_bytes()).len() != 2 ==> res == Err::<
            (Vec<Subnet>, u32, usize),
            IpCalculatorError,
        >(IpCalculatorError::InvalidCIDR),
        cidr_parts(cidr.spec_bytes()).len() == 2 && !is_ipv4_str(
            cidr_parts(cidr.spec_bytes())[0],
        ) ==> res == Err::<(Vec<Subnet>, u32, usize), IpCalculatorError>(
            IpCalculatorError::InvalidIP,
        ),
        cidr_parts(cidr.spec_bytes()).len() == 2 && is_ipv4_str(cidr_parts(cidr.spec_bytes())[0])
            && !is_prefix_str(cidr_parts(cidr.spec_bytes())[1]) ==> res == Err::<
            (Vec<Subnet>, u32, usize),
            IpCalculatorError,
        >(IpCalculatorError::InvalidPrefix),
        is_cidr_str(cidr.spec_bytes()) && new_prefix > 32 ==> res == Err::<
            (Vec<Subnet>, u32, usize),
            IpCalculatorError,
        >(IpCalculatorError::InvalidPrefix),
        is_cidr_str(cidr.spec_bytes()) && new_prefix <= 32 && new_prefix <= cidr_prefix(
            cidr.spec_bytes(),
        ) ==> res == Err::<(Vec<Subnet>, u32, usize), IpCalculatorError>(
            IpCalculatorError::InvalidPrefix,
        ),
        is_cidr_str(cidr.spec_bytes()) && cidr_prefix(cidr.spec_bytes()) < new_prefix <= 32
            && new_prefix - cidr_prefix(cidr.spec_bytes()) == 32 ==> res == Err::<
            (Vec<Subnet>, u32, usize),
            IpCalculatorError,
        >(IpCalculatorError::SubnetError),
        is_cidr_str(cidr.spec_bytes()) && cidr_prefix(cidr.spec_bytes()) < new_prefix <= 32
            && new_prefix - cidr_prefix(cidr.spec_bytes()) < 32 ==> res is Ok && ({
            let b = cidr.spec_bytes();
            let count = spec_child_count(cidr_prefix(b), new_prefix as int);
            let pages = spec_total_pages(spec_window_cap(count, filter));
            let start = spec_window_start(page, pages);
            let n = spec_window_len(start, spec_window_cap(count, filter));
            let base_net = network_of((cidr_addr(b)) as u32, cidr_prefix(b));
            &&& res->Ok_0.1 == count
            &&& res->Ok_0.2 == pages
            &&& res->Ok_0.0@.len() == n
            &&& (forall|k: int|
                0 <= k < n ==> (#[trigger] res->Ok_0.0@[k]).inv() && res->Ok_0.0@[k].prefix
                    == new_prefix && res->Ok_0.0@[k].network == spec_child_network(
                    base_net as u32,
                    new_prefix as int,
                    start + k,
                ))
            &&& (forall|k1: int, k2: int|
                0 <= k1 < n && 0 <= k2 < n && k1 != k2 ==> !spec_overlaps(
                    #[trigger] res->Ok_0.0@[k1],
                    #[trigger] res->Ok_0.0@[k2],
                ))
        }),
{
    let subnet = match calculate_subnet(cidr) {
        Ok(s) => s,
        Err(e) => {
            return Err(e);
        },
    };
    if new_prefix > 32 {
        return Err(IpCalculatorError::InvalidPrefix);
    }
    if new_prefix <= subnet.prefix {
        return Err(IpCalculatorError::InvalidPrefix);
    }
    let diff = new_prefix - subnet.prefix;
    if diff >= 32 {
        return Err(IpCalculatorError::SubnetError);
    }
    let ghost b = cidr.spec_bytes();
    let ghost count = spec_child_count(cidr_prefix(b), new_prefix as int);
    proof {
        lemma2_to64();
        lemma_pow2_pos(diff as nat);
        lemma_pow2_strictly_increases(diff as nat, 32);
        if new_prefix < 32 {
            lemma_pow2_strictly_increases((32 - new_prefix) as nat, 32);
        }
        vstd::bits::lemma_u32_shl_is_mul(1u32, diff as u32);
        vstd::bits::lemma_u32_shl_is_mul(1u32, (32 - new_prefix) as u32);
    }
    let num_subnets: u32 = 1u32 << (diff as u32);
    let increment: u32 = 1u32 << ((32 - new_prefix) as u32);
    assert(num_subnets == count);
    assert(increment == block_size(new_prefix as int));
    let total_to_display: usize = match filter {
        Some(f) => {
            if f < (num_subnets as usize) {
                f
            } else {
                num_subnets as usize
            }
        },
        None => num_subnets as usize,
    };
    let ghost total = spec_window_cap(count, filter);
    assert(total_to_display == total);
    let total_pages: usize = total_to_display / 512 + (
    if total_to_display % 512 != 0 {
        1
    } else {
        0
    });
    proof {
        lemma_ceil_pages(total);
    }
    assert(total_pages == spec_total_pages(total));
    let page_number: usize = match page {
        Some(p) => {
            if p >= total_pages {
                if total_pages > 0 {
                    total_pages - 1
                } else {
                    0
                }
            } else {
                p
            }
        },
        None => 0,
    };
    assert(page_number == spec_page_clamped(page, total_pages as int));
    proof {
        if page_number > 0 {
            lemma_ceil_pages(total);
            assert(512 * (total_pages - 1) <= total - 1) by {
                lemma_fundamental_div_mod(total + 511, 512);
            }
        }
    }
    let start_index: usize = page_number * 512;
    let cap: usize = total_to_display;
    let end_index: usize = if start_index >= cap {
        start_index
    } else if cap - start_index < 512 {
        cap
    } else {
        start_index + 512
    };
    let ghost n = spec_window_len(start_index as int, spec_window_cap(count, filter));
    assert(end_index - start_index == n);
    let base_network: u32 = subnet.network;
    let ghost bp = subnet.prefix as int;
    let ghost bs_np = block_size(new_prefix as int);
    let ghost bs_bp = block_size(bp);
    proof {
        lemma_mask_bounds(bp);
        lemma_pow2_adds((new_prefix - bp) as nat, (32 - new_prefix) as nat);
        assert(count * bs_np == bs_bp) by (nonlinear_arith)
            requires
                count == pow2((new_prefix - bp) as nat),
                bs_np == pow2((32 - new_prefix) as nat),
                bs_bp == pow2((new_prefix - bp) as nat) * pow2((32 - new_prefix) as nat),
        ;
        lemma_block_fits(base_network, bp);
    }
    let mut subnets: Vec<Subnet> = Vec::new();
    let mut i: usize = start_index;
    while i < end_index
        invariant
            start_index <= i <= end_index,
            start_index < end_index ==> end_index <= num_subnets,
            num_subnets == count,
            increment == bs_np,
            bs_np == block_size(new_prefix as int),
            bs_bp == block_size(bp),
            count * bs_np == bs_bp,
            1 <= bs_np,
            base_network + bs_bp <= 0x1_0000_0000,
            (base_network as int) % bs_bp == 0,
            0 <= bp < new_prefix <= 32,
            subnet.prefix == bp,
            subnets@.len() == i - start_index,
            forall|k: int|
                0 <= k < subnets@.len() ==> (#[trigger] subnets@[k]).inv() && subnets@[k].prefix
                    == new_prefix && subnets@[k].network == base_network + (start_index + k)
                    * bs_np,
        decreases end_index - i,
    {
        proof {
            lemma_mul_inequality(i + 1, count, bs_np);
            assert((i + 1) * bs_np == i * bs_np + bs_np) by (nonlinear_arith);
            assert(0 <= i * bs_np) by (nonlinear_arith)
                requires
                    0 <= i,
                    1 <= bs_np,
            ;
        }
        let offset: u32 = (i as u32) * increment;
        let new_network: u32 = base_network + offset;
        proof {
            lemma_mod_multiples_basic(i as int, bs_np);
            let kb = base_network as int / bs_bp;
            lemma_fundamental_div_mod(base_network as int, bs_bp);
            assert(base_network as int == (kb * count) * bs_np) by (nonlinear_arith)
                requires
                    base_network as int == bs_bp * kb,
                    count * bs_np == bs_bp,
            ;
            lemma_mod_multiples_basic(kb * count, bs_np);
            lemma_add_mod_noop(base_network as int, offset as int, bs_np);
        }
        let child = match Subnet::new(new_network, new_prefix) {
            Ok(s) => s,
            Err(_) => {
                proof {
                    assert(false);
                }
                return Err(IpCalculatorError::SubnetError);
            },
        };
        proof {
            vstd::arithmetic::div_mod::lemma_small_mod(0nat, bs_np as nat);
        }
        assert(child.network == new_network);
        proof {
            assert forall|k: int| 0 <= k < subnets@.len() implies !spec_overlaps(
                #[trigger] subnets@[k],
                child,
            ) by {
                assert((start_index + k) * bs_np < i * bs_np) by (nonlinear_arith)
                    requires
                        start_index + k < i,
                        1 <= bs_np,
                ;
                lemma_children_disjoint(subnets@[k], child);
            }
        }
        // internal consistency guard; the disjointness proof above shows it
        // cannot fire
        if any_overlap(&subnets, &child) {
            return Err(IpCalculatorError::SubnetError);
        }
        subnets.push(child);
        i = i + 1;
    }
    proof {
        assert forall|k1: int, k2: int|
            0 <= k1 < subnets@.len() && 0 <= k2 < subnets@.len() && k1 != k2 implies !spec_overlaps(
            #[trigger] subnets@[k1],
            #[trigger] subnets@[k2],
        ) by {
            assert((start_index + k1) * bs_np != (start_index + k2) * bs_np) by (nonlinear_arith)
                requires
                    k1 != k2,
                    1 <= bs_np,
                    0 <= start_index + k1,
                    0 <= start_index + k2,
            ;
            lemma_children_disjoint(subnets@[k1], subnets@[k2]);
        }
    }
    Ok((subnets, num_subnets, total_pages))
}

/// Computes the one child subnet at `index` of the split named by `cidr` and
/// `new_prefix`, without generating the others. An index past the last child
/// clamps to the last child; the returned total lets the caller notice the
/// clamp. Any malformed `cidr` is reported as `InvalidCIDR`.
pub fn get_subnet(cidr: &str, new_prefix: u8, index: u32) -> (res: Result<
    (Subnet, u32),
    IpCalculatorError,
>)
    ensures
        !is_cidr_str(cidr.spec_bytes()) ==> res == Err::<(Subnet, u32), IpCalculatorError>(
            IpCalculatorError::InvalidCIDR,
        ),
        is_cidr_str(cidr.spec_bytes()) && new_prefix > 32 ==> res == Err::<
            (Subnet, u32),
            IpCalculatorError,
        >(IpCalculatorError::InvalidPrefix),
        is_cidr_str(cidr.spec_bytes()) && new_prefix <= 32 && new_prefix <= cidr_prefix(
            cidr.spec_bytes(),
        ) ==> res == Err::<(Subnet, u32), IpCalculatorError>(IpCalculatorError::InvalidPrefix),
        is_cidr_str(cidr.spec_bytes()) && cidr_prefix(cidr.spec_bytes()) < new_prefix <= 32
            && new_prefix - cidr_prefix(cidr.spec_bytes()) == 32 ==> res == Err::<
            (Subnet, u32),
            IpCalculatorError,
        >(IpCalculatorError::SubnetError),
        is_cidr_str(cidr.spec_bytes()) && cidr_prefix(cidr.spec_bytes()) < new_prefix <= 32
            && new_prefix - cidr_prefix(cidr.spec_bytes()) < 32 ==> res is Ok && ({
            let b = cidr.spec_bytes();
            let count = spec_child_count(cidr_prefix(b), new_prefix as int);
            let eff = if index < count {
                index as int
            } else {
                count - 1
            };
            let base_net = network_of((cidr_addr(b)) as u32, cidr_prefix(b));
            &&& res->Ok_0.1 == count
            &&& res->Ok_0.0.inv()
            &&& res->Ok_0.0.prefix == new_prefix
            &&& res->Ok_0.0.network == spec_child_network(base_net as u32, new_prefix as int, eff)
        }),
{
    let base_subnet = match calculate_subnet(cidr) {
        Ok(s) => s,
        Err(_) => {
            return Err(IpCalculatorError::InvalidCIDR);
        },
    };
    if new_prefix > 32 {
        return Err(IpCalculatorError::InvalidPrefix);
    }
    if new_prefix <= base_subnet.prefix {
        return Err(IpCalculatorError::InvalidPrefix);
    }
    let diff = new_prefix - base_subnet.prefix;
    if diff >= 32 {
        return Err(IpCalculatorError::SubnetError);
    }
    proof {
        lemma2_to64();
        lemma_pow2_pos(diff as nat);
        lemma_pow2_strictly_increases(diff as nat, 32);
        if new_prefix < 32 {
            lemma_pow2_strictly_increases((32 - new_prefix) as nat, 32);
        }
        vstd::bits::lemma_u32_shl_is_mul(1u32, diff as u32);
        vstd::bits::lemma_u32_shl_is_mul(1u32, (32 - new_prefix) as u32);
    }
    let num_subnets: u32 = 1u32 << (diff as u32);
    let increment: u32 = 1u32 << ((32 - new_prefix) as u32);
    let eff_index: u32 = if index >= num_subnets {
        num_subnets - 1
    } else {
        index
    };
    let ghost bp = base_subnet.prefix as int;
    let ghost bs_np = block_size(new_prefix as int);
    let ghost bs_bp = block_size(bp);
    let ghost count = spec_child_count(bp, new_prefix as int);
    proof {
        lemma_mask_bounds(bp);
        lemma_pow2_adds((new_prefix - bp) as nat, (32 - new_prefix) as nat);
        assert(count * bs_np == bs_bp) by (nonlinear_arith)
            requires
                count == pow2((new_prefix - bp) as nat),
                bs_np == pow2((32 - new_prefix) as nat),
                bs_bp == pow2((new_prefix - bp) as nat) * pow2((32 - new_prefix) as nat),
        ;
        lemma_block_fits(base_subnet.network, bp);
        lemma_mul_inequality(eff_index as int + 1, count, bs_np);
        assert((eff_index + 1) * bs_np == eff_index * bs_np + bs_np) by (nonlinear_arith);
        assert(0 <= eff_index * bs_np) by (nonlinear_arith)
            requires
                0 <= eff_index,
                1 <= bs_np,
        ;
    }
    let offset: u32 = eff_index * increment;
    let new_network: u32 = base_subnet.network + offset;
    proof {
        lemma_mod_multiples_basic(eff_index as int, bs_np);
        let kb = base_subnet.network as int / bs_bp;
        lemma_fundamental_div_mod(base_subnet.network as int, bs_bp);
        assert(base_subnet.network as int == (kb * count) * bs_np) by (nonlinear_arith)
            requires
                base_subnet.network as int == bs_bp * kb,
                count * bs_np == bs_bp,
        ;
        lemma_mod_multiples_basic(kb * count, bs_np);
        lemma_add_mod_noop(base_subnet.network as int, offset as int, bs_np);
        vstd::arithmetic::div_mod::lemma_small_mod(0nat, bs_np as nat);
    }
    match Subnet::new(new_network, new_prefix) {
        Ok(s) => Ok((s, num_subnets)),
        Err(_) => {
            proof {
                assert(false);
            }
            Err(IpCalculatorError::SubnetError)
        },
    }
}

} // verus!
