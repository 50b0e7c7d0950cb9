//! Search for the first contiguous block of free host addresses in a
//! subnet: a single left-to-right scan over the usable range, skipping
//! excluded addresses, that finds the lowest window of the requested size
//! whose addresses are all free.

use vstd::prelude::*;
use vstd::string::StringSliceAdditionalSpecFns;
use vstd::arithmetic::power2::{pow2, lemma_pow2_adds, lemma_pow2_pos};
use vstd::arithmetic::power2::lemma2_to64;
use crate::errors::IpCalculatorError;
use crate::mask::block_size;
use crate::parse::{cidr_addr, cidr_parts, cidr_prefix, is_cidr_str, is_ipv4_str, is_prefix_str};
use crate::subnet::{calculate_subnet, network_of};

verus! {

/// A window of `size` consecutive addresses starting at `start` that lies
/// inside the usable range `[first, last]` and contains no excluded address.
pub open spec fn spec_run_free(first: int, last: int, ex: Seq<u32>, start: int, size: int) -> bool {
    &&& first <= start
    &&& start + size - 1 <= last
    &&& forall|x: int| start <= x < start + size ==> !ex.contains(#[trigger] (x as u32))
}

/// Whether `v` holds `x`.
fn contains_u32(v: &Vec<u32>, x: u32) -> (res: bool)
    ensures
        res == v@.contains(x),
{
    let mut k: usize = 0;
    while k < v.len()
        invariant
            k <= v@.len(),
            forall|j: int| 0 <= j < k ==> v@[j] != x,
        decreases v@.len() - k,
    {
        if v[k] == x {
            assert(v@.contains(x));
            return true;
        }
        k = k + 1;
    }
    assert(!v@.contains(x));
    false
}

/// Finds the first (lowest-address) run of `range_size` consecutive usable
/// addresses in the subnet named by `cidr`, none of them excluded. A zero
/// request is rejected; a subnet without a usable-host range is rejected;
/// a subnet whose usable addresses are all excluded reports `RangeError`;
/// one with free addresses but no long-enough run reports `InvalidRange`.
#[verifier::loop_isolation(false)]
pub fn find_ip_range(cidr: &str, range_size: usize, exclusions: Vec<u32>) -> (res: Result<
    (u32, u32),
    IpCalculatorError,
>)
    ensures
        range_size == 0 ==> res == Err::<(u32, u32), IpCalculatorError>(
            IpCalculatorError::InvalidRange,
        ),
        range_size > 0 && cidr_parts(cidr.spec_bytes()).len() != 2 ==> res == Err::<
            (u32, u32),
            IpCalculatorError,
        >(IpCalculatorError::InvalidCIDR),
        range_size > 0 && cidr_parts(cidr.spec_bytes()).len() == 2 && !is_ipv4_str(
            cidr_parts(cidr.spec_bytes())[0],
        ) ==> res == Err::<(u32, u32), IpCalculatorError>(IpCalculatorError::InvalidIP),
        range_size > 0 && cidr_parts(cidr.spec_bytes()).len() == 2 && is_ipv4_str(
            cidr_parts(cidr.spec_bytes())[0],
        ) && !is_prefix_str(cidr_parts(cidr.spec_bytes())[1]) ==> res == Err::<
            (u32, u32),
            IpCalculatorError,
        >(IpCalculatorError::InvalidPrefix),
        range_size > 0 && is_cidr_str(cidr.spec_bytes()) && cidr_prefix(cidr.spec_bytes()) >= 31
            ==> res == Err::<(u32, u32), IpCalculatorError>(IpCalculatorError::SubnetError),
        range_size > 0 && is_cidr_str(cidr.spec_bytes()) && cidr_prefix(cidr.spec_bytes()) <= 30
            ==> ({
            let b = cidr.spec_bytes();
            let p = cidr_prefix(b);
            let net = network_of((cidr_addr(b)) as u32, p);
            let first = net + 1;
            let last = net + block_size(p) - 2;
            if forall|x: int| first <= x <= last ==> exclusions@.contains(#[trigger] (x as u32)) {
                res == Err::<(u32, u32), IpCalculatorError>(IpCalculatorError::RangeError)
            } else if exists|s: int|
                spec_run_free(first, last, exclusions@, s, range_size as int) {
                &&& res is Ok
                &&& spec_run_free(first, last, exclusions@, res->Ok_0.0 as int, range_size as int)
                &&& res->Ok_0.1 == res->Ok_0.0 + range_size - 1
                &&& (forall|s: int|
                    first <= s < res->Ok_0.0 ==> !spec_run_free(
                        first,
                        last,
                        exclusions@,
                        s,
                        range_size as int,
                    ))
            } else {
                res == Err::<(u32, u32), IpCalculatorError>(IpCalculatorError::InvalidRange)
            }
        }),
{
    if range_size == 0 {
        return Err(IpCalculatorError::InvalidRange);
    }
    let subnet = match calculate_subnet(cidr) {
        Ok(s) => s,
        Err(e) => {
            return Err(e);
        },
    };
    if subnet.prefix >= 31 {
        return Err(IpCalculatorError::SubnetError);
    }
    proof {
        lemma_pow2_adds(2, (30 - subnet.prefix) as nat);
        lemma_pow2_pos((30 - subnet.prefix) as nat);
        lemma2_to64();
        assert(block_size(subnet.prefix as int) >= 4);
    }
    let first = subnet.network + 1;
    let last = subnet.broadcast - 1;
    let ghost ex = exclusions@;
    let ghost size = range_size as int;
    let mut any_free = false;
    let mut run_len: usize = 0;
    let mut run_start: u32 = first;
    let mut a = first;
    while a <= last
        invariant
            first <= a <= last + 1,
            first <= run_start <= a,
            last < 0xFFFF_FFFFu32,
            1 <= size,
            run_len == a - run_start,
            run_len < size,
            ex == exclusions@,
            forall|x: int| run_start <= x < a ==> !ex.contains(#[trigger] (x as u32)),
            run_start > first ==> ex.contains((run_start - 1) as u32),
            any_free == exists|x: int| first <= x < a && !ex.contains(#[trigger] (x as u32)),
            forall|s: int|
                first <= s && s + size <= a ==> !spec_run_free(
                    first as int,
                    last as int,
                    ex,
                    s,
                    size,
                ),
        decreases last + 1 - a,
    {
        if contains_u32(&exclusions, a) {
            proof {
                assert forall|s: int| first <= s && s + size <= a + 1 implies !spec_run_free(
                    first as int,
                    last as int,
                    ex,
                    s,
                    size,
                ) by {
                    if s + size == a + 1 {
                        assert(s <= a < s + size);
                        assert(ex.contains(a as u32));
                    }
                }
            }
            proof {
                assert forall|x: int|
                    first <= x < a + 1 && !ex.contains(#[trigger] (x as u32)) implies x
                    < a by {
                    assert(ex.contains(a as u32));
                }
            }
            run_start = a + 1;
            run_len = 0;
        } else {
            any_free = true;
            run_len = run_len + 1;
            proof {
                assert(first <= (a as int) < a + 1 && !ex.contains(((a as int) as u32)));
            }
            if run_len >= range_size {
                proof {
                    assert(a - run_start + 1 == size);
                    assert(spec_run_free(first as int, last as int, ex, run_start as int, size));
                    assert(!ex.contains(((a as int) as u32)));
                    assert(first as int <= a as int <= last as int);
                    assert forall|s: int| first <= s < run_start implies !spec_run_free(
                        first as int,
                        last as int,
                        ex,
                        s,
                        size,
                    ) by {
                        assert(s + size <= a);
                    }
                }
                return Ok((run_start, a));
            }
            proof {
                assert forall|s: int| first <= s && s + size <= a + 1 implies !spec_run_free(
                    first as int,
                    last as int,
                    ex,
                    s,
                    size,
                ) by {
                    if s + size == a + 1 {
                        if s >= run_start {
                            assert(a + 1 - run_start < size + (a + 1 - s));
                        } else {
                            assert(s < run_start <= a);
                            assert(run_start >= first + 1);
                            assert(ex.contains((run_start - 1) as u32));
                            assert(s <= run_start - 1 < s + size);
                        }
                    }
                }
            }
        }
        a = a + 1;
    }
    if !any_free {
        return Err(IpCalculatorError::RangeError);
    }
    proof {
        assert forall|s: int| !spec_run_free(first as int, last as int, ex, s, size) by {
            if first <= s && s + size <= last + 1 {
                assert(!spec_run_free(first as int, last as int, ex, s, size));
            }
        }
    }
    Err(IpCalculatorError::InvalidRange)
}

} // verus!
