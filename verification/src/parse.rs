//! Dotted-decimal text: the grammar of IPv4 address literals, netmask
//! literals, bare prefix numbers, and `address/prefix` CIDR notation, with
//! verified parsers over the raw bytes of the input.
//!
//! The text model works on byte sequences: a string's `spec_bytes()` view.
//! An address literal is four octet fields separated by dots, each field one
//! to three digits with no leading zero and a value up to 255. A prefix
//! field is one to three digits with a value up to 32.

use vstd::prelude::*;
use vstd::string::StringSliceAdditionalSpecFns;
use crate::errors::IpCalculatorError;
use crate::mask::is_netmask;

verus! {

/// ASCII digit.
pub open spec fn is_digit(b: u8) -> bool {
    48 <= b <= 57
}

/// The numeric value of an ASCII digit.
pub open spec fn digit_val(b: u8) -> int {
    b - 48
}

/// Every byte of `s` is an ASCII digit.
pub open spec fn all_digits(s: Seq<u8>) -> bool {
    forall|i: int| 0 <= i < s.len() ==> is_digit(s[i])
}

/// The value of a digit string read as a decimal number.
pub open spec fn dec_val(s: Seq<u8>) -> int
    decreases s.len(),
{
    if s.len() == 0 {
        0
    } else {
        dec_val(s.drop_last()) * 10 + digit_val(s.last())
    }
}

/// Splitting a byte sequence at every occurrence of `sep`. The result always
/// has one part more than the number of separators; parts may be empty.
pub open spec fn split_on(s: Seq<u8>, sep: u8) -> Seq<Seq<u8>>
    decreases s.len(),
{
    if s.len() == 0 {
        seq![Seq::<u8>::empty()]
    } else {
        let rest = split_on(s.drop_last(), sep);
        if s.last() == sep {
            rest.push(Seq::<u8>::empty())
        } else {
            rest.update(rest.len() - 1, rest.last().push(s.last()))
        }
    }
}

/// One octet field of an address literal: one to three digits, no leading
/// zero, value at most 255.
pub open spec fn is_octet_str(s: Seq<u8>) -> bool {
    &&& 1 <= s.len() <= 3
    &&& all_digits(s)
    &&& (s.len() > 1 ==> s[0] != 48)
    &&& dec_val(s) <= 255
}

/// The dot-separated fields of an address literal.
pub open spec fn ipv4_parts(s: Seq<u8>) -> Seq<Seq<u8>> {
    split_on(s, 46)
}

/// A dotted-decimal IPv4 address literal: exactly four octet fields.
pub open spec fn is_ipv4_str(s: Seq<u8>) -> bool {
    let ps = ipv4_parts(s);
    &&& ps.len() == 4
    &&& is_octet_str(ps[0])
    &&& is_octet_str(ps[1])
    &&& is_octet_str(ps[2])
    &&& is_octet_str(ps[3])
}

/// The 32-bit value of an address literal.
pub open spec fn ipv4_val(s: Seq<u8>) -> int {
    let ps = ipv4_parts(s);
    dec_val(ps[0]) * 0x100_0000 + dec_val(ps[1]) * 0x1_0000 + dec_val(ps[2]) * 0x100 + dec_val(
        ps[3],
    )
}

/// The digits of a number field: an optional leading plus sign is dropped.
pub open spec fn num_digits(s: Seq<u8>) -> Seq<u8> {
    if s.len() > 0 && s[0] == 43 {
        s.subrange(1, s.len() as int)
    } else {
        s
    }
}

/// A bare decimal number up to `bound`, written as an optional plus sign and
/// one or more digits (leading zeros allowed) — the shape an unsigned
/// integer parse accepts.
pub open spec fn is_bounded_num(s: Seq<u8>, bound: int) -> bool {
    let t = num_digits(s);
    &&& t.len() >= 1
    &&& all_digits(t)
    &&& dec_val(t) <= bound
}

/// A prefix-length field: a number with value at most 32.
pub open spec fn is_prefix_str(s: Seq<u8>) -> bool {
    is_bounded_num(s, 32)
}

/// A bare decimal number that fits in a byte.
pub open spec fn is_u8_str(s: Seq<u8>) -> bool {
    is_bounded_num(s, 255)
}

/// The slash-separated fields of CIDR notation.
pub open spec fn cidr_parts(s: Seq<u8>) -> Seq<Seq<u8>> {
    split_on(s, 47)
}

/// CIDR notation: `address/prefix` with exactly one slash.
pub open spec fn is_cidr_str(s: Seq<u8>) -> bool {
    let ps = cidr_parts(s);
    ps.len() == 2 && is_ipv4_str(ps[0]) && is_prefix_str(ps[1])
}

/// The address part of CIDR notation.
pub open spec fn cidr_addr(s: Seq<u8>) -> int {
    ipv4_val(cidr_parts(s)[0])
}

/// The prefix part of CIDR notation.
pub open spec fn cidr_prefix(s: Seq<u8>) -> int {
    dec_val(num_digits(cidr_parts(s)[1]))
}

/// Small digit strings have small values.
pub proof fn lemma_dec_val_bounds(s: Seq<u8>)
    requires
        all_digits(s),
    ensures
        0 <= dec_val(s),
        s.len() <= 1 ==> dec_val(s) <= 9,
        s.len() <= 2 ==> dec_val(s) <= 99,
        s.len() <= 3 ==> dec_val(s) <= 999,
    decreases s.len(),
{
    if s.len() > 0 {
        assert(all_digits(s.drop_last()));
        lemma_dec_val_bounds(s.drop_last());
    }
}

/// Splits a byte slice at every occurrence of `sep`.
pub(crate) fn split_bytes(s: &[u8], sep: u8) -> (parts: Vec<Vec<u8>>)
    ensures
        parts@.len() == split_on(s@, sep).len(),
        forall|j: int| 0 <= j < parts@.len() ==> parts@[j]@ == split_on(s@, sep)[j],
{
    let mut parts: Vec<Vec<u8>> = Vec::new();
    parts.push(Vec::new());
    assert(s@.take(0) =~= Seq::<u8>::empty());
    let mut i: usize = 0;
    while i < s.len()
        invariant
            i <= s@.len(),
            parts@.len() >= 1,
            parts@.len() == split_on(s@.take(i as int), sep).len(),
            forall|j: int|
                0 <= j < parts@.len() ==> parts@[j]@ == split_on(s@.take(i as int), sep)[j],
        decreases s@.len() - i,
    {
        let b = s[i];
        proof {
            assert(s@.take(i + 1).drop_last() =~= s@.take(i as int));
            assert(s@.take(i + 1).last() == s@[i as int]);
        }
        if b == sep {
            parts.push(Vec::new());
        } else {
            let mut last = parts.pop().unwrap();
            last.push(b);
            parts.push(last);
            proof {
                let full = split_on(s@.take(i + 1), sep);
                let prev = split_on(s@.take(i as int), sep);
                assert(full == prev.update(prev.len() - 1, prev.last().push(b)));
                assert(parts@[parts@.len() - 1]@ =~= full[full.len() - 1]);
            }
        }
        i = i + 1;
    }
    proof {
        assert(s@.take(s@.len() as int) =~= s@);
    }
    parts
}

/// Parses a field of one to three ASCII digits.
pub(crate) fn parse_dec3(s: &[u8]) -> (res: Option<u32>)
    ensures
        res is Some <==> (1 <= s@.len() <= 3 && all_digits(s@)),
        res is Some ==> res->0 == dec_val(s@) && res->0 <= 999,
{
    if s.len() == 0 || s.len() > 3 {
        return None;
    }
    let mut val: u32 = 0;
    let mut i: usize = 0;
    assert(s@.take(0) =~= Seq::<u8>::empty());
    while i < s.len()
        invariant
            i <= s@.len() <= 3,
            all_digits(s@.take(i as int)),
            val == dec_val(s@.take(i as int)),
            val <= 999,
        decreases s@.len() - i,
    {
        let b = s[i];
        if b < 48 || b > 57 {
            assert(!is_digit(s@[i as int]));
            return None;
        }
        proof {
            assert(s@.take(i + 1).drop_last() =~= s@.take(i as int));
            lemma_dec_val_bounds(s@.take(i as int));
        }
        val = val * 10 + ((b - 48) as u32);
        i = i + 1;
    }
    proof {
        assert(s@.take(s@.len() as int) =~= s@);
    }
    Some(val)
}

/// Parses one octet field: digits, no leading zero, value at most 255.
pub(crate) fn parse_octet(s: &[u8]) -> (res: Option<u8>)
    ensures
        res is Some <==> is_octet_str(s@),
        res is Some ==> res->0 == dec_val(s@),
{
    if s.len() > 1 {
        if s[0] == 48 {
            return None;
        }
    }
    match parse_dec3(s) {
        Some(val) => {
            if val <= 255 {
                Some(val as u8)
            } else {
                None
            }
        },
        None => None,
    }
}

/// Appending digits never shrinks a decimal value.
proof fn lemma_dec_val_extends(t: Seq<u8>, k: int)
    requires
        all_digits(t),
        0 <= k <= t.len(),
    ensures
        dec_val(t) >= dec_val(t.take(k)),
    decreases t.len() - k,
{
    if k == t.len() {
        assert(t.take(k) =~= t);
    } else {
        assert(t.take(k + 1).drop_last() =~= t.take(k));
        assert(all_digits(t.take(k)));
        lemma_dec_val_bounds(t.take(k));
        assert(dec_val(t.take(k + 1)) >= dec_val(t.take(k)));
        lemma_dec_val_extends(t, k + 1);
    }
}

/// Parses a decimal number field of the shape an unsigned integer parse
/// accepts — optional plus sign, one or more digits — rejecting values
/// above `bound`.
#[verifier::loop_isolation(false)]
pub(crate) fn parse_bounded_dec(s: &[u8], bound: u32) -> (res: Option<u32>)
    requires
        bound <= 0xFFFF,
    ensures
        res is Some <==> is_bounded_num(s@, bound as int),
        res is Some ==> res->0 == dec_val(num_digits(s@)),
{
    let ghost t = num_digits(s@);
    let mut i: usize = 0;
    if s.len() > 0 {
        if s[0] == 43 {
            i = 1;
        }
    }
    if i >= s.len() {
        return None;
    }
    let ghost i0 = i as int;
    proof {
        assert(t =~= s@.subrange(i0, s@.len() as int));
        assert(s@.subrange(i0, i0) =~= Seq::<u8>::empty());
    }
    let mut val: u32 = 0;
    while i < s.len()
        invariant
            i0 <= i <= s@.len(),
            t == s@.subrange(i0, s@.len() as int),
            t.len() >= 1,
            all_digits(s@.subrange(i0, i as int)),
            val == dec_val(s@.subrange(i0, i as int)),
            val <= bound,
            bound <= 0xFFFF,
        decreases s@.len() - i,
    {
        let b = s[i];
        if b < 48 || b > 57 {
            proof {
                assert(t[i - i0] == s@[i0 + (i - i0)]);
                assert(!is_digit(t[i - i0]));
            }
            return None;
        }
        proof {
            assert(s@.subrange(i0, i + 1).drop_last() =~= s@.subrange(i0, i as int));
            assert(s@.subrange(i0, i + 1).last() == s@[i as int]);
        }
        let next = val * 10 + ((b - 48) as u32);
        if next > bound {
            proof {
                if all_digits(t) {
                    assert(t.take(i + 1 - i0) =~= s@.subrange(i0, i + 1));
                    lemma_dec_val_extends(t, i + 1 - i0);
                }
            }
            return None;
        }
        val = next;
        i = i + 1;
    }
    proof {
        assert(s@.subrange(i0, s@.len() as int) =~= t);
    }
    Some(val)
}

/// Parses a prefix-length field: a number with value at most 32.
pub(crate) fn parse_prefix_field(s: &[u8]) -> (res: Option<u8>)
    ensures
        res is Some <==> is_prefix_str(s@),
        res is Some ==> res->0 == dec_val(num_digits(s@)),
{
    match parse_bounded_dec(s, 32) {
        Some(val) => Some(val as u8),
        None => None,
    }
}

/// Parses a dotted-decimal IPv4 address from raw bytes.
pub(crate) fn parse_ipv4_bytes(s: &[u8]) -> (res: Option<u32>)
    ensures
        res is Some <==> is_ipv4_str(s@),
        res is Some ==> res->0 == ipv4_val(s@),
{
    let parts = split_bytes(s, 46);
    if parts.len() != 4 {
        return None;
    }
    let o0 = match parse_octet(parts[0].as_slice()) {
        Some(v) => v,
        None => {
            return None;
        },
    };
    let o1 = match parse_octet(parts[1].as_slice()) {
        Some(v) => v,
        None => {
            return None;
        },
    };
    let o2 = match parse_octet(parts[2].as_slice()) {
        Some(v) => v,
        None => {
            return None;
        },
    };
    let o3 = match parse_octet(parts[3].as_slice()) {
        Some(v) => v,
        None => {
            return None;
        },
    };
    Some(
        (o0 as u32) * 0x100_0000 + (o1 as u32) * 0x1_0000 + (o2 as u32) * 0x100 + (o3 as u32),
    )
}

/// Parses a dotted-decimal IPv4 address literal into its 32-bit value.
pub fn parse_ipv4(s: &str) -> (res: Option<u32>)
    ensures
        res is Some <==> is_ipv4_str(s.spec_bytes()),
        res is Some ==> res->0 == ipv4_val(s.spec_bytes()),
{
    parse_ipv4_bytes(s.as_bytes())
}

/// Parses a bare prefix length: a decimal number at most 32.
pub fn parse_prefix(s: &str) -> (res: Option<u8>)
    ensures
        res is Some <==> is_prefix_str(s.spec_bytes()),
        res is Some ==> res->0 == dec_val(num_digits(s.spec_bytes())),
{
    parse_prefix_field(s.as_bytes())
}

/// Validates an IPv4 address literal; invalid text is an error, never a
/// `false` result.
pub fn check_ip(ip: &str) -> (res: Result<bool, IpCalculatorError>)
    ensures
        is_ipv4_str(ip.spec_bytes()) ==> res == Ok::<bool, IpCalculatorError>(true),
        !is_ipv4_str(ip.spec_bytes()) ==> res == Err::<bool, IpCalculatorError>(
            IpCalculatorError::IpError,
        ),
{
    match parse_ipv4_bytes(ip.as_bytes()) {
        Some(_) => Ok(true),
        None => Err(IpCalculatorError::IpError),
    }
}

/// Validates mask text: a bare number is accepted when it is at most 32, a
/// dotted-decimal value when its bits form a contiguous mask; text that is
/// neither a number nor an address literal is an error.
pub fn check_mask(mask: &str) -> (res: Result<bool, IpCalculatorError>)
    ensures
        is_u8_str(mask.spec_bytes()) ==> res == Ok::<bool, IpCalculatorError>(
            dec_val(num_digits(mask.spec_bytes())) <= 32,
        ),
        !is_u8_str(mask.spec_bytes()) && is_ipv4_str(mask.spec_bytes()) ==> res == Ok::<
            bool,
            IpCalculatorError,
        >(is_netmask((ipv4_val(mask.spec_bytes())) as u32)),
        !is_u8_str(mask.spec_bytes()) && !is_ipv4_str(mask.spec_bytes()) ==> res == Err::<
            bool,
            IpCalculatorError,
        >(IpCalculatorError::InvalidMask),
{
    let bytes = mask.as_bytes();
    match parse_bounded_dec(bytes, 255) {
        Some(v) => Ok(v <= 32),
        None => {
            match parse_ipv4_bytes(bytes) {
                Some(m) => Ok(netmask_check(m)),
                None => Err(IpCalculatorError::InvalidMask),
            }
        },
    }
}

/// Whether a 32-bit value is a contiguous netmask.
pub(crate) fn netmask_check(m: u32) -> (res: bool)
    ensures
        res == is_netmask(m),
{
    match crate::mask::mask_to_cidr(m) {
        Ok(_) => true,
        Err(_) => false,
    }
}

} // verus!
