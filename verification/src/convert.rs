//! Classification of user input that may be either a bare CIDR prefix or a
//! dotted-decimal netmask, and conversion between the two notations.

use vstd::prelude::*;
use vstd::string::StringSliceAdditionalSpecFns;
use crate::errors::IpCalculatorError;
use crate::mask::{is_netmask, mask_spec, mask_to_cidr, mask_of_prefix, lemma_mask_bounds};
use crate::parse::{
    dec_val, is_ipv4_str, is_u8_str, ipv4_val, lemma_dec_val_bounds, netmask_check, num_digits,
    parse_bounded_dec, parse_ipv4_bytes,
};

verus! {

/// A classified mask-or-prefix input: either a 32-bit mask value or a CIDR
/// prefix length.
#[derive(Clone, Copy, Debug, PartialEq, Eq, Structural)]
pub enum MaskOrCidr {
    Mask(u32),
    Cidr(u8),
}

/// How mask-or-prefix text is classified: a bare number up to 32 is a CIDR
/// prefix; an address literal whose bits form a contiguous mask is a mask;
/// everything else — a number above 32, a non-mask address, or text that is
/// neither — is convertible to neither notation.
pub open spec fn classify_spec(b: Seq<u8>) -> Result<MaskOrCidr, IpCalculatorError> {
    if is_u8_str(b) {
        if dec_val(num_digits(b)) <= 32 {
            Ok(MaskOrCidr::Cidr(dec_val(num_digits(b)) as u8))
        } else {
            Err(IpCalculatorError::ConversionError)
        }
    } else if is_ipv4_str(b) {
        if is_netmask((ipv4_val(b)) as u32) {
            Ok(MaskOrCidr::Mask((ipv4_val(b)) as u32))
        } else {
            Err(IpCalculatorError::ConversionError)
        }
    } else {
        Err(IpCalculatorError::ConversionError)
    }
}

/// Classifies mask-or-prefix text into a mask value or a prefix length.
pub(crate) fn classify(input: &str) -> (res: Result<MaskOrCidr, IpCalculatorError>)
    ensures
        res == classify_spec(input.spec_bytes()),
{
    let bytes = input.as_bytes();
    match parse_bounded_dec(bytes, 255) {
        Some(v) => {
            if v <= 32 {
                Ok(MaskOrCidr::Cidr(v as u8))
            } else {
                Err(IpCalculatorError::ConversionError)
            }
        },
        None => {
            match parse_ipv4_bytes(bytes) {
                Some(m) => {
                    if netmask_check(m) {
                        Ok(MaskOrCidr::Mask(m))
                    } else {
                        Err(IpCalculatorError::ConversionError)
                    }
                },
                None => Err(IpCalculatorError::ConversionError),
            }
        },
    }
}

/// Tells CIDR-prefix text from mask text. The result names the
/// classification; input that is neither notation is a conversion error.
pub fn is_cidr_or_mask(input: &str) -> (res: Result<&'static str, IpCalculatorError>)
    ensures
        (classify_spec(input.spec_bytes()) matches Ok(MaskOrCidr::Cidr(_))) ==> res is Ok && (
        res->Ok_0)@ == "CIDR"@,
        (classify_spec(input.spec_bytes()) matches Ok(MaskOrCidr::Mask(_))) ==> res is Ok && (
        res->Ok_0)@ == "Mask"@,
        classify_spec(input.spec_bytes()) is Err ==> res is Err && res->Err_0 == classify_spec(
            input.spec_bytes(),
        )->Err_0,
{
    match classify(input)? {
        MaskOrCidr::Cidr(_) => Ok("CIDR"),
        MaskOrCidr::Mask(_) => Ok("Mask"),
    }
}

/// The bytes of the conversion target name `cidr`.
pub open spec fn target_cidr_bytes() -> Seq<u8> {
    seq![99u8, 105u8, 100u8, 114u8]
}

/// The bytes of the conversion target name `mask`.
pub open spec fn target_mask_bytes() -> Seq<u8> {
    seq![109u8, 97u8, 115u8, 107u8]
}

/// Whether `s` is exactly the four given bytes.
fn is_target(s: &str, a: u8, b: u8, c: u8, d: u8) -> (res: bool)
    ensures
        res == (s.spec_bytes() =~= seq![a, b, c, d]),
{
    let bytes = s.as_bytes();
    if bytes.len() != 4 {
        return false;
    }
    let r = bytes[0] == a && bytes[1] == b && bytes[2] == c && bytes[3] == d;
    proof {
        if r {
            assert(s.spec_bytes() =~= seq![a, b, c, d]);
        }
    }
    r
}

/// Converts classified mask-or-prefix text into the requested notation:
/// `"cidr"` for a prefix length, `"mask"` for a mask value. Classification
/// errors pass through; any other target name is an unsupported conversion.
pub fn parse_mask_or_cidr(input: &str, return_type: &str) -> (res: Result<
    MaskOrCidr,
    IpCalculatorError,
>)
    ensures
        classify_spec(input.spec_bytes()) is Err ==> res is Err && res->Err_0 == classify_spec(
            input.spec_bytes(),
        )->Err_0,
        classify_spec(input.spec_bytes()) is Ok && return_type.spec_bytes()
            != target_cidr_bytes() && return_type.spec_bytes() != target_mask_bytes() ==> res
            == Err::<MaskOrCidr, IpCalculatorError>(IpCalculatorError::ConversionError),
        classify_spec(input.spec_bytes()) is Ok && classify_spec(input.spec_bytes())->Ok_0 is Cidr
            && return_type.spec_bytes() == target_cidr_bytes() ==> res == Ok::<
            MaskOrCidr,
            IpCalculatorError,
        >(classify_spec(input.spec_bytes())->Ok_0),
        classify_spec(input.spec_bytes()) is Ok && classify_spec(input.spec_bytes())->Ok_0 is Cidr
            && return_type.spec_bytes() == target_mask_bytes() ==> res == Ok::<
            MaskOrCidr,
            IpCalculatorError,
        >(
            MaskOrCidr::Mask(
                (mask_spec(classify_spec(input.spec_bytes())->Ok_0->Cidr_0 as int)) as u32,
            ),
        ),
        classify_spec(input.spec_bytes()) is Ok && classify_spec(input.spec_bytes())->Ok_0 is Mask
            && return_type.spec_bytes() == target_mask_bytes() ==> res == Ok::<
            MaskOrCidr,
            IpCalculatorError,
        >(classify_spec(input.spec_bytes())->Ok_0),
        classify_spec(input.spec_bytes()) is Ok && classify_spec(input.spec_bytes())->Ok_0 is Mask
            && return_type.spec_bytes() == target_cidr_bytes() ==> res is Ok
            && res->Ok_0 is Cidr && res->Ok_0->Cidr_0 <= 32 && mask_spec(
            res->Ok_0->Cidr_0 as int,
        ) == classify_spec(input.spec_bytes())->Ok_0->Mask_0,
{
    let v = match classify(input) {
        Ok(v) => v,
        Err(e) => {
            return Err(e);
        },
    };
    let want_cidr = is_target(return_type, 99, 105, 100, 114);
    let want_mask = is_target(return_type, 109, 97, 115, 107);
    match v {
        MaskOrCidr::Cidr(p) => {
            proof {
                lemma_dec_val_bounds(num_digits(input.spec_bytes()));
            }
            if want_cidr {
                Ok(MaskOrCidr::Cidr(p))
            } else if want_mask {
                proof {
                    lemma_mask_bounds(p as int);
                }
                Ok(MaskOrCidr::Mask(mask_of_prefix(p)))
            } else {
                Err(IpCalculatorError::ConversionError)
            }
        },
        MaskOrCidr::Mask(m) => {
            if want_cidr {
                match mask_to_cidr(m) {
                    Ok(q) => Ok(MaskOrCidr::Cidr(q)),
                    Err(_) => {
                        proof {
                            assert(false);
                        }
                        Err(IpCalculatorError::ConversionError)
                    },
                }
            } else if want_mask {
                Ok(MaskOrCidr::Mask(m))
            } else {
                Err(IpCalculatorError::ConversionError)
            }
        },
    }
}

} // verus!
