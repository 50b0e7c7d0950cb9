use vstd::prelude::*;

verus! {

/// The failure kinds of the calculator. Every fallible operation reports one
/// of these; rendering a kind as a message is left to the caller.
#[derive(Clone, Copy, Debug, PartialEq, Eq, Structural)]
pub enum IpCalculatorError {
    /// A prefix length outside `[0, 32]`, a prefix that does not parse, or a
    /// requested child prefix not larger than the base prefix.
    InvalidPrefix,
    /// A mask whose bits are not a run of ones followed by zeros, or mask
    /// text that does not parse.
    InvalidMask,
    /// Address text that is not a dotted-decimal IPv4 literal.
    InvalidIP,
    /// CIDR text that is not of the form `address/prefix`.
    InvalidCIDR,
    /// A zero range request, or no contiguous run of the requested length.
    InvalidRange,
    /// A subnet-level failure: no usable hosts in a `/31` or `/32`, or a
    /// child count that does not fit in 32 bits.
    SubnetError,
    /// Address validation failure reported by `check_ip`.
    IpError,
    /// Mask text handed where a mask value was required.
    MaskError,
    /// No usable address is left after exclusions.
    RangeError,
    /// Input that is neither a CIDR prefix nor a mask, or an unsupported
    /// conversion target.
    ConversionError,
    /// Malformed command-line arguments; reported by callers, never by the
    /// computations in this crate.
    ArgumentsError,
}

} // verus!
