//! Integers below 2^62, the range of a QUIC variable-length integer.

use vstd::prelude::*;

verus! {

/// The first value that is too large for a `VarInt`: 2^62.
pub const VARINT_BOUND: u64 = 0x4000_0000_0000_0000;

/// An integer less than 2^62.
#[derive(Clone, Copy, Debug, PartialEq, Eq, Structural)]
pub struct VarInt {
    value: u64,
}

/// Error returned when constructing a `VarInt` from a value >= 2^62.
#[derive(Clone, Copy, Debug, PartialEq, Eq)]
pub struct VarIntBoundsExceeded;

impl View for VarInt {
    type V = nat;

    closed spec fn view(&self) -> nat {
        self.value as nat
    }
}

impl VarInt {
    #[verifier::type_invariant]
    spec fn in_range(self) -> bool {
        self.value < VARINT_BOUND
    }

    /// The `VarInt` of a 32-bit value.
    pub closed spec fn spec_from_u32(x: u32) -> VarInt {
        VarInt { value: x as u64 }
    }

    /// Construct a `VarInt` infallibly.
    pub fn from_u32(x: u32) -> (v: VarInt)
        ensures
            v == Self::spec_from_u32(x),
            v@ == x,
    {
        VarInt { value: x as u64 }
    }

    /// Succeeds iff `x` < 2^62.
    pub fn from_u64(x: u64) -> (r: Result<VarInt, VarIntBoundsExceeded>)
        ensures
            x < VARINT_BOUND ==> r is Ok && r->Ok_0@ == x,
            x >= VARINT_BOUND ==> r is Err,
    {
        if x < VARINT_BOUND {
            Ok(VarInt { value: x })
        } else {
            Err(VarIntBoundsExceeded)
        }
    }

    /// Extract the integer value.
    pub fn into_inner(self) -> (x: u64)
        ensures
            x == self@,
            x < VARINT_BOUND,
    {
        proof {
            use_type_invariant(&self);
        }
        self.value
    }
}

} // verus!
