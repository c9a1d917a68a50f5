use vstd::prelude::*;

verus! {

/// Whether the IEEE-754 double with bit pattern `bits` is a NaN: all exponent
/// bits set and a nonzero fraction.
pub open spec fn is_nan_bits(bits: u64) -> bool {
    (bits >> 52u64) & 0x7ffu64 == 0x7ffu64 && bits & 0xf_ffff_ffff_ffffu64 != 0
}

/// A double-precision real that is never NaN, held as its IEEE-754 bit pattern.
#[derive(Clone, Copy, Debug, PartialEq, Eq, Hash)]
pub struct F64 {
    bits: u64,
}

impl View for F64 {
    type V = u64;

    closed spec fn view(&self) -> u64 {
        self.bits
    }
}

impl F64 {
    /// Every value of this type stands for a real that is not NaN.
    pub closed spec fn wf(&self) -> bool {
        !is_nan_bits(self.bits)
    }

    /// The real with bit pattern `bits`, or `None` where `bits` is a NaN.
    pub fn from_bits(bits: u64) -> (r: Option<F64>)
        ensures
            r is Some <==> !is_nan_bits(bits),
            r matches Some(x) ==> x@ == bits && x.wf(),
    {
        let exponent: u64 = (bits >> 52u64) & 0x7ffu64;
        let fraction: u64 = bits & 0xf_ffff_ffff_ffffu64;
        if exponent == 0x7ffu64 && fraction != 0 {
            None
        } else {
            Some(F64 { bits })
        }
    }

    /// The IEEE-754 bit pattern of this real.
    pub fn to_bits(&self) -> (r: u64)
        ensures
            r == self@,
    {
        self.bits
    }
}

/// A machine number: a 64-bit integer or a double that is not NaN.
#[derive(Clone, Copy, Debug, PartialEq, Eq, Hash)]
pub enum Number {
    Integer(i64),
    Real(F64),
}

} // verus!
