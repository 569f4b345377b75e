//! How a texture is sampled.
use vstd::prelude::*;

verus! {

/// Nearest-texel or bilinear sampling.
#[allow(non_camel_case_types)]
#[derive(Clone, Copy, PartialEq, Eq, Structural, Debug)]
pub enum SampleType {
    POINT,
    LINEAR,
}

/// The byte that stands for a sample type in files: point 0, linear 1.
pub open spec fn sample_type_byte(t: SampleType) -> u8 {
    match t {
        SampleType::POINT => 0,
        SampleType::LINEAR => 1,
    }
}

/// The sample type that a stored byte names: 0 is point, anything else
/// linear.
pub open spec fn sample_type_of_byte(b: u8) -> SampleType {
    if b == 0 { SampleType::POINT } else { SampleType::LINEAR }
}

impl SampleType {
    /// The byte that stands for this sample type in files.
    pub fn to_byte(&self) -> (b: u8)
        ensures
            b == sample_type_byte(*self),
    {
        match self {
            SampleType::POINT => 0,
            SampleType::LINEAR => 1,
        }
    }

    /// The sample type that a stored byte names.
    pub fn from_byte(b: u8) -> (t: SampleType)
        ensures
            t == sample_type_of_byte(b),
    {
        if b == 0 { SampleType::POINT } else { SampleType::LINEAR }
    }
}

} // verus!
