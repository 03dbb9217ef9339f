//! The conversion pipeline: decode under one base, encode under another.
use vstd::prelude::*;
use crate::decode::{decode, decode_spec, DecodeError};
use crate::encode::{encode, encode_spec, EncodeError};
use crate::value::CanonicalValue;

verus! {

/// Why a conversion failed.
#[derive(Debug, Clone, Copy, PartialEq, Eq, Structural)]
pub enum ConvertError {
    Decode(DecodeError),
    Encode(EncodeError),
}

/// The outcome of converting `s` from base `from` to base `to`: a source base
/// below two or a target base of zero is refused at once; otherwise `s` is
/// decoded and the value encoded, each error passed on as it came.
pub open spec fn radixshift_spec(s: Seq<char>, from: nat, to: nat) -> Result<Seq<char>, ConvertError> {
    if from < 2 {
        Err(ConvertError::Decode(DecodeError::InvalidBase))
    } else if to == 0 {
        Err(ConvertError::Encode(EncodeError::InvalidBase))
    } else {
        match decode_spec(s, from) {
            Err(e) => Err(ConvertError::Decode(e)),
            Ok(v) => match encode_spec(v, to) {
                Ok(out) => Ok(out),
                Err(e) => Err(ConvertError::Encode(e)),
            },
        }
    }
}

/// Converts the digit string `number` from base `base_from` to base `base_to`.
pub fn radixshift(number: &str, base_from: u32, base_to: u32) -> (r: Result<String, ConvertError>)
    ensures
        r matches Ok(s) ==> radixshift_spec(number@, base_from as nat, base_to as nat) == Ok::<
            Seq<char>,
            ConvertError,
        >(s@),
        r matches Err(e) ==> radixshift_spec(number@, base_from as nat, base_to as nat) == Err::<
            Seq<char>,
            ConvertError,
        >(e),
{
    if base_from < 2 {
        return Err(ConvertError::Decode(DecodeError::InvalidBase));
    }
    if base_to == 0 {
        return Err(ConvertError::Encode(EncodeError::InvalidBase));
    }
    let value: CanonicalValue = match decode(number, base_from) {
        Ok(v) => v,
        Err(e) => return Err(ConvertError::Decode(e)),
    };
    match encode(&value, base_to) {
        Ok(s) => Ok(s),
        Err(e) => Err(ConvertError::Encode(e)),
    }
}

} // verus!
