//! Channel data types of MDF 4.

use vstd::prelude::*;

verus! {

/// Data type of a channel's values.
#[derive(Debug, Clone, Copy, PartialEq, Eq)]
pub enum DataType {
    UnsignedIntegerLE,
    UnsignedIntegerBE,
    SignedIntegerLE,
    SignedIntegerBE,
    FloatLE,
    FloatBE,
    StringLatin1,
    StringUtf8,
    StringUtf16LE,
    StringUtf16BE,
    ByteArray,
    MimeSample,
    MimeStream,
    CanOpenDate,
    CanOpenTime,
    ComplexLE,
    ComplexBE,
    Unknown(()),
}

/// The text data types.
pub open spec fn spec_is_string_type(dt: DataType) -> bool {
    dt is StringLatin1 || dt is StringUtf8 || dt is StringUtf16LE || dt is StringUtf16BE
}

/// `true` for the text data types, which the writer stores as
/// variable-length (VLSD) channels rather than fixed-length record fields.
pub fn is_string_type(dt: &DataType) -> (r: bool)
    ensures
        r == spec_is_string_type(*dt),
{
    match dt {
        DataType::StringLatin1 | DataType::StringUtf8 | DataType::StringUtf16LE | DataType::StringUtf16BE => true,
        _ => false,
    }
}

/// Position of the data type in the list of variants.
pub open spec fn spec_type_code(dt: DataType) -> u8 {
    match dt {
        DataType::UnsignedIntegerLE => 0,
        DataType::UnsignedIntegerBE => 1,
        DataType::SignedIntegerLE => 2,
        DataType::SignedIntegerBE => 3,
        DataType::FloatLE => 4,
        DataType::FloatBE => 5,
        DataType::StringLatin1 => 6,
        DataType::StringUtf8 => 7,
        DataType::StringUtf16LE => 8,
        DataType::StringUtf16BE => 9,
        DataType::ByteArray => 10,
        DataType::MimeSample => 11,
        DataType::MimeStream => 12,
        DataType::CanOpenDate => 13,
        DataType::CanOpenTime => 14,
        DataType::ComplexLE => 15,
        DataType::ComplexBE => 16,
        DataType::Unknown(_) => 17,
    }
}

fn type_code(dt: &DataType) -> (r: u8)
    ensures
        r == spec_type_code(*dt),
{
    match dt {
        DataType::UnsignedIntegerLE => 0,
        DataType::UnsignedIntegerBE => 1,
        DataType::SignedIntegerLE => 2,
        DataType::SignedIntegerBE => 3,
        DataType::FloatLE => 4,
        DataType::FloatBE => 5,
        DataType::StringLatin1 => 6,
        DataType::StringUtf8 => 7,
        DataType::StringUtf16LE => 8,
        DataType::StringUtf16BE => 9,
        DataType::ByteArray => 10,
        DataType::MimeSample => 11,
        DataType::MimeStream => 12,
        DataType::CanOpenDate => 13,
        DataType::CanOpenTime => 14,
        DataType::ComplexLE => 15,
        DataType::ComplexBE => 16,
        DataType::Unknown(_) => 17,
    }
}

proof fn lemma_type_code_injective(a: DataType, b: DataType)
    ensures
        spec_type_code(a) == spec_type_code(b) <==> a == b,
{
    if let DataType::Unknown(x) = a {
        if let DataType::Unknown(y) = b {
            assert(x == y);
        }
    }
}

/// Whether two data types are the same.
pub fn same_data_type(a: &DataType, b: &DataType) -> (r: bool)
    ensures
        r == (*a == *b),
{
    proof {
        lemma_type_code_injective(*a, *b);
    }
    type_code(a) == type_code(b)
}

} // verus!
