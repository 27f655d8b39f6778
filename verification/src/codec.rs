//! The typed value codec: the interpretations a pattern can have, their
//! fixed byte widths, encoding a value string to little-endian bytes, and
//! rendering captured bytes back for display.

use vstd::bytes::{
    lemma_auto_spec_u32_to_from_le_bytes, lemma_auto_spec_u64_to_from_le_bytes,
    spec_u32_from_le_bytes, spec_u32_to_le_bytes, spec_u64_from_le_bytes, spec_u64_to_le_bytes,
    u32_from_le_bytes, u32_to_le_bytes, u64_from_le_bytes, u64_to_le_bytes,
};
use vstd::prelude::*;
use vstd::string::StrSliceExecFns;
use vstd::string::StringExecFns;
use vstd::utf8::encode_utf8;

use crate::dec::{
    all_dec_digits, dec_str, dec_str_signed, dec_val, i64_to_dec_string, is_canonical_dec,
    lemma_dec_str_of_dec_val, lemma_dec_str_wf, lemma_dec_val_of_dec_str, parse_i64_str,
    parse_u64_str, spec_parse_i64, spec_parse_u64, u64_to_dec_string,
};
use crate::hexfmt::{
    all_hex_digits, bytes_of_hex, hex_decode_str, hex_encode_bytes, hex_of_bytes,
    strip_hex_prefix, strip_hex_prefix_index,
};
use crate::render::{render_string_value, string_value_chars};
use crate::scan::ScanError;

verus! {

/// The interpretation given to the pattern and to captured bytes.
#[derive(Debug, Clone, Copy, PartialEq, Eq, Structural)]
pub enum ValueType {
    U64,
    I64,
    U32,
    I32,
    String,
    Hex,
}

/// The fixed byte width of a type; `0` stands for variable width.
pub open spec fn type_size(t: ValueType) -> u64 {
    match t {
        ValueType::U64 | ValueType::I64 => 8,
        ValueType::U32 | ValueType::I32 => 4,
        ValueType::String | ValueType::Hex => 0,
    }
}

/// The display label of a type.
pub open spec fn type_label(t: ValueType) -> Seq<char> {
    match t {
        ValueType::U64 => "u64 (8B)"@,
        ValueType::I64 => "i64 (8B)"@,
        ValueType::U32 => "u32 (4B)"@,
        ValueType::I32 => "i32 (4B)"@,
        ValueType::String => "string"@,
        ValueType::Hex => "hex"@,
    }
}

/// Read a decimal string as `u32`, the way `str::parse::<u32>` does.
pub open spec fn spec_parse_u32(s: Seq<char>) -> Option<u32> {
    let d = if s.len() >= 1 && s[0] == '+' {
        s.drop_first()
    } else {
        s
    };
    if d.len() >= 1 && all_dec_digits(d) && dec_val(d) <= u32::MAX {
        Some(dec_val(d) as u32)
    } else {
        None
    }
}

/// Read a decimal string as `i32`, the way `str::parse::<i32>` does.
pub open spec fn spec_parse_i32(s: Seq<char>) -> Option<i32> {
    let neg = s.len() >= 1 && s[0] == '-';
    let d = if s.len() >= 1 && (s[0] == '-' || s[0] == '+') {
        s.drop_first()
    } else {
        s
    };
    if d.len() >= 1 && all_dec_digits(d) {
        if neg && dec_val(d) <= 0x8000_0000 {
            Some((-(dec_val(d) as int)) as i32)
        } else if !neg && dec_val(d) <= i32::MAX {
            Some(dec_val(d) as i32)
        } else {
            None
        }
    } else {
        None
    }
}

/// The little-endian byte pattern that a value string encodes to under a
/// type, or `None` when the string does not parse under that type.
pub open spec fn spec_encode_value(t: ValueType, s: Seq<char>) -> Option<Seq<u8>> {
    match t {
        ValueType::U64 => match spec_parse_u64(s) {
            Some(v) => Some(spec_u64_to_le_bytes(v)),
            None => None,
        },
        ValueType::I64 => match spec_parse_i64(s) {
            Some(v) => Some(spec_u64_to_le_bytes(v as u64)),
            None => None,
        },
        ValueType::U32 => match spec_parse_u32(s) {
            Some(v) => Some(spec_u32_to_le_bytes(v)),
            None => None,
        },
        ValueType::I32 => match spec_parse_i32(s) {
            Some(v) => Some(spec_u32_to_le_bytes(v as u32)),
            None => None,
        },
        ValueType::String => Some(encode_utf8(s)),
        ValueType::Hex => {
            let d = strip_hex_prefix(s);
            if d.len() % 2 == 0 && all_hex_digits(d) {
                Some(bytes_of_hex(d))
            } else {
                None
            }
        },
    }
}

/// The display text of a byte buffer under a type, or `None` when an
/// integer type meets a buffer of the wrong width — the empty buffer
/// included. The variable-width types render any buffer; an empty one
/// displays as the empty string.
pub open spec fn spec_value_string(t: ValueType, b: Seq<u8>) -> Option<Seq<char>> {
    match t {
        ValueType::U64 => if b.len() == 8 {
            Some(dec_str(spec_u64_from_le_bytes(b) as nat))
        } else {
            None
        },
        ValueType::I64 => if b.len() == 8 {
            Some(dec_str_signed((spec_u64_from_le_bytes(b) as i64) as int))
        } else {
            None
        },
        ValueType::U32 => if b.len() == 4 {
            Some(dec_str(spec_u32_from_le_bytes(b) as nat))
        } else {
            None
        },
        ValueType::I32 => if b.len() == 4 {
            Some(dec_str_signed((spec_u32_from_le_bytes(b) as i32) as int))
        } else {
            None
        },
        ValueType::String => Some(string_value_chars(b)),
        ValueType::Hex => Some(hex_of_bytes(b)),
    }
}

impl ValueType {
    /// The fixed byte width of the four integer types; `0` for the
    /// variable-width types, whose width comes from the pattern buffer.
    pub fn get_size(&self) -> (r: u64)
        ensures
            r == type_size(*self),
    {
        match self {
            ValueType::U64 | ValueType::I64 => 8,
            ValueType::U32 | ValueType::I32 => 4,
            ValueType::String | ValueType::Hex => 0,
        }
    }

    /// The display label of the type.
    pub fn get_string(&self) -> (r: String)
        ensures
            r@ == type_label(*self),
    {
        match self {
            ValueType::U64 => "u64 (8B)".to_owned(),
            ValueType::I64 => "i64 (8B)".to_owned(),
            ValueType::U32 => "u32 (4B)".to_owned(),
            ValueType::I32 => "i32 (4B)".to_owned(),
            ValueType::String => "string".to_owned(),
            ValueType::Hex => "hex".to_owned(),
        }
    }

    /// Render a byte buffer for display under this type. An integer type
    /// rejects a buffer of the wrong width with `TypeMismatch`.
    pub fn get_value_string(&self, value: &[u8]) -> (r: Result<String, ScanError>)
        ensures
            r matches Ok(out) ==> spec_value_string(*self, value@) == Some(out@),
            r matches Err(e) ==> e == ScanError::TypeMismatch && spec_value_string(*self, value@)
                is None,
    {
        match self {
            ValueType::U64 => {
                if value.len() == 8 {
                    Ok(u64_to_dec_string(u64_from_le_bytes(value)))
                } else {
                    Err(ScanError::TypeMismatch)
                }
            },
            ValueType::I64 => {
                if value.len() == 8 {
                    let v = u64_from_le_bytes(value) as i64;
                    Ok(i64_to_dec_string(v))
                } else {
                    Err(ScanError::TypeMismatch)
                }
            },
            ValueType::U32 => {
                if value.len() == 4 {
                    Ok(u64_to_dec_string(u32_from_le_bytes(value) as u64))
                } else {
                    Err(ScanError::TypeMismatch)
                }
            },
            ValueType::I32 => {
                if value.len() == 4 {
                    let v = u32_from_le_bytes(value) as i32;
                    Ok(i64_to_dec_string(v as i64))
                } else {
                    Err(ScanError::TypeMismatch)
                }
            },
            ValueType::String => Ok(render_string_value(value)),
            ValueType::Hex => Ok(hex_encode_bytes(value)),
        }
    }

    /// Encode a value string to its little-endian byte pattern under this
    /// type; `InvalidValue` exactly when the string does not parse.
    pub fn parse_value(&self, value_str: &str) -> (r: Result<Vec<u8>, ScanError>)
        ensures
            r matches Ok(v) ==> spec_encode_value(*self, value_str@) == Some(v@),
            r matches Err(e) ==> e == ScanError::InvalidValue && spec_encode_value(
                *self,
                value_str@,
            ) is None,
    {
        match self {
            ValueType::U64 => match parse_u64_str(value_str) {
                Some(v) => Ok(u64_to_le_bytes(v)),
                None => Err(ScanError::InvalidValue),
            },
            ValueType::I64 => match parse_i64_str(value_str) {
                Some(v) => Ok(u64_to_le_bytes(v as u64)),
                None => Err(ScanError::InvalidValue),
            },
            ValueType::U32 => match parse_u64_str(value_str) {
                Some(v) => {
                    if v <= u32::MAX as u64 {
                        Ok(u32_to_le_bytes(v as u32))
                    } else {
                        proof {
                            lemma_parse_u32_of_u64(value_str@);
                        }
                        Err(ScanError::InvalidValue)
                    }
                },
                None => {
                    proof {
                        lemma_parse_u32_of_u64(value_str@);
                    }
                    Err(ScanError::InvalidValue)
                },
            },
            ValueType::I32 => match parse_i64_str(value_str) {
                Some(v) => {
                    if i32::MIN as i64 <= v && v <= i32::MAX as i64 {
                        proof {
                            lemma_parse_i32_of_i64(value_str@);
                        }
                        Ok(u32_to_le_bytes(v as u32))
                    } else {
                        proof {
                            lemma_parse_i32_of_i64(value_str@);
                        }
                        Err(ScanError::InvalidValue)
                    }
                },
                None => {
                    proof {
                        lemma_parse_i32_of_i64(value_str@);
                    }
                    Err(ScanError::InvalidValue)
                },
            },
            ValueType::String => Ok(value_str.as_bytes_vec()),
            ValueType::Hex => {
                let from = strip_hex_prefix_index(value_str);
                match hex_decode_str(value_str, from) {
                    Some(v) => Ok(v),
                    None => Err(ScanError::InvalidValue),
                }
            },
        }
    }
}

/// `u32` parsing agrees with `u64` parsing restricted to the `u32` range.
proof fn lemma_parse_u32_of_u64(s: Seq<char>)
    ensures
        spec_parse_u32(s) == match spec_parse_u64(s) {
            Some(v) => if v <= u32::MAX as u64 {
                Some(v as u32)
            } else {
                None::<u32>
            },
            None => None::<u32>,
        },
{
    let d = if s.len() >= 1 && s[0] == '+' {
        s.drop_first()
    } else {
        s
    };
    if d.len() >= 1 && all_dec_digits(d) {
        if dec_val(d) > u64::MAX {
            assert(dec_val(d) > u32::MAX);
        }
    }
}

/// `i32` parsing agrees with `i64` parsing restricted to the `i32` range.
proof fn lemma_parse_i32_of_i64(s: Seq<char>)
    ensures
        spec_parse_i32(s) == match spec_parse_i64(s) {
            Some(v) => if i32::MIN as i64 <= v <= i32::MAX as i64 {
                Some(v as i32)
            } else {
                None::<i32>
            },
            None => None::<i32>,
        },
{
    let neg = s.len() >= 1 && s[0] == '-';
    let d = if s.len() >= 1 && (s[0] == '-' || s[0] == '+') {
        s.drop_first()
    } else {
        s
    };
    if d.len() >= 1 && all_dec_digits(d) {
        let m = dec_val(d);
        if neg {
            if m <= 0x8000_0000 {
                assert(m <= 0x8000_0000_0000_0000);
                let v64 = (-(m as int)) as i64;
                assert(v64 == -(m as int));
                assert(i32::MIN as i64 <= v64 <= i32::MAX as i64);
                assert((v64 as i32) as int == -(m as int));
                assert(spec_parse_i32(s) == Some((-(m as int)) as i32));
            } else if m <= 0x8000_0000_0000_0000 {
                let v64 = (-(m as int)) as i64;
                assert(v64 == -(m as int));
                assert(v64 < i32::MIN as i64);
            }
        } else {
            if m <= i32::MAX as nat {
                assert(m <= i64::MAX as nat);
            } else if m <= i64::MAX as nat {
                assert((m as i64) > i32::MAX as i64);
            }
        }
    }
}

/// Whatever an integer type displays, it reads back to the same bytes:
/// `parse(render(bytes)) == bytes` for buffers of the type's width.
pub proof fn lemma_value_round_trip_bytes(t: ValueType, b: Seq<u8>)
    requires
        type_size(t) != 0,
        b.len() == type_size(t),
    ensures
        spec_value_string(t, b) matches Some(s) && spec_encode_value(t, s) == Some(b),
{
    lemma_auto_spec_u64_to_from_le_bytes();
    lemma_auto_spec_u32_to_from_le_bytes();
    match t {
        ValueType::U64 => {
            let v = spec_u64_from_le_bytes(b);
            let s = dec_str(v as nat);
            lemma_dec_str_wf(v as nat);
            lemma_dec_val_of_dec_str(v as nat);
            assert(s[0] != '+');
            assert(spec_parse_u64(s) == Some(v));
        },
        ValueType::I64 => {
            let u = spec_u64_from_le_bytes(b);
            assert(((u as i64) as u64) == u) by (bit_vector);
            let v = u as i64;
            if v >= 0 {
                let s = dec_str(v as nat);
                lemma_dec_str_wf(v as nat);
                lemma_dec_val_of_dec_str(v as nat);
                assert(s[0] != '+' && s[0] != '-');
                assert(spec_parse_i64(s) == Some(v));
            } else {
                let m = (-(v as int)) as nat;
                assert(m <= 0x8000_0000_0000_0000);
                lemma_dec_str_wf(m);
                lemma_dec_val_of_dec_str(m);
                let s = dec_str_signed(v as int);
                assert(s == seq!['-'] + dec_str(m));
                assert(s[0] == '-');
                assert(s.drop_first() =~= dec_str(m));
                assert((-(m as int)) as i64 == v);
                assert(spec_parse_i64(s) == Some(v));
            }
        },
        ValueType::U32 => {
            let v = spec_u32_from_le_bytes(b);
            let s = dec_str(v as nat);
            lemma_dec_str_wf(v as nat);
            lemma_dec_val_of_dec_str(v as nat);
            assert(s[0] != '+');
            assert(spec_parse_u32(s) == Some(v));
        },
        ValueType::I32 => {
            let u = spec_u32_from_le_bytes(b);
            assert(((u as i32) as u32) == u) by (bit_vector);
            let v = u as i32;
            if v >= 0 {
                let s = dec_str(v as nat);
                lemma_dec_str_wf(v as nat);
                lemma_dec_val_of_dec_str(v as nat);
                assert(s[0] != '+' && s[0] != '-');
                assert(spec_parse_i32(s) == Some(v));
            } else {
                let m = (-(v as int)) as nat;
                assert(m <= 0x8000_0000);
                lemma_dec_str_wf(m);
                lemma_dec_val_of_dec_str(m);
                let s = dec_str_signed(v as int);
                assert(s == seq!['-'] + dec_str(m));
                assert(s[0] == '-');
                assert(s.drop_first() =~= dec_str(m));
                assert((-(m as int)) as i32 == v);
                assert(spec_parse_i32(s) == Some(v));
            }
        },
        ValueType::String | ValueType::Hex => {
            assert(false);
        },
    }
}

/// A value string is canonical for an integer type when it is exactly what
/// the type's renderer produces for some in-range value: canonical digits,
/// an optional leading `-`, and a value within the type's range.
pub open spec fn is_canonical_value_text(t: ValueType, s: Seq<char>) -> bool {
    match t {
        ValueType::U64 => is_canonical_dec(s) && dec_val(s) <= u64::MAX,
        ValueType::U32 => is_canonical_dec(s) && dec_val(s) <= u32::MAX,
        ValueType::I64 => {
            ||| (is_canonical_dec(s) && dec_val(s) <= i64::MAX)
            ||| (s.len() >= 2 && s[0] == '-' && is_canonical_dec(s.drop_first()) && 1 <= dec_val(
                s.drop_first(),
            ) <= 0x8000_0000_0000_0000)
        },
        ValueType::I32 => {
            ||| (is_canonical_dec(s) && dec_val(s) <= i32::MAX)
            ||| (s.len() >= 2 && s[0] == '-' && is_canonical_dec(s.drop_first()) && 1 <= dec_val(
                s.drop_first(),
            ) <= 0x8000_0000)
        },
        ValueType::String | ValueType::Hex => false,
    }
}

/// Whatever canonical integer text is encoded, the encoded bytes display
/// back as the same text: `render(parse(s)) == s`.
pub proof fn lemma_value_round_trip_text(t: ValueType, s: Seq<char>)
    requires
        is_canonical_value_text(t, s),
    ensures
        spec_encode_value(t, s) matches Some(b) && spec_value_string(t, b) == Some(s),
{
    lemma_auto_spec_u64_to_from_le_bytes();
    lemma_auto_spec_u32_to_from_le_bytes();
    match t {
        ValueType::U64 => {
            lemma_is_digit_not_sign(s);
            let v = dec_val(s) as u64;
            lemma_dec_str_of_dec_val(s);
            assert(spec_parse_u64(s) == Some(v));
            let b = spec_u64_to_le_bytes(v);
            assert(b.len() == 8);
            assert(spec_u64_from_le_bytes(b) == v);
        },
        ValueType::U32 => {
            lemma_is_digit_not_sign(s);
            let v = dec_val(s) as u32;
            lemma_dec_str_of_dec_val(s);
            assert(spec_parse_u32(s) == Some(v));
            let b = spec_u32_to_le_bytes(v);
            assert(b.len() == 4);
            assert(spec_u32_from_le_bytes(b) == v);
        },
        ValueType::I64 => {
            if is_canonical_dec(s) && dec_val(s) <= i64::MAX {
                lemma_is_digit_not_sign(s);
                let v = dec_val(s) as i64;
                lemma_dec_str_of_dec_val(s);
                assert(spec_parse_i64(s) == Some(v));
                let b = spec_u64_to_le_bytes(v as u64);
                assert((v as u64) as i64 == v) by (bit_vector)
                    requires
                        v >= 0,
                ;
                assert(spec_value_string(t, b) == Some(dec_str_signed(v as int)));
            } else {
                let d = s.drop_first();
                let m = dec_val(d);
                lemma_dec_str_of_dec_val(d);
                let v = (-(m as int)) as i64;
                assert(v == -(m as int));
                assert(spec_parse_i64(s) == Some(v));
                let u = v as u64;
                let b = spec_u64_to_le_bytes(u);
                assert(u as i64 == v) by (bit_vector)
                    requires
                        u == v as u64,
                        v < 0,
                ;
                assert(spec_value_string(t, b) == Some(dec_str_signed(v as int)));
                assert(dec_str_signed(v as int) == seq!['-'] + dec_str(m));
                assert(s =~= seq!['-'] + d);
                assert(dec_str_signed(v as int) == s);
            }
        },
        ValueType::I32 => {
            if is_canonical_dec(s) && dec_val(s) <= i32::MAX {
                lemma_is_digit_not_sign(s);
                let v = dec_val(s) as i32;
                lemma_dec_str_of_dec_val(s);
                assert(spec_parse_i32(s) == Some(v));
                let b = spec_u32_to_le_bytes(v as u32);
                assert((v as u32) as i32 == v) by (bit_vector)
                    requires
                        v >= 0,
                ;
                assert(spec_value_string(t, b) == Some(dec_str_signed(v as int)));
            } else {
                let d = s.drop_first();
                let m = dec_val(d);
                lemma_dec_str_of_dec_val(d);
                let v = (-(m as int)) as i32;
                assert(v == -(m as int));
                assert(spec_parse_i32(s) == Some(v));
                let u = v as u32;
                let b = spec_u32_to_le_bytes(u);
                assert(u as i32 == v) by (bit_vector)
                    requires
                        u == v as u32,
                        v < 0,
                ;
                assert(spec_value_string(t, b) == Some(dec_str_signed(v as int)));
                assert(dec_str_signed(v as int) == seq!['-'] + dec_str(m));
                assert(s =~= seq!['-'] + d);
                assert(dec_str_signed(v as int) == s);
            }
        },
        ValueType::String | ValueType::Hex => {
            assert(false);
        },
    }
}

proof fn lemma_is_digit_not_sign(s: Seq<char>)
    requires
        is_canonical_dec(s),
    ensures
        s[0] != '+',
        s[0] != '-',
{
    assert(crate::dec::is_dec_digit(s[0]));
}

} // verus!
