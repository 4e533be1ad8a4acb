//! Typed decoding of stored raw values.

use crate::err::Error;
use vstd::prelude::*;

verus! {

use crate::num::dec_signed;
use crate::num::dec_unsigned;
use crate::num::scan_int;
use vstd::string::StringExecFns;

/// The decode failure for a raw value that is not a literal of the
/// requested type; carries the offending text and the type's name.
fn decode_err(v: &String, ty: &str) -> (r: Error)
    ensures
        r matches Error::Custom(_),
{
    let mut m = "Can not parsing value to ".to_owned();
    m.append(ty);
    m.append(": ");
    m.append(v.as_str());
    Error::Custom(m)
}

/// Converts an optional raw value into a required one: the value itself
/// when present, `Error::Custom` when absent.
pub fn value_or_err<'a>(val: Option<&'a String>) -> (r: Result<&'a String, Error>)
    ensures
        match r {
            Ok(v) => val matches Some(w) && v == w,
            Err(e) => val is None && e matches Error::Custom(_),
        },
{
    match val {
        Some(v) => Ok(v),
        None => Err(Error::Custom("Except value, found None".to_owned())),
    }
}

/// A type a stored raw value can decode to.
///
/// `parse_spec` pins the whole behaviour of `parse` at the level of
/// views: which optional raw values decode, and to what.
pub trait ValueParser: Sized + View {
    /// The decoded view of the given optional raw value, or `None` when
    /// the value does not decode to this type.
    spec fn parse_spec(val: Option<Seq<char>>) -> Option<Self::V>;

    /// Decodes an optional raw value into this type.
    fn parse(val: Option<&String>) -> (r: Result<Self, Error>)
        ensures
            (r is Ok) == (Self::parse_spec(view_opt(val)) is Some),
            r is Ok ==> Self::parse_spec(view_opt(val)) == Some(r->Ok_0@),
            r is Err ==> r->Err_0 matches Error::Custom(_),
    ;
}

/// The view of an optional raw value.
pub open spec fn view_opt(val: Option<&String>) -> Option<Seq<char>> {
    match val {
        Some(s) => Some(s@),
        None => None,
    }
}

/// Booleans decode to presence: any stored value, even the empty
/// placeholder a switch records, reads as `true`; absence reads as
/// `false`. This decode never fails.
impl ValueParser for bool {
    open spec fn parse_spec(val: Option<Seq<char>>) -> Option<bool> {
        Some(val is Some)
    }

    fn parse(val: Option<&String>) -> (r: Result<Self, Error>) {
        Ok(val.is_some())
    }
}

/// Strings decode to the stored content itself; absence fails.
impl ValueParser for String {
    open spec fn parse_spec(val: Option<Seq<char>>) -> Option<Seq<char>> {
        val
    }

    fn parse(val: Option<&String>) -> (r: Result<Self, Error>) {
        let v = value_or_err(val)?;
        Ok(v.clone())
    }
}

/// `i8` decodes by the standard decimal conversion for signed
/// integers: an optional sign, then digits, within the type's range.
impl ValueParser for i8 {
    open spec fn parse_spec(val: Option<Seq<char>>) -> Option<i8> {
        match val {
            None => None,
            Some(s) => match dec_signed(s) {
                Some(n) => if i8::MIN <= n <= i8::MAX {
                    Some(n as i8)
                } else {
                    None
                },
                None => None,
            },
        }
    }

    fn parse(val: Option<&String>) -> (r: Result<Self, Error>) {
        let v = value_or_err(val)?;
        match scan_int(v.as_str()) {
            Some(p) => {
                let neg = p.0;
                let mag = p.1;
                if !neg && mag <= i8::MAX as u128 {
                    Ok(mag as i8)
                } else if neg && mag <= 128u128 {
                    if mag == 128u128 {
                        Ok(i8::MIN)
                    } else {
                        Ok(-(mag as i8))
                    }
                } else {
                    Err(decode_err(v, "i8"))
                }
            },
            None => Err(decode_err(v, "i8")),
        }
    }
}

/// `i16` decodes by the standard decimal conversion for signed
/// integers: an optional sign, then digits, within the type's range.
impl ValueParser for i16 {
    open spec fn parse_spec(val: Option<Seq<char>>) -> Option<i16> {
        match val {
            None => None,
            Some(s) => match dec_signed(s) {
                Some(n) => if i16::MIN <= n <= i16::MAX {
                    Some(n as i16)
                } else {
                    None
                },
                None => None,
            },
        }
    }

    fn parse(val: Option<&String>) -> (r: Result<Self, Error>) {
        let v = value_or_err(val)?;
        match scan_int(v.as_str()) {
            Some(p) => {
                let neg = p.0;
                let mag = p.1;
                if !neg && mag <= i16::MAX as u128 {
                    Ok(mag as i16)
                } else if neg && mag <= 32768u128 {
                    if mag == 32768u128 {
                        Ok(i16::MIN)
                    } else {
                        Ok(-(mag as i16))
                    }
                } else {
                    Err(decode_err(v, "i16"))
                }
            },
            None => Err(decode_err(v, "i16")),
        }
    }
}

/// `i32` decodes by the standard decimal conversion for signed
/// integers: an optional sign, then digits, within the type's range.
impl ValueParser for i32 {
    open spec fn parse_spec(val: Option<Seq<char>>) -> Option<i32> {
        match val {
            None => None,
            Some(s) => match dec_signed(s) {
                Some(n) => if i32::MIN <= n <= i32::MAX {
                    Some(n as i32)
                } else {
                    None
                },
                None => None,
            },
        }
    }

    fn parse(val: Option<&String>) -> (r: Result<Self, Error>) {
        let v = value_or_err(val)?;
        match scan_int(v.as_str()) {
            Some(p) => {
                let neg = p.0;
                let mag = p.1;
                if !neg && mag <= i32::MAX as u128 {
                    Ok(mag as i32)
                } else if neg && mag <= 2147483648u128 {
                    if mag == 2147483648u128 {
                        Ok(i32::MIN)
                    } else {
                        Ok(-(mag as i32))
                    }
                } else {
                    Err(decode_err(v, "i32"))
                }
            },
            None => Err(decode_err(v, "i32")),
        }
    }
}

/// `i64` decodes by the standard decimal conversion for signed
/// integers: an optional sign, then digits, within the type's range.
impl ValueParser for i64 {
    open spec fn parse_spec(val: Option<Seq<char>>) -> Option<i64> {
        match val {
            None => None,
            Some(s) => match dec_signed(s) {
                Some(n) => if i64::MIN <= n <= i64::MAX {
                    Some(n as i64)
                } else {
                    None
                },
                None => None,
            },
        }
    }

    fn parse(val: Option<&String>) -> (r: Result<Self, Error>) {
        let v = value_or_err(val)?;
        match scan_int(v.as_str()) {
            Some(p) => {
                let neg = p.0;
                let mag = p.1;
                if !neg && mag <= i64::MAX as u128 {
                    Ok(mag as i64)
                } else if neg && mag <= 9223372036854775808u128 {
                    if mag == 9223372036854775808u128 {
                        Ok(i64::MIN)
                    } else {
                        Ok(-(mag as i64))
                    }
                } else {
                    Err(decode_err(v, "i64"))
                }
            },
            None => Err(decode_err(v, "i64")),
        }
    }
}

/// `i128` decodes by the standard decimal conversion for signed
/// integers: an optional sign, then digits, within the type's range.
impl ValueParser for i128 {
    open spec fn parse_spec(val: Option<Seq<char>>) -> Option<i128> {
        match val {
            None => None,
            Some(s) => match dec_signed(s) {
                Some(n) => if i128::MIN <= n <= i128::MAX {
                    Some(n as i128)
                } else {
                    None
                },
                None => None,
            },
        }
    }

    fn parse(val: Option<&String>) -> (r: Result<Self, Error>) {
        let v = value_or_err(val)?;
        match scan_int(v.as_str()) {
            Some(p) => {
                let neg = p.0;
                let mag = p.1;
                if !neg && mag <= i128::MAX as u128 {
                    Ok(mag as i128)
                } else if neg && mag <= 170141183460469231731687303715884105728u128 {
                    if mag == 170141183460469231731687303715884105728u128 {
                        Ok(i128::MIN)
                    } else {
                        Ok(-(mag as i128))
                    }
                } else {
                    Err(decode_err(v, "i128"))
                }
            },
            None => Err(decode_err(v, "i128")),
        }
    }
}

/// `isize` decodes by the standard decimal conversion for signed
/// integers: an optional sign, then digits, within the type's range.
impl ValueParser for isize {
    open spec fn parse_spec(val: Option<Seq<char>>) -> Option<isize> {
        match val {
            None => None,
            Some(s) => match dec_signed(s) {
                Some(n) => if isize::MIN <= n <= isize::MAX {
                    Some(n as isize)
                } else {
                    None
                },
                None => None,
            },
        }
    }

    fn parse(val: Option<&String>) -> (r: Result<Self, Error>) {
        let v = value_or_err(val)?;
        match scan_int(v.as_str()) {
            Some(p) => {
                let neg = p.0;
                let mag = p.1;
                if !neg && mag <= isize::MAX as u128 {
                    Ok(mag as isize)
                } else if neg && mag <= (isize::MAX as u128) + 1 {
                    if mag == (isize::MAX as u128) + 1 {
                        Ok(isize::MIN)
                    } else {
                        Ok(-(mag as isize))
                    }
                } else {
                    Err(decode_err(v, "isize"))
                }
            },
            None => Err(decode_err(v, "isize")),
        }
    }
}

/// `u8` decodes by the standard decimal conversion for unsigned
/// integers: an optional `+` sign, then digits, within the type's range.
impl ValueParser for u8 {
    open spec fn parse_spec(val: Option<Seq<char>>) -> Option<u8> {
        match val {
            None => None,
            Some(s) => match dec_unsigned(s) {
                Some(n) => if n <= u8::MAX {
                    Some(n as u8)
                } else {
                    None
                },
                None => None,
            },
        }
    }

    fn parse(val: Option<&String>) -> (r: Result<Self, Error>) {
        let v = value_or_err(val)?;
        match scan_int(v.as_str()) {
            Some(p) => {
                if !p.0 && p.1 <= u8::MAX as u128 {
                    Ok(p.1 as u8)
                } else {
                    Err(decode_err(v, "u8"))
                }
            },
            None => Err(decode_err(v, "u8")),
        }
    }
}

/// `u16` decodes by the standard decimal conversion for unsigned
/// integers: an optional `+` sign, then digits, within the type's range.
impl ValueParser for u16 {
    open spec fn parse_spec(val: Option<Seq<char>>) -> Option<u16> {
        match val {
            None => None,
            Some(s) => match dec_unsigned(s) {
                Some(n) => if n <= u16::MAX {
                    Some(n as u16)
                } else {
                    None
                },
                None => None,
            },
        }
    }

    fn parse(val: Option<&String>) -> (r: Result<Self, Error>) {
        let v = value_or_err(val)?;
        match scan_int(v.as_str()) {
            Some(p) => {
                if !p.0 && p.1 <= u16::MAX as u128 {
                    Ok(p.1 as u16)
                } else {
                    Err(decode_err(v, "u16"))
                }
            },
            None => Err(decode_err(v, "u16")),
        }
    }
}

/// `u32` decodes by the standard decimal conversion for unsigned
/// integers: an optional `+` sign, then digits, within the type's range.
impl ValueParser for u32 {
    open spec fn parse_spec(val: Option<Seq<char>>) -> Option<u32> {
        match val {
            None => None,
            Some(s) => match dec_unsigned(s) {
                Some(n) => if n <= u32::MAX {
                    Some(n as u32)
                } else {
                    None
                },
                None => None,
            },
        }
    }

    fn parse(val: Option<&String>) -> (r: Result<Self, Error>) {
        let v = value_or_err(val)?;
        match scan_int(v.as_str()) {
            Some(p) => {
                if !p.0 && p.1 <= u32::MAX as u128 {
                    Ok(p.1 as u32)
                } else {
                    Err(decode_err(v, "u32"))
                }
            },
            None => Err(decode_err(v, "u32")),
        }
    }
}

/// `u64` decodes by the standard decimal conversion for unsigned
/// integers: an optional `+` sign, then digits, within the type's range.
impl ValueParser for u64 {
    open spec fn parse_spec(val: Option<Seq<char>>) -> Option<u64> {
        match val {
            None => None,
            Some(s) => match dec_unsigned(s) {
                Some(n) => if n <= u64::MAX {
                    Some(n as u64)
                } else {
                    None
                },
                None => None,
            },
        }
    }

    fn parse(val: Option<&String>) -> (r: Result<Self, Error>) {
        let v = value_or_err(val)?;
        match scan_int(v.as_str()) {
            Some(p) => {
                if !p.0 && p.1 <= u64::MAX as u128 {
                    Ok(p.1 as u64)
                } else {
                    Err(decode_err(v, "u64"))
                }
            },
            None => Err(decode_err(v, "u64")),
        }
    }
}

/// `usize` decodes by the standard decimal conversion for unsigned
/// integers: an optional `+` sign, then digits, within the type's range.
impl ValueParser for usize {
    open spec fn parse_spec(val: Option<Seq<char>>) -> Option<usize> {
        match val {
            None => None,
            Some(s) => match dec_unsigned(s) {
                Some(n) => if n <= usize::MAX {
                    Some(n as usize)
                } else {
                    None
                },
                None => None,
            },
        }
    }

    fn parse(val: Option<&String>) -> (r: Result<Self, Error>) {
        let v = value_or_err(val)?;
        match scan_int(v.as_str()) {
            Some(p) => {
                if !p.0 && p.1 <= usize::MAX as u128 {
                    Ok(p.1 as usize)
                } else {
                    Err(decode_err(v, "usize"))
                }
            },
            None => Err(decode_err(v, "usize")),
        }
    }
}

/// `u128` decodes by the standard decimal conversion for unsigned
/// integers: an optional `+` sign, then digits, within the type's range.
impl ValueParser for u128 {
    open spec fn parse_spec(val: Option<Seq<char>>) -> Option<u128> {
        match val {
            None => None,
            Some(s) => match dec_unsigned(s) {
                Some(n) => if n <= u128::MAX {
                    Some(n as u128)
                } else {
                    None
                },
                None => None,
            },
        }
    }

    fn parse(val: Option<&String>) -> (r: Result<Self, Error>) {
        let v = value_or_err(val)?;
        match scan_int(v.as_str()) {
            Some(p) => {
                if !p.0 {
                    Ok(p.1)
                } else {
                    Err(decode_err(v, "u128"))
                }
            },
            None => Err(decode_err(v, "u128")),
        }
    }
}

} // verus!
