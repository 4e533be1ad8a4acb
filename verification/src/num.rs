//! Decimal text: the spec-level grammar of integer literals, a verified
//! scanner used by the typed decoders, and a verified formatter used for
//! error payloads.

use vstd::prelude::*;

verus! {

use vstd::string::StrSliceExecFns;
use vstd::string::StringExecFns;

/// True for the ten ASCII digit characters.
pub open spec fn is_digit(c: char) -> bool {
    '0' as u32 <= c as u32 && c as u32 <= '9' as u32
}

/// The numeric value of one digit character.
pub open spec fn digit_val(c: char) -> int {
    c as u32 - '0' as u32
}

/// True when every character of `s` is a digit.
pub open spec fn all_digits(s: Seq<char>) -> bool {
    forall|i: int| 0 <= i < s.len() ==> is_digit(#[trigger] s[i])
}

/// The value of a digit string, most significant digit first.
pub open spec fn digits_val(s: Seq<char>) -> int
    decreases s.len(),
{
    if s.len() == 0 {
        0
    } else {
        10 * digits_val(s.drop_last()) + digit_val(s.last())
    }
}

/// The value of a signed decimal literal: an optional `+` or `-` sign
/// followed by one or more digits, as the standard conversion for the
/// signed integer types reads it. `None` for any other shape.
pub open spec fn dec_signed(s: Seq<char>) -> Option<int> {
    if s.len() == 0 {
        None
    } else if s[0] == '+' || s[0] == '-' {
        let d = s.subrange(1, s.len() as int);
        if d.len() > 0 && all_digits(d) {
            if s[0] == '-' {
                Some(-digits_val(d))
            } else {
                Some(digits_val(d))
            }
        } else {
            None
        }
    } else if all_digits(s) {
        Some(digits_val(s))
    } else {
        None
    }
}

/// The value of an unsigned decimal literal: an optional `+` sign followed
/// by one or more digits. A `-` sign is rejected, as the standard
/// conversion for the unsigned integer types rejects it.
pub open spec fn dec_unsigned(s: Seq<char>) -> Option<int> {
    if s.len() == 0 {
        None
    } else if s[0] == '+' {
        let d = s.subrange(1, s.len() as int);
        if d.len() > 0 && all_digits(d) {
            Some(digits_val(d))
        } else {
            None
        }
    } else if all_digits(s) {
        Some(digits_val(s))
    } else {
        None
    }
}

/// The digit character of one value below ten.
pub open spec fn digit_char(d: int) -> char {
    if d == 0 {
        '0'
    } else if d == 1 {
        '1'
    } else if d == 2 {
        '2'
    } else if d == 3 {
        '3'
    } else if d == 4 {
        '4'
    } else if d == 5 {
        '5'
    } else if d == 6 {
        '6'
    } else if d == 7 {
        '7'
    } else if d == 8 {
        '8'
    } else {
        '9'
    }
}

/// The decimal representation of a non-negative value, no sign, no
/// leading zero except for the value zero itself.
pub open spec fn dec_seq(n: int) -> Seq<char>
    decreases n,
{
    if n < 10 {
        seq![digit_char(n)]
    } else {
        dec_seq(n / 10).push(digit_char(n % 10))
    }
}

/// A digit string names a non-negative value.
pub proof fn lemma_digits_val_nonneg(s: Seq<char>)
    requires
        all_digits(s),
    ensures
        digits_val(s) >= 0,
    decreases s.len(),
{
    if s.len() > 0 {
        assert(all_digits(s.drop_last()));
        lemma_digits_val_nonneg(s.drop_last());
        assert(is_digit(s.last()));
    }
}

/// Extending a digit string never shrinks its value.
pub proof fn lemma_digits_val_prefix(s: Seq<char>, i: int)
    requires
        all_digits(s),
        0 <= i <= s.len(),
    ensures
        digits_val(s) >= digits_val(s.subrange(0, i)),
    decreases s.len() - i,
{
    if i == s.len() {
        assert(s.subrange(0, i) =~= s);
    } else {
        lemma_digits_val_prefix(s, i + 1);
        let t = s.subrange(0, i + 1);
        assert(all_digits(t));
        assert(t.drop_last() =~= s.subrange(0, i));
        lemma_digits_val_nonneg(s.subrange(0, i));
        assert(is_digit(t.last()));
        assert(digits_val(t) == 10 * digits_val(s.subrange(0, i)) + digit_val(s[i]));
    }
}

/// Scans the digit run of `s` that starts at `from` and must reach the end
/// of the string. Returns its value when every remaining character is a
/// digit, the run is non-empty, and the value fits a `u128`.
pub(crate) fn scan_digits(s: &str, from: usize) -> (r: Option<u128>)
    requires
        from as int <= s@.len(),
    ensures
        ({
            let d = s@.subrange(from as int, s@.len() as int);
            match r {
                Some(m) => d.len() > 0 && all_digits(d) && m == digits_val(d),
                None => !(d.len() > 0 && all_digits(d) && digits_val(d) <= u128::MAX),
            }
        }),
{
    let ghost d = s@.subrange(from as int, s@.len() as int);
    let len = s.unicode_len();
    if from == len {
        return None;
    }
    let mut acc: u128 = 0;
    let mut i: usize = from;
    while i < len
        invariant
            from <= i <= len,
            len == s@.len(),
            from < len,
            d == s@.subrange(from as int, s@.len() as int),
            all_digits(d.subrange(0, i - from)),
            acc == digits_val(d.subrange(0, i - from)),
        decreases len - i,
    {
        let c = s.get_char(i);
        let cu = c as u32;
        if cu < 48 || cu > 57 {
            assert(!is_digit(c));
            assert(d[i - from] == c);
            return None;
        }
        assert(is_digit(c));
        let dv = (cu - 48) as u128;
        assert(dv == digit_val(c));
        let ghost pre = d.subrange(0, i - from);
        let ghost ext = d.subrange(0, i + 1 - from);
        assert(ext.drop_last() =~= pre);
        assert(ext.last() == c);
        assert(digits_val(ext) == 10 * digits_val(pre) + digit_val(c));
        if acc > (u128::MAX - dv) / 10 {
            proof {
                assert(all_digits(ext));
                broadcast use vstd::arithmetic::div_mod::group_div_basics;

                let m = u128::MAX as int;
                let q = (m - dv) / 10;
                vstd::arithmetic::div_mod::lemma_fundamental_div_mod(m - dv, 10);
                vstd::arithmetic::div_mod::lemma_mod_bound(m - dv, 10);
                assert(10 * q <= m - dv);
                assert(acc >= q + 1);
                assert(digits_val(ext) == 10 * acc + dv);
                assert(digits_val(ext) >= 10 * (q + 1) + dv > m);
                if all_digits(d) {
                    assert(ext =~= d.subrange(0, i + 1 - from));
                    lemma_digits_val_prefix(d, i + 1 - from);
                    assert(digits_val(d) > u128::MAX);
                }
            }
            return None;
        }
        proof {
            let m = u128::MAX as int;
            let q = (m - dv) / 10;
            vstd::arithmetic::div_mod::lemma_fundamental_div_mod(m - dv, 10);
            vstd::arithmetic::div_mod::lemma_mod_bound(m - dv, 10);
            assert(10 * q <= m - dv);
            assert(10 * acc <= 10 * q);
            assert(10 * acc + dv <= m);
        }
        acc = acc * 10 + dv;
        i = i + 1;
    }
    assert(d.subrange(0, i - from) =~= d);
    Some(acc)
}

/// Scans a decimal integer literal: an optional sign, then digits. The
/// result is the sign and the magnitude; a magnitude above `u128::MAX`
/// is reported as a failed scan, as is any other shape.
pub(crate) fn scan_int(s: &str) -> (r: Option<(bool, u128)>)
    ensures
        ({
            match r {
                Some(p) => {
                    &&& dec_signed(s@) == Some(
                        if p.0 {
                            -(p.1 as int)
                        } else {
                            p.1 as int
                        },
                    )
                    &&& (!p.0 ==> dec_unsigned(s@) == Some(p.1 as int))
                    &&& (p.0 ==> dec_unsigned(s@) is None)
                },
                None => {
                    &&& (match dec_signed(s@) {
                        Some(n) => n > u128::MAX || n < -(u128::MAX as int),
                        None => true,
                    })
                    &&& (match dec_unsigned(s@) {
                        Some(n) => n > u128::MAX,
                        None => true,
                    })
                },
            }
        }),
{
    let len = s.unicode_len();
    if len == 0 {
        return None;
    }
    let c0 = s.get_char(0);
    let neg = c0 == '-';
    let signed_start: usize = if c0 == '-' || c0 == '+' {
        1
    } else {
        0
    };
    let ghost d = s@.subrange(signed_start as int, s@.len() as int);
    proof {
        if signed_start == 0 {
            assert(d =~= s@);
        }
        if c0 == '-' || c0 == '+' {
            assert(!is_digit(s@[0]));
        }
    }
    match scan_digits(s, signed_start) {
        Some(m) => {
            proof {
                lemma_digits_val_nonneg(d);
            }
            Some((neg, m))
        },
        None => {
            proof {
                if d.len() > 0 && all_digits(d) {
                    lemma_digits_val_nonneg(d);
                }
            }
            None
        },
    }
}

/// One digit as a borrowed string.
fn digit_str(v: u64) -> (r: &'static str)
    requires
        v < 10,
    ensures
        r@ == seq![digit_char(v as int)],
{
    proof {
        reveal_strlit("0");
        reveal_strlit("1");
        reveal_strlit("2");
        reveal_strlit("3");
        reveal_strlit("4");
        reveal_strlit("5");
        reveal_strlit("6");
        reveal_strlit("7");
        reveal_strlit("8");
        reveal_strlit("9");
    }
    let r: &'static str = if v == 0 {
        "0"
    } else if v == 1 {
        "1"
    } else if v == 2 {
        "2"
    } else if v == 3 {
        "3"
    } else if v == 4 {
        "4"
    } else if v == 5 {
        "5"
    } else if v == 6 {
        "6"
    } else if v == 7 {
        "7"
    } else if v == 8 {
        "8"
    } else {
        "9"
    };
    proof {
        assert(r@ =~= seq![digit_char(v as int)]);
    }
    r
}

/// Formats a value in decimal, as its debug representation writes it.
pub(crate) fn dec_string(n: u64) -> (r: String)
    ensures
        r@ == dec_seq(n as int),
    decreases n,
{
    if n < 10 {
        let s = digit_str(n);
        s.to_owned()
    } else {
        proof {
            vstd::arithmetic::div_mod::lemma_div_is_strictly_smaller(n as int, 10);
        }
        let mut acc = dec_string(n / 10);
        let last = digit_str(n % 10);
        acc.append(last);
        proof {
            assert(acc@ =~= dec_seq((n / 10) as int).push(digit_char((n % 10) as int)));
        }
        acc
    }
}

} // verus!
