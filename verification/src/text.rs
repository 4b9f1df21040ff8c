//! Numbers as text: decimal and hexadecimal formatting and parsing, with
//! the rules of Rust's `from_str_radix` (an optional sign, at least one
//! digit, nothing else, and the value in the type's range).

use vstd::prelude::*;

verus! {

/// The character of hexadecimal digit `d` (upper case).
pub open spec fn hex_char(d: int) -> char {
    if d < 10 {
        ('0' as int + d) as char
    } else {
        ('A' as int + (d - 10)) as char
    }
}

/// Decimal notation of `n`, without leading zeros.
pub open spec fn decimal_spec(n: nat) -> Seq<char>
    decreases n,
{
    if n < 10 {
        seq![hex_char(n as int)]
    } else {
        decimal_spec(n / 10) + seq![hex_char((n % 10) as int)]
    }
}

/// Decimal notation of a signed number.
pub open spec fn signed_decimal_spec(n: int) -> Seq<char> {
    if n < 0 {
        seq!['-'] + decimal_spec((-n) as nat)
    } else {
        decimal_spec(n as nat)
    }
}

/// Two upper-case hexadecimal digits of a byte.
pub open spec fn hex2_spec(b: u8) -> Seq<char> {
    seq![hex_char(b as int / 16), hex_char(b as int % 16)]
}

/// The one-character string of hexadecimal digit `d`.
fn digit_str(d: u8) -> (s: &'static str)
    requires
        d < 16,
    ensures
        s@ == seq![hex_char(d as int)],
{
    match d {
        0 => {
            proof {
                reveal_strlit("0");
            }
            "0"
        },
        1 => {
            proof {
                reveal_strlit("1");
            }
            "1"
        },
        2 => {
            proof {
                reveal_strlit("2");
            }
            "2"
        },
        3 => {
            proof {
                reveal_strlit("3");
            }
            "3"
        },
        4 => {
            proof {
                reveal_strlit("4");
            }
            "4"
        },
        5 => {
            proof {
                reveal_strlit("5");
            }
            "5"
        },
        6 => {
            proof {
                reveal_strlit("6");
            }
            "6"
        },
        7 => {
            proof {
                reveal_strlit("7");
            }
            "7"
        },
        8 => {
            proof {
                reveal_strlit("8");
            }
            "8"
        },
        9 => {
            proof {
                reveal_strlit("9");
            }
            "9"
        },
        10 => {
            proof {
                reveal_strlit("A");
            }
            "A"
        },
        11 => {
            proof {
                reveal_strlit("B");
            }
            "B"
        },
        12 => {
            proof {
                reveal_strlit("C");
            }
            "C"
        },
        13 => {
            proof {
                reveal_strlit("D");
            }
            "D"
        },
        14 => {
            proof {
                reveal_strlit("E");
            }
            "E"
        },
        _ => {
            proof {
                reveal_strlit("F");
            }
            "F"
        },
    }
}

/// Appends the decimal notation of `n` to `s`.
pub fn push_decimal(s: &mut String, n: u64)
    ensures
        final(s)@ == old(s)@ + decimal_spec(n as nat),
    decreases n,
{
    if n >= 10 {
        push_decimal(s, n / 10);
    }
    s.append(digit_str((n % 10) as u8));
}

/// Decimal notation of `n`.
pub fn decimal(n: u64) -> (s: String)
    ensures
        s@ == decimal_spec(n as nat),
{
    let mut s = String::new();
    push_decimal(&mut s, n);
    s
}

/// Appends the decimal notation of a signed `n` to `s`.
pub fn push_signed_decimal(s: &mut String, n: i64)
    ensures
        final(s)@ == old(s)@ + signed_decimal_spec(n as int),
{
    if n < 0 {
        proof {
            reveal_strlit("-");
        }
        s.append("-");
        let m: u64 = if n == i64::MIN {
            0x8000_0000_0000_0000
        } else {
            (-n) as u64
        };
        push_decimal(s, m);
    } else {
        push_decimal(s, n as u64);
    }
}

/// Appends two upper-case hexadecimal digits of `b` to `s`.
pub fn push_hex2(s: &mut String, b: u8)
    ensures
        final(s)@ == old(s)@ + hex2_spec(b),
{
    s.append(digit_str(b / 16));
    s.append(digit_str(b % 16));
}

/// Value of ASCII digit `c` in base `radix` (10 or 16, either case), if it is one.
pub open spec fn digit_value(c: u8, radix: int) -> Option<int> {
    if 0x30 <= c <= 0x39 && c - 0x30 < radix {
        Some(c - 0x30)
    } else if radix == 16 && 0x61 <= c <= 0x66 {
        Some(c - 0x61 + 10)
    } else if radix == 16 && 0x41 <= c <= 0x46 {
        Some(c - 0x41 + 10)
    } else {
        None
    }
}

pub open spec fn all_digits(s: Seq<u8>, radix: int) -> bool {
    forall|i: int| 0 <= i < s.len() ==> digit_value(#[trigger] s[i], radix) is Some
}

/// Value of the digits `s` in base `radix`.
pub open spec fn digits_value(s: Seq<u8>, radix: int) -> int
    decreases s.len(),
{
    if s.len() == 0 {
        0
    } else {
        digits_value(s.drop_last(), radix) * radix + digit_value(s.last(), radix)->0
    }
}

/// An unsigned number in base `radix` no larger than `max`: an optional `+`
/// and at least one digit.
pub open spec fn parse_unsigned_spec(s: Seq<u8>, radix: int, max: int) -> Option<int> {
    let d = if s.len() > 0 && s[0] == 0x2B {
        s.drop_first()
    } else {
        s
    };
    if d.len() == 0 || !all_digits(d, radix) || digits_value(d, radix) > max {
        None
    } else {
        Some(digits_value(d, radix))
    }
}

/// A signed decimal number within `[-2^63, 2^63)`: an optional `+` or `-` and
/// at least one digit.
pub open spec fn parse_i64_spec(s: Seq<u8>) -> Option<int> {
    if s.len() > 0 && s[0] == 0x2D {
        let d = s.drop_first();
        if d.len() == 0 || !all_digits(d, 10) || digits_value(d, 10) > 0x8000_0000_0000_0000 {
            None
        } else {
            Some(-digits_value(d, 10))
        }
    } else {
        parse_unsigned_spec(s, 10, 0x7fff_ffff_ffff_ffff)
    }
}

fn digit(c: u8, radix: u64) -> (r: Option<u64>)
    requires
        radix == 10 || radix == 16,
    ensures
        r matches Some(v) ==> digit_value(c, radix as int) == Some(v as int),
        r is None ==> digit_value(c, radix as int) is None,
{
    if 0x30 <= c && c <= 0x39 && ((c - 0x30) as u64) < radix {
        Some((c - 0x30) as u64)
    } else if radix == 16 && 0x61 <= c && c <= 0x66 {
        Some((c - 0x61 + 10) as u64)
    } else if radix == 16 && 0x41 <= c && c <= 0x46 {
        Some((c - 0x41 + 10) as u64)
    } else {
        None
    }
}

proof fn lemma_digits_nonneg(s: Seq<u8>, radix: int)
    requires
        radix == 10 || radix == 16,
        all_digits(s, radix),
    ensures
        0 <= digits_value(s, radix),
    decreases s.len(),
{
    if s.len() > 0 {
        lemma_digits_nonneg(s.drop_last(), radix);
        assert(digit_value(s[s.len() - 1], radix) is Some);
        assert(digits_value(s.drop_last(), radix) * radix >= 0) by (nonlinear_arith)
            requires
                digits_value(s.drop_last(), radix) >= 0,
                radix >= 1,
        ;
    }
}

/// The digits `s[from..to]` in base `radix`, when they are at least one,
/// all digits, and their value is at most `max`.
fn parse_digits(s: &[u8], from: usize, to: usize, radix: u64, max: u64) -> (r: Option<u64>)
    requires
        from <= to <= s@.len(),
        radix == 10 || radix == 16,
    ensures
        ({
            let d = s@.subrange(from as int, to as int);
            match r {
                Some(v) => d.len() > 0 && all_digits(d, radix as int) && v == digits_value(
                    d,
                    radix as int,
                ) && v <= max,
                None => d.len() == 0 || !all_digits(d, radix as int) || digits_value(
                    d,
                    radix as int,
                ) > max,
            }
        }),
{
    let ghost d = s@.subrange(from as int, to as int);
    if from == to {
        return None;
    }
    let mut acc: u64 = 0;
    let mut i = from;
    let mut overflow = false;
    while i < to
        invariant
            from <= i <= to <= s@.len(),
            d == s@.subrange(from as int, to as int),
            radix == 10 || radix == 16,
            all_digits(d.take(i - from), radix as int),
            !overflow ==> acc == digits_value(d.take(i - from), radix as int) && acc <= max,
            overflow ==> digits_value(d.take(i - from), radix as int) > max,
        decreases to - i,
    {
        let c = s[i];
        let ghost k = i - from;
        assert(d[k] == c);
        assert(d.take(k + 1).drop_last() =~= d.take(k));
        match digit(c, radix) {
            Some(v) => {
                assert(all_digits(d.take(k + 1), radix as int));
                proof {
                    lemma_digits_nonneg(d.take(k), radix as int);
                }
                if overflow || v > max || acc > (max - v) / radix {
                    if !overflow && v <= max {
                        assert(acc * radix + v > max) by (nonlinear_arith)
                            requires
                                acc > (max as int - v as int) / radix as int,
                                radix > 0,
                                v <= max,
                        ;
                    } else if !overflow {
                        assert(acc * radix + v > max) by (nonlinear_arith)
                            requires
                                acc >= 0,
                                radix > 0,
                                v > max,
                        ;
                    } else {
                        assert(digits_value(d.take(k), radix as int) * radix + v > max) by (
                        nonlinear_arith)
                            requires
                                digits_value(d.take(k), radix as int) > max,
                                radix >= 1,
                                v >= 0,
                        ;
                    }
                    overflow = true;
                } else {
                    assert(acc * radix + v <= max) by (nonlinear_arith)
                        requires
                            acc <= (max as int - v as int) / radix as int,
                            radix > 0,
                            v <= max,
                    ;
                    acc = acc * radix + v;
                }
            },
            None => {
                assert(!all_digits(d, radix as int));
                return None;
            },
        }
        i = i + 1;
    }
    assert(d.take(to - from) =~= d);
    if overflow {
        None
    } else {
        Some(acc)
    }
}

/// An unsigned number in base `radix` from `s[from..to]`, at most `max`.
pub fn parse_unsigned(s: &[u8], from: usize, to: usize, radix: u64, max: u64) -> (r: Option<u64>)
    requires
        from <= to <= s@.len(),
        radix == 10 || radix == 16,
    ensures
        match (r, parse_unsigned_spec(s@.subrange(from as int, to as int), radix as int, max as int)) {
            (Some(v), Some(w)) => v == w,
            (None, None) => true,
            _ => false,
        },
{
    let ghost t = s@.subrange(from as int, to as int);
    if from < to && s[from] == 0x2B {
        assert(t.drop_first() =~= s@.subrange(from + 1, to as int));
        parse_digits(s, from + 1, to, radix, max)
    } else {
        parse_digits(s, from, to, radix, max)
    }
}

/// A signed decimal number from `s[from..to]`.
pub fn parse_i64(s: &[u8], from: usize, to: usize) -> (r: Option<i64>)
    requires
        from <= to <= s@.len(),
    ensures
        match (r, parse_i64_spec(s@.subrange(from as int, to as int))) {
            (Some(v), Some(w)) => v == w,
            (None, None) => true,
            _ => false,
        },
{
    let ghost t = s@.subrange(from as int, to as int);
    if from < to && s[from] == 0x2D {
        assert(t.drop_first() =~= s@.subrange(from + 1, to as int));
        match parse_digits(s, from + 1, to, 10, 0x8000_0000_0000_0000) {
            Some(m) => if m == 0x8000_0000_0000_0000 {
                Some(i64::MIN)
            } else {
                Some(-(m as i64))
            },
            None => None,
        }
    } else {
        match parse_unsigned(s, from, to, 10, 0x7fff_ffff_ffff_ffff) {
            Some(v) => Some(v as i64),
            None => None,
        }
    }
}

} // verus!
