//! Verified text rendering: decimal numbers, dotted-quad addresses and
//! human-readable durations, with character-exact specifications.

use vstd::prelude::*;
use vstd::string::StrSliceExecFns;

verus! {

/// The character of the decimal digit `d`.
pub open spec fn digit_char(d: int) -> char {
    if d == 0 {
        '0'
    } else if d == 1 {
        '1'
    } else if d == 2 {
        '2'
    } else if d == 3 {
        '3'
    } else if d == 4 {
        '4'
    } else if d == 5 {
        '5'
    } else if d == 6 {
        '6'
    } else if d == 7 {
        '7'
    } else if d == 8 {
        '8'
    } else {
        '9'
    }
}

/// The decimal digits of the nonnegative number `n`, most significant
/// first, without a sign and without leading zeros (`0` itself excepted).
pub open spec fn dec_digits(n: int) -> Seq<char>
    decreases n,
{
    if n < 10 {
        seq![digit_char(n)]
    } else {
        dec_digits(n / 10).push(digit_char(n % 10))
    }
}

/// The decimal rendering of `n`, with a leading minus sign when `n` is
/// negative.
pub open spec fn int_chars(n: int) -> Seq<char> {
    if n < 0 {
        seq!['-'] + dec_digits(-n)
    } else {
        dec_digits(n)
    }
}

/// The dotted-quad rendering of the 32-bit address `ip`.
pub open spec fn ip_chars(ip: int) -> Seq<char> {
    dec_digits(ip / 0x1000000 % 256) + seq!['.'] + dec_digits(ip / 0x10000 % 256) + seq!['.']
        + dec_digits(ip / 0x100 % 256) + seq!['.'] + dec_digits(ip % 256)
}

/// Whole minutes from `now` to `until`, truncated towards zero.
pub open spec fn minutes_left(until: int, now: int) -> int {
    if until >= now {
        (until - now) / 60
    } else {
        -((now - until) / 60)
    }
}

/// The rendering of a duration of `d` seconds as days, hours and
/// minutes, each truncated towards zero and each carrying the sign of
/// `d`.
pub open spec fn duration_chars(d: int) -> Seq<char> {
    let mag = if d < 0 {
        -d
    } else {
        d
    };
    let days = mag / 86400;
    let hours = mag % 86400 / 3600;
    let minutes = mag % 86400 % 3600 / 60;
    let sign = |c: int| if d < 0 {
        -c
    } else {
        c
    };
    int_chars(sign(days)) + " days, "@ + int_chars(sign(hours)) + " hours, "@ + int_chars(
        sign(minutes),
    ) + " minutes"@
}

/// The character is a decimal digit.
pub open spec fn is_digit(c: char) -> bool {
    48 <= c as int <= 57
}

/// The value of the decimal digit character `c`.
pub open spec fn digit_val(c: char) -> int {
    c as int - 48
}

/// The value of a sequence of decimal digit characters, most significant
/// first.
pub open spec fn digits_val(s: Seq<char>) -> int
    decreases s.len(),
{
    if s.len() == 0 {
        0
    } else {
        digits_val(s.drop_last()) * 10 + digit_val(s.last())
    }
}

/// The sequence is one or more decimal digits.
pub open spec fn all_digits(s: Seq<char>) -> bool {
    s.len() > 0 && forall|i: int| 0 <= i < s.len() ==> is_digit(#[trigger] s[i])
}

/// The digits of a numeral, an optional leading sign stripped.
pub open spec fn numeral_body(s: Seq<char>) -> Seq<char> {
    if s.len() > 0 && (s[0] == '+' || s[0] == '-') {
        s.drop_first()
    } else {
        s
    }
}

/// The text is an unsigned decimal numeral: digits, optionally preceded
/// by a plus sign.
pub open spec fn is_unsigned_numeral(s: Seq<char>) -> bool {
    (s.len() > 0 && s[0] != '-') && all_digits(numeral_body(s))
}

/// The text is a signed decimal numeral: digits, optionally preceded by
/// a plus or minus sign.
pub open spec fn is_signed_numeral(s: Seq<char>) -> bool {
    all_digits(numeral_body(s))
}

/// The value of a signed decimal numeral.
pub open spec fn numeral_val(s: Seq<char>) -> int {
    if s.len() > 0 && s[0] == '-' {
        -digits_val(numeral_body(s))
    } else {
        digits_val(numeral_body(s))
    }
}

pub proof fn lemma_digits_val_nonneg(s: Seq<char>)
    requires
        forall|i: int| 0 <= i < s.len() ==> is_digit(#[trigger] s[i]),
    ensures
        digits_val(s) >= 0,
    decreases s.len(),
{
    if s.len() > 0 {
        assert forall|i: int| 0 <= i < s.drop_last().len() implies is_digit(
            #[trigger] s.drop_last()[i],
        ) by {
            assert(s.drop_last()[i] == s[i]);
        }
        lemma_digits_val_nonneg(s.drop_last());
    }
}

proof fn lemma_digits_val_prefix_le(s: Seq<char>, i: int)
    requires
        forall|k: int| 0 <= k < s.len() ==> is_digit(#[trigger] s[k]),
        0 <= i <= s.len(),
    ensures
        digits_val(s.take(i)) <= digits_val(s),
    decreases s.len() - i,
{
    if i < s.len() {
        assert(s.take(i + 1).drop_last() =~= s.take(i));
        assert(s.take(i + 1).last() == s[i]);
        assert forall|k: int| 0 <= k < s.take(i).len() implies is_digit(
            #[trigger] s.take(i)[k],
        ) by {
            assert(s.take(i)[k] == s[k]);
        }
        lemma_digits_val_nonneg(s.take(i));
        lemma_digits_val_prefix_le(s, i + 1);
        assert(digits_val(s.take(i + 1)) == digits_val(s.take(i)) * 10 + digit_val(s[i]));
    } else {
        assert(s.take(i) =~= s);
    }
}

/// Parse an unsigned decimal numeral whose value fits in the given
/// bound; the shape `str::parse::<u8>` accepts, with the range check
/// left to the caller.
///
/// Returns the numeral's value when `s` is an unsigned numeral with
/// value at most `bound`, and nothing otherwise.
pub fn parse_unsigned(s: &str, bound: u64) -> (r: Option<u64>)
    requires
        bound <= 0x8000_0000_0000,
    ensures
        r == if is_unsigned_numeral(s@) && digits_val(numeral_body(s@)) <= bound as int {
            Some((digits_val(numeral_body(s@)) as u64))
        } else {
            None::<u64>
        },
{
    proof {
        if all_digits(numeral_body(s@)) {
            lemma_digits_val_nonneg(numeral_body(s@));
        }
    }
    match parse_digits(s, bound, false) {
        Some(v) => Some(v),
        None => None,
    }
}

/// Parse a signed decimal numeral with the value range
/// `[-(neg_bound), pos_bound]`; the shape `str::parse::<i32>` accepts
/// for suitable bounds.
pub fn parse_signed(s: &str, pos_bound: u64, neg_bound: u64) -> (r: Option<i64>)
    requires
        pos_bound <= 0x8000_0000_0000,
        neg_bound <= 0x8000_0000_0000,
    ensures
        r == if is_signed_numeral(s@) && -(neg_bound as int) <= numeral_val(s@) <= pos_bound as int {
            Some((numeral_val(s@) as i64))
        } else {
            None::<i64>
        },
{
    proof {
        if all_digits(numeral_body(s@)) {
            lemma_digits_val_nonneg(numeral_body(s@));
        }
    }
    let negative = is_minus_led(s);
    if negative {
        match parse_digits(s, neg_bound, true) {
            Some(v) => Some(-(v as i64)),
            None => None,
        }
    } else {
        match parse_digits(s, pos_bound, true) {
            Some(v) => Some(v as i64),
            None => None,
        }
    }
}

/// Whether the text begins with a minus sign.
fn is_minus_led(s: &str) -> (r: bool)
    ensures
        r == (s@.len() > 0 && s@[0] == '-'),
{
    if s.unicode_len() == 0 {
        false
    } else {
        s.get_char(0) == '-'
    }
}

/// Parse the digits of a numeral after an optional sign, rejecting
/// values above `bound`.
fn parse_digits(s: &str, bound: u64, allow_minus: bool) -> (r: Option<u64>)
    requires
        bound <= 0x8000_0000_0000,
    ensures
        ({
            let accepted = all_digits(numeral_body(s@)) && (s@.len() > 0 && s@[0] == '-'
                ==> allow_minus) && digits_val(numeral_body(s@)) <= bound as int;
            r == if accepted {
                Some((digits_val(numeral_body(s@)) as u64))
            } else {
                None::<u64>
            }
        }),
{
    proof {
        broadcast use vstd::string::is_ascii_spec_bytes;

    }
    if !s.is_ascii() {
        proof {
            let cs = s@;
            if all_digits(numeral_body(cs)) {
                assert forall|i: int| 0 <= i < cs.len() implies '\0' <= #[trigger] cs[i]
                    <= '\u{7f}' by {
                    if cs.len() > 0 && (cs[0] == '+' || cs[0] == '-') {
                        if i > 0 {
                            assert(numeral_body(cs)[i - 1] == cs[i]);
                            assert(is_digit(numeral_body(cs)[i - 1]));
                        }
                    } else {
                        assert(numeral_body(cs)[i] == cs[i]);
                        assert(is_digit(numeral_body(cs)[i]));
                    }
                }
                assert(vstd::utf8::is_ascii_chars(cs));
            }
        }
        return None;
    }
    let b = s.as_bytes();
    let ghost cs = s@;
    proof {
        assert(vstd::utf8::is_ascii_chars(cs));
        assert(b@ =~= Seq::new(cs.len(), |i: int| cs[i] as u8));
    }
    let n = b.len();
    if n == 0 {
        return None;
    }
    let start: usize = if b[0] == 43 || (allow_minus && b[0] == 45) {
        1
    } else {
        0
    };
    proof {
        if !allow_minus && cs[0] == '-' {
            assert(b@[0] == 45);
        }
    }
    if b[0] == 45 && !allow_minus {
        return None;
    }
    if start == n {
        proof {
            assert(numeral_body(cs).len() == 0);
        }
        return None;
    }
    let ghost body = numeral_body(cs);
    proof {
        if start == 1 {
            assert(cs[0] == '+' || cs[0] == '-');
            assert(body =~= cs.drop_first());
        } else {
            assert(cs[0] != '+' && cs[0] != '-') by {
                if cs[0] == '+' {
                    assert(b@[0] == 43);
                }
                if cs[0] == '-' {
                    assert(b@[0] == 45);
                }
            }
            assert(body =~= cs);
        }
        assert(forall|k: int| 0 <= k < body.len() ==> #[trigger] body[k] == cs[k + start]);
    }
    let mut val: u64 = 0;
    for i in start..n
        invariant
            cs == s@,
            body == numeral_body(cs),
            n == b@.len(),
            vstd::utf8::is_ascii_chars(cs),
            b@ =~= Seq::new(cs.len(), |k: int| cs[k] as u8),
            start <= i <= n,
            start <= 1,
            bound <= 0x8000_0000_0000,
            body.len() == n - start,
            forall|k: int| 0 <= k < body.len() ==> #[trigger] body[k] == cs[k + start],
            forall|k: int| 0 <= k < i - start ==> is_digit(#[trigger] body[k]),
            val <= bound,
            val as int == digits_val(body.take(i - start)),
    {
        let c = b[i];
        proof {
            assert(b@[i as int] == cs[i as int] as u8);
            assert('\0' <= cs[i as int] <= '\u{7f}');
            assert(cs[i as int] as int == b@[i as int] as int);
        }
        if c < 48 || c > 57 {
            proof {
                assert(body[i - start] == cs[i as int]);
                assert(!is_digit(body[i - start]));
                assert(numeral_body(s@) == body);
                assert(!is_digit(numeral_body(s@)[i - start]));
                assert(!all_digits(numeral_body(s@)));
            }
            return None;
        }
        proof {
            assert(body[i - start] == cs[i as int]);
            assert(is_digit(body[i - start]));
            assert(body.take(i - start + 1).drop_last() =~= body.take(i - start));
            assert(body.take(i - start + 1).last() == body[i - start]);
        }
        let d = (c - 48) as u64;
        let next = val * 10 + d;
        if next > bound {
            proof {
                assert(digits_val(body.take(i - start + 1)) > bound as int);
                assert(numeral_body(s@) == body);
                if all_digits(numeral_body(s@)) {
                    lemma_digits_val_prefix_le(body, i - start + 1);
                    assert(digits_val(numeral_body(s@)) > bound as int);
                }
            }
            return None;
        }
        val = next;
    }
    proof {
        assert(body.take(n - start) =~= body);
        assert(all_digits(body));
    }
    Some(val)
}

/// The one-character string of the decimal digit `d`.
fn digit_str(d: u8) -> (r: &'static str)
    requires
        d < 10,
    ensures
        r@ == seq![digit_char(d as int)],
{
    match d {
        0 => {
            proof {
                reveal_strlit("0");
            }
            "0"
        },
        1 => {
            proof {
                reveal_strlit("1");
            }
            "1"
        },
        2 => {
            proof {
                reveal_strlit("2");
            }
            "2"
        },
        3 => {
            proof {
                reveal_strlit("3");
            }
            "3"
        },
        4 => {
            proof {
                reveal_strlit("4");
            }
            "4"
        },
        5 => {
            proof {
                reveal_strlit("5");
            }
            "5"
        },
        6 => {
            proof {
                reveal_strlit("6");
            }
            "6"
        },
        7 => {
            proof {
                reveal_strlit("7");
            }
            "7"
        },
        8 => {
            proof {
                reveal_strlit("8");
            }
            "8"
        },
        _ => {
            proof {
                reveal_strlit("9");
            }
            "9"
        },
    }
}

/// Append the decimal digits of `n` to `s`.
pub fn push_dec_u64(s: &mut String, n: u64)
    ensures
        final(s)@ == old(s)@ + dec_digits(n as int),
    decreases n,
{
    if n >= 10 {
        push_dec_u64(s, n / 10);
    }
    let ghost mid = s@;
    s.append(digit_str((n % 10) as u8));
    proof {
        if n >= 10 {
            assert(final(s)@ =~= old(s)@ + dec_digits(n as int));
        } else {
            assert(final(s)@ =~= old(s)@ + dec_digits(n as int));
        }
    }
}

/// Append the decimal rendering of `n`, sign included, to `s`.
pub fn push_dec_i64(s: &mut String, n: i64)
    ensures
        final(s)@ == old(s)@ + int_chars(n as int),
{
    if n < 0 {
        proof {
            reveal_strlit("-");
        }
        s.append("-");
        proof {
            assert("-"@ =~= seq!['-']);
        }
        let mag = (-(n as i128)) as u64;
        let ghost mid = s@;
        push_dec_u64(s, mag);
        proof {
            assert(final(s)@ =~= old(s)@ + int_chars(n as int));
        }
    } else {
        push_dec_u64(s, n as u64);
    }
}

/// Append the dotted-quad rendering of `ip` to `s`.
pub fn push_ip(s: &mut String, ip: u32)
    ensures
        final(s)@ == old(s)@ + ip_chars(ip as int),
{
    proof {
        reveal_strlit(".");
    }
    push_dec_u64(s, (ip / 0x1000000 % 256) as u64);
    s.append(".");
    push_dec_u64(s, (ip / 0x10000 % 256) as u64);
    s.append(".");
    push_dec_u64(s, (ip / 0x100 % 256) as u64);
    s.append(".");
    push_dec_u64(s, (ip % 256) as u64);
    proof {
        assert("."@ =~= seq!['.']);
        assert(final(s)@ =~= old(s)@ + ip_chars(ip as int));
    }
}

/// The dotted-quad rendering of `ip`.
pub fn format_ip(ip: u32) -> (r: String)
    ensures
        r@ == ip_chars(ip as int),
{
    let mut s = String::new();
    push_ip(&mut s, ip);
    proof {
        assert(s@ =~= ip_chars(ip as int));
    }
    s
}

/// Whole minutes from `now` to `until`, truncated towards zero.
pub fn compute_minutes_left(until: i64, now: i64) -> (r: i64)
    ensures
        r as int == minutes_left(until as int, now as int),
{
    if until >= now {
        let d = (until as i128 - now as i128) as u128;
        let q = d / 60;
        assert(q < 0x8000_0000_0000_0000) by {
            assert(d <= 0xffff_ffff_ffff_ffff_u128);
        }
        q as i64
    } else {
        let d = (now as i128 - until as i128) as u128;
        let q = d / 60;
        assert(q < 0x8000_0000_0000_0000) by {
            assert(d <= 0xffff_ffff_ffff_ffff_u128);
        }
        -(q as i64)
    }
}

/// Render `d` seconds as days, hours and minutes, each truncated towards
/// zero and each carrying the sign of `d`.
pub fn format_duration(d: i64) -> (r: String)
    ensures
        r@ == duration_chars(d as int),
{
    let neg = d < 0;
    let mag: u64 = if neg {
        (-(d as i128)) as u64
    } else {
        d as u64
    };
    let days = mag / 86400;
    let hours = mag % 86400 / 3600;
    let minutes = mag % 86400 % 3600 / 60;
    let days_signed: i64 = if neg {
        -(days as i64)
    } else {
        days as i64
    };
    let hours_signed: i64 = if neg {
        -(hours as i64)
    } else {
        hours as i64
    };
    let minutes_signed: i64 = if neg {
        -(minutes as i64)
    } else {
        minutes as i64
    };
    let mut s = String::new();
    push_dec_i64(&mut s, days_signed);
    s.append(" days, ");
    push_dec_i64(&mut s, hours_signed);
    s.append(" hours, ");
    push_dec_i64(&mut s, minutes_signed);
    s.append(" minutes");
    proof {
        assert(s@ =~= duration_chars(d as int));
    }
    s
}

} // verus!
