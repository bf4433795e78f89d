//! Decimal rendering of integers into `String`s.
use vstd::prelude::*;

verus! {

/// The ASCII digit for `d` (`0 <= d < 10`).
pub open spec fn digit_char(d: int) -> char {
    ((d + 48) as u8) as char
}

/// Decimal digits of `n`, most significant first, with no leading zeros
/// (`0` renders as `"0"`).
pub open spec fn nat_digits(n: nat) -> Seq<char>
    decreases n,
{
    if n < 10 {
        seq![digit_char(n as int)]
    } else {
        nat_digits(n / 10).push(digit_char((n % 10) as int))
    }
}

/// Decimal rendering of a signed integer: a `-` sign for negatives, then the
/// digits of its magnitude.
pub open spec fn int_digits(i: int) -> Seq<char> {
    if i < 0 {
        seq!['-'] + nat_digits((-i) as nat)
    } else {
        nat_digits(i as nat)
    }
}

/// The last `width` decimal digits of `n`, zero-padded on the left.
pub open spec fn padded_digits(n: nat, width: nat) -> Seq<char>
    decreases width,
{
    if width == 0 {
        Seq::empty()
    } else {
        padded_digits(n / 10, (width - 1) as nat).push(digit_char((n % 10) as int))
    }
}

/// `s` with every trailing `'0'` removed.
pub open spec fn trim_zeros(s: Seq<char>) -> Seq<char>
    decreases s.len(),
{
    if s.len() > 0 && s.last() == '0' {
        trim_zeros(s.drop_last())
    } else {
        s
    }
}

/// A fixed-point value with `places` decimal places, as text: the integer
/// part alone when the fraction is zero, otherwise `int.frac` with the
/// fraction's trailing zeros removed.
pub open spec fn fixed_point_text(v: nat, places: nat) -> Seq<char> {
    let unit = pow10(places);
    if v % unit == 0 {
        nat_digits(v / unit)
    } else {
        nat_digits(v / unit) + seq!['.'] + trim_zeros(padded_digits(v % unit, places))
    }
}

/// `10^n`.
pub open spec fn pow10(n: nat) -> nat
    decreases n,
{
    if n == 0 {
        1
    } else {
        10 * pow10((n - 1) as nat)
    }
}

/// The uppercase hexadecimal digit for `d` (`0 <= d < 16`).
pub open spec fn hex_char(d: int) -> char {
    if d < 10 {
        digit_char(d)
    } else {
        ((d - 10 + 65) as u8) as char
    }
}

/// The last `width` hexadecimal digits of `n`, uppercase, zero-padded.
pub open spec fn hex_padded(n: nat, width: nat) -> Seq<char>
    decreases width,
{
    if width == 0 {
        Seq::empty()
    } else {
        hex_padded(n / 16, (width - 1) as nat).push(hex_char((n % 16) as int))
    }
}

/// Appends one character to a `String` (`String::push`).
#[verifier::external_body]
pub(crate) fn push_char(out: &mut String, c: char)
    ensures
        final(out)@ == old(out)@.push(c),
{
    out.push(c);
}

/// Appends the last `width` hexadecimal digits of `n`, uppercase, zero-padded.
pub fn push_hex_padded(out: &mut String, n: u64, width: u64)
    ensures
        final(out)@ == old(out)@ + hex_padded(n as nat, width as nat),
    decreases width,
{
    if width > 0 {
        push_hex_padded(out, n / 16, width - 1);
        let d = n % 16;
        let c: u8 = if d < 10 { (d + 48) as u8 } else { (d - 10 + 65) as u8 };
        push_char(out, c as char);
        proof {
            assert(old(out)@ + hex_padded(n as nat, width as nat) == old(out)@ + hex_padded(
                (n / 16) as nat,
                (width - 1) as nat,
            ) + seq![hex_char((n % 16) as int)]);
        }
    }
}

fn digit_str(d: u64) -> (s: &'static str)
    requires
        d < 10,
    ensures
        s@ == seq![digit_char(d as int)],
{
    proof {
        reveal_strlit("0");
        reveal_strlit("1");
        reveal_strlit("2");
        reveal_strlit("3");
        reveal_strlit("4");
        reveal_strlit("5");
        reveal_strlit("6");
        reveal_strlit("7");
        reveal_strlit("8");
        reveal_strlit("9");
    }
    if d == 0 {
        "0"
    } else if d == 1 {
        "1"
    } else if d == 2 {
        "2"
    } else if d == 3 {
        "3"
    } else if d == 4 {
        "4"
    } else if d == 5 {
        "5"
    } else if d == 6 {
        "6"
    } else if d == 7 {
        "7"
    } else if d == 8 {
        "8"
    } else {
        "9"
    }
}

/// Appends the decimal digits of `n` to `out`.
pub fn push_u64(out: &mut String, n: u64)
    ensures
        final(out)@ == old(out)@ + nat_digits(n as nat),
    decreases n,
{
    if n >= 10 {
        push_u64(out, n / 10);
    }
    out.append(digit_str(n % 10));
}

/// Appends the decimal rendering of `i` to `out`.
pub fn push_i64(out: &mut String, i: i64)
    ensures
        final(out)@ == old(out)@ + int_digits(i as int),
{
    if i < 0 {
        proof {
            reveal_strlit("-");
        }
        out.append("-");
        let mag: u64 = if i == i64::MIN {
            9223372036854775808u64
        } else {
            (-i) as u64
        };
        push_u64(out, mag);
    } else {
        push_u64(out, i as u64);
    }
}

/// Appends the last `width` digits of `n`, zero-padded.
fn push_padded(out: &mut String, n: u64, width: u64)
    ensures
        final(out)@ == old(out)@ + padded_digits(n as nat, width as nat),
    decreases width,
{
    if width > 0 {
        push_padded(out, n / 10, width - 1);
        out.append(digit_str(n % 10));
    }
}

proof fn lemma_trim_padded(f: nat, width: nat)
    requires
        width > 0,
    ensures
        f % 10 == 0 ==> trim_zeros(padded_digits(f, width)) == trim_zeros(
            padded_digits(f / 10, (width - 1) as nat),
        ),
        f % 10 != 0 ==> trim_zeros(padded_digits(f, width)) == padded_digits(f, width),
{
    let s = padded_digits(f, width);
    assert(s.drop_last() == padded_digits(f / 10, (width - 1) as nat));
    assert(s.last() == digit_char((f % 10) as int));
    if f % 10 != 0 {
        assert((((f % 10) as int + 48) as u8) as char != '0');
    }
}

proof fn lemma_pow10_positive(n: nat)
    ensures
        pow10(n) >= 1,
    decreases n,
{
    if n > 0 {
        lemma_pow10_positive((n - 1) as nat);
    }
}

/// Appends `fixed_point_text(v, places)`.
pub fn push_fixed_point(out: &mut String, v: u64, places: u64, unit: u64)
    requires
        unit as nat == pow10(places as nat),
    ensures
        final(out)@ == old(out)@ + fixed_point_text(v as nat, places as nat),
{
    proof {
        lemma_pow10_positive(places as nat);
    }
    push_u64(out, v / unit);
    let frac = v % unit;
    if frac != 0 {
        proof {
            reveal_strlit(".");
        }
        out.append(".");
        let mut f = frac;
        let mut w = places;
        while f % 10 == 0
            invariant
                0 < f,
                f as nat <= frac,
                (f as nat) < pow10(w as nat),
                trim_zeros(padded_digits(frac as nat, places as nat)) == trim_zeros(
                    padded_digits(f as nat, w as nat),
                ),
            decreases w,
        {
            proof {
                if w == 0 {
                    assert(pow10(0) == 1);
                }
                assert(pow10(w as nat) == 10 * pow10((w - 1) as nat));
                lemma_trim_padded(f as nat, w as nat);
            }
            f = f / 10;
            w = w - 1;
        }
        proof {
            if w == 0 {
                assert(pow10(0) == 1);
            }
            lemma_trim_padded(f as nat, w as nat);
        }
        push_padded(out, f, w);
    }
}

} // verus!
