//! Parsing Hyprland's mode strings (`1920x1080@59.951Hz`, `2560x1440@165`).
use vstd::prelude::*;
use crate::model::{hz_text, mode_text, Mode};
use crate::text::{digit_char, nat_digits, padded_digits, pow10, push_char, trim_zeros};

verus! {

/// `char::is_whitespace`: the Unicode `White_Space` property.
pub open spec fn is_ws(c: char) -> bool {
    let u = c as u32;
    ||| 0x09 <= u <= 0x0D
    ||| u == 0x20
    ||| u == 0x85
    ||| u == 0xA0
    ||| u == 0x1680
    ||| 0x2000 <= u <= 0x200A
    ||| u == 0x2028
    ||| u == 0x2029
    ||| u == 0x202F
    ||| u == 0x205F
    ||| u == 0x3000
}

/// `s` without leading whitespace.
pub open spec fn trim_start_text(s: Seq<char>) -> Seq<char>
    decreases s.len(),
{
    if s.len() > 0 && is_ws(s[0]) {
        trim_start_text(s.drop_first())
    } else {
        s
    }
}

/// `s` without trailing whitespace.
pub open spec fn trim_end_text(s: Seq<char>) -> Seq<char>
    decreases s.len(),
{
    if s.len() > 0 && is_ws(s.last()) {
        trim_end_text(s.drop_last())
    } else {
        s
    }
}

/// `str::trim`.
pub open spec fn trim_text(s: Seq<char>) -> Seq<char> {
    trim_end_text(trim_start_text(s))
}

/// `s` with every trailing `"Hz"` removed (`trim_end_matches("Hz")`).
pub open spec fn strip_hz_text(s: Seq<char>) -> Seq<char>
    decreases s.len(),
{
    if s.len() >= 2 && s[s.len() - 2] == 'H' && s[s.len() - 1] == 'z' {
        strip_hz_text(s.subrange(0, s.len() - 2))
    } else {
        s
    }
}

/// Index of the first occurrence of `c` in `s`.
pub open spec fn find_char(s: Seq<char>, c: char) -> Option<int>
    decreases s.len(),
{
    if s.len() == 0 {
        None
    } else {
        match find_char(s.drop_last(), c) {
            Some(i) => Some(i),
            None => if s.last() == c {
                Some(s.len() - 1)
            } else {
                None
            },
        }
    }
}

/// `str::split_once(c)`: the text before and after the first `c`.
pub open spec fn split_once_text(s: Seq<char>, c: char) -> Option<(Seq<char>, Seq<char>)> {
    match find_char(s, c) {
        Some(i) => Some((s.subrange(0, i), s.subrange(i + 1, s.len() as int))),
        None => None,
    }
}

pub open spec fn is_digit(c: char) -> bool {
    '0' <= c && c <= '9'
}

pub open spec fn all_digits(s: Seq<char>) -> bool {
    forall|i: int| 0 <= i < s.len() ==> #[trigger] is_digit(s[i])
}

pub open spec fn digit_value(c: char) -> nat {
    ((c as u32) - 48) as nat
}

/// Value of a string of decimal digits.
pub open spec fn digits_value(s: Seq<char>) -> nat
    decreases s.len(),
{
    if s.len() == 0 {
        0
    } else {
        digits_value(s.drop_last()) * 10 + digit_value(s.last())
    }
}

/// `s` without one leading `+`.
pub open spec fn unsigned_body(s: Seq<char>) -> Seq<char> {
    if s.len() > 0 && s[0] == '+' {
        s.drop_first()
    } else {
        s
    }
}

/// `u32::from_str`: an optional `+`, then one or more ASCII digits, the
/// value fitting in a `u32`.
pub open spec fn parse_u32_text(s: Seq<char>) -> Option<u32> {
    let body = unsigned_body(s);
    if body.len() == 0 || !all_digits(body) || digits_value(body) > u32::MAX {
        None
    } else {
        Some(digits_value(body) as u32)
    }
}

/// Thousandths in a fraction's digits, rounded half up.
pub open spec fn frac_thousandths(fp: Seq<char>) -> nat {
    let first = if fp.len() >= 3 {
        digits_value(fp.subrange(0, 3))
    } else if fp.len() == 2 {
        digits_value(fp) * 10
    } else if fp.len() == 1 {
        digits_value(fp) * 100
    } else {
        0
    };
    if fp.len() > 3 && digit_value(fp[3]) >= 5 {
        first + 1
    } else {
        first
    }
}

/// The digits before the first `.` of a refresh rate.
pub open spec fn int_part(body: Seq<char>) -> Seq<char> {
    match find_char(body, '.') {
        Some(i) => body.subrange(0, i),
        None => body,
    }
}

/// The digits after the first `.` of a refresh rate.
pub open spec fn frac_part(body: Seq<char>) -> Seq<char> {
    match find_char(body, '.') {
        Some(i) => body.subrange(i + 1, body.len() as int),
        None => Seq::empty(),
    }
}

/// Millihertz of a rate given as integer and fraction digits.
pub open spec fn millihz_of_parts(ip: Seq<char>, fp: Seq<char>) -> Option<u32> {
    if ip.len() + fp.len() == 0 || !all_digits(ip) || !all_digits(fp) {
        None
    } else {
        let v = digits_value(ip) * 1000 + frac_thousandths(fp);
        if v > u32::MAX {
            None
        } else {
            Some(v as u32)
        }
    }
}

/// A rate in plain decimal notation (`+`? digits, optionally `.` and more
/// digits, at least one digit in all), in millihertz rounded half up.
pub open spec fn plain_millihz_text(s: Seq<char>) -> Option<u32> {
    millihz_of_parts(int_part(unsigned_body(s)), frac_part(unsigned_body(s)))
}

/// Index of the first exponent marker (`e` or `E`) in `s`.
pub open spec fn find_exp(s: Seq<char>) -> Option<int> {
    match (find_char(s, 'e'), find_char(s, 'E')) {
        (Some(a), Some(b)) => Some(if a < b { a } else { b }),
        (Some(a), None) => Some(a),
        (None, Some(b)) => Some(b),
        (None, None) => None,
    }
}

/// An exponent without its sign.
pub open spec fn exp_body(t: Seq<char>) -> Seq<char> {
    if t.len() > 0 && (t[0] == '-' || t[0] == '+') {
        t.drop_first()
    } else {
        t
    }
}

/// The value of an exponent: an optional sign, then one or more digits.
pub open spec fn exp_value(t: Seq<char>) -> Option<int> {
    let neg = t.len() > 0 && t[0] == '-';
    let body = exp_body(t);
    if body.len() == 0 || !all_digits(body) {
        None
    } else if neg {
        Some(-(digits_value(body) as int))
    } else {
        Some(digits_value(body) as int)
    }
}

/// `n * 10^k`, rounded half up to an integer.
pub open spec fn scaled_value(n: nat, k: int) -> int {
    if k >= 0 {
        (n * pow10(k as nat)) as int
    } else {
        (2 * n + pow10((-k) as nat)) as int / (2 * pow10((-k) as nat)) as int
    }
}

/// Millihertz of a rate in exponent notation: mantissa `m` (digits with an
/// optional `.`, at least one digit) times ten to the exponent `t`, rounded
/// half up.
pub open spec fn exp_millihz(m: Seq<char>, t: Seq<char>) -> Option<u32> {
    let ip = int_part(m);
    let fp = frac_part(m);
    if ip.len() + fp.len() == 0 || !all_digits(ip) || !all_digits(fp) {
        None
    } else {
        match exp_value(t) {
            None => None,
            Some(e) => {
                let v = scaled_value(digits_value(ip + fp), e + 3 - fp.len());
                if v > u32::MAX {
                    None
                } else {
                    Some(v as u32)
                }
            },
        }
    }
}

/// A refresh rate as `f64::from_str` reads one, in millihertz rounded half
/// up: an optional `+`, digits with an optional `.` (at least one digit),
/// and an optional exponent (`e` or `E`, an optional sign, digits).
/// Refused (`None`): a negative rate, `inf`, `infinity` and `nan`, which a
/// refresh rate in millihertz cannot hold, and a rate of 2^32 mHz or more;
/// digits below a thousandth of a hertz only round.
pub open spec fn parse_millihz_text(s: Seq<char>) -> Option<u32> {
    let body = unsigned_body(s);
    match find_exp(body) {
        None => plain_millihz_text(s),
        Some(i) => exp_millihz(body.subrange(0, i), body.subrange(i + 1, body.len() as int)),
    }
}

/// A mode string `WxH@Hz`: the width and height are unsigned integers
/// (surrounding whitespace allowed), the rate is read by
/// `parse_millihz_text` once every trailing `Hz` is removed and surrounding
/// whitespace trimmed.
pub open spec fn mode_text_parse(s: Seq<char>) -> Option<Mode> {
    match split_once_text(s, '@') {
        None => None,
        Some((res, hz)) => match split_once_text(res, 'x') {
            None => None,
            Some((w, h)) => match (
                parse_u32_text(trim_text(w)),
                parse_u32_text(trim_text(h)),
                parse_millihz_text(trim_text(strip_hz_text(hz))),
            ) {
                (Some(width), Some(height), Some(refresh_millihz)) => Some(
                    Mode { width, height, refresh_millihz },
                ),
                _ => None,
            },
        },
    }
}

// ---------------------------------------------------------------------------
// Executable side. Strings are handled as `Vec<char>` slices internally.

fn chars_of(s: &str) -> (v: Vec<char>)
    ensures
        v@ == s@,
{
    let n = s.unicode_len();
    let mut v: Vec<char> = Vec::new();
    let mut i: usize = 0;
    while i < n
        invariant
            n == s@.len(),
            i <= n,
            v@ == s@.subrange(0, i as int),
        decreases n - i,
    {
        v.push(s.get_char(i));
        i = i + 1;
        assert(v@ =~= s@.subrange(0, i as int));
    }
    assert(s@.subrange(0, n as int) =~= s@);
    v
}

fn is_ws_exec(c: char) -> (b: bool)
    ensures
        b == is_ws(c),
{
    let u = c as u32;
    (0x09 <= u && u <= 0x0D) || u == 0x20 || u == 0x85 || u == 0xA0 || u == 0x1680 || (0x2000
        <= u && u <= 0x200A) || u == 0x2028 || u == 0x2029 || u == 0x202F || u == 0x205F || u
        == 0x3000
}

proof fn lemma_trim_start_skip(s: Seq<char>, i: int)
    requires
        0 <= i <= s.len(),
        forall|k: int| 0 <= k < i ==> is_ws(#[trigger] s[k]),
    ensures
        trim_start_text(s) == trim_start_text(s.skip(i)),
    decreases i,
{
    if i > 0 {
        assert(s.drop_first().skip(i - 1) =~= s.skip(i));
        lemma_trim_start_skip(s.drop_first(), i - 1);
    } else {
        assert(s.skip(0) =~= s);
    }
}

proof fn lemma_trim_end_take(s: Seq<char>, j: int)
    requires
        0 <= j <= s.len(),
        forall|k: int| j <= k < s.len() ==> is_ws(#[trigger] s[k]),
    ensures
        trim_end_text(s) == trim_end_text(s.subrange(0, j)),
    decreases s.len() - j,
{
    if j < s.len() {
        assert(s.drop_last().subrange(0, j) =~= s.subrange(0, j));
        lemma_trim_end_take(s.drop_last(), j);
    } else {
        assert(s.subrange(0, j) =~= s);
    }
}

/// Bounds `[lo, hi)` of the trimmed part of `s[from..to]`.
fn trim_bounds(s: &Vec<char>, from: usize, to: usize) -> (r: (usize, usize))
    requires
        from <= to <= s.len(),
    ensures
        from <= r.0 <= r.1 <= to,
        s@.subrange(r.0 as int, r.1 as int) == trim_text(s@.subrange(from as int, to as int)),
{
    let mut lo = from;
    while lo < to && is_ws_exec(s[lo])
        invariant
            from <= lo <= to <= s.len(),
            forall|k: int| from <= k < lo ==> is_ws(#[trigger] s@[k]),
        decreases to - lo,
    {
        lo = lo + 1;
    }
    let ghost seg = s@.subrange(from as int, to as int);
    proof {
        assert forall|k: int| 0 <= k < lo - from implies is_ws(#[trigger] seg[k]) by {
            assert(seg[k] == s@[from + k]);
        }
        lemma_trim_start_skip(seg, lo - from);
        assert(seg.skip(lo - from) =~= s@.subrange(lo as int, to as int));
        if lo < to {
            assert(!is_ws(s@.subrange(lo as int, to as int)[0]));
        }
        assert(trim_start_text(seg) == s@.subrange(lo as int, to as int)) by {
            let t = s@.subrange(lo as int, to as int);
            if t.len() > 0 {
                assert(t[0] == s@[lo as int]);
            }
        }
    }
    let mut hi = to;
    while hi > lo && is_ws_exec(s[hi - 1])
        invariant
            lo <= hi <= to <= s.len(),
            forall|k: int| hi <= k < to ==> is_ws(#[trigger] s@[k]),
        decreases hi - lo,
    {
        hi = hi - 1;
    }
    proof {
        let t = s@.subrange(lo as int, to as int);
        assert forall|k: int| hi - lo <= k < t.len() implies is_ws(#[trigger] t[k]) by {
            assert(t[k] == s@[lo + k]);
        }
        lemma_trim_end_take(t, hi - lo);
        assert(t.subrange(0, hi - lo) =~= s@.subrange(lo as int, hi as int));
        let u = s@.subrange(lo as int, hi as int);
        if u.len() > 0 {
            assert(u.last() == s@[hi - 1]);
        }
    }
    (lo, hi)
}

proof fn lemma_find_char_prefix(s: Seq<char>, c: char, i: int)
    requires
        0 <= i <= s.len(),
        forall|k: int| 0 <= k < i ==> s[k] != c,
    ensures
        find_char(s.subrange(0, i), c) is None,
    decreases i,
{
    if i > 0 {
        assert(s.subrange(0, i).drop_last() =~= s.subrange(0, i - 1));
        lemma_find_char_prefix(s, c, i - 1);
    }
}

proof fn lemma_find_char_extend(s: Seq<char>, c: char, i: int, j: int)
    requires
        0 <= i < j <= s.len(),
        find_char(s.subrange(0, i + 1), c) == Some(i),
    ensures
        find_char(s.subrange(0, j), c) == Some(i),
    decreases j,
{
    if j > i + 1 {
        lemma_find_char_extend(s, c, i, j - 1);
        assert(s.subrange(0, j).drop_last() =~= s.subrange(0, j - 1));
    }
}

proof fn lemma_find_char_props(s: Seq<char>, c: char)
    ensures
        find_char(s, c) matches Some(i) ==> 0 <= i < s.len() && s[i] == c,
    decreases s.len(),
{
    if s.len() > 0 {
        lemma_find_char_props(s.drop_last(), c);
    }
}

/// Index of the first `c` in `s[from..to]`, relative to `from`.
fn find_in(s: &Vec<char>, from: usize, to: usize, c: char) -> (r: Option<usize>)
    requires
        from <= to <= s.len(),
    ensures
        r matches Some(i) ==> i < to - from && s@[from + i] == c,
        r matches Some(i) ==> find_char(s@.subrange(from as int, to as int), c) == Some(i as int),
        r is None ==> find_char(s@.subrange(from as int, to as int), c) is None,
{
    let ghost seg = s@.subrange(from as int, to as int);
    proof {
        lemma_find_char_props(seg, c);
    }
    let mut i = from;
    while i < to
        invariant
            from <= i <= to <= s.len(),
            seg == s@.subrange(from as int, to as int),
            forall|k: int| from <= k < i ==> s@[k] != c,
        decreases to - i,
    {
        if s[i] == c {
            proof {
                assert forall|k: int| 0 <= k < i - from implies seg[k] != c by {
                    assert(seg[k] == s@[from + k]);
                }
                lemma_find_char_prefix(seg, c, i - from);
                assert(seg.subrange(0, i - from + 1).drop_last() =~= seg.subrange(0, i - from));
                if i - from + 1 < seg.len() {
                    lemma_find_char_extend(seg, c, i - from, seg.len() as int);
                }
                assert(seg.subrange(0, seg.len() as int) =~= seg);
            }
            return Some(i - from);
        }
        i = i + 1;
    }
    proof {
        assert forall|k: int| 0 <= k < seg.len() implies seg[k] != c by {
            assert(seg[k] == s@[from + k]);
        }
        lemma_find_char_prefix(seg, c, seg.len() as int);
        assert(seg.subrange(0, seg.len() as int) =~= seg);
    }
    None
}

proof fn lemma_digits_value_step(s: Seq<char>, i: int)
    requires
        0 <= i < s.len(),
    ensures
        digits_value(s.subrange(0, i + 1)) == digits_value(s.subrange(0, i)) * 10 + digit_value(
            s[i],
        ),
{
    assert(s.subrange(0, i + 1).drop_last() =~= s.subrange(0, i));
}

proof fn lemma_digits_value_monotone(s: Seq<char>, i: int)
    requires
        0 <= i <= s.len(),
    ensures
        digits_value(s.subrange(0, i)) <= digits_value(s),
    decreases s.len() - i,
{
    if i < s.len() {
        lemma_digits_value_monotone(s, i + 1);
        lemma_digits_value_step(s, i);
    } else {
        assert(s.subrange(0, i) =~= s);
    }
}

/// Value of the digits `s[from..to]`, or `None` when one is not a digit or
/// the value exceeds `limit`.
fn digits_upto(s: &Vec<char>, from: usize, to: usize, limit: u64) -> (r: Option<u64>)
    requires
        from <= to <= s.len(),
        limit <= u32::MAX,
    ensures
        r matches Some(v) ==> all_digits(s@.subrange(from as int, to as int)) && v == digits_value(
            s@.subrange(from as int, to as int),
        ) && v <= limit,
        r is None ==> !all_digits(s@.subrange(from as int, to as int)) || digits_value(
            s@.subrange(from as int, to as int),
        ) > limit,
{
    let ghost seg = s@.subrange(from as int, to as int);
    let mut v: u64 = 0;
    let mut i = from;
    while i < to
        invariant
            from <= i <= to <= s.len(),
            limit <= u32::MAX,
            seg == s@.subrange(from as int, to as int),
            all_digits(seg.subrange(0, i - from)),
            v == digits_value(seg.subrange(0, i - from)),
            v <= limit,
        decreases to - i,
    {
        let c = s[i];
        proof {
            assert(seg[i - from] == c);
        }
        if !('0' <= c && c <= '9') {
            proof {
                assert(!is_digit(seg[i - from]));
            }
            return None;
        }
        proof {
            lemma_digits_value_step(seg, i - from);
            assert(all_digits(seg.subrange(0, i - from + 1))) by {
                assert forall|k: int| 0 <= k < i - from + 1 implies #[trigger] is_digit(
                    seg.subrange(0, i - from + 1)[k],
                ) by {
                    if k < i - from {
                        assert(seg.subrange(0, i - from + 1)[k] == seg.subrange(0, i - from)[k]);
                    }
                }
            }
        }
        let d = (c as u32 - 48) as u64;
        let nv = v * 10 + d;
        if nv > limit {
            proof {
                lemma_digits_value_monotone(seg, i - from + 1);
            }
            return None;
        }
        v = nv;
        i = i + 1;
    }
    proof {
        assert(seg.subrange(0, to - from) =~= seg);
    }
    Some(v)
}

/// `parse_u32_text` of `s[from..to]`.
fn parse_u32_in(s: &Vec<char>, from: usize, to: usize) -> (r: Option<u32>)
    requires
        from <= to <= s.len(),
    ensures
        r == parse_u32_text(s@.subrange(from as int, to as int)),
{
    let ghost seg = s@.subrange(from as int, to as int);
    let start = if from < to && s[from] == '+' {
        from + 1
    } else {
        from
    };
    proof {
        if from < to && s@[from as int] == '+' {
            assert(seg[0] == '+');
            assert(unsigned_body(seg) =~= s@.subrange(start as int, to as int));
        } else {
            if from < to {
                assert(seg[0] == s@[from as int]);
            }
            assert(unsigned_body(seg) =~= s@.subrange(start as int, to as int));
        }
    }
    if start == to {
        return None;
    }
    match digits_upto(s, start, to, 0xFFFF_FFFF) {
        Some(v) => Some(v as u32),
        None => None,
    }
}

fn digit_at(s: &Vec<char>, i: usize) -> (v: u64)
    requires
        i < s.len(),
        is_digit(s@[i as int]),
    ensures
        v == digit_value(s@[i as int]),
        v < 10,
{
    (s[i] as u32 - 48) as u64
}

proof fn lemma_three_digits(t: Seq<char>)
    requires
        t.len() == 3,
    ensures
        digits_value(t) == (digit_value(t[0]) * 10 + digit_value(t[1])) * 10 + digit_value(t[2]),
{
    let a = t.drop_last();
    let b = a.drop_last();
    let c = b.drop_last();
    assert(c.len() == 0);
    assert(digits_value(c) == 0);
    assert(b.last() == t[0]);
    assert(a.last() == t[1]);
    assert(t.last() == t[2]);
    assert(digits_value(b) == digit_value(t[0]));
    assert(digits_value(a) == digit_value(t[0]) * 10 + digit_value(t[1]));
}

proof fn lemma_two_digits(t: Seq<char>)
    requires
        t.len() == 2,
    ensures
        digits_value(t) == digit_value(t[0]) * 10 + digit_value(t[1]),
{
    let a = t.drop_last();
    assert(a.drop_last().len() == 0);
    assert(digits_value(a.drop_last()) == 0);
    assert(a.last() == t[0]);
    assert(t.last() == t[1]);
    assert(digits_value(a) == digit_value(t[0]));
}

proof fn lemma_one_digit(t: Seq<char>)
    requires
        t.len() == 1,
    ensures
        digits_value(t) == digit_value(t[0]),
{
    assert(t.drop_last().len() == 0);
    assert(digits_value(t.drop_last()) == 0);
    assert(t.last() == t[0]);
}

/// `frac_thousandths` of the digits `s[from..to]`.
fn frac_thousandths_in(s: &Vec<char>, from: usize, to: usize) -> (v: u64)
    requires
        from <= to <= s.len(),
        all_digits(s@.subrange(from as int, to as int)),
    ensures
        v == frac_thousandths(s@.subrange(from as int, to as int)),
        v <= 1000,
{
    let ghost fp = s@.subrange(from as int, to as int);
    let len = to - from;
    proof {
        assert forall|k: int| 0 <= k < len implies #[trigger] is_digit(s@[from + k]) by {
            assert(fp[k] == s@[from + k]);
            assert(is_digit(fp[k]));
        }
    }
    let first: u64 = if len >= 3 {
        proof {
            lemma_three_digits(fp.subrange(0, 3));
        }
        (digit_at(s, from) * 10 + digit_at(s, from + 1)) * 10 + digit_at(s, from + 2)
    } else if len == 2 {
        proof {
            lemma_two_digits(fp);
        }
        (digit_at(s, from) * 10 + digit_at(s, from + 1)) * 10
    } else if len == 1 {
        proof {
            lemma_one_digit(fp);
        }
        digit_at(s, from) * 100
    } else {
        0
    };
    if len > 3 && digit_at(s, from + 3) >= 5 {
        first + 1
    } else {
        first
    }
}

/// `plain_millihz_text` of `s[from..to]`.
fn plain_millihz_in(s: &Vec<char>, from: usize, to: usize) -> (r: Option<u32>)
    requires
        from <= to <= s.len(),
    ensures
        r == plain_millihz_text(s@.subrange(from as int, to as int)),
{
    let ghost seg = s@.subrange(from as int, to as int);
    let start = if from < to && s[from] == '+' {
        from + 1
    } else {
        from
    };
    let ghost body = unsigned_body(seg);
    proof {
        if from < to {
            assert(seg[0] == s@[from as int]);
        }
        assert(body =~= s@.subrange(start as int, to as int));
    }
    let (ip_end, fp_start) = match find_in(s, start, to, '.') {
        Some(i) => (start + i, start + i + 1),
        None => (to, to),
    };
    let ghost ip = s@.subrange(start as int, ip_end as int);
    let ghost fp = s@.subrange(fp_start as int, to as int);
    proof {
        assert(ip =~= int_part(body));
        assert(fp =~= frac_part(body));
    }
    if ip_end == start && fp_start == to {
        return None;
    }
    let iv = match digits_upto(s, start, ip_end, 4_294_967) {
        Some(v) => v,
        None => {
            proof {
                if all_digits(ip) {
                    let dv = digits_value(ip);
                    assert(dv * 1000 + frac_thousandths(fp) > u32::MAX) by (nonlinear_arith)
                        requires
                            dv > 4294967,
                            frac_thousandths(fp) >= 0,
                    ;
                }
                assert(millihz_of_parts(ip, fp) is None);
                assert(plain_millihz_text(seg) == millihz_of_parts(ip, fp));
            }
            return None;
        },
    };
    let mut i = fp_start;
    while i < to
        invariant
            fp_start <= i <= to <= s.len(),
            fp == s@.subrange(fp_start as int, to as int),
            forall|k: int| fp_start <= k < i ==> is_digit(#[trigger] s@[k]),
            ip == int_part(body),
            fp == frac_part(body),
            body == unsigned_body(seg),
            seg == s@.subrange(from as int, to as int),
        decreases to - i,
    {
        if !('0' <= s[i] && s[i] <= '9') {
            proof {
                assert(fp[i - fp_start] == s@[i as int]);
                assert(!is_digit(fp[i - fp_start]));
                assert(!all_digits(fp));
                assert(plain_millihz_text(seg) == millihz_of_parts(ip, fp));
            }
            return None;
        }
        i = i + 1;
    }
    proof {
        assert forall|k: int| 0 <= k < fp.len() implies #[trigger] is_digit(fp[k]) by {
            assert(fp[k] == s@[fp_start + k]);
        }
    }
    let frac = frac_thousandths_in(s, fp_start, to);
    let v = iv * 1000 + frac;
    if v > 0xFFFF_FFFF {
        return None;
    }
    Some(v as u32)
}

/// `parse_millihz_text` of `s[from..to]`.
fn parse_millihz_in(s: &Vec<char>, from: usize, to: usize) -> (r: Option<u32>)
    requires
        from <= to <= s.len(),
    ensures
        r == parse_millihz_text(s@.subrange(from as int, to as int)),
{
    let ghost seg = s@.subrange(from as int, to as int);
    let start = if from < to && s[from] == '+' {
        from + 1
    } else {
        from
    };
    let ghost body = unsigned_body(seg);
    proof {
        if from < to {
            assert(seg[0] == s@[from as int]);
        }
        assert(body =~= s@.subrange(start as int, to as int));
    }
    match find_exp_in(s, start, to) {
        None => plain_millihz_in(s, from, to),
        Some(i) => {
            proof {
                assert(body.subrange(0, i as int) =~= s@.subrange(start as int, start + i));
                assert(body.subrange(i + 1, body.len() as int) =~= s@.subrange(start + i + 1, to as int));
            }
            exp_millihz_in(s, start, start + i, to)
        },
    }
}

/// End of `s[from..to]` once every trailing `Hz` is removed.
fn strip_hz_end(v: &Vec<char>, from: usize, to: usize) -> (end: usize)
    requires
        from <= to <= v.len(),
    ensures
        from <= end <= to,
        v@.subrange(from as int, end as int) == strip_hz_text(v@.subrange(from as int, to as int)),
{
    let mut end = to;
    while end - from >= 2 && v[end - 2] == 'H' && v[end - 1] == 'z'
        invariant
            from <= end <= to <= v.len(),
            strip_hz_text(v@.subrange(from as int, to as int)) == strip_hz_text(
                v@.subrange(from as int, end as int),
            ),
        decreases end,
    {
        proof {
            let t = v@.subrange(from as int, end as int);
            assert(t[t.len() - 2] == v@[end - 2]);
            assert(t[t.len() - 1] == v@[end - 1]);
            assert(t.subrange(0, t.len() - 2) =~= v@.subrange(from as int, end - 2));
        }
        end = end - 2;
    }
    proof {
        let t = v@.subrange(from as int, end as int);
        if t.len() >= 2 {
            assert(t[t.len() - 2] == v@[end - 2]);
            assert(t[t.len() - 1] == v@[end - 1]);
        }
    }
    end
}

#[verifier::rlimit(50)]
/// Parse one mode string such as `1920x1080@59.951Hz` or `2560x1440@165`.
pub fn parse_mode_string(s: &str) -> (r: Option<Mode>)
    ensures
        r == mode_text_parse(s@),
{
    let v = chars_of(s);
    let n = v.len();
    proof {
        assert(v@.subrange(0, n as int) =~= v@);
    }
    let at = match find_in(&v, 0, n, '@') {
        Some(i) => i,
        None => return None,
    };
    proof {
        assert(v@.subrange(0, at as int) =~= v@.subrange(0, n as int).subrange(0, at as int));
    }
    let x = match find_in(&v, 0, at, 'x') {
        Some(i) => i,
        None => return None,
    };
    let ghost res = v@.subrange(0, at as int);
    let ghost hz = v@.subrange(at as int + 1, n as int);
    proof {
        assert(res.subrange(0, x as int) =~= v@.subrange(0, x as int));
        assert(v@.subrange(0, at as int).subrange(0, x as int) =~= v@.subrange(0, x as int));
        assert(res.subrange(x as int + 1, res.len() as int) =~= v@.subrange(x as int + 1, at as int));
    }
    let (w_lo, w_hi) = trim_bounds(&v, 0, x);
    let (h_lo, h_hi) = trim_bounds(&v, x + 1, at);
    let end = strip_hz_end(&v, at + 1, n);
    let (r_lo, r_hi) = trim_bounds(&v, at + 1, end);
    let width = parse_u32_in(&v, w_lo, w_hi);
    let height = parse_u32_in(&v, h_lo, h_hi);
    let refresh = parse_millihz_in(&v, r_lo, r_hi);
    match (width, height, refresh) {
        (Some(width), Some(height), Some(refresh_millihz)) => Some(
            Mode { width, height, refresh_millihz },
        ),
        _ => None,
    }
}

/// Parse every mode string, dropping those that do not parse.
pub fn parse_available_modes(raw: &[String]) -> (modes: Vec<Mode>)
    ensures
        modes@ == parsed_modes(raw@.map_values(|s: String| s@)),
{
    let mut modes: Vec<Mode> = Vec::new();
    let mut i: usize = 0;
    while i < raw.len()
        invariant
            i <= raw.len(),
            modes@ == parsed_modes(raw@.subrange(0, i as int).map_values(|s: String| s@)),
        decreases raw.len() - i,
    {
        proof {
            let t = raw@.subrange(0, i as int + 1).map_values(|s: String| s@);
            assert(t.drop_last() =~= raw@.subrange(0, i as int).map_values(|s: String| s@));
            assert(t.last() == raw@[i as int]@);
        }
        if let Some(m) = parse_mode_string(raw[i].as_str()) {
            modes.push(m);
        }
        i = i + 1;
    }
    proof {
        assert(raw@.subrange(0, raw.len() as int) =~= raw@);
    }
    modes
}

/// The modes among `raw` that parse, in order.
pub open spec fn parsed_modes(raw: Seq<Seq<char>>) -> Seq<Mode>
    decreases raw.len(),
{
    if raw.len() == 0 {
        Seq::empty()
    } else {
        parsed_modes(raw.drop_last()) + match mode_text_parse(raw.last()) {
            Some(m) => seq![m],
            None => Seq::empty(),
        }
    }
}


/// `i32::from_str`: an optional sign, then one or more ASCII digits, the
/// value fitting in an `i32`.
pub open spec fn parse_i32_text(s: Seq<char>) -> Option<i32> {
    if s.len() > 0 && s[0] == '-' {
        let body = s.drop_first();
        if body.len() == 0 || !all_digits(body) || digits_value(body) > 0x8000_0000 {
            None
        } else {
            Some((0 - digits_value(body)) as i32)
        }
    } else {
        let body = unsigned_body(s);
        if body.len() == 0 || !all_digits(body) || digits_value(body) > i32::MAX {
            None
        } else {
            Some(digits_value(body) as i32)
        }
    }
}

/// Parse a signed decimal integer (such as a process id).
pub fn parse_i32(s: &str) -> (r: Option<i32>)
    ensures
        r == parse_i32_text(s@),
{
    let v = chars_of(s);
    let n = v.len();
    if n > 0 && v[0] == '-' {
        proof {
            assert(s@.drop_first() =~= v@.subrange(1, n as int));
        }
        if n == 1 {
            return None;
        }
        match digits_upto(&v, 1, n, 0x8000_0000) {
            Some(x) => Some((0 - (x as i64)) as i32),
            None => None,
        }
    } else {
        let start: usize = if n > 0 && v[0] == '+' {
            1
        } else {
            0
        };
        proof {
            assert(unsigned_body(s@) =~= v@.subrange(start as int, n as int));
        }
        if start == n {
            return None;
        }
        match digits_upto(&v, start, n, 0x7FFF_FFFF) {
            Some(x) => Some(x as i32),
            None => None,
        }
    }
}

/// `s.trim()` as a new `String`.
pub fn trimmed(s: &str) -> (r: String)
    ensures
        r@ == trim_text(s@),
{
    let v = chars_of(s);
    let n = v.len();
    let (lo, hi) = trim_bounds(&v, 0, n);
    proof {
        assert(v@.subrange(0, n as int) =~= s@);
    }
    let mut out = String::new();
    let mut i = lo;
    while i < hi
        invariant
            lo <= i <= hi <= v.len(),
            out@ == v@.subrange(lo as int, i as int),
        decreases hi - i,
    {
        push_char(&mut out, v[i]);
        assert(out@ =~= v@.subrange(lo as int, i as int + 1));
        i = i + 1;
    }
    out
}

/// Whether a `/sys/class/drm` entry (`card1-DP-1`) belongs to connector
/// `connector`: the text after its first `-` is the connector's name.
pub fn drm_entry_is_connector(entry: &str, connector: &str) -> (b: bool)
    ensures
        b == (match split_once_text(entry@, '-') {
            Some((_, rest)) => rest == connector@,
            None => false,
        }),
{
    let v = chars_of(entry);
    let c = chars_of(connector);
    let n = v.len();
    proof {
        assert(v@.subrange(0, n as int) =~= v@);
    }
    let dash = match find_in(&v, 0, n, '-') {
        Some(i) => i,
        None => return false,
    };
    let ghost rest = v@.subrange(dash as int + 1, n as int);
    assert(split_once_text(entry@, '-') == Some((v@.subrange(0, dash as int), rest)));
    if n - dash - 1 != c.len() {
        assert(rest.len() != c@.len());
        return false;
    }
    let mut k: usize = 0;
    while k < c.len()
        invariant
            k <= c.len(),
            dash + 1 + c.len() == n,
            n == v.len(),
            rest == v@.subrange(dash as int + 1, n as int),
            split_once_text(entry@, '-') == Some((v@.subrange(0, dash as int), rest)),
            c@ == connector@,
            forall|j: int| 0 <= j < k ==> rest[j] == c@[j],
        decreases c.len() - k,
    {
        if v[dash + 1 + k] != c[k] {
            assert(rest[k as int] != c@[k as int]);
            return false;
        }
        k = k + 1;
    }
    assert(rest =~= c@);
    true
}

// ---------------------------------------------------------------------------
// Refresh rates in exponent notation.

proof fn lemma_pow10_step(n: nat)
    ensures
        pow10(n + 1) == 10 * pow10(n),
        pow10(n) >= 1,
    decreases n,
{
    if n > 0 {
        lemma_pow10_step((n - 1) as nat);
    }
}

proof fn lemma_pow10_mono(a: nat, b: nat)
    requires
        a <= b,
    ensures
        1 <= pow10(a) <= pow10(b),
    decreases b,
{
    lemma_pow10_step(a);
    if a < b {
        lemma_pow10_mono(a, (b - 1) as nat);
        lemma_pow10_step((b - 1) as nat);
    }
}

proof fn lemma_digit_value_small(c: char)
    requires
        is_digit(c),
    ensures
        digit_value(c) <= 9,
{
}

/// The value of `s` split at `p`: the prefix shifted by the suffix length
/// plus the suffix.
#[verifier::spinoff_prover]
proof fn lemma_digits_split(s: Seq<char>, p: int)
    requires
        0 <= p <= s.len(),
    ensures
        digits_value(s) == digits_value(s.subrange(0, p)) * pow10((s.len() - p) as nat) + digits_value(
            s.subrange(p, s.len() as int),
        ),
    decreases s.len(),
{
    if p == s.len() {
        assert(s.subrange(0, p) =~= s);
        assert(s.subrange(p, s.len() as int) =~= Seq::<char>::empty());
        assert(pow10(0) == 1);
        let v = digits_value(s) as int;
        let one = pow10((s.len() - p) as nat) as int;
        assert(one == 1);
        assert(v * one == v) by (nonlinear_arith)
            requires
                one == 1,
        ;
        assert(digits_value(Seq::<char>::empty()) == 0);
    } else {
        let s1 = s.drop_last();
        lemma_digits_split(s1, p);
        assert(s1.subrange(0, p) =~= s.subrange(0, p));
        let suf = s.subrange(p, s.len() as int);
        assert(suf.drop_last() =~= s1.subrange(p, s1.len() as int));
        assert(suf.last() == s.last());
        lemma_pow10_step((s1.len() - p) as nat);
        let a = digits_value(s.subrange(0, p)) as int;
        let q = pow10((s1.len() - p) as nat) as int;
        let b = digits_value(s1.subrange(p, s1.len() as int)) as int;
        let dl = digit_value(s.last()) as int;
        assert(digits_value(s) == digits_value(s1) * 10 + dl);
        assert(digits_value(suf) == b * 10 + dl);
        assert(pow10((s.len() - p) as nat) == 10 * q) by {
            assert((s.len() - p) as nat == (s1.len() - p) as nat + 1);
        }
        assert(digits_value(s1) == a * q + b);
        assert((a * q + b) * 10 + dl == a * (10 * q) + (b * 10 + dl)) by (nonlinear_arith);
        let big_q = pow10((s.len() - p) as nat) as int;
        assert(a * big_q == a * (10 * q)) by (nonlinear_arith)
            requires
                big_q == 10 * q,
        ;
        assert(digits_value(s.subrange(0, p)) == a);
        assert(digits_value(s) == a * big_q + digits_value(suf));
    }
}

proof fn lemma_digits_below(s: Seq<char>)
    requires
        all_digits(s),
    ensures
        digits_value(s) < pow10(s.len()),
    decreases s.len(),
{
    if s.len() > 0 {
        let s1 = s.drop_last();
        assert forall|i: int| 0 <= i < s1.len() implies #[trigger] is_digit(s1[i]) by {
            assert(s1[i] == s[i]);
        }
        lemma_digits_below(s1);
        assert(is_digit(s[s.len() - 1]));
        lemma_digit_value_small(s.last());
        lemma_pow10_step(s1.len());
    }
}

proof fn lemma_round_half_up(n: int, big: int, c: int, r: int, q: int)
    requires
        q >= 1,
        0 <= c <= 9,
        0 <= r < q,
        big >= 0,
        n == big * (10 * q) + c * q + r,
    ensures
        (2 * n + 10 * q) / (2 * (10 * q)) == big + (if c >= 5 { 1int } else { 0int }),
{
    let b: int = if c >= 5 { 1 } else { 0 };
    let rem = 2 * c * q + 2 * r + 10 * q - 20 * b * q;
    assert(2 * n + 10 * q == (big + b) * (2 * (10 * q)) + rem) by (nonlinear_arith)
        requires
            n == big * (10 * q) + c * q + r,
            rem == 2 * c * q + 2 * r + 10 * q - 20 * b * q,
    ;
    if c >= 5 {
        assert(0 <= rem < 2 * (10 * q)) by (nonlinear_arith)
            requires
                5 <= c <= 9,
                0 <= r < q,
                q >= 1,
                b == 1,
                rem == 2 * c * q + 2 * r + 10 * q - 20 * b * q,
        ;
    } else {
        assert(0 <= rem < 2 * (10 * q)) by (nonlinear_arith)
            requires
                0 <= c <= 4,
                0 <= r < q,
                q >= 1,
                b == 0,
                rem == 2 * c * q + 2 * r + 10 * q - 20 * b * q,
        ;
    }
    vstd::arithmetic::div_mod::lemma_fundamental_div_mod_converse(2 * n + 10 * q, 2 * (10 * q), big + b, rem);
}

fn find_exp_in(s: &Vec<char>, from: usize, to: usize) -> (r: Option<usize>)
    requires
        from <= to <= s.len(),
    ensures
        r matches Some(i) ==> i < to - from && find_exp(s@.subrange(from as int, to as int)) == Some(i as int),
        r is None ==> find_exp(s@.subrange(from as int, to as int)) is None,
{
    let a = find_in(s, from, to, 'e');
    let b = find_in(s, from, to, 'E');
    match (a, b) {
        (Some(x), Some(y)) => Some(if x < y { x } else { y }),
        (Some(x), None) => Some(x),
        (None, Some(y)) => Some(y),
        (None, None) => None,
    }
}

fn all_digits_in(s: &Vec<char>, from: usize, to: usize) -> (b: bool)
    requires
        from <= to <= s.len(),
    ensures
        b == all_digits(s@.subrange(from as int, to as int)),
{
    let ghost seg = s@.subrange(from as int, to as int);
    let mut i = from;
    while i < to
        invariant
            from <= i <= to <= s.len(),
            seg == s@.subrange(from as int, to as int),
            forall|k: int| 0 <= k < i - from ==> #[trigger] is_digit(seg[k]),
        decreases to - i,
    {
        if !('0' <= s[i] && s[i] <= '9') {
            assert(!is_digit(seg[i - from]));
            return false;
        }
        i = i + 1;
    }
    true
}

/// The exponent `2^80` stands for in `exp_capped_in`.
spec fn exp_cap() -> int {
    0x1_0000_0000_0000_0000_0000
}

/// `exp_value` of `s[from..to]`, clamped into `[-2^80, 2^80]`.
fn exp_capped_in(s: &Vec<char>, from: usize, to: usize) -> (r: Option<i128>)
    requires
        from <= to <= s.len(),
    ensures
        r is None <==> exp_value(s@.subrange(from as int, to as int)) is None,
        r matches Some(x) ==> (exp_value(s@.subrange(from as int, to as int)) matches Some(e) && x == (if e
            > exp_cap() {
            exp_cap()
        } else if e < -exp_cap() {
            -exp_cap()
        } else {
            e
        })),
{
    let ghost t = s@.subrange(from as int, to as int);
    let neg = from < to && s[from] == '-';
    let start = if from < to && (s[from] == '-' || s[from] == '+') {
        from + 1
    } else {
        from
    };
    let ghost body = s@.subrange(start as int, to as int);
    proof {
        if from < to {
            assert(t[0] == s@[from as int]);
        }
        if from < to && (t[0] == '-' || t[0] == '+') {
            assert(t.drop_first() =~= body);
        } else {
            assert(t =~= body);
        }
    }
    if start == to {
        return None;
    }
    let cap: u128 = 0x1_0000_0000_0000_0000_0000;
    let mut v: u128 = 0;
    let mut big = false;
    let mut i = start;
    while i < to
        invariant
            start <= i <= to <= s.len(),
            body == s@.subrange(start as int, to as int),
            body == exp_body(t),
            t == s@.subrange(from as int, to as int),
            neg == (t.len() > 0 && t[0] == '-'),
            cap == exp_cap(),
            all_digits(body.subrange(0, i - start)),
            !big ==> v == digits_value(body.subrange(0, i - start)) && v <= cap,
            big ==> digits_value(body.subrange(0, i - start)) > cap,
        decreases to - i,
    {
        let c = s[i];
        proof {
            assert(body[i - start] == c);
        }
        if !('0' <= c && c <= '9') {
            assert(!is_digit(body[i - start]));
            return None;
        }
        proof {
            lemma_digits_value_step(body, i - start);
            assert(all_digits(body.subrange(0, i - start + 1))) by {
                assert forall|k: int| 0 <= k < i - start + 1 implies #[trigger] is_digit(
                    body.subrange(0, i - start + 1)[k],
                ) by {
                    if k < i - start {
                        assert(body.subrange(0, i - start + 1)[k] == body.subrange(0, i - start)[k]);
                    }
                }
            }
        }
        if !big {
            let nv = v * 10 + (c as u32 - 48) as u128;
            if nv > cap {
                big = true;
            } else {
                v = nv;
            }
        }
        i = i + 1;
    }
    proof {
        assert(body.subrange(0, to - start) =~= body);
    }
    let x: i128 = if big {
        cap as i128
    } else {
        v as i128
    };
    if neg {
        Some(-x)
    } else {
        Some(x)
    }
}

fn pow10_exec(n: u32) -> (p: u128)
    requires
        n <= 10,
    ensures
        p == pow10(n as nat),
        p <= 10_000_000_000,
{
    proof {
        reveal_with_fuel(pow10, 11);
        lemma_pow10_mono(n as nat, 10);
    }
    let mut p: u128 = 1;
    let mut i: u32 = 0;
    while i < n
        invariant
            i <= n <= 10,
            p == pow10(i as nat),
            pow10(n as nat) <= 10_000_000_000,
        decreases n - i,
    {
        proof {
            lemma_pow10_step(i as nat);
            lemma_pow10_mono((i + 1) as nat, n as nat);
        }
        p = p * 10;
        i = i + 1;
    }
    p
}

/// The result `exp_millihz` gives for value `v`.
pub open spec fn millihz_result(v: int) -> Option<u32> {
    if v > u32::MAX {
        None
    } else {
        Some(v as u32)
    }
}

/// `scaled_value` of the digits `d` for a non-negative shift.
fn scaled_up(d: &Vec<char>, tt: i128, Ghost(t_real): Ghost<int>) -> (r: Option<u32>)
    requires
        all_digits(d@),
        tt >= 0,
        t_real >= 0,
        tt <= 10 ==> t_real == tt,
        tt > 10 ==> t_real > 10,
    ensures
        r == millihz_result(scaled_value(digits_value(d@), t_real)),
{
    let ghost n = digits_value(d@);
    proof {
        lemma_pow10_mono(0, t_real as nat);
        assert(n * pow10(t_real as nat) >= n) by (nonlinear_arith)
            requires
                pow10(t_real as nat) >= 1,
        ;
        assert(d@.subrange(0, d.len() as int) =~= d@);
    }
    let nv = match digits_upto(d, 0, d.len(), 0xFFFF_FFFF) {
        Some(nv) => nv,
        None => return None,
    };
    if tt > 10 {
        proof {
            lemma_pow10_mono(11, t_real as nat);
            reveal_with_fuel(pow10, 12);
            if n > 0 {
                assert(n * pow10(t_real as nat) >= pow10(t_real as nat)) by (nonlinear_arith)
                    requires
                        n >= 1,
                        pow10(t_real as nat) >= 1,
                ;
            }
        }
        if nv == 0 {
            proof {
                assert(n * pow10(t_real as nat) == 0) by (nonlinear_arith)
                    requires
                        n == 0,
                ;
            }
            return Some(0);
        } else {
            return None;
        }
    }
    let p = pow10_exec(tt as u32);
    proof {
        assert(nv * p <= 0xFFFF_FFFF * 10_000_000_000) by (nonlinear_arith)
            requires
                nv <= 0xFFFF_FFFF,
                p <= 10_000_000_000,
        ;
    }
    let v = (nv as u128) * p;
    if v > 0xFFFF_FFFF {
        return None;
    }
    Some(v as u32)
}

/// `scaled_value` of the digits `d` for a negative shift: the value rounded
/// half up after dropping the last `-tt` digits.
fn scaled_down(d: &Vec<char>, tt: i128, Ghost(t_real): Ghost<int>) -> (r: Option<u32>)
    requires
        all_digits(d@),
        tt < 0,
        t_real <= tt,
        d.len() + tt >= 0 ==> t_real == tt,
        d.len() < 0x1_0000_0000_0000_0000,
        tt > -0x1_0000_0000_0000_0000_0000_0000,
    ensures
        r == millihz_result(scaled_value(digits_value(d@), t_real)),
{
    let ghost dd = d@;
    let ghost n = digits_value(dd);
    proof {
        lemma_digits_below(dd);
    }
    let ld = d.len();
    let k: i128 = -tt;
    let pp: i128 = ld as i128 - k;
    if pp < 0 {
        proof {
            let kr = -t_real;
            assert(kr >= ld + 1);
            lemma_pow10_mono(ld as nat, (kr - 1) as nat);
            lemma_pow10_step((kr - 1) as nat);
            let big_p = pow10(kr as nat) as int;
            assert(n < big_p);
            assert(0 <= 2 * n + big_p < 2 * big_p);
            vstd::arithmetic::div_mod::lemma_fundamental_div_mod_converse(
                2 * n + big_p,
                2 * big_p,
                0,
                2 * n + big_p,
            );
            assert((2 * n + big_p) / (2 * big_p) == 0);
            assert(scaled_value(n, t_real) == 0);
        }
        return Some(0);
    }
    let p = pp as usize;
    let ghost kk = k as int;
    let ghost big_i = digits_value(dd.subrange(0, p as int));
    proof {
        lemma_digits_split(dd, p as int);
        lemma_pow10_step((kk - 1) as nat);
    }
    let big = if p == 0 {
        proof {
            assert(dd.subrange(0, 0) =~= Seq::<char>::empty());
        }
        0
    } else {
        match digits_upto(d, 0, p, 0xFFFF_FFFF) {
            Some(v) => v,
            None => {
                proof {
                    assert(big_i > 0xFFFF_FFFF);
                    assert(n >= big_i * pow10(kk as nat));
                    lemma_round_split_lower(n as int, big_i as int, kk);
                }
                return None;
            },
        }
    };
    let c = d[p];
    let bit: u64 = if c >= '5' {
        1
    } else {
        0
    };
    proof {
        let suf = dd.subrange(p as int, ld as int);
        lemma_digits_split(suf, 1);
        assert(suf.subrange(0, 1) =~= seq![c]);
        lemma_digits_value_short(c, c, c);
        let rest = suf.subrange(1, kk);
        assert forall|j: int| 0 <= j < rest.len() implies #[trigger] is_digit(rest[j]) by {
            assert(rest[j] == dd[p + 1 + j]);
        }
        lemma_digits_below(rest);
        assert(is_digit(dd[p as int]));
        lemma_digit_value_small(c);
        assert(pow10(kk as nat) == 10 * pow10((kk - 1) as nat));
        lemma_round_half_up(
            n as int,
            big_i as int,
            digit_value(c) as int,
            digits_value(rest) as int,
            pow10((kk - 1) as nat) as int,
        );
    }
    let v = big + bit;
    if v > 0xFFFF_FFFF {
        return None;
    }
    Some(v as u32)
}

/// A rounded quotient is at least the whole part: `(2n + 10^k) / (2 * 10^k)`
/// is at least `b` when `n >= b * 10^k`.
proof fn lemma_round_split_lower(n: int, b: int, k: int)
    requires
        k >= 1,
        b >= 0,
        n >= b * pow10(k as nat),
    ensures
        (2 * n + pow10(k as nat)) / (2 * pow10(k as nat) as int) >= b,
{
    lemma_pow10_mono(0, k as nat);
    let q = pow10(k as nat) as int;
    assert(2 * n + q >= b * (2 * q)) by (nonlinear_arith)
        requires
            n >= b * q,
            q >= 1,
    ;
    vstd::arithmetic::div_mod::lemma_div_is_ordered(b * (2 * q), 2 * n + q, 2 * q);
    vstd::arithmetic::div_mod::lemma_div_by_multiple(b, 2 * q);
}

/// `exp_millihz` of the mantissa `s[from..e_at]` and the exponent
/// `s[e_at + 1..to]`.
fn exp_millihz_in(s: &Vec<char>, from: usize, e_at: usize, to: usize) -> (r: Option<u32>)
    requires
        from <= e_at < to <= s.len(),
    ensures
        r == exp_millihz(s@.subrange(from as int, e_at as int), s@.subrange(e_at + 1, to as int)),
{
    let ghost m = s@.subrange(from as int, e_at as int);
    let ghost t = s@.subrange(e_at + 1, to as int);
    let (ip_end, fp_start) = match find_in(s, from, e_at, '.') {
        Some(i) => (from + i, from + i + 1),
        None => (e_at, e_at),
    };
    let ghost ip = s@.subrange(from as int, ip_end as int);
    let ghost fp = s@.subrange(fp_start as int, e_at as int);
    proof {
        assert(ip =~= int_part(m));
        assert(fp =~= frac_part(m));
    }
    if ip_end == from && fp_start == e_at {
        return None;
    }
    if !all_digits_in(s, from, ip_end) || !all_digits_in(s, fp_start, e_at) {
        return None;
    }
    let x = match exp_capped_in(s, e_at + 1, to) {
        Some(x) => x,
        None => return None,
    };
    let ghost e = exp_value(t)->0;
    let mut d: Vec<char> = Vec::new();
    let mut i = from;
    while i < ip_end
        invariant
            from <= i <= ip_end <= e_at,
            e_at <= s.len(),
            d@ == s@.subrange(from as int, i as int),
        decreases ip_end - i,
    {
        d.push(s[i]);
        assert(d@ =~= s@.subrange(from as int, i + 1));
        i = i + 1;
    }
    let mut i = fp_start;
    while i < e_at
        invariant
            fp_start <= i <= e_at <= s.len(),
            d@ == ip + s@.subrange(fp_start as int, i as int),
        decreases e_at - i,
    {
        d.push(s[i]);
        assert(d@ =~= ip + s@.subrange(fp_start as int, i + 1));
        i = i + 1;
    }
    proof {
        assert(d@ =~= ip + fp);
        assert forall|k: int| 0 <= k < d@.len() implies #[trigger] is_digit(d@[k]) by {
            if k < ip.len() {
                assert(d@[k] == ip[k]);
            } else {
                assert(d@[k] == fp[k - ip.len()]);
            }
        }
    }
    let f = e_at - fp_start;
    let tt: i128 = x + 3 - f as i128;
    let ghost t_real: int = e + 3 - f;
    proof {
        assert(f == fp.len());
        assert(exp_millihz(m, t) == millihz_result(scaled_value(digits_value(d@), t_real)));
    }
    if tt >= 0 {
        scaled_up(&d, tt, Ghost(t_real))
    } else {
        scaled_down(&d, tt, Ghost(t_real))
    }
}

// ---------------------------------------------------------------------------
// Reading back what `mode_text` writes.

proof fn lemma_digit_char(d: int)
    requires
        0 <= d < 10,
    ensures
        is_digit(digit_char(d)),
        digit_value(digit_char(d)) == d,
        !is_ws(digit_char(d)),
        digit_char(d) != '+' && digit_char(d) != '.' && digit_char(d) != 'x',
        digit_char(d) != '@' && digit_char(d) != 'z',
        (digit_char(d) == '0') == (d == 0),
{
    assert(((d + 48) as u8) as int == d + 48);
    assert((((d + 48) as u8) as char) as u32 == d + 48);
}

proof fn lemma_nat_digits(n: nat)
    ensures
        nat_digits(n).len() >= 1,
        all_digits(nat_digits(n)),
        digits_value(nat_digits(n)) == n,
        forall|k: int| 0 <= k < nat_digits(n).len() ==> {
            let c = #[trigger] nat_digits(n)[k];
            &&& !is_ws(c)
            &&& c != '+' && c != '.' && c != 'x' && c != '@' && c != 'z'
        },
    decreases n,
{
    if n < 10 {
        lemma_digit_char(n as int);
        assert(nat_digits(n) =~= seq![digit_char(n as int)]);
        assert(digits_value(nat_digits(n)) == digits_value(nat_digits(n).drop_last()) * 10
            + digit_value(nat_digits(n).last()));
        assert(nat_digits(n).drop_last() =~= Seq::<char>::empty());
    } else {
        lemma_nat_digits(n / 10);
        lemma_digit_char((n % 10) as int);
        let s = nat_digits(n);
        assert(s.drop_last() =~= nat_digits(n / 10));
        assert(s.last() == digit_char((n % 10) as int));
        assert forall|k: int| 0 <= k < s.len() implies #[trigger] is_digit(s[k]) by {
            if k < s.len() - 1 {
                assert(s[k] == nat_digits(n / 10)[k]);
            }
        }
        assert forall|k: int| 0 <= k < s.len() implies {
            let c = #[trigger] s[k];
            &&& !is_ws(c)
            &&& c != '+' && c != '.' && c != 'x' && c != '@' && c != 'z'
        } by {
            if k < s.len() - 1 {
                assert(s[k] == nat_digits(n / 10)[k]);
            }
        }
    }
}

proof fn lemma_find_char_at(s: Seq<char>, c: char, i: int)
    requires
        0 <= i < s.len(),
        s[i] == c,
        forall|k: int| 0 <= k < i ==> s[k] != c,
    ensures
        find_char(s, c) == Some(i),
{
    lemma_find_char_prefix(s, c, i);
    assert(s.subrange(0, i + 1).drop_last() =~= s.subrange(0, i));
    if i + 1 < s.len() {
        lemma_find_char_extend(s, c, i, s.len() as int);
    }
    assert(s.subrange(0, s.len() as int) =~= s);
}

proof fn lemma_find_char_absent(s: Seq<char>, c: char)
    requires
        forall|k: int| 0 <= k < s.len() ==> s[k] != c,
    ensures
        find_char(s, c) is None,
{
    lemma_find_char_prefix(s, c, s.len() as int);
    assert(s.subrange(0, s.len() as int) =~= s);
}

/// The text of a plain digit string reads back as itself.
proof fn lemma_u32_text(n: u32)
    ensures
        parse_u32_text(trim_text(nat_digits(n as nat))) == Some(n),
{
    let s = nat_digits(n as nat);
    lemma_nat_digits(n as nat);
    assert(!is_ws(s[0]));
    assert(!is_ws(s.last()));
    assert(trim_start_text(s) == s);
    assert(trim_end_text(s) == s);
    assert(s[0] != '+');
    assert(unsigned_body(s) == s);
}

proof fn lemma_digits_value_short(a: char, b: char, c: char)
    ensures
        digits_value(seq![a]) == digit_value(a),
        digits_value(seq![a, b]) == digit_value(a) * 10 + digit_value(b),
        digits_value(seq![a, b, c]) == (digit_value(a) * 10 + digit_value(b)) * 10 + digit_value(c),
{
    assert(seq![a].drop_last() =~= Seq::<char>::empty());
    assert(digits_value(seq![a].drop_last()) == 0);
    let ab = seq![a, b];
    let abc = seq![a, b, c];
    assert(ab.drop_last() =~= seq![a]);
    assert(ab.len() == 2 && ab.last() == b);
    assert(digits_value(ab) == digits_value(ab.drop_last()) * 10 + digit_value(ab.last()));
    assert(abc.drop_last() =~= ab);
    assert(abc.len() == 3 && abc.last() == c);
    assert(digits_value(abc) == digits_value(abc.drop_last()) * 10 + digit_value(abc.last()));
}

/// The three fraction digits of `x` (`0 < x < 1000`) with trailing zeros
/// removed: between one and three digits whose value, scaled back to
/// thousandths, is `x`.
proof fn lemma_trimmed_fraction(x: nat)
    requires
        0 < x < 1000,
    ensures
        ({
            let f = trim_zeros(padded_digits(x, 3));
            &&& 1 <= f.len() <= 3
            &&& all_digits(f)
            &&& !is_ws(f.last())
            &&& f.last() != 'z'
            &&& forall|k: int| 0 <= k < f.len() ==> #[trigger] f[k] != '.'
            &&& frac_thousandths(f) == x
        }),
{
    let (a, b, c) = ((x / 100) % 10, (x / 10) % 10, x % 10);
    lemma_digit_char(a as int);
    lemma_digit_char(b as int);
    lemma_digit_char(c as int);
    let (ca, cb, cc) = (digit_char(a as int), digit_char(b as int), digit_char(c as int));
    assert(padded_digits(x, 3) =~= seq![ca, cb, cc]) by {
        reveal_with_fuel(padded_digits, 4);
        assert((x / 10) / 10 == x / 100);
    }
    let p = seq![ca, cb, cc];
    assert(x == a * 100 + b * 10 + c);
    if c != 0 {
        assert(trim_zeros(p) == p);
        let f = p;
        assert(f.drop_last() =~= seq![ca, cb]);
        assert(f.drop_last().drop_last() =~= seq![ca]);
        assert(f.drop_last().drop_last().drop_last() =~= Seq::<char>::empty());
        assert(f.subrange(0, 3) =~= f);
        lemma_digits_value_short(ca, cb, cc);
        assert(digits_value(seq![ca, cb]) == a * 10 + b);
        assert(digits_value(f) == (a * 10 + b) * 10 + c);
    } else if b != 0 {
        assert(p.drop_last() =~= seq![ca, cb]);
        assert(trim_zeros(p) == trim_zeros(seq![ca, cb]));
        assert(trim_zeros(seq![ca, cb]) == seq![ca, cb]);
        let f = seq![ca, cb];
        assert(f.drop_last() =~= seq![ca]);
        assert(f.drop_last().drop_last() =~= Seq::<char>::empty());
        lemma_digits_value_short(ca, cb, cc);
        assert(digits_value(f) == a * 10 + b);
    } else {
        assert(a != 0);
        assert(p.drop_last() =~= seq![ca, cb]);
        assert(seq![ca, cb].drop_last() =~= seq![ca]);
        assert(trim_zeros(p) == trim_zeros(seq![ca, cb]));
        assert(trim_zeros(seq![ca, cb]) == trim_zeros(seq![ca]));
        assert(trim_zeros(seq![ca]) == seq![ca]);
        lemma_digits_value_short(ca, cb, cc);
    }
}

/// A refresh rate's text reads back as the same rate.
proof fn lemma_hz_text_round_trip(r: u32)
    ensures
        parse_millihz_text(trim_text(strip_hz_text(hz_text(r)))) == Some(r),
        hz_text(r).len() >= 1,
        forall|k: int| 0 <= k < hz_text(r).len() ==> #[trigger] hz_text(r)[k] != '@',
{
    lemma_pow10_3();
    let t = hz_text(r);
    let d = nat_digits((r / 1000) as nat);
    lemma_nat_digits((r / 1000) as nat);
    if r % 1000 == 0 {
        assert(t == d);
        assert(d.len() < 2 || d[d.len() - 1] != 'z');
        assert(strip_hz_text(t) == t);
        assert(trim_start_text(t) == t);
        assert(trim_end_text(t) == t);
        assert(unsigned_body(t) == t);
        lemma_find_char_absent(t, '.');
        assert(frac_part(t) =~= Seq::<char>::empty());
        assert(int_part(t) == t);
        assert(all_digits(Seq::<char>::empty()));
        assert(frac_thousandths(Seq::<char>::empty()) == 0);
        assert forall|k: int| 0 <= k < t.len() implies t[k] != 'e' && t[k] != 'E' by {
            assert(is_digit(d[k]));
        }
        lemma_find_char_absent(t, 'e');
        lemma_find_char_absent(t, 'E');
        assert(find_exp(t) is None);
    } else {
        let f = trim_zeros(padded_digits((r % 1000) as nat, 3));
        lemma_trimmed_fraction((r % 1000) as nat);
        assert(t == d + seq!['.'] + f);
        assert(t.last() == f.last());
        assert(strip_hz_text(t) == t);
        assert(t[0] == d[0]);
        assert(trim_start_text(t) == t);
        assert(trim_end_text(t) == t);
        assert(unsigned_body(t) == t);
        assert(t[d.len() as int] == '.');
        assert forall|k: int| 0 <= k < d.len() implies t[k] != '.' by {
            assert(t[k] == d[k]);
        }
        lemma_find_char_at(t, '.', d.len() as int);
        assert(t.subrange(0, d.len() as int) =~= d);
        assert(t.subrange(d.len() as int + 1, t.len() as int) =~= f);
        assert forall|k: int| 0 <= k < t.len() implies #[trigger] t[k] != '@' by {
            if k < d.len() {
                assert(t[k] == d[k]);
            } else if k > d.len() {
                assert(t[k] == f[k - d.len() - 1]);
                assert(is_digit(f[k - d.len() - 1]));
            }
        }
        assert forall|k: int| 0 <= k < t.len() implies t[k] != 'e' && t[k] != 'E' by {
            if k < d.len() {
                assert(t[k] == d[k]);
                assert(is_digit(d[k]));
            } else if k > d.len() {
                assert(t[k] == f[k - d.len() - 1]);
                assert(is_digit(f[k - d.len() - 1]));
            }
        }
        lemma_find_char_absent(t, 'e');
        lemma_find_char_absent(t, 'E');
        assert(find_exp(t) is None);
    }
}

proof fn lemma_pow10_3()
    ensures
        pow10(3) == 1000,
{
    reveal_with_fuel(pow10, 4);
}

/// What `mode_text` writes reads back as the same mode: the saved
/// configuration and Hyprland's mode lists round-trip through the parser.
pub proof fn lemma_mode_text_round_trip(m: Mode)
    ensures
        mode_text_parse(mode_text(m)) == Some(m),
{
    let w = nat_digits(m.width as nat);
    let h = nat_digits(m.height as nat);
    let t = hz_text(m.refresh_millihz);
    lemma_nat_digits(m.width as nat);
    lemma_nat_digits(m.height as nat);
    lemma_hz_text_round_trip(m.refresh_millihz);
    lemma_u32_text(m.width);
    lemma_u32_text(m.height);
    let s = mode_text(m);
    let res = w + seq!['x'] + h;
    assert(s =~= res + seq!['@'] + t);
    let at = res.len() as int;
    assert forall|k: int| 0 <= k < at implies s[k] != '@' by {
        if k < w.len() {
            assert(s[k] == w[k]);
        } else if k > w.len() {
            assert(s[k] == h[k - w.len() - 1]);
        }
    }
    lemma_find_char_at(s, '@', at);
    assert(s.subrange(0, at) =~= res);
    assert(s.subrange(at + 1, s.len() as int) =~= t);
    assert forall|k: int| 0 <= k < w.len() implies res[k] != 'x' by {
        assert(res[k] == w[k]);
    }
    lemma_find_char_at(res, 'x', w.len() as int);
    assert(res.subrange(0, w.len() as int) =~= w);
    assert(res.subrange(w.len() as int + 1, res.len() as int) =~= h);
}

} // verus!
