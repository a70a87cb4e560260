//! Geographic positions as plain values. A coordinate is held in millionths
//! of a degree, parsed from a decimal token of the form `[+|-]digits`,
//! `[+|-]digits.digits`, `[+|-].digits` or `[+|-]digits.`; fractional digits
//! beyond the sixth are ignored, and a token whose integer part reaches
//! 10^12 is rejected rather than overflowing. A `pushback_pos`-style value is
//! two such tokens separated by a space; any malformed value falls back to
//! the origin (0, 0) rather than failing.

use vstd::prelude::*;

use crate::text::{find_char, first_index_of, lemma_first_index_of, split_char, split_on, views_of};

verus! {

/// A point on the globe, in millionths of a degree.
#[derive(Clone, Copy, PartialEq, Eq, Structural, Debug)]
pub struct GeoPosition {
    pub lat_micro: i64,
    pub lon_micro: i64,
}

/// An ASCII decimal digit.
pub open spec fn is_digit_char(c: char) -> bool {
    48 <= c as u32 && c as u32 <= 57
}

/// The numeric value of a digit character.
pub open spec fn digit_val(c: char) -> int {
    c as u32 - 48
}

pub open spec fn all_digits(s: Seq<char>) -> bool {
    forall|i: int| 0 <= i < s.len() ==> is_digit_char(s[i])
}

/// The number denoted by a run of digits, most significant first.
pub open spec fn digits_val(s: Seq<char>) -> int
    decreases s.len(),
{
    if s.len() == 0 {
        0
    } else {
        digits_val(s.take(s.len() - 1)) * 10 + digit_val(s[s.len() - 1])
    }
}

/// Ten to the `k`-th power, for small non-negative `k`.
pub open spec fn pow10(k: int) -> int
    decreases k,
{
    if k <= 0 {
        1
    } else {
        10 * pow10(k - 1)
    }
}

/// The digits before the decimal point (the whole token when there is none).
pub open spec fn int_part(body: Seq<char>) -> Seq<char> {
    if body.contains('.') {
        body.take(first_index_of(body, '.'))
    } else {
        body
    }
}

/// The digits after the first decimal point, empty when there is none.
pub open spec fn frac_part(body: Seq<char>) -> Seq<char> {
    if body.contains('.') {
        body.skip(first_index_of(body, '.') + 1)
    } else {
        Seq::empty()
    }
}

/// A well-formed unsigned decimal token: digits around at most one point,
/// with at least one digit somewhere.
pub open spec fn decimal_body_shape(body: Seq<char>) -> bool {
    &&& all_digits(int_part(body))
    &&& all_digits(frac_part(body))
    &&& int_part(body).len() + frac_part(body).len() > 0
}

/// The first six fractional digits scaled to millionths.
pub open spec fn frac_micro(f: Seq<char>) -> int {
    if f.len() >= 6 {
        digits_val(f.take(6))
    } else {
        digits_val(f) * pow10(6 - f.len())
    }
}

/// The magnitude of a well-formed unsigned token, in millionths.
pub open spec fn decimal_body_micro(body: Seq<char>) -> int {
    digits_val(int_part(body)) * 1_000_000 + frac_micro(frac_part(body))
}

/// Whether the token carries a leading minus sign.
pub open spec fn decimal_negative(s: Seq<char>) -> bool {
    s.len() > 0 && s[0] == '-'
}

/// The token without its sign character, if it has one.
pub open spec fn decimal_body_of(s: Seq<char>) -> Seq<char> {
    if s.len() > 0 && (s[0] == '-' || s[0] == '+') {
        s.skip(1)
    } else {
        s
    }
}

/// The value of a decimal token in millionths of a unit, `None` when the
/// token is malformed or its integer part reaches 10^12.
pub open spec fn micro_of_decimal(s: Seq<char>) -> Option<int> {
    let body = decimal_body_of(s);
    if decimal_body_shape(body) && digits_val(int_part(body)) < 1_000_000_000_000 {
        if decimal_negative(s) {
            Some(-decimal_body_micro(body))
        } else {
            Some(decimal_body_micro(body))
        }
    } else {
        None
    }
}

proof fn lemma_digits_val_snoc(u: Seq<char>, k: int)
    requires
        0 <= k < u.len(),
    ensures
        digits_val(u.take(k + 1)) == digits_val(u.take(k)) * 10 + digit_val(u[k]),
{
    let p = u.take(k + 1);
    assert(digits_val(p) == digits_val(p.take(p.len() - 1)) * 10 + digit_val(p[p.len() - 1]));
    assert(p.take(k) =~= u.take(k));
    assert(p[k] == u[k]);
}

proof fn lemma_digits_val_nonneg(u: Seq<char>)
    requires
        all_digits(u),
    ensures
        digits_val(u) >= 0,
    decreases u.len(),
{
    if u.len() > 0 {
        assert(all_digits(u.take(u.len() - 1)));
        lemma_digits_val_nonneg(u.take(u.len() - 1));
    }
}

proof fn lemma_digits_val_monotone(u: Seq<char>, k: int)
    requires
        all_digits(u),
        0 <= k <= u.len(),
    ensures
        digits_val(u) >= digits_val(u.take(k)),
    decreases u.len() - k,
{
    if k < u.len() {
        lemma_digits_val_snoc(u, k);
        assert(all_digits(u.take(k)));
        lemma_digits_val_nonneg(u.take(k));
        lemma_digits_val_monotone(u, k + 1);
    } else {
        assert(u.take(k) =~= u);
    }
}

proof fn lemma_pow10_pos(k: int)
    ensures
        pow10(k) >= 1,
    decreases k,
{
    if k > 0 {
        lemma_pow10_pos(k - 1);
    }
}

proof fn lemma_pow10_monotone(a: int, b: int)
    requires
        0 <= a <= b,
    ensures
        pow10(a) <= pow10(b),
    decreases b,
{
    if a < b {
        lemma_pow10_monotone(a, b - 1);
        lemma_pow10_pos(b - 1);
    }
}

proof fn lemma_digits_val_bound(u: Seq<char>)
    requires
        all_digits(u),
    ensures
        digits_val(u) < pow10(u.len() as int),
    decreases u.len(),
{
    if u.len() > 0 {
        assert(all_digits(u.take(u.len() - 1)));
        lemma_digits_val_bound(u.take(u.len() - 1));
    }
}

fn is_digit(c: char) -> (r: bool)
    ensures
        r == is_digit_char(c),
{
    let u = c as u32;
    48 <= u && u <= 57
}

fn pow10_exec(k: usize) -> (r: i64)
    requires
        k <= 6,
    ensures
        r == pow10(k as int),
        0 < r <= 1_000_000,
{
    proof {
        reveal_with_fuel(pow10, 8);
    }
    if k == 0 {
        1
    } else if k == 1 {
        10
    } else if k == 2 {
        100
    } else if k == 3 {
        1_000
    } else if k == 4 {
        10_000
    } else if k == 5 {
        100_000
    } else {
        1_000_000
    }
}

/// Parses one decimal coordinate token into millionths of a degree.
pub fn parse_coordinate(s: &str) -> (r: Option<i64>)
    ensures
        match r {
            Some(x) => micro_of_decimal(s@) == Some(x as int),
            None => micro_of_decimal(s@) is None,
        },
{
    let len = s.unicode_len();
    let mut pos: usize = 0;
    let mut negative = false;
    if len > 0 {
        let c0 = s.get_char(0);
        if c0 == '-' {
            negative = true;
            pos = 1;
        } else if c0 == '+' {
            pos = 1;
        }
    }
    let ghost body = decimal_body_of(s@);
    proof {
        assert(body =~= s@.skip(pos as int));
    }
    // Integer part: digits until a point or the end.
    let mut i: usize = pos;
    let mut intval: i64 = 0;
    let mut at_point = false;
    while i < len && !at_point
        invariant
            pos <= i <= len,
            len == s@.len(),
            body == decimal_body_of(s@),
            body == s@.skip(pos as int),
            negative == decimal_negative(s@),
            0 <= intval < 1_000_000_000_000,
            forall|j: int| pos <= j < i ==> s@[j] != '.',
            forall|j: int| pos <= j < i ==> is_digit_char(s@[j]),
            intval == digits_val(body.take(i - pos)),
            at_point ==> i < len && s@[i as int] == '.',
        decreases len - i, (if at_point {
            0int
        } else {
            1int
        }),
    {
        let c = s.get_char(i);
        if c == '.' {
            at_point = true;
        } else if !is_digit(c) {
            proof {
                // the integer part holds a non-digit, so the shape is wrong
                assert(body[i - pos] == s@[i as int]);
                if body.contains('.') {
                    lemma_first_index_of(body, '.');
                    assert(first_index_of(body, '.') > i - pos);
                    assert(int_part(body)[i - pos] == body[i - pos]);
                } else {
                    assert(int_part(body)[i - pos] == body[i - pos]);
                }
                assert(!all_digits(int_part(body)));
            }
            return None;
        } else {
            proof {
                lemma_digits_val_snoc(body, i - pos);
                assert(body.take(i - pos + 1).take(i - pos) =~= body.take(i - pos));
            }
            let d = (c as u8) - 48;
            let next = intval * 10 + (d as i64);
            if next >= 1_000_000_000_000 {
                proof {
                    // every longer digit run is at least as large, so the cap
                    // fails for the full integer part as well
                    assert(body[i - pos] == s@[i as int]);
                    if decimal_body_shape(body) {
                        let ip = int_part(body);
                        if body.contains('.') {
                            lemma_first_index_of(body, '.');
                            assert(first_index_of(body, '.') >= i - pos + 1);
                            assert(ip.take(i - pos + 1) =~= body.take(i - pos + 1));
                        } else {
                            assert(ip.take(i - pos + 1) =~= body.take(i - pos + 1));
                        }
                        lemma_digits_val_monotone(ip, i - pos + 1);
                    }
                }
                return None;
            }
            intval = next;
            i = i + 1;
        }
    }
    let int_digits = i - pos;
    proof {
        if !at_point {
            assert(i == len);
            assert(!body.contains('.')) by {
                if body.contains('.') {
                    lemma_first_index_of(body, '.');
                }
            }
            assert(int_part(body) =~= body.take(i - pos));
            assert(frac_part(body) =~= Seq::<char>::empty());
        } else {
            assert(s@[i as int] == '.');
            assert(body[i - pos] == '.');
            assert(body.contains('.'));
            lemma_first_index_of(body, '.');
            assert(first_index_of(body, '.') == i - pos);
            assert(int_part(body) =~= body.take(i - pos));
        }
        assert(all_digits(int_part(body)));
        assert(int_part(body).len() == int_digits as int);
        assert(intval == digits_val(int_part(body)));
    }
    let mut fracval: i64 = 0;
    let mut frac_digits: usize = 0;
    if at_point {
        // Fractional part: all remaining characters must be digits; only the
        // first six contribute to the value.
        let ghost fp = body.skip(i - pos + 1);
        proof {
            assert(frac_part(body) =~= fp);
            assert(fp =~= s@.skip(i + 1));
        }
        let mut j: usize = i + 1;
        while j < len
            invariant
                i + 1 <= j <= len,
                i < len,
                pos <= i,
                len == s@.len(),
                body == decimal_body_of(s@),
                negative == decimal_negative(s@),
                fp == frac_part(body),
                fp == s@.skip(i + 1),
                all_digits(int_part(body)),
                int_part(body).len() == int_digits as int,
                intval == digits_val(int_part(body)),
                0 <= intval < 1_000_000_000_000,
                frac_digits == j - i - 1,
                0 <= fracval < 1_000_000,
                forall|k: int| i + 1 <= k < j ==> is_digit_char(s@[k]),
                frac_digits <= 6 ==> fracval == digits_val(fp.take(frac_digits as int)),
                frac_digits > 6 ==> fracval == digits_val(fp.take(6)),
            decreases len - j,
        {
            let c = s.get_char(j);
            if !is_digit(c) {
                proof {
                    assert(fp[j - i - 1] == s@[j as int]);
                    assert(!all_digits(frac_part(body)));
                }
                return None;
            }
            if frac_digits < 6 {
                proof {
                    lemma_digits_val_snoc(fp, frac_digits as int);
                    assert(fp.take(frac_digits + 1).take(frac_digits as int) =~= fp.take(
                        frac_digits as int,
                    ));
                    assert(forall|k: int|
                        0 <= k < frac_digits ==> fp[k] == s@[i + 1 + k]);
                    assert(all_digits(fp.take(frac_digits as int)));
                    lemma_digits_val_nonneg(fp.take(frac_digits as int));
                    lemma_digits_val_bound(fp.take(frac_digits as int));
                    lemma_pow10_monotone(frac_digits as int, 5);
                    reveal_with_fuel(pow10, 8);
                }
                let d = (c as u8) - 48;
                fracval = fracval * 10 + (d as i64);
            }
            frac_digits = frac_digits + 1;
            j = j + 1;
        }
        proof {
            assert(forall|k: int| 0 <= k < fp.len() ==> fp[k] == s@[i + 1 + k]);
            assert(all_digits(fp));
            assert(fp.len() == frac_digits as int);
            assert(fp.take(frac_digits as int) =~= fp);
        }
    }
    if int_digits == 0 && frac_digits == 0 {
        proof {
            assert(int_part(body).len() + frac_part(body).len() == 0);
        }
        return None;
    }
    proof {
        assert(decimal_body_shape(body));
        assert(frac_part(body).len() == frac_digits as int);
        lemma_digits_val_nonneg(int_part(body));
    }
    let scale = if frac_digits < 6 {
        pow10_exec(6 - frac_digits)
    } else {
        1
    };
    proof {
        if frac_digits < 6 {
            assert(frac_part(body).len() == frac_digits as int);
            assert(frac_part(body).len() < 6);
            assert(fracval == digits_val(frac_part(body)));
            assert(scale == pow10(6 - frac_part(body).len()));
            assert(frac_micro(frac_part(body)) == digits_val(frac_part(body)) * pow10(
                6 - frac_part(body).len(),
            ));
            assert(all_digits(frac_part(body)));
            lemma_digits_val_nonneg(frac_part(body));
            vstd::arithmetic::mul::lemma_mul_upper_bound(
                fracval as int,
                999_999,
                scale as int,
                1_000_000,
            );
        } else {
            assert(frac_part(body).len() >= 6);
            assert(fracval == digits_val(frac_part(body).take(6)));
            assert(scale == 1);
            assert(frac_micro(frac_part(body)) == digits_val(frac_part(body).take(6)));
        }
        assert(frac_micro(frac_part(body)) == fracval * scale);
        assert(0 <= fracval * scale < 1_000_000_000_000);
    }
    let mag = intval * 1_000_000 + fracval * scale;
    proof {
        assert(decimal_body_micro(body) == mag);
    }
    if negative {
        Some(-mag)
    } else {
        Some(mag)
    }
}

/// The position denoted by a `pushback_pos`-style value: the first two
/// space-separated pieces as decimal tokens, with the origin as fallback for
/// anything malformed or missing.
pub open spec fn position_of_value(v: Seq<char>) -> (int, int) {
    let parts = split_on(v, ' ');
    if parts.len() >= 2 {
        match (micro_of_decimal(parts[0]), micro_of_decimal(parts[1])) {
            (Some(la), Some(lo)) => (la, lo),
            _ => (0, 0),
        }
    } else {
        (0, 0)
    }
}

/// Parses a `pushback_pos`-style value, falling back to the origin.
pub fn parse_position(v: &str) -> (r: GeoPosition)
    ensures
        (r.lat_micro as int, r.lon_micro as int) == position_of_value(v@),
{
    let parts = split_char(v, ' ');
    proof {
        assert(views_of(parts@).len() == parts@.len());
    }
    if parts.len() >= 2 {
        proof {
            assert(views_of(parts@)[0] == parts@[0]@);
            assert(views_of(parts@)[1] == parts@[1]@);
        }
        let la = parse_coordinate(parts[0].as_str());
        let lo = parse_coordinate(parts[1].as_str());
        match (la, lo) {
            (Some(la), Some(lo)) => GeoPosition { lat_micro: la, lon_micro: lo },
            _ => GeoPosition { lat_micro: 0, lon_micro: 0 },
        }
    } else {
        GeoPosition { lat_micro: 0, lon_micro: 0 }
    }
}

} // verus!
