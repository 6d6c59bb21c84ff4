//! Parsing of exact decimal strings into scaled fixed-point integers.
//!
//! The venue reports every quantity as a decimal string. This module
//! gives that notation an exact grammar and value, and parses it into an
//! `i64` scaled by [`UNIT`], rejecting anything the grammar or the
//! engine's range does not admit.

use vstd::prelude::*;
use crate::trade::FRAC_DIGITS;
use crate::trade::MAX_QTY;
use crate::trade::UNIT;

verus! {

broadcast use vstd::string::is_ascii_spec_bytes;

/// Why a quantity string was rejected.
#[derive(Clone, Copy, PartialEq, Eq, Structural, Debug)]
pub enum DecimalError {
    /// Not of the form `digits` or `digits.digits`, or a non-zero
    /// digit stands past the `FRAC_DIGITS`th fractional place, where it
    /// cannot be represented at the crate's scale.
    Malformed,
    /// Well formed, but larger than `MAX_QTY` once scaled.
    OutOfRange,
}

/// An ASCII decimal digit.
pub open spec fn is_digit(c: char) -> bool {
    '0' as int <= c as int <= '9' as int
}

/// The numeric value of one digit.
pub open spec fn digit_val(c: char) -> int {
    c as int - '0' as int
}

/// Every character is a digit.
pub open spec fn all_digits(s: Seq<char>) -> bool {
    forall|i: int| 0 <= i < s.len() ==> is_digit(#[trigger] s[i])
}

/// The base-ten value of a digit string.
pub open spec fn digits_val(s: Seq<char>) -> int
    decreases s.len(),
{
    if s.len() == 0 {
        0
    } else {
        10 * digits_val(s.drop_last()) + digit_val(s.last())
    }
}

/// Ten to the `n`.
pub open spec fn pow10(n: nat) -> int
    decreases n,
{
    if n == 0 {
        1
    } else {
        10 * pow10((n - 1) as nat)
    }
}

/// Index of the first `.` of the string, or `-1` if it has none.
pub open spec fn first_dot(s: Seq<char>) -> int
    decreases s.len(),
{
    if s.len() == 0 {
        -1
    } else if s[0] == '.' {
        0
    } else {
        let r = first_dot(s.subrange(1, s.len() as int));
        if r < 0 {
            -1
        } else {
            r + 1
        }
    }
}

/// How many fractional digits carry value at the crate's scale: all of
/// them up to `FRAC_DIGITS`.
pub open spec fn kept_frac(fl: int) -> int {
    if fl <= FRAC_DIGITS {
        fl
    } else {
        FRAC_DIGITS as int
    }
}

/// Fractional digits past the `FRAC_DIGITS`th place carry no value at
/// the crate's scale; the grammar admits them only when they are all
/// zero, so that no precision is ever silently dropped.
pub open spec fn excess_frac_zero(fp: Seq<char>) -> bool {
    forall|i: int| FRAC_DIGITS <= i < fp.len() ==> fp[i] == '0'
}

/// The decimal grammar: a non-empty digit run, optionally followed by a
/// dot and one or more fractional digits, of which every digit past the
/// `FRAC_DIGITS`th is zero.
pub open spec fn decimal_ok(s: Seq<char>) -> bool {
    let d = first_dot(s);
    if d < 0 {
        s.len() >= 1 && all_digits(s)
    } else {
        &&& 1 <= d
        &&& all_digits(s.take(d))
        &&& all_digits(s.skip(d + 1))
        &&& 1 <= s.len() - (d + 1)
        &&& excess_frac_zero(s.skip(d + 1))
    }
}

/// The value of a well-formed decimal string, scaled by `UNIT`.
pub open spec fn decimal_val(s: Seq<char>) -> int {
    let d = first_dot(s);
    if d < 0 {
        digits_val(s) * UNIT
    } else {
        let fp = s.skip(d + 1);
        let keep = kept_frac(fp.len() as int);
        digits_val(s.take(d)) * UNIT + digits_val(fp.take(keep)) * pow10(
            (FRAC_DIGITS - keep) as nat,
        )
    }
}

/// `first_dot` really is the first dot: either the string has no dot and
/// the result is `-1`, or it points at a dot with none before it.
pub proof fn lemma_first_dot_props(s: Seq<char>)
    ensures
        first_dot(s) == -1 ==> forall|j: int| 0 <= j < s.len() ==> s[j] != '.',
        first_dot(s) >= 0 ==> 0 <= first_dot(s) < s.len() && s[first_dot(s)] == '.' && (forall|
            j: int,
        |
            0 <= j < first_dot(s) ==> s[j] != '.'),
    decreases s.len(),
{
    if s.len() > 0 && s[0] != '.' {
        let tail = s.subrange(1, s.len() as int);
        lemma_first_dot_props(tail);
        let r = first_dot(tail);
        if r < 0 {
            assert forall|j: int| 0 <= j < s.len() implies s[j] != '.' by {
                if j >= 1 {
                    assert(tail[j - 1] == s[j]);
                }
            }
        } else {
            assert(s[r + 1] == tail[r]);
            assert forall|j: int| 0 <= j < first_dot(s) implies s[j] != '.' by {
                if j >= 1 {
                    assert(tail[j - 1] == s[j]);
                }
            }
        }
    }
}

/// A digit string's value is non-negative and below ten to its length.
pub proof fn lemma_digits_val_bounds(s: Seq<char>)
    requires
        all_digits(s),
    ensures
        0 <= digits_val(s) < pow10(s.len() as nat),
    decreases s.len(),
{
    if s.len() > 0 {
        assert(all_digits(s.drop_last()));
        lemma_digits_val_bounds(s.drop_last());
        assert(is_digit(s.last()));
    }
}

/// Powers of ten grow with the exponent.
pub proof fn lemma_pow10_mono(a: nat, b: nat)
    requires
        a <= b,
    ensures
        0 < pow10(a) <= pow10(b),
    decreases b,
{
    if b > 0 {
        if a == b {
            lemma_pow10_mono((a - 1) as nat, (b - 1) as nat);
        } else {
            lemma_pow10_mono(a, (b - 1) as nat);
        }
    }
}

/// Reading more digits never shrinks the value: the whole run is worth at
/// least any of its prefixes.
pub proof fn lemma_digits_val_prefix(s: Seq<char>, j: int)
    requires
        all_digits(s),
        0 <= j <= s.len(),
    ensures
        digits_val(s) >= digits_val(s.take(j)),
    decreases s.len(),
{
    if j < s.len() {
        assert(all_digits(s.drop_last()));
        assert(s.drop_last().take(j) =~= s.take(j));
        lemma_digits_val_prefix(s.drop_last(), j);
        lemma_digits_val_bounds(s.drop_last());
        assert(is_digit(s.last()));
    } else {
        assert(s.take(j) =~= s);
    }
}

/// Powers of ten multiply by adding exponents.
pub proof fn lemma_pow10_add(a: nat, b: nat)
    ensures
        pow10(a) * pow10(b) == pow10(a + b),
    decreases b,
{
    if b == 0 {
    } else {
        lemma_pow10_add(a, (b - 1) as nat);
        assert(pow10(a) * (10 * pow10((b - 1) as nat)) == 10 * (pow10(a) * pow10(
            (b - 1) as nat,
        ))) by (nonlinear_arith);
    }
}

/// The first nine powers of ten, as numbers.
proof fn lemma_pow10_values()
    ensures
        pow10(0) == 1,
        pow10(1) == 10,
        pow10(2) == 100,
        pow10(3) == 1000,
        pow10(4) == 10000,
        pow10(5) == 100000,
        pow10(6) == 1000000,
        pow10(7) == 10000000,
        pow10(8) == 100000000,
{
    assert(pow10(0) == 1);
    assert(pow10(1) == 10);
    assert(pow10(2) == 100);
    assert(pow10(3) == 1000);
    assert(pow10(4) == 10000);
    assert(pow10(5) == 100000);
    assert(pow10(6) == 1000000);
    assert(pow10(7) == 10000000);
    assert(pow10(8) == 100000000);
}

/// If some position holds neither a digit nor a dot, the string is not a
/// well-formed decimal.
proof fn lemma_not_decimal_at(s: Seq<char>, i: int)
    requires
        0 <= i < s.len(),
        !is_digit(s[i]),
        s[i] != '.',
    ensures
        !decimal_ok(s),
{
    lemma_first_dot_props(s);
    let d = first_dot(s);
    if decimal_ok(s) {
        if d < 0 {
            assert(is_digit(s[i]));
        } else if i < d {
            assert(s.take(d)[i] == s[i]);
            assert(is_digit(s.take(d)[i]));
        } else if i > d {
            assert(s.skip(d + 1)[i - d - 1] == s[i]);
            assert(is_digit(s.skip(d + 1)[i - d - 1]));
        }
    }
}

/// A dot preceded only by non-dots is the first dot.
proof fn lemma_first_dot_is(s: Seq<char>, d: int)
    requires
        0 <= d < s.len(),
        s[d] == '.',
        forall|k: int| 0 <= k < d ==> s[k] != '.',
    ensures
        first_dot(s) == d,
{
    lemma_first_dot_props(s);
}

/// A string without any dot has no first dot.
proof fn lemma_no_dot(s: Seq<char>)
    requires
        forall|k: int| 0 <= k < s.len() ==> s[k] != '.',
    ensures
        first_dot(s) == -1,
{
    lemma_first_dot_props(s);
}

/// The bytes of an ASCII string are its characters' code points.
spec fn ascii_bytes_of(s: Seq<char>, b: Seq<u8>) -> bool {
    &&& b.len() == s.len()
    &&& forall|k: int| #![trigger s[k]] 0 <= k < s.len() ==> b[k] == (s[k] as u8)
    &&& forall|k: int| #![trigger s[k]] 0 <= k < s.len() ==> 0 <= (s[k] as int) < 128
}

/// Parse a decimal quantity string into its scaled fixed-point value.
///
/// Every string the grammar admits whose value fits the engine's range
/// parses to its exact value; everything else is rejected with the reason.
pub fn parse_decimal(s: &str) -> (r: Result<i64, DecimalError>)
    ensures
        match r {
            Ok(v) => decimal_ok(s@) && 0 <= v <= MAX_QTY && v as int == decimal_val(s@),
            Err(DecimalError::Malformed) => !decimal_ok(s@),
            Err(DecimalError::OutOfRange) => decimal_ok(s@) && decimal_val(s@) > MAX_QTY,
        },
{
    if !s.is_ascii() {
        proof {
            broadcast use vstd::utf8::is_ascii_chars_nat_bound;

            let i = choose|i: int|
                #![trigger s@[i]]
                0 <= i < s@.len() && !('\0' <= s@[i] <= '\u{7f}');
            lemma_not_decimal_at(s@, i);
        }
        return Err(DecimalError::Malformed);
    }
    let b = s.as_bytes();
    let n = b.len();
    proof {
        assert(ascii_bytes_of(s@, b@)) by {
            assert(forall|k: int|
                0 <= k < s@.len() ==> '\0' <= #[trigger] s@[k] <= '\u{7f}');
            assert(forall|k: int|
                #![trigger s@[k]]
                0 <= k < s@.len() ==> 0 <= (s@[k] as int) < 128);
        }
    }
    if n == 0 {
        return Err(DecimalError::Malformed);
    }
    // First pass: the grammar. Find the dot, if any, and insist on
    // digits everywhere else.
    let mut dot: Option<usize> = None;
    let mut i: usize = 0;
    while i < n
        invariant
            0 <= i <= n,
            n == s@.len(),
            ascii_bytes_of(s@, b@),
            match dot {
                Option::None => forall|k: int|
                    0 <= k < i ==> is_digit(#[trigger] s@[k]) && s@[k] != '.',
                Option::Some(d) => 1 <= d < i && s@[d as int] == '.' && (forall|k: int|
                    0 <= k < i && k != d ==> is_digit(#[trigger] s@[k]) && s@[k] != '.'),
            },
        decreases n - i,
    {
        let c = b[i];
        if c == 46 {
            proof {
                assert((s@[i as int] as u8) as int == 46);
                assert(s@[i as int] == '.');
            }
            match dot {
                Option::None => {
                    if i == 0 {
                        proof {
                            assert(first_dot(s@) == 0);
                        }
                        return Err(DecimalError::Malformed);
                    }
                    dot = Some(i);
                },
                Option::Some(d) => {
                    proof {
                        lemma_first_dot_is(s@, d as int);
                        assert(s@.skip(d + 1)[i - d - 1] == s@[i as int]);
                        assert(!is_digit(s@[i as int]));
                    }
                    return Err(DecimalError::Malformed);
                },
            }
        } else if c < 48 || c > 57 {
            proof {
                assert(s@[i as int] as int == c as int);
                lemma_not_decimal_at(s@, i as int);
            }
            return Err(DecimalError::Malformed);
        } else {
            assert(is_digit(s@[i as int]));
        }
        i = i + 1;
    }
    // Cut the string into its regions and check the fractional width.
    let int_len: usize = match dot {
        Option::None => n,
        Option::Some(d) => d,
    };
    proof {
        match dot {
            Option::None => {
                lemma_no_dot(s@);
            },
            Option::Some(d) => {
                lemma_first_dot_is(s@, d as int);
            },
        }
    }
    if let Some(d) = dot {
        let frac_len = n - d - 1;
        if frac_len < 1 {
            return Err(DecimalError::Malformed);
        }
        if frac_len > 8 {
            // Digits beyond the eighth place carry no value at this
            // scale; only zeros are admitted there.
            let mut k: usize = 8;
            while k < frac_len
                invariant
                    8 <= k <= frac_len,
                    n == s@.len(),
                    d + 1 + frac_len == n,
                    1 <= d,
                    first_dot(s@) == d as int,
                    ascii_bytes_of(s@, b@),
                    forall|q: int| 8 <= q < k ==> #[trigger] s@.skip(d as int + 1)[q] == '0',
                decreases frac_len - k,
            {
                let c = b[d + 1 + k];
                proof {
                    assert(s@.skip(d as int + 1)[k as int] == s@[d + 1 + k]);
                }
                if c != 48 {
                    proof {
                        assert(s@[d + 1 + k] as int == c as int);
                        assert(!excess_frac_zero(s@.skip(d as int + 1)));
                    }
                    return Err(DecimalError::Malformed);
                }
                proof {
                    assert((s@[d + 1 + k] as u8) as int == 48);
                    assert(s@[d + 1 + k] == '0');
                }
                k = k + 1;
            }
        }
        proof {
            assert(excess_frac_zero(s@.skip(d as int + 1))) by {
                assert(s@.skip(d as int + 1).len() == frac_len);
            }
        }
    }
    let ghost ip = s@.take(int_len as int);
    proof {
        assert(all_digits(ip)) by {
            assert(forall|k: int| 0 <= k < int_len ==> #[trigger] ip[k] == s@[k]);
        }
        match dot {
            Option::None => {
                assert(ip =~= s@);
                assert(decimal_ok(s@));
            },
            Option::Some(d) => {
                assert(all_digits(s@.skip(d + 1))) by {
                    assert(forall|k: int|
                        0 <= k < s@.len() - (d + 1) ==> #[trigger] s@.skip(d + 1)[k] == s@[k + d
                            + 1]);
                }
                assert(decimal_ok(s@));
            },
        }
    }
    // Second pass: the integer part's value, bailing out as soon as it
    // alone already exceeds the representable range.
    let mut v: i64 = 0;
    let mut j: usize = 0;
    while j < int_len
        invariant
            0 <= j <= int_len <= n,
            n == s@.len(),
            ascii_bytes_of(s@, b@),
            ip == s@.take(int_len as int),
            all_digits(ip),
            ip.len() == int_len,
            decimal_ok(s@),
            v == digits_val(ip.take(j as int)),
            0 <= v < 10_000_000_000,
            first_dot(s@) == match dot {
                Option::None => -1,
                Option::Some(d) => d as int,
            },
            match dot {
                Option::None => int_len == n,
                Option::Some(d) => int_len == d && 1 <= s@.len() - (d + 1),
            },
        decreases int_len - j,
    {
        let c = b[j];
        proof {
            assert(ip[j as int] == s@[j as int]);
            assert(is_digit(s@[j as int]));
            assert(c as int == s@[j as int] as int);
        }
        v = 10 * v + ((c - 48) as i64);
        j = j + 1;
        proof {
            assert(ip.take(j as int).drop_last() =~= ip.take(j as int - 1));
            assert(ip.take(j as int).last() == ip[j as int - 1]);
        }
        if v >= 10_000_000_000 {
            proof {
                lemma_digits_val_prefix(ip, j as int);
                let d = first_dot(s@);
                if d >= 0 {
                    let fp = s@.skip(d + 1);
                    let keep = kept_frac(fp.len() as int);
                    assert(all_digits(fp.take(keep))) by {
                        assert(forall|q: int|
                            0 <= q < keep ==> #[trigger] fp.take(keep)[q] == fp[q]);
                    }
                    lemma_digits_val_bounds(fp.take(keep));
                    lemma_pow10_mono(0, (FRAC_DIGITS - keep) as nat);
                    vstd::arithmetic::mul::lemma_mul_nonnegative(
                        digits_val(fp.take(keep)),
                        pow10((FRAC_DIGITS - keep) as nat),
                    );
                    assert(s@.take(d) == ip);
                } else {
                    assert(ip =~= s@);
                }
            }
            return Err(DecimalError::OutOfRange);
        }
    }
    proof {
        assert(ip.take(int_len as int) =~= ip);
    }
    // Third pass: the fractional part's value and its scale.
    let mut frac: i64 = 0;
    let mut scale: i64 = 1;
    if let Some(d) = dot {
        let frac_len = n - d - 1;
        let keep: usize = if frac_len > 8 {
            8
        } else {
            frac_len
        };
        let ghost fp = s@.skip(d as int + 1);
        let ghost fpk = fp.take(keep as int);
        proof {
            assert(all_digits(fp)) by {
                assert(forall|k: int|
                    0 <= k < s@.len() - (d + 1) ==> #[trigger] fp[k] == s@[k + d + 1]);
            }
            assert(all_digits(fpk)) by {
                assert(forall|q: int| 0 <= q < keep ==> #[trigger] fpk[q] == fp[q]);
            }
            assert(keep as int == kept_frac(fp.len() as int));
            lemma_pow10_values();
        }
        let mut k: usize = 0;
        while k < keep
            invariant
                0 <= k <= keep <= 8,
                n == s@.len(),
                d + 1 + keep <= n,
                ascii_bytes_of(s@, b@),
                fp == s@.skip(d as int + 1),
                fpk == fp.take(keep as int),
                all_digits(fp),
                all_digits(fpk),
                fpk.len() == keep,
                frac == digits_val(fpk.take(k as int)),
                0 <= frac < pow10(k as nat),
                pow10(0) == 1 && pow10(1) == 10 && pow10(2) == 100 && pow10(3) == 1000 && pow10(
                    4,
                ) == 10000 && pow10(5) == 100000 && pow10(6) == 1000000 && pow10(7) == 10000000
                    && pow10(8) == 100000000,
            decreases keep - k,
        {
            let c = b[d + 1 + k];
            proof {
                assert(fpk[k as int] == fp[k as int]);
                assert(fp[k as int] == s@[d + 1 + k]);
                assert(is_digit(s@[d + 1 + k]));
                assert(c as int == s@[d + 1 + k] as int);
                lemma_pow10_mono(k as nat, 7);
            }
            frac = 10 * frac + ((c - 48) as i64);
            k = k + 1;
            proof {
                assert(fpk.take(k as int).drop_last() =~= fpk.take(k as int - 1));
                assert(fpk.take(k as int).last() == fpk[k as int - 1]);
                lemma_digits_val_bounds(fpk.take(k as int));
            }
        }
        proof {
            assert(fpk.take(keep as int) =~= fpk);
        }
        let width = 8 - keep;
        let mut t: usize = 0;
        while t < width
            invariant
                0 <= t <= width <= 8,
                scale == pow10(t as nat),
                pow10(0) == 1 && pow10(1) == 10 && pow10(2) == 100 && pow10(3) == 1000 && pow10(
                    4,
                ) == 10000 && pow10(5) == 100000 && pow10(6) == 1000000 && pow10(7) == 10000000
                    && pow10(8) == 100000000,
            decreases width - t,
        {
            proof {
                lemma_pow10_mono(t as nat, 7);
            }
            scale = 10 * scale;
            t = t + 1;
        }
        proof {
            lemma_pow10_mono((8 - keep) as nat, 8);
            lemma_pow10_mono(keep as nat, 8);
            vstd::arithmetic::mul::lemma_mul_strict_inequality(
                frac as int,
                pow10(keep as nat),
                pow10((8 - keep) as nat),
            );
            lemma_pow10_add(keep as nat, (8 - keep) as nat);
            vstd::arithmetic::mul::lemma_mul_nonnegative(frac as int, scale as int);
            assert(frac as int == digits_val(fp.take(kept_frac(fp.len() as int))));
            assert(scale as int == pow10((FRAC_DIGITS - kept_frac(fp.len() as int)) as nat));
        }
    }
    // Assemble the scaled value.
    let value: i64 = v * UNIT + frac * scale;
    proof {
        match dot {
            Option::None => {
                assert(decimal_val(s@) == digits_val(s@) * UNIT);
                assert(ip =~= s@);
            },
            Option::Some(d) => {
                assert(s@.take(d as int) == ip);
            },
        }
    }
    if value > MAX_QTY {
        return Err(DecimalError::OutOfRange);
    }
    Ok(value)
}

} // verus!
