use vstd::prelude::*;
use vstd::arithmetic::div_mod::lemma_div_denominator;
use crate::element::{Element, Name, Shape};
use crate::error::MeshError;
use crate::geometry::{Dimension, Point};
use crate::grid::Grid;

verus! {

broadcast use vstd::seq::group_seq_axioms;

// ------------------------------------------------------------------
// Lexical layer: bytes, digits, and decimal values.
//
// The surface grammar is ASCII:
//   solid [NAME]? (facet normal <num> <num> <num>
//                  outer loop (vertex <num> <num> <num>){3}
//                  endloop endfacet)* endsolid
// with numbers in the usual decimal or scientific form. Coordinates are
// converted to fixed point on the way in: a number with value `v` is stored
// as `v * 10^scale`, truncated toward zero.
// ------------------------------------------------------------------

pub open spec fn is_ws(c: u8) -> bool {
    c == 32 || c == 9 || c == 10 || c == 13
}

pub open spec fn is_digit(c: u8) -> bool {
    48 <= c <= 57
}

pub open spec fn is_alnum(c: u8) -> bool {
    (48 <= c <= 57) || (65 <= c <= 90) || (97 <= c <= 122)
}

/// Ten to a nonnegative power.
pub open spec fn pow10(e: int) -> int
    decreases e,
{
    if e <= 0 {
        1
    } else {
        10 * pow10(e - 1)
    }
}

/// The mantissa cap, written out.
pub proof fn lemma_pow10_20()
    ensures
        pow10(20) == 100000000000000000000,
        pow10(1) == 10,
    {
    reveal_with_fuel(pow10, 22);
}

pub proof fn lemma_pow10_pos(e: int)
    ensures
        pow10(e) >= 1,
    decreases e,
{
    if e > 0 {
        lemma_pow10_pos(e - 1);
    }
}

pub proof fn lemma_pow10_mono(a: int, b: int)
    requires
        a <= b,
    ensures
        pow10(a) <= pow10(b),
    decreases b - a,
{
    lemma_pow10_pos(a);
    if a < b {
        lemma_pow10_mono(a, b - 1);
        lemma_pow10_pos(b - 1);
    }
}

/// The first position at or after `p` that does not hold a digit.
pub open spec fn digits_end(b: Seq<u8>, p: int) -> int
    decreases b.len() - p,
    when 0 <= p <= b.len()
{
    if p < b.len() && is_digit(b[p]) {
        digits_end(b, p + 1)
    } else {
        p
    }
}

pub proof fn lemma_digits_end(b: Seq<u8>, p: int)
    requires
        0 <= p <= b.len(),
    ensures
        p <= digits_end(b, p) <= b.len(),
        forall|j: int| p <= j < digits_end(b, p) ==> is_digit(#[trigger] b[j]),
        digits_end(b, p) < b.len() ==> !is_digit(b[digits_end(b, p)]),
    decreases b.len() - p,
{
    if p < b.len() && is_digit(b[p]) {
        lemma_digits_end(b, p + 1);
    }
}

/// The value of the digit run `[p, q)` read as a decimal integer.
pub open spec fn digits_val(b: Seq<u8>, p: int, q: int) -> int
    decreases q - p,
{
    if p >= q {
        0
    } else {
        digits_val(b, p, q - 1) * 10 + (b[q - 1] - 48)
    }
}

pub proof fn lemma_digits_val_nonneg(b: Seq<u8>, p: int, q: int)
    requires
        forall|j: int| p <= j < q ==> is_digit(#[trigger] b[j]),
    ensures
        digits_val(b, p, q) >= 0,
    decreases q - p,
{
    if p < q {
        lemma_digits_val_nonneg(b, p, q - 1);
    }
}

// Positions of the parts of a number token starting at `p`:
// an optional sign, integer digits, an optional fraction tail, and an
// optional exponent tail.
pub open spec fn sgn_end(b: Seq<u8>, p: int) -> int {
    if p < b.len() && (b[p] == 43 || b[p] == 45) {
        p + 1
    } else {
        p
    }
}

pub open spec fn num_neg(b: Seq<u8>, p: int) -> bool {
    p < b.len() && b[p] == 45
}

pub open spec fn int_end(b: Seq<u8>, p: int) -> int {
    digits_end(b, sgn_end(b, p))
}

pub open spec fn frac_start(b: Seq<u8>, p: int) -> int {
    if int_end(b, p) < b.len() && b[int_end(b, p)] == 46 {
        int_end(b, p) + 1
    } else {
        int_end(b, p)
    }
}

pub open spec fn frac_end(b: Seq<u8>, p: int) -> int {
    digits_end(b, frac_start(b, p))
}

pub open spec fn has_exp(b: Seq<u8>, p: int) -> bool {
    frac_end(b, p) < b.len() && (b[frac_end(b, p)] == 101 || b[frac_end(b, p)] == 69)
}

pub open spec fn exp_sgn_end(b: Seq<u8>, p: int) -> int {
    sgn_end(b, frac_end(b, p) + 1)
}

pub open spec fn exp_neg(b: Seq<u8>, p: int) -> bool {
    num_neg(b, frac_end(b, p) + 1)
}

pub open spec fn exp_end(b: Seq<u8>, p: int) -> int {
    digits_end(b, exp_sgn_end(b, p))
}

/// Where the number token ends: after the exponent when one is present,
/// otherwise after the fraction.
pub open spec fn num_end(b: Seq<u8>, p: int) -> int {
    if has_exp(b, p) {
        exp_end(b, p)
    } else {
        frac_end(b, p)
    }
}

/// A well-formed number holds at least one mantissa digit, and an exponent
/// marker, when present, is followed by at least one digit.
pub open spec fn num_wf(b: Seq<u8>, p: int) -> bool {
    &&& (int_end(b, p) > sgn_end(b, p) || frac_end(b, p) > frac_start(b, p))
    &&& (has_exp(b, p) ==> exp_end(b, p) > exp_sgn_end(b, p))
}

/// All mantissa digits read as one integer: the integer digits shifted past
/// the fraction digits.
pub open spec fn num_mant(b: Seq<u8>, p: int) -> int {
    digits_val(b, sgn_end(b, p), int_end(b, p)) * pow10(frac_end(b, p) - frac_start(b, p))
        + digits_val(b, frac_start(b, p), frac_end(b, p))
}

/// The unsigned exponent digits.
pub open spec fn exp_mag(b: Seq<u8>, p: int) -> int {
    if has_exp(b, p) {
        digits_val(b, exp_sgn_end(b, p), exp_end(b, p))
    } else {
        0
    }
}

/// The power of ten the mantissa is scaled by once the fraction length, the
/// written exponent and the fixed-point scale are combined.
pub open spec fn num_shift(b: Seq<u8>, p: int, scale: int) -> int {
    scale + (if exp_neg(b, p) {
        -exp_mag(b, p)
    } else {
        exp_mag(b, p)
    }) - (frac_end(b, p) - frac_start(b, p))
}

/// The magnitude of the fixed-point result: the mantissa scaled by the
/// shift, truncated toward zero.
pub open spec fn num_magnitude(b: Seq<u8>, p: int, scale: int) -> int {
    if num_shift(b, p, scale) >= 0 {
        num_mant(b, p) * pow10(num_shift(b, p, scale))
    } else {
        num_mant(b, p) / pow10(-num_shift(b, p, scale))
    }
}

/// The signed fixed-point value of the number token at `p`.
pub open spec fn num_value(b: Seq<u8>, p: int, scale: int) -> int {
    if num_neg(b, p) {
        -num_magnitude(b, p, scale)
    } else {
        num_magnitude(b, p, scale)
    }
}

/// A number token parses exactly when it is well formed, its mantissa has at
/// most twenty significant digits, its exponent is at most 1000, and the
/// resulting magnitude fits the coordinate type.
pub open spec fn num_ok(b: Seq<u8>, p: int, scale: int) -> bool {
    &&& num_wf(b, p)
    &&& num_mant(b, p) < pow10(20)
    &&& exp_mag(b, p) <= 1000
    &&& num_magnitude(b, p, scale) <= i64::MAX as int
}

/// Scan a digit run, accumulating `acc` as if the digits were appended to
/// its decimal writing. Fails once the value reaches `10^20`.
#[verifier::rlimit(50)]
fn scan_digits(input: &[u8], pos: usize, acc: u128) -> (r: Result<(u128, usize), MeshError>)
    requires
        pos <= input@.len(),
        acc < pow10(20),
    ensures
        r matches Ok((d, np)) ==> {
            &&& np == digits_end(input@, pos as int)
            &&& d as int == acc * pow10(np - pos) + digits_val(input@, pos as int, np as int)
            &&& d < pow10(20)
        },
        r is Err <==> acc * pow10(digits_end(input@, pos as int) - pos) + digits_val(
            input@,
            pos as int,
            digits_end(input@, pos as int),
        ) >= pow10(20),
        r is Err ==> r == Err::<(u128, usize), MeshError>(MeshError::NumberOutOfRange),
{
    proof {
        lemma_digits_end(input@, pos as int);
    }
    let ghost de = digits_end(input@, pos as int);
    let len = input.len();
    let mut p = pos;
    let mut d = acc;
    while p < len && input[p] >= 48 && input[p] <= 57
        invariant
            pos <= p <= len == input@.len(),
            p <= de <= len,
            de == digits_end(input@, p as int),
            de == digits_end(input@, pos as int),
            d < pow10(20),
            forall|j: int| p <= j < de ==> is_digit(#[trigger] input@[j]),
            acc * pow10(de - pos) + digits_val(input@, pos as int, de) == d * pow10(de - p)
                + digits_val(input@, p as int, de),
            acc < pow10(20),
        decreases len - p,
    {
        let c = input[p];
        proof {
            lemma_pow10_20();
            lemma_digits_end(input@, p + 1);
            assert(is_digit(input@[p as int]));
            assert(de == digits_end(input@, p + 1));
            assert(p < de);
            lemma_digits_split(input@, p as int, de);
            assert((d as int) * pow10(de - p) + digits_val(input@, p as int, de) == ((d as int)
                * 10 + (input@[p as int] - 48)) * pow10(de - (p + 1)) + digits_val(
                input@,
                p + 1,
                de,
            ));
        }
        if d >= 10000000000000000000u128 {
            // Appending a digit to a twenty-digit value pushes the run's
            // value to 10^20 or beyond.
            proof {
                lemma_pow10_20();
                lemma_digits_val_nonneg(input@, p as int, de);
                lemma_pow10_mono(1, de - p);
                vstd::arithmetic::mul::lemma_mul_inequality(
                    pow10(1),
                    pow10(de - p),
                    d as int,
                );
                assert(pow10(1) * (d as int) <= pow10(de - p) * (d as int));
                vstd::arithmetic::mul::lemma_mul_is_commutative(d as int, pow10(de - p));
                assert((d as int) * pow10(de - p) >= (d as int) * 10);
                assert((d as int) * 10 >= pow10(20));
            }
            return Err(MeshError::NumberOutOfRange);
        }
        d = d * 10 + (c as u128 - 48);
        p += 1;
    }
    proof {
        assert(p == de);
        assert(pow10(0int) == 1);
        assert(digits_val(input@, p as int, de) == 0);
        assert((d as int) * pow10(0) == d as int) by (nonlinear_arith)
            requires
                pow10(0int) == 1,
        ;
    }
    Ok((d, p))
}

/// Splitting one digit off a run: the value of `[p, q)` appended after `d`
/// equals the value of `[p+1, q)` appended after `d * 10 + digit(p)`.
proof fn lemma_digits_split(b: Seq<u8>, p: int, q: int)
    requires
        p < q <= b.len(),
    ensures
        forall|d: int|
            #[trigger] (d * pow10(q - p)) + digits_val(b, p, q) == (d * 10 + (b[p] - 48)) * pow10(
                q - (p + 1),
            ) + digits_val(b, p + 1, q),
    decreases q - p,
{
    reveal_with_fuel(pow10, 3);
    if p + 1 < q {
        lemma_digits_split(b, p, q - 1);
        assert forall|d: int|
            #[trigger] (d * pow10(q - p)) + digits_val(b, p, q) == (d * 10 + (b[p] - 48)) * pow10(
                q - (p + 1),
            ) + digits_val(b, p + 1, q) by {
            assert(digits_val(b, p, q) == digits_val(b, p, q - 1) * 10 + (b[q - 1] - 48));
            assert(digits_val(b, p + 1, q) == digits_val(b, p + 1, q - 1) * 10 + (b[q - 1] - 48));
            assert(pow10(q - p) == 10 * pow10(q - 1 - p)) by {
                assert(q - p > 0);
            }
            assert((d * pow10(q - 1 - p)) + digits_val(b, p, q - 1) == (d * 10 + (b[p] - 48))
                * pow10(q - 1 - (p + 1)) + digits_val(b, p + 1, q - 1));
            assert(d * pow10(q - p) == (d * pow10(q - 1 - p)) * 10) by (nonlinear_arith)
                requires
                    pow10(q - p) == 10 * pow10(q - 1 - p),
            ;
            assert((d * 10 + (b[p] - 48)) * pow10(q - (p + 1)) == ((d * 10 + (b[p] - 48)) * pow10(
                q - 1 - (p + 1),
            )) * 10) by (nonlinear_arith)
                requires
                    pow10(q - (p + 1)) == 10 * pow10(q - 1 - (p + 1)),
            ;
        }
    } else {
        assert(pow10(q - p) == 10);
        assert(pow10(q - (p + 1)) == 1);
        assert forall|d: int|
            #[trigger] (d * pow10(q - p)) + digits_val(b, p, q) == (d * 10 + (b[p] - 48)) * pow10(
                q - (p + 1),
            ) + digits_val(b, p + 1, q) by {
            assert(digits_val(b, p, q) == digits_val(b, p, p) * 10 + (b[q - 1] - 48));
            assert(digits_val(b, p, p) == 0);
            assert(digits_val(b, p + 1, q) == 0);
            assert(d * pow10(q - p) == d * 10) by (nonlinear_arith)
                requires
                    pow10(q - p) == 10,
            ;
            assert((d * 10 + (b[p] - 48)) * pow10(q - (p + 1)) == d * 10 + (b[p] - 48))
                by (nonlinear_arith)
                requires
                    pow10(q - (p + 1)) == 1,
            ;
        }
    }
}

/// Multiply by ten `e` times, failing once the result would leave the
/// coordinate range.
fn scale_up(d: u128, e: u64) -> (r: Result<u128, MeshError>)
    ensures
        r matches Ok(v) ==> v as int == d * pow10(e as int) && v <= i64::MAX,
        r is Err <==> d * pow10(e as int) > i64::MAX,
        r is Err ==> r == Err::<u128, MeshError>(MeshError::NumberOutOfRange),
{
    let mut cur = d;
    let mut i: u64 = 0;
    while i < e
        invariant
            i <= e,
            cur as int == d * pow10(i as int),
        decreases e - i,
    {
        if cur > i64::MAX as u128 / 10 {
            if d > 0 {
                proof {
                    lemma_pow10_pos(i as int);
                    lemma_pow10_mono(i as int + 1, e as int);
                    vstd::arithmetic::mul::lemma_mul_inequality(
                        pow10(i as int + 1),
                        pow10(e as int),
                        d as int,
                    );
                    vstd::arithmetic::mul::lemma_mul_is_commutative(d as int, pow10(e as int));
                    vstd::arithmetic::mul::lemma_mul_is_commutative(d as int, pow10(i as int + 1));
                    assert(d * pow10(i as int + 1) == (d * pow10(i as int)) * 10)
                        by (nonlinear_arith)
                        requires
                            pow10(i as int + 1) == 10 * pow10(i as int),
                    ;
                }
                return Err(MeshError::NumberOutOfRange);
            }
            proof {
                assert(cur as int == 0 * pow10(i as int));
                assert(cur == 0) by (nonlinear_arith)
                    requires
                        cur as int == 0 * pow10(i as int),
                ;
            }
        }
        proof {
            assert(d * pow10(i as int + 1) == (d * pow10(i as int)) * 10) by (nonlinear_arith)
                requires
                    pow10(i as int + 1) == 10 * pow10(i as int),
            ;
        }
        cur = cur * 10;
        i += 1;
    }
    if cur > i64::MAX as u128 {
        return Err(MeshError::NumberOutOfRange);
    }
    Ok(cur)
}

/// Divide by ten `e` times: truncating division by `10^e`.
fn scale_down(d: u128, e: u64) -> (r: u128)
    ensures
        r as int == d as int / pow10(e as int),
{
    let mut cur = d;
    let mut i: u64 = 0;
    while i < e
        invariant
            i <= e,
            cur as int == d as int / pow10(i as int),
        decreases e - i,
    {
        proof {
            lemma_pow10_pos(i as int);
            lemma_div_denominator(d as int, pow10(i as int), 10);
            assert(pow10(i as int) * 10 == pow10(i as int + 1));
        }
        cur = cur / 10;
        i += 1;
    }
    cur
}

/// Which error a failed number token reports: a truncation when the missing
/// digits coincide with the end of the input, a malformation otherwise, and
/// a range error for a number the coordinate type cannot hold.
pub open spec fn num_err(b: Seq<u8>, p: int) -> MeshError {
    if num_mant(b, p) < pow10(20) && !num_wf(b, p) {
        if num_truncated(b, p) {
            MeshError::Truncated
        } else {
            MeshError::Malformed
        }
    } else {
        MeshError::NumberOutOfRange
    }
}

/// The number token is incomplete because the input ended: a mantissa with
/// no digits whose fraction position sits at the end, or an exponent marker
/// with no digits at the end.
pub open spec fn num_truncated(b: Seq<u8>, p: int) -> bool {
    if int_end(b, p) == sgn_end(b, p) && frac_end(b, p) == frac_start(b, p) {
        frac_start(b, p) == b.len()
    } else {
        has_exp(b, p) && exp_end(b, p) == exp_sgn_end(b, p) && exp_sgn_end(b, p) == b.len()
    }
}

/// Parse one number token at `pos` into a fixed-point coordinate:
/// `value * 10^scale`, truncated toward zero.
#[verifier::rlimit(100)]
pub fn parse_number(input: &[u8], pos: usize, scale: u32) -> (r: Result<(i64, usize), MeshError>)
    requires
        pos <= input@.len(),
        scale <= 18,
    ensures
        r matches Ok((v, np)) ==> {
            &&& np == num_end(input@, pos as int)
            &&& pos < np <= input@.len()
            &&& v as int == num_value(input@, pos as int, scale as int)
        },
        r is Ok <==> num_ok(input@, pos as int, scale as int),
        r is Err ==> r == Err::<(i64, usize), MeshError>(num_err(input@, pos as int)),
{
    let ghost b = input@;
    let len = input.len();
    let mut p = pos;
    let mut neg = false;
    if p < len && (input[p] == 43 || input[p] == 45) {
        neg = input[p] == 45;
        p += 1;
    }
    proof {
        assert(p == sgn_end(b, pos as int));
        assert(neg == num_neg(b, pos as int));
        lemma_pow10_pos(20);
    }
    let ghost ie = int_end(b, pos as int);
    let ghost fs = frac_start(b, pos as int);
    let ghost fe = frac_end(b, pos as int);

    // Integer digits, then fraction digits appended to them: together the
    // mantissa.
    let (d1, p1) = match scan_digits(input, p, 0) {
        Ok(x) => x,
        Err(e) => {
            proof {
                lemma_mant_big(b, pos as int);
            }
            return Err(e);
        },
    };
    proof {
        assert(p1 == ie);
        assert(d1 as int == digits_val(b, p as int, p1 as int)) by {
            assert(0int * pow10(p1 - p) == 0) by (nonlinear_arith);
        }
    }
    let mut dm = d1;
    let mut p2 = p1;
    let mut fraclen: usize = 0;
    if p1 < len && input[p1] == 46 {
        proof {
            assert(fs == p1 + 1);
        }
        match scan_digits(input, p1 + 1, d1) {
            Ok((d, np)) => {
                proof {
                    lemma_digits_end(b, p1 + 1);
                }
                dm = d;
                p2 = np;
                fraclen = np - (p1 + 1);
            },
            Err(e) => {
                proof {
                    lemma_mant_exact(b, pos as int);
                }
                return Err(e);
            },
        }
    }
    proof {
        lemma_digits_end(b, sgn_end(b, pos as int));
        if !(p1 < len && b[p1 as int] == 46) {
            assert(fs == ie);
            assert(digits_end(b, fs) == fs);
            assert(digits_val(b, fs, fs) == 0);
            assert(dm as int * pow10(0) == dm as int) by (nonlinear_arith)
                requires
                    pow10(0int) == 1,
            ;
        }
        assert(p2 == fe);
        assert(fraclen == fe - fs);
        lemma_mant_exact(b, pos as int);
        assert(dm as int == num_mant(b, pos as int));
    }

    // A mantissa needs at least one digit.
    if p1 == p && p2 == p1 {
        if p == len {
            return Err(MeshError::Truncated);
        }
        return Err(MeshError::Malformed);
    }
    if p1 < len && input[p1] == 46 && p1 == p && p2 == p1 + 1 {
        if p2 == len {
            return Err(MeshError::Truncated);
        }
        return Err(MeshError::Malformed);
    }

    // Optional exponent.
    let mut ex: u128 = 0;
    let mut exneg = false;
    let mut p3 = p2;
    proof {
        assert(p2 == fe && fe == frac_end(b, pos as int));
    }
    if p2 < len && (input[p2] == 101 || input[p2] == 69) {
        let mut pe = p2 + 1;
        if pe < len && (input[pe] == 43 || input[pe] == 45) {
            exneg = input[pe] == 45;
            pe += 1;
        }
        proof {
            assert(pe == exp_sgn_end(b, pos as int));
            assert(exneg == exp_neg(b, pos as int));
        }
        match scan_digits(input, pe, 0) {
            Ok((d, np)) => {
                if np == pe {
                    if pe == len {
                        return Err(MeshError::Truncated);
                    }
                    return Err(MeshError::Malformed);
                }
                proof {
                    assert(d as int == digits_val(b, pe as int, np as int)) by {
                        assert(0int * pow10(np - pe) == 0) by (nonlinear_arith);
                    }
                    assert(has_exp(b, pos as int));
                    assert(np == digits_end(b, pe as int));
                    assert(np == exp_end(b, pos as int));
                    lemma_digits_end(b, pe as int);
                    assert(np > pe);
                }
                ex = d;
                p3 = np;
            },
            Err(e) => {
                proof {
                    lemma_pow10_20();
                    lemma_digits_end(b, pe as int);
                    lemma_digits_val_nonneg(b, pe as int, exp_end(b, pos as int));
                    assert(0int * pow10(exp_end(b, pos as int) - pe) == 0) by (nonlinear_arith);
                    assert(exp_mag(b, pos as int) >= pow10(20));
                }
                return Err(e);
            },
        }
        if ex > 1000 {
            return Err(MeshError::NumberOutOfRange);
        }
    }
    proof {
        assert(p3 == num_end(b, pos as int));
        assert(ex as int == exp_mag(b, pos as int));
        assert(int_end(b, pos as int) > sgn_end(b, pos as int) || frac_end(b, pos as int)
            > frac_start(b, pos as int));
        assert(has_exp(b, pos as int) ==> exp_end(b, pos as int) > exp_sgn_end(b, pos as int));
        assert(num_wf(b, pos as int));
    }

    // Combine the written exponent, the fraction length and the fixed-point
    // scale into one power-of-ten shift.
    let shift: i128 = scale as i128 + (if exneg {
        -(ex as i128)
    } else {
        ex as i128
    }) - fraclen as i128;
    proof {
        assert(shift as int == num_shift(b, pos as int, scale as int));
    }
    let mag: u128;
    if shift >= 0 {
        match scale_up(dm, shift as u64) {
            Ok(v) => {
                mag = v;
            },
            Err(e) => {
                return Err(e);
            },
        }
    } else if shift < -38 {
        // The divisor exceeds any twenty-digit mantissa: the quotient is
        // zero.
        proof {
            lemma_pow10_pos(-(shift as int));
            lemma_pow10_mono(20, -(shift as int));
            vstd::arithmetic::div_mod::lemma_basic_div(dm as int, pow10(-(shift as int)));
        }
        mag = 0;
    } else {
        mag = scale_down(dm, (-shift) as u64);
        if mag > i64::MAX as u128 {
            return Err(MeshError::NumberOutOfRange);
        }
    }
    let v: i64 = if neg {
        -(mag as i64)
    } else {
        mag as i64
    };
    Ok((v, p3))
}

/// When the integer digits alone overflow the mantissa cap, the whole
/// mantissa does.
proof fn lemma_mant_big(b: Seq<u8>, p: int)
    requires
        0 <= p,
        sgn_end(b, p) <= b.len(),
        digits_val(b, sgn_end(b, p), int_end(b, p)) >= pow10(20),
    ensures
        num_mant(b, p) >= pow10(20),
{
    let iv = digits_val(b, sgn_end(b, p), int_end(b, p));
    let fl = frac_end(b, p) - frac_start(b, p);
    lemma_pow10_pos(20);
    lemma_digits_end(b, sgn_end(b, p));
    if frac_start(b, p) <= b.len() {
        lemma_digits_end(b, frac_start(b, p));
        lemma_digits_val_nonneg(b, frac_start(b, p), frac_end(b, p));
    }
    lemma_pow10_pos(fl);
    vstd::arithmetic::mul::lemma_mul_inequality(1, pow10(fl), iv);
    vstd::arithmetic::mul::lemma_mul_is_commutative(iv, pow10(fl));
    assert(iv * 1 == iv) by (nonlinear_arith);
}

/// The mantissa accumulated over the integer and fraction digit runs equals
/// the integer digits shifted past the fraction digits.
proof fn lemma_mant_exact(b: Seq<u8>, p: int)
    ensures
        num_mant(b, p) == digits_val(b, sgn_end(b, p), int_end(b, p)) * pow10(
            frac_end(b, p) - frac_start(b, p),
        ) + digits_val(b, frac_start(b, p), frac_end(b, p)),
{
}

// ------------------------------------------------------------------
// Token layer: whitespace, tags, and identifier runs.
// ------------------------------------------------------------------

/// The first position at or after `p` without whitespace.
pub open spec fn ws_end(b: Seq<u8>, p: int) -> int
    decreases b.len() - p,
    when 0 <= p <= b.len()
{
    if p < b.len() && is_ws(b[p]) {
        ws_end(b, p + 1)
    } else {
        p
    }
}

pub proof fn lemma_ws_end(b: Seq<u8>, p: int)
    requires
        0 <= p <= b.len(),
    ensures
        p <= ws_end(b, p) <= b.len(),
    decreases b.len() - p,
{
    if p < b.len() && is_ws(b[p]) {
        lemma_ws_end(b, p + 1);
    }
}

/// The first position at or after `p` without a space or tab.
pub open spec fn hs_end(b: Seq<u8>, p: int) -> int
    decreases b.len() - p,
    when 0 <= p <= b.len()
{
    if p < b.len() && (b[p] == 32 || b[p] == 9) {
        hs_end(b, p + 1)
    } else {
        p
    }
}

/// The first position at or after `p` without an alphanumeric byte.
pub open spec fn alnum_end(b: Seq<u8>, p: int) -> int
    decreases b.len() - p,
    when 0 <= p <= b.len()
{
    if p < b.len() && is_alnum(b[p]) {
        alnum_end(b, p + 1)
    } else {
        p
    }
}

/// Skip any run of whitespace.
fn skip_ws(input: &[u8], pos: usize) -> (np: usize)
    requires
        pos <= input@.len(),
    ensures
        np == ws_end(input@, pos as int),
        pos <= np <= input@.len(),
{
    let len = input.len();
    let mut p = pos;
    while p < len && (input[p] == 32 || input[p] == 9 || input[p] == 10 || input[p] == 13)
        invariant
            pos <= p <= len == input@.len(),
            ws_end(input@, pos as int) == ws_end(input@, p as int),
        decreases len - p,
    {
        p += 1;
    }
    p
}

/// Skip any run of spaces and tabs.
fn skip_hspace(input: &[u8], pos: usize) -> (np: usize)
    requires
        pos <= input@.len(),
    ensures
        np == hs_end(input@, pos as int),
        pos <= np <= input@.len(),
{
    let len = input.len();
    let mut p = pos;
    while p < len && (input[p] == 32 || input[p] == 9)
        invariant
            pos <= p <= len == input@.len(),
            hs_end(input@, pos as int) == hs_end(input@, p as int),
        decreases len - p,
    {
        p += 1;
    }
    p
}

/// Skip the alphanumeric run at `pos`.
fn scan_alnum(input: &[u8], pos: usize) -> (np: usize)
    requires
        pos <= input@.len(),
    ensures
        np == alnum_end(input@, pos as int),
        pos <= np <= input@.len(),
        forall|j: int| pos <= j < np ==> is_alnum(#[trigger] input@[j]),
{
    let len = input.len();
    let mut p = pos;
    while p < len && ((input[p] >= 48 && input[p] <= 57) || (input[p] >= 65 && input[p] <= 90) || (
    input[p] >= 97 && input[p] <= 122))
        invariant
            pos <= p <= len == input@.len(),
            alnum_end(input@, pos as int) == alnum_end(input@, p as int),
            forall|j: int| pos <= j < p ==> is_alnum(#[trigger] input@[j]),
        decreases len - p,
    {
        p += 1;
    }
    p
}

/// Expect at least one whitespace byte, then skip the run: the separator
/// between grammar tokens.
fn skip_ws1(input: &[u8], pos: usize) -> (r: Result<usize, MeshError>)
    requires
        pos <= input@.len(),
    ensures
        r is Ok <==> ws1_ok(input@, pos as int),
        r matches Ok(np) ==> np == ws_end(input@, pos as int) && pos < np <= input@.len(),
        r is Err ==> r == Err::<usize, MeshError>(ws1_err(input@, pos as int)),
{
    let len = input.len();
    if pos == len {
        return Err(MeshError::Truncated);
    }
    let c = input[pos];
    if !(c == 32 || c == 9 || c == 10 || c == 13) {
        return Err(MeshError::Malformed);
    }
    proof {
        assert(ws_end(input@, pos as int) == ws_end(input@, pos + 1));
        lemma_ws_end(input@, pos + 1);
    }
    Ok(skip_ws(input, pos))
}

/// Match the literal `tag` at `pos`. Running out of input while the bytes
/// still match is a truncation; a mismatching byte is a malformation.
fn expect_tag(input: &[u8], pos: usize, tag: &[u8]) -> (r: Result<usize, MeshError>)
    requires
        pos <= input@.len(),
    ensures
        r matches Ok(np) ==> np == pos + tag@.len(),
        r is Ok <==> tag_ok(input@, pos as int, tag@),
        r == Err::<usize, MeshError>(MeshError::Truncated) <==> (input@.len() < pos + tag@.len()
            && input@.subrange(pos as int, input@.len() as int) =~= tag@.subrange(
            0,
            input@.len() - pos,
        )),
        r is Err ==> r == Err::<usize, MeshError>(tag_err(input@, pos as int, tag@)),
{
    let len = input.len();
    let tlen = tag.len();
    let mut i: usize = 0;
    while i < tlen
        invariant
            i <= tlen == tag@.len(),
            pos <= len == input@.len(),
            pos + i <= len,
            forall|j: int| 0 <= j < i ==> input@[pos + j] == tag@[j],
        decreases tlen - i,
    {
        if len - pos == i {
            proof {
                assert(input@.subrange(pos as int, len as int) =~= tag@.subrange(
                    0,
                    len - pos,
                ));
            }
            return Err(MeshError::Truncated);
        }
        if input[pos + i] != tag[i] {
            proof {
                assert(!(input@.len() < pos + tag@.len() && input@.subrange(
                    pos as int,
                    input@.len() as int,
                ) =~= tag@.subrange(0, input@.len() - pos))) by {
                    if input@.len() < pos + tag@.len() && input@.subrange(
                        pos as int,
                        input@.len() as int,
                    ) =~= tag@.subrange(0, input@.len() - pos) {
                        assert(input@[pos + i] == input@.subrange(
                            pos as int,
                            input@.len() as int,
                        )[i as int]);
                    }
                }
                assert(!(pos + tag@.len() <= input@.len() && input@.subrange(
                    pos as int,
                    pos + tag@.len(),
                ) =~= tag@)) by {
                    if pos + tag@.len() <= input@.len() && input@.subrange(
                        pos as int,
                        pos + tag@.len(),
                    ) =~= tag@ {
                        assert(input@[pos + i] == input@.subrange(pos as int, pos + tag@.len())[
                            i as int]);
                    }
                }
            }
            return Err(MeshError::Malformed);
        }
        i += 1;
    }
    proof {
        assert(input@.subrange(pos as int, pos + tag@.len()) =~= tag@);
    }
    Ok(pos + tlen)
}

/// A token separator sits at `p`: at least one whitespace byte.
pub open spec fn ws1_ok(b: Seq<u8>, p: int) -> bool {
    p < b.len() && is_ws(b[p])
}

/// Which error a missing separator reports.
pub open spec fn ws1_err(b: Seq<u8>, p: int) -> MeshError {
    if p == b.len() {
        MeshError::Truncated
    } else {
        MeshError::Malformed
    }
}

/// The literal `t` is written at `p`.
pub open spec fn tag_ok(b: Seq<u8>, p: int, t: Seq<u8>) -> bool {
    p + t.len() <= b.len() && b.subrange(p, p + t.len()) =~= t
}

/// Which error a failed literal match reports: a truncation when the input
/// ends while the bytes still match, a malformation otherwise.
pub open spec fn tag_err(b: Seq<u8>, p: int, t: Seq<u8>) -> MeshError {
    if b.len() < p + t.len() && b.subrange(p, b.len() as int) =~= t.subrange(0, b.len() - p) {
        MeshError::Truncated
    } else {
        MeshError::Malformed
    }
}

/// A number token never scans outside the input.
pub proof fn lemma_num_end_bounds(b: Seq<u8>, p: int)
    requires
        0 <= p <= b.len(),
    ensures
        p <= num_end(b, p) <= b.len(),
        p <= frac_end(b, p) <= b.len(),
{
    lemma_digits_end(b, sgn_end(b, p));
    lemma_digits_end(b, frac_start(b, p));
    if has_exp(b, p) {
        lemma_digits_end(b, exp_sgn_end(b, p));
    }
}

// ------------------------------------------------------------------
// Grammar layer: vertices, facets, and the solid.
// ------------------------------------------------------------------

/// One independent triangular face of the ingested surface: a face normal
/// and three vertices, none shared with neighboring facets.
#[derive(Clone, Copy, PartialEq, Eq, Structural, Debug)]
pub struct Facet {
    pub normal: Point,
    pub p1: Point,
    pub p2: Point,
    pub p3: Point,
}

/// A parsed surface: the optional solid name and the flat facet list.
#[derive(Clone, PartialEq, Eq, Debug)]
pub struct STL {
    pub name: Option<String>,
    pub facets: Vec<Facet>,
}

/// Where the second coordinate of a vertex starts.
pub open spec fn coord2_start(b: Seq<u8>, p: int) -> int {
    ws_end(b, num_end(b, p))
}

/// Where the third coordinate of a vertex starts.
pub open spec fn coord3_start(b: Seq<u8>, p: int) -> int {
    ws_end(b, num_end(b, coord2_start(b, p)))
}

/// Where a coordinate triple at `p` ends.
pub open spec fn point_end(b: Seq<u8>, p: int) -> int {
    num_end(b, coord3_start(b, p))
}

/// The fixed-point coordinate triple written at `p`.
pub open spec fn point_value(b: Seq<u8>, p: int, scale: int) -> Point {
    Point {
        x: num_value(b, p, scale) as i64,
        y: num_value(b, coord2_start(b, p), scale) as i64,
        z: num_value(b, coord3_start(b, p), scale) as i64,
    }
}

/// A coordinate triple never scans outside the input.
pub proof fn lemma_point_end_bounds(b: Seq<u8>, p: int)
    requires
        0 <= p <= b.len(),
    ensures
        p <= point_end(b, p) <= b.len(),
        p <= coord2_start(b, p) <= b.len(),
        p <= coord3_start(b, p) <= b.len(),
{
    lemma_num_end_bounds(b, p);
    lemma_ws_end(b, num_end(b, p));
    lemma_num_end_bounds(b, coord2_start(b, p));
    lemma_ws_end(b, num_end(b, coord2_start(b, p)));
    lemma_num_end_bounds(b, coord3_start(b, p));
}

/// A coordinate triple is written at `p`: three parseable numbers with a
/// separator between each pair.
pub open spec fn point_ok(b: Seq<u8>, p: int, scale: int) -> bool {
    &&& num_ok(b, p, scale)
    &&& ws1_ok(b, num_end(b, p))
    &&& num_ok(b, coord2_start(b, p), scale)
    &&& ws1_ok(b, num_end(b, coord2_start(b, p)))
    &&& num_ok(b, coord3_start(b, p), scale)
}

/// Which error a failed coordinate triple reports: that of the first
/// component that fails.
pub open spec fn point_err(b: Seq<u8>, p: int, scale: int) -> MeshError {
    if !num_ok(b, p, scale) {
        num_err(b, p)
    } else if !ws1_ok(b, num_end(b, p)) {
        ws1_err(b, num_end(b, p))
    } else if !num_ok(b, coord2_start(b, p), scale) {
        num_err(b, coord2_start(b, p))
    } else if !ws1_ok(b, num_end(b, coord2_start(b, p))) {
        ws1_err(b, num_end(b, coord2_start(b, p)))
    } else {
        num_err(b, coord3_start(b, p))
    }
}

/// Parse three whitespace-separated numbers at `pos` into a fixed-point
/// coordinate triple.
fn parse_point(input: &[u8], pos: usize, scale: u32) -> (r: Result<(Point, usize), MeshError>)
    requires
        pos <= input@.len(),
        scale <= 18,
    ensures
        r matches Ok((pt, np)) ==> {
            &&& pt == point_value(input@, pos as int, scale as int)
            &&& np == point_end(input@, pos as int)
            &&& pos < np <= input@.len()
        },
        r is Ok <==> point_ok(input@, pos as int, scale as int),
        r is Err ==> r == Err::<(Point, usize), MeshError>(
            point_err(input@, pos as int, scale as int),
        ),
{
    let (x, pa) = match parse_number(input, pos, scale) {
        Ok(v) => v,
        Err(e) => {
            return Err(e);
        },
    };
    let pb = match skip_ws1(input, pa) {
        Ok(v) => v,
        Err(e) => {
            return Err(e);
        },
    };
    let (y, pc) = match parse_number(input, pb, scale) {
        Ok(v) => v,
        Err(e) => {
            return Err(e);
        },
    };
    let pd = match skip_ws1(input, pc) {
        Ok(v) => v,
        Err(e) => {
            return Err(e);
        },
    };
    let (z, pe) = match parse_number(input, pd, scale) {
        Ok(v) => v,
        Err(e) => {
            return Err(e);
        },
    };
    proof {
        assert(pb == coord2_start(input@, pos as int));
        assert(pd == coord3_start(input@, pos as int));
    }
    Ok((Point { x, y, z }, pe))
}

// The keyword literals of the grammar, as byte sequences.
pub open spec fn facet_tag() -> Seq<u8> {
    seq![102u8, 97u8, 99u8, 101u8, 116u8]
}

pub open spec fn normal_tag() -> Seq<u8> {
    seq![110u8, 111u8, 114u8, 109u8, 97u8, 108u8]
}

pub open spec fn outer_loop_tag() -> Seq<u8> {
    seq![111u8, 117u8, 116u8, 101u8, 114u8, 32u8, 108u8, 111u8, 111u8, 112u8]
}

pub open spec fn vertex_tag() -> Seq<u8> {
    seq![118u8, 101u8, 114u8, 116u8, 101u8, 120u8]
}

pub open spec fn endloop_tag() -> Seq<u8> {
    seq![101u8, 110u8, 100u8, 108u8, 111u8, 111u8, 112u8]
}

pub open spec fn endfacet_tag() -> Seq<u8> {
    seq![101u8, 110u8, 100u8, 102u8, 97u8, 99u8, 101u8, 116u8]
}

/// Where the coordinates of a `vertex` entry led in by whitespace at `p`
/// start.
pub open spec fn vertex_point_start(b: Seq<u8>, p: int) -> int {
    ws_end(b, ws_end(b, p) + 6)
}

/// A `vertex` entry is written at `p`: a separator, the keyword, a
/// separator, and a coordinate triple.
pub open spec fn vertex_ok(b: Seq<u8>, p: int, scale: int) -> bool {
    &&& ws1_ok(b, p)
    &&& tag_ok(b, ws_end(b, p), vertex_tag())
    &&& ws1_ok(b, ws_end(b, p) + 6)
    &&& point_ok(b, vertex_point_start(b, p), scale)
}

/// Which error a failed `vertex` entry reports.
pub open spec fn vertex_err(b: Seq<u8>, p: int, scale: int) -> MeshError {
    if !ws1_ok(b, p) {
        ws1_err(b, p)
    } else if !tag_ok(b, ws_end(b, p), vertex_tag()) {
        tag_err(b, ws_end(b, p), vertex_tag())
    } else if !ws1_ok(b, ws_end(b, p) + 6) {
        ws1_err(b, ws_end(b, p) + 6)
    } else {
        point_err(b, vertex_point_start(b, p), scale)
    }
}

/// Parse one vertex entry: leading whitespace, the `vertex` keyword, and a
/// coordinate triple.
fn parse_vertex(input: &[u8], pos: usize, scale: u32) -> (r: Result<(Point, usize), MeshError>)
    requires
        pos <= input@.len(),
        scale <= 18,
    ensures
        r matches Ok((pt, np)) ==> {
            &&& pt == point_value(input@, vertex_point_start(input@, pos as int), scale as int)
            &&& np == point_end(input@, vertex_point_start(input@, pos as int))
            &&& pos < np <= input@.len()
        },
        r is Ok <==> vertex_ok(input@, pos as int, scale as int),
        r is Err ==> r == Err::<(Point, usize), MeshError>(
            vertex_err(input@, pos as int, scale as int),
        ),
{
    let tag_vertex: [u8; 6] = [118, 101, 114, 116, 101, 120];
    proof {
        assert(tag_vertex@ =~= vertex_tag());
    }
    let mut p = match skip_ws1(input, pos) {
        Ok(v) => v,
        Err(e) => {
            return Err(e);
        },
    };
    p = match expect_tag(input, p, tag_vertex.as_slice()) {
        Ok(v) => v,
        Err(e) => {
            return Err(e);
        },
    };
    p = match skip_ws1(input, p) {
        Ok(v) => v,
        Err(e) => {
            return Err(e);
        },
    };
    match parse_point(input, p, scale) {
        Ok(v) => Ok(v),
        Err(e) => Err(e),
    }
}

/// Where the normal vector of a facet at `p` starts.
pub open spec fn facet_normal_start(b: Seq<u8>, p: int) -> int {
    ws_end(b, ws_end(b, p + 5) + 6)
}

/// Where the three vertices of a facet at `p` start.
pub open spec fn facet_v1_start(b: Seq<u8>, p: int) -> int {
    vertex_point_start(b, ws_end(b, point_end(b, facet_normal_start(b, p))) + 10)
}

pub open spec fn facet_v2_start(b: Seq<u8>, p: int) -> int {
    vertex_point_start(b, point_end(b, facet_v1_start(b, p)))
}

pub open spec fn facet_v3_start(b: Seq<u8>, p: int) -> int {
    vertex_point_start(b, point_end(b, facet_v2_start(b, p)))
}

/// Where a facet at `p` ends: after its closing keywords.
pub open spec fn facet_end(b: Seq<u8>, p: int) -> int {
    ws_end(b, ws_end(b, point_end(b, facet_v3_start(b, p))) + 7) + 8
}

/// Where the `outer loop`, `endloop` and `endfacet` keywords of a facet at
/// `p` sit.
pub open spec fn facet_ol_pos(b: Seq<u8>, p: int) -> int {
    ws_end(b, point_end(b, facet_normal_start(b, p)))
}

pub open spec fn facet_el_pos(b: Seq<u8>, p: int) -> int {
    ws_end(b, point_end(b, facet_v3_start(b, p)))
}

pub open spec fn facet_ef_pos(b: Seq<u8>, p: int) -> int {
    ws_end(b, facet_el_pos(b, p) + 7)
}

/// A complete facet block is written at `p`: the keywords in order, a
/// parseable normal, and three parseable vertices.
pub open spec fn facet_ok(b: Seq<u8>, p: int, scale: int) -> bool {
    &&& tag_ok(b, p, facet_tag())
    &&& ws1_ok(b, p + 5)
    &&& tag_ok(b, ws_end(b, p + 5), normal_tag())
    &&& ws1_ok(b, ws_end(b, p + 5) + 6)
    &&& point_ok(b, facet_normal_start(b, p), scale)
    &&& ws1_ok(b, point_end(b, facet_normal_start(b, p)))
    &&& tag_ok(b, facet_ol_pos(b, p), outer_loop_tag())
    &&& vertex_ok(b, facet_ol_pos(b, p) + 10, scale)
    &&& vertex_ok(b, point_end(b, facet_v1_start(b, p)), scale)
    &&& vertex_ok(b, point_end(b, facet_v2_start(b, p)), scale)
    &&& ws1_ok(b, point_end(b, facet_v3_start(b, p)))
    &&& tag_ok(b, facet_el_pos(b, p), endloop_tag())
    &&& ws1_ok(b, facet_el_pos(b, p) + 7)
    &&& tag_ok(b, facet_ef_pos(b, p), endfacet_tag())
}

/// Which error a failed facet block reports: that of the first piece that
/// fails.
pub open spec fn facet_err(b: Seq<u8>, p: int, scale: int) -> MeshError {
    if !tag_ok(b, p, facet_tag()) {
        tag_err(b, p, facet_tag())
    } else if !ws1_ok(b, p + 5) {
        ws1_err(b, p + 5)
    } else if !tag_ok(b, ws_end(b, p + 5), normal_tag()) {
        tag_err(b, ws_end(b, p + 5), normal_tag())
    } else if !ws1_ok(b, ws_end(b, p + 5) + 6) {
        ws1_err(b, ws_end(b, p + 5) + 6)
    } else if !point_ok(b, facet_normal_start(b, p), scale) {
        point_err(b, facet_normal_start(b, p), scale)
    } else if !ws1_ok(b, point_end(b, facet_normal_start(b, p))) {
        ws1_err(b, point_end(b, facet_normal_start(b, p)))
    } else if !tag_ok(b, facet_ol_pos(b, p), outer_loop_tag()) {
        tag_err(b, facet_ol_pos(b, p), outer_loop_tag())
    } else if !vertex_ok(b, facet_ol_pos(b, p) + 10, scale) {
        vertex_err(b, facet_ol_pos(b, p) + 10, scale)
    } else if !vertex_ok(b, point_end(b, facet_v1_start(b, p)), scale) {
        vertex_err(b, point_end(b, facet_v1_start(b, p)), scale)
    } else if !vertex_ok(b, point_end(b, facet_v2_start(b, p)), scale) {
        vertex_err(b, point_end(b, facet_v2_start(b, p)), scale)
    } else if !ws1_ok(b, point_end(b, facet_v3_start(b, p))) {
        ws1_err(b, point_end(b, facet_v3_start(b, p)))
    } else if !tag_ok(b, facet_el_pos(b, p), endloop_tag()) {
        tag_err(b, facet_el_pos(b, p), endloop_tag())
    } else if !ws1_ok(b, facet_el_pos(b, p) + 7) {
        ws1_err(b, facet_el_pos(b, p) + 7)
    } else {
        tag_err(b, facet_ef_pos(b, p), endfacet_tag())
    }
}

/// A well-written `vertex` entry ends after its entry position and inside
/// the input.
proof fn lemma_vertex_end_bounds(b: Seq<u8>, p: int, scale: int)
    requires
        0 <= p <= b.len(),
        vertex_ok(b, p, scale),
    ensures
        p < point_end(b, vertex_point_start(b, p)) <= b.len(),
{
    lemma_ws_end(b, p);
    lemma_ws_end(b, ws_end(b, p) + 6);
    lemma_point_end_bounds(b, vertex_point_start(b, p));
}

/// A well-written facet block ends after its start and inside the input.
proof fn lemma_facet_end_bounds(b: Seq<u8>, p: int, scale: int)
    requires
        0 <= p <= b.len(),
        facet_ok(b, p, scale),
    ensures
        p < facet_end(b, p) <= b.len(),
{
    lemma_ws_end(b, p + 5);
    lemma_ws_end(b, ws_end(b, p + 5) + 6);
    lemma_point_end_bounds(b, facet_normal_start(b, p));
    lemma_ws_end(b, point_end(b, facet_normal_start(b, p)));
    lemma_vertex_end_bounds(b, facet_ol_pos(b, p) + 10, scale);
    lemma_vertex_end_bounds(b, point_end(b, facet_v1_start(b, p)), scale);
    lemma_vertex_end_bounds(b, point_end(b, facet_v2_start(b, p)), scale);
    lemma_ws_end(b, point_end(b, facet_v3_start(b, p)));
    lemma_ws_end(b, facet_el_pos(b, p) + 7);
}

/// The facet written at `p`.
pub open spec fn facet_value(b: Seq<u8>, p: int, scale: int) -> Facet {
    Facet {
        normal: point_value(b, facet_normal_start(b, p), scale),
        p1: point_value(b, facet_v1_start(b, p), scale),
        p2: point_value(b, facet_v2_start(b, p), scale),
        p3: point_value(b, facet_v3_start(b, p), scale),
    }
}

/// Parse one facet at `pos` (the leading whitespace already skipped):
/// `facet normal <n> <n> <n> outer loop (vertex <n> <n> <n>){3} endloop
/// endfacet`.
#[verifier::rlimit(100)]
fn parse_facet(input: &[u8], pos: usize, scale: u32) -> (r: Result<(Facet, usize), MeshError>)
    requires
        pos <= input@.len(),
        scale <= 18,
    ensures
        r matches Ok((f, np)) ==> {
            &&& f == facet_value(input@, pos as int, scale as int)
            &&& np == facet_end(input@, pos as int)
            &&& pos < np <= input@.len()
        },
        r is Ok <==> facet_ok(input@, pos as int, scale as int),
        r is Err ==> r == Err::<(Facet, usize), MeshError>(
            facet_err(input@, pos as int, scale as int),
        ),
{
    let tag_facet: [u8; 5] = [102, 97, 99, 101, 116];
    let tag_normal: [u8; 6] = [110, 111, 114, 109, 97, 108];
    let tag_outer_loop: [u8; 10] = [111, 117, 116, 101, 114, 32, 108, 111, 111, 112];
    let tag_endloop: [u8; 7] = [101, 110, 100, 108, 111, 111, 112];
    let tag_endfacet: [u8; 8] = [101, 110, 100, 102, 97, 99, 101, 116];
    proof {
        assert(tag_facet@ =~= facet_tag());
        assert(tag_normal@ =~= normal_tag());
        assert(tag_outer_loop@ =~= outer_loop_tag());
        assert(tag_endloop@ =~= endloop_tag());
        assert(tag_endfacet@ =~= endfacet_tag());
    }

    let mut p = match expect_tag(input, pos, tag_facet.as_slice()) {
        Ok(v) => v,
        Err(e) => {
            return Err(e);
        },
    };
    p = match skip_ws1(input, p) {
        Ok(v) => v,
        Err(e) => {
            return Err(e);
        },
    };
    p = match expect_tag(input, p, tag_normal.as_slice()) {
        Ok(v) => v,
        Err(e) => {
            return Err(e);
        },
    };
    p = match skip_ws1(input, p) {
        Ok(v) => v,
        Err(e) => {
            return Err(e);
        },
    };
    proof {
        assert(p == facet_normal_start(input@, pos as int));
    }
    let (normal, pn) = match parse_point(input, p, scale) {
        Ok(v) => v,
        Err(e) => {
            return Err(e);
        },
    };
    p = match skip_ws1(input, pn) {
        Ok(v) => v,
        Err(e) => {
            return Err(e);
        },
    };
    p = match expect_tag(input, p, tag_outer_loop.as_slice()) {
        Ok(v) => v,
        Err(e) => {
            return Err(e);
        },
    };
    let (v1, q1) = match parse_vertex(input, p, scale) {
        Ok(v) => v,
        Err(e) => {
            return Err(e);
        },
    };
    let (v2, q2) = match parse_vertex(input, q1, scale) {
        Ok(v) => v,
        Err(e) => {
            return Err(e);
        },
    };
    let (v3, q3) = match parse_vertex(input, q2, scale) {
        Ok(v) => v,
        Err(e) => {
            return Err(e);
        },
    };
    p = match skip_ws1(input, q3) {
        Ok(v) => v,
        Err(e) => {
            return Err(e);
        },
    };
    p = match expect_tag(input, p, tag_endloop.as_slice()) {
        Ok(v) => v,
        Err(e) => {
            return Err(e);
        },
    };
    p = match skip_ws1(input, p) {
        Ok(v) => v,
        Err(e) => {
            return Err(e);
        },
    };
    p = match expect_tag(input, p, tag_endfacet.as_slice()) {
        Ok(v) => v,
        Err(e) => {
            return Err(e);
        },
    };
    proof {
        assert(p == facet_end(input@, pos as int));
    }
    Ok((Facet { normal, p1: v1, p2: v2, p3: v3 }, p))
}

/// The opening keyword of a surface file.
pub open spec fn solid_tag() -> Seq<u8> {
    seq![115u8, 111u8, 108u8, 105u8, 100u8]
}

/// The closing keyword of a surface file.
pub open spec fn endsolid_tag() -> Seq<u8> {
    seq![101u8, 110u8, 100u8, 115u8, 111u8, 108u8, 105u8, 100u8]
}

/// Where the optional solid name starts: after `solid` and horizontal
/// space.
pub open spec fn name_start(b: Seq<u8>) -> int {
    hs_end(b, 5)
}

/// Where the optional solid name ends.
pub open spec fn name_end(b: Seq<u8>) -> int {
    alnum_end(b, name_start(b))
}

/// The facet list `fs` is written, facet by facet, from position `p` to
/// position `q`: each entry sits, led in by whitespace, at the spot the
/// previous one ended, and reads back as its tabled value.
pub open spec fn facets_seen(b: Seq<u8>, scale: int, p: int, q: int, fs: Seq<Facet>) -> bool
    decreases fs.len(),
{
    if fs.len() == 0 {
        q == p
    } else {
        let w = ws_end(b, p);
        &&& w < b.len()
        &&& b[w] == 102
        &&& fs.first() == facet_value(b, w, scale)
        &&& facets_seen(b, scale, facet_end(b, w), q, fs.drop_first())
    }
}

/// Appending one more facet to a written chain extends it.
proof fn lemma_facets_seen_snoc(b: Seq<u8>, scale: int, p0: int, p: int, fs: Seq<Facet>, f: Facet)
    requires
        facets_seen(b, scale, p0, p, fs),
        ws_end(b, p) < b.len(),
        b[ws_end(b, p)] == 102,
        f == facet_value(b, ws_end(b, p), scale),
    ensures
        facets_seen(b, scale, p0, facet_end(b, ws_end(b, p)), fs.push(f)),
    decreases fs.len(),
{
    let fe = facet_end(b, ws_end(b, p));
    if fs.len() == 0 {
        assert(p == p0);
        let one = fs.push(f);
        assert(one.len() == 1);
        assert(one.first() == f);
        assert(one.drop_first() =~= Seq::<Facet>::empty());
        assert(facets_seen(b, scale, fe, fe, one.drop_first()));
        assert(facets_seen(b, scale, p0, fe, one));
    } else {
        lemma_facets_seen_snoc(b, scale, facet_end(b, ws_end(b, p0)), p, fs.drop_first(), f);
        let ext = fs.push(f);
        assert(ext.first() == fs.first());
        assert(ext.drop_first() =~= fs.drop_first().push(f));
        assert(facets_seen(b, scale, facet_end(b, ws_end(b, p0)), fe, ext.drop_first()));
        assert(facets_seen(b, scale, p0, fe, ext));
    }
}

/// Relies on core::str::from_utf8: a sequence of bytes below 128 is valid
/// UTF-8 and decodes to exactly those bytes as characters, so the call
/// cannot fail under this precondition.
#[verifier::external_body]
fn ascii_bytes_to_string(b: &Vec<u8>) -> (r: String)
    requires
        forall|i: int| 0 <= i < b@.len() ==> b@[i] < 128,
    ensures
        r@.len() == b@.len(),
        forall|i: int| 0 <= i < b@.len() ==> r@[i] == b@[i] as char,
{
    let s: &str = core::str::from_utf8(b.as_slice()).unwrap();
    s.to_owned()
}

/// From position `p` on, the rest of the solid is well written: facet
/// blocks, each led in by whitespace, until the closing keyword. A run of
/// whitespace followed by an `f` byte must open a parseable facet; anything
/// else must be the `endsolid` keyword after whitespace.
pub open spec fn tail_ok(b: Seq<u8>, scale: int, p: int) -> bool
    decreases b.len() - p,
    when 0 <= p <= b.len()
    via tail_ok_dec
{
    let q = ws_end(b, p);
    if q < b.len() && b[q] == 102 {
        if facet_ok(b, q, scale) {
            tail_ok(b, scale, facet_end(b, q))
        } else {
            false
        }
    } else {
        tag_ok(b, q, endsolid_tag())
    }
}

#[via_fn]
proof fn tail_ok_dec(b: Seq<u8>, scale: int, p: int) {
    lemma_ws_end(b, p);
    let q = ws_end(b, p);
    if q < b.len() && b[q] == 102 && facet_ok(b, q, scale) {
        lemma_facet_end_bounds(b, q, scale);
    }
}

/// Which error a failed solid tail reports: that of the first facet block
/// that fails, or of the missing closing keyword.
pub open spec fn tail_err(b: Seq<u8>, scale: int, p: int) -> MeshError
    decreases b.len() - p,
    when 0 <= p <= b.len()
    via tail_err_dec
{
    let q = ws_end(b, p);
    if q < b.len() && b[q] == 102 {
        if facet_ok(b, q, scale) {
            tail_err(b, scale, facet_end(b, q))
        } else {
            facet_err(b, q, scale)
        }
    } else {
        tag_err(b, q, endsolid_tag())
    }
}

#[via_fn]
proof fn tail_err_dec(b: Seq<u8>, scale: int, p: int) {
    lemma_ws_end(b, p);
    let q = ws_end(b, p);
    if q < b.len() && b[q] == 102 && facet_ok(b, q, scale) {
        lemma_facet_end_bounds(b, q, scale);
    }
}

/// The whole input is a well-written solid: the opening keyword, the
/// optional name, the facet blocks, and the closing keyword. Parsing
/// succeeds exactly on such inputs.
pub open spec fn stl_ok(b: Seq<u8>, scale: int) -> bool {
    tag_ok(b, 0, solid_tag()) && tail_ok(b, scale, name_end(b))
}

/// Which error a failed parse reports: that of the first piece of the
/// grammar that fails. A piece that runs out of input while still matching
/// reports a truncation; a mismatching byte a malformation; a number
/// outside the coordinate range a range error.
pub open spec fn stl_err(b: Seq<u8>, scale: int) -> MeshError {
    if !tag_ok(b, 0, solid_tag()) {
        tag_err(b, 0, solid_tag())
    } else {
        tail_err(b, scale, name_end(b))
    }
}

/// Parse an ASCII surface description: `solid`, an optional name on the
/// same line, any number of facets, and the closing `endsolid`. Bytes after
/// `endsolid` are ignored. Parsing succeeds exactly on inputs matching the
/// grammar (`stl_ok`); a failure reports the error class of the first
/// broken piece (`stl_err`): an input that ends where the grammar demands
/// more is truncated, a mismatching byte is malformed.
///
/// On success the result is pinned to the text: the name is exactly the
/// alphanumeric run on the `solid` line, and the facet list is exactly the
/// chain of facets written between the name and the closing keyword.
pub fn parse_stl(input: &[u8], scale: u32) -> (r: Result<STL, MeshError>)
    requires
        scale <= 18,
    ensures
        r is Ok <==> stl_ok(input@, scale as int),
        r is Err ==> r == Err::<STL, MeshError>(stl_err(input@, scale as int)),
        r matches Ok(s) ==> {
            &&& (name_start(input@) < name_end(input@) ==> (s.name matches Some(nm)
                && nm@.len() == name_end(input@) - name_start(input@) && (forall|i: int|
                0 <= i < nm@.len() ==> nm@[i] == input@[name_start(input@) + i] as char)))
            &&& (name_start(input@) == name_end(input@) ==> s.name is None)
            &&& exists|pe: int|
                {
                    &&& facets_seen(input@, scale as int, name_end(input@), pe, s.facets@)
                    &&& #[trigger] ws_end(input@, pe) + 8 <= input@.len()
                    &&& input@.subrange(ws_end(input@, pe), ws_end(input@, pe) + 8)
                        =~= endsolid_tag()
                    &&& !(ws_end(input@, pe) < input@.len() && input@[ws_end(input@, pe)] == 102)
                }
        },
{
    let tag_solid: [u8; 5] = [115, 111, 108, 105, 100];
    let tag_endsolid: [u8; 8] = [101, 110, 100, 115, 111, 108, 105, 100];
    proof {
        assert(tag_solid@ =~= solid_tag());
    }
    let mut p = match expect_tag(input, 0, tag_solid.as_slice()) {
        Ok(v) => v,
        Err(e) => {
            proof {
                assert(!tag_ok(input@, 0, solid_tag()));
            }
            return Err(e);
        },
    };
    proof {
        assert(tag_ok(input@, 0, solid_tag()));
    }
    // An optional name: an alphanumeric run after horizontal space, on the
    // `solid` line.
    let q = skip_hspace(input, p);
    let r2 = scan_alnum(input, q);
    let name: Option<String> = if r2 > q {
        let mut nb: Vec<u8> = Vec::new();
        let mut k = q;
        while k < r2
            invariant
                q <= k <= r2 <= input@.len(),
                nb@.len() == k - q,
                forall|i: int| 0 <= i < nb@.len() ==> nb@[i] == input@[q + i],
                forall|j: int| q <= j < r2 ==> is_alnum(#[trigger] input@[j]),
            decreases r2 - k,
        {
            nb.push(input[k]);
            k += 1;
        }
        Some(ascii_bytes_to_string(&nb))
    } else {
        None
    };
    p = r2;
    proof {
        assert(q == name_start(input@));
        assert(r2 == name_end(input@));
    }

    // Facets, each led in by whitespace.
    let ghost ne = r2 as int;
    let mut facets: Vec<Facet> = Vec::new();
    loop
        invariant_except_break
            facets_seen(input@, scale as int, ne, p as int, facets@),
            tail_ok(input@, scale as int, ne) == tail_ok(input@, scale as int, p as int),
            tail_err(input@, scale as int, ne) == tail_err(input@, scale as int, p as int),
        invariant
            p <= input@.len(),
            scale <= 18,
            0 <= ne <= input@.len(),
            ne == name_end(input@),
            tag_ok(input@, 0, solid_tag()),
        ensures
            p <= input@.len(),
            tail_ok(input@, scale as int, ne) == tag_ok(input@, p as int, endsolid_tag()),
            tail_err(input@, scale as int, ne) == tag_err(input@, p as int, endsolid_tag()),
            exists|pe: int|
                #[trigger] facets_seen(input@, scale as int, ne, pe, facets@) && p == ws_end(
                    input@,
                    pe,
                ) && !(p < input@.len() && input@[p as int] == 102),
        decreases input@.len() - p,
    {
        let q2 = skip_ws(input, p);
        if q2 < input.len() && input[q2] == 102 {
            match parse_facet(input, q2, scale) {
                Ok((f, np)) => {
                    proof {
                        lemma_facets_seen_snoc(
                            input@,
                            scale as int,
                            ne,
                            p as int,
                            facets@,
                            f,
                        );
                        assert(tail_ok(input@, scale as int, p as int) == tail_ok(
                            input@,
                            scale as int,
                            np as int,
                        ));
                        assert(tail_err(input@, scale as int, p as int) == tail_err(
                            input@,
                            scale as int,
                            np as int,
                        ));
                    }
                    facets.push(f);
                    p = np;
                },
                Err(e) => {
                    proof {
                        assert(!facet_ok(input@, q2 as int, scale as int));
                        assert(tail_ok(input@, scale as int, p as int) == false);
                        assert(tail_err(input@, scale as int, p as int) == facet_err(
                            input@,
                            q2 as int,
                            scale as int,
                        ));
                    }
                    return Err(e);
                },
            }
        } else {
            let ghost pe0 = p as int;
            p = q2;
            proof {
                assert(facets_seen(input@, scale as int, ne, pe0, facets@) && p == ws_end(
                    input@,
                    pe0,
                ) && !(p < input@.len() && input@[p as int] == 102));
                assert(tail_ok(input@, scale as int, pe0) == tag_ok(
                    input@,
                    p as int,
                    endsolid_tag(),
                ));
                assert(tail_err(input@, scale as int, pe0) == tag_err(
                    input@,
                    p as int,
                    endsolid_tag(),
                ));
            }
            break ;
        }
    }
    match expect_tag(input, p, tag_endsolid.as_slice()) {
        Ok(_) => {
            proof {
                assert(tag_endsolid@ =~= endsolid_tag());
                assert(tag_ok(input@, p as int, endsolid_tag()));
                assert(stl_ok(input@, scale as int));
                if name_start(input@) < name_end(input@) {
                    assert(name matches Some(nm) && nm@.len() == name_end(input@) - name_start(
                        input@,
                    ) && (forall|i: int|
                        0 <= i < nm@.len() ==> nm@[i] == input@[name_start(input@) + i] as char));
                }
                if name_start(input@) == name_end(input@) {
                    assert(name is None);
                }
                let pe = choose|pe: int|
                    #[trigger] facets_seen(input@, scale as int, ne, pe, facets@) && p == ws_end(
                        input@,
                        pe,
                    ) && !(p < input@.len() && input@[p as int] == 102);
                assert(facets_seen(input@, scale as int, name_end(input@), pe, facets@)
                    && ws_end(input@, pe) + 8 <= input@.len() && input@.subrange(
                    ws_end(input@, pe),
                    ws_end(input@, pe) + 8,
                ) =~= endsolid_tag() && !(ws_end(input@, pe) < input@.len() && input@[ws_end(
                    input@,
                    pe,
                )] == 102));
            }
            Ok(STL { name, facets })
        },
        Err(e) => {
            proof {
                assert(tag_endsolid@ =~= endsolid_tag());
                assert(!tag_ok(input@, p as int, endsolid_tag()));
                assert(!stl_ok(input@, scale as int));
                assert(stl_err(input@, scale as int) == tag_err(
                    input@,
                    p as int,
                    endsolid_tag(),
                ));
            }
            Err(e)
        },
    }
}

/// Convert a parsed surface into an initial, highly redundant grid: one
/// boundary-dimension name when a label is present, and for each facet
/// three fresh points (no deduplication) and one triangle referencing them.
/// The face normal is discarded at this layer. The result always passes the
/// connectivity check; shared mesh edges are represented once per adjoining
/// facet and are resolved later by point merging.
pub fn stl_to_grid(s: STL) -> (g: Grid)
    requires
        s.facets@.len() * 3 <= usize::MAX,
    ensures
        g.dim == Dimension::Three,
        g.points@.len() == 3 * s.facets@.len(),
        g.elements@.len() == s.facets@.len(),
        forall|k: int|
            0 <= k < s.facets@.len() ==> g.points@[3 * k] == (#[trigger] s.facets@[k]).p1
                && g.points@[3 * k + 1] == s.facets@[k].p2 && g.points@[3 * k + 2] == s.facets@[
                k].p3,
        forall|k: int|
            0 <= k < s.facets@.len() ==> (#[trigger] g.elements@[k]).name_index == 0
                && g.elements@[k].shape == Shape::Triangle(
                [(3 * k) as usize, (3 * k + 1) as usize, (3 * k + 2) as usize],
            ),
        g.names@ == match s.name {
            Some(n) => seq![Name { dim: Dimension::Two, name: n }],
            None => Seq::<Name>::empty(),
        },
        g.valid(),
{
    let mut points: Vec<Point> = Vec::new();
    let mut elements: Vec<Element> = Vec::new();
    let mut names: Vec<Name> = Vec::new();
    match s.name {
        Some(n) => {
            names.push(Name { dim: Dimension::Two, name: n });
        },
        None => {},
    }
    let m = s.facets.len();
    let mut k: usize = 0;
    while k < m
        invariant
            k <= m == s.facets@.len(),
            3 * (m as int) <= usize::MAX,
            points@.len() == 3 * k,
            elements@.len() == k,
            forall|a: int|
                0 <= a < k ==> points@[3 * a] == (#[trigger] s.facets@[a]).p1 && points@[3 * a + 1]
                    == s.facets@[a].p2 && points@[3 * a + 2] == s.facets@[a].p3,
            forall|a: int|
                0 <= a < k ==> (#[trigger] elements@[a]).name_index == 0 && elements@[a].shape
                    == Shape::Triangle(
                    [(3 * a) as usize, (3 * a + 1) as usize, (3 * a + 2) as usize],
                ),
        decreases m - k,
    {
        let i = points.len();
        elements.push(Element { name_index: 0, shape: Shape::Triangle([i, i + 1, i + 2]) });
        let f = s.facets[k];
        points.push(f.p1);
        points.push(f.p2);
        points.push(f.p3);
        k += 1;
    }
    let g = Grid { points, elements, names, dim: Dimension::Three };
    proof {
        assert forall|a: int| 0 <= a < g.elements@.len() implies (
        #[trigger] g.elements@[a]).in_bounds(g.points@.len() as int) by {
            assert(g.elements@[a].points() =~= Shape::Triangle(
                [(3 * a) as usize, (3 * a + 1) as usize, (3 * a + 2) as usize],
            )->Triangle_0@);
        }
    }
    g
}

} // verus!
