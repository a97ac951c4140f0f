//! Bounded decimal integer parsing (RFC 9111 delta-seconds).
//!
//! `parse_u8` .. `parse_u64` convert an ASCII digit run into an unsigned
//! integer of the given width. Overflow is handled by a per-call policy,
//! chosen by the `SAT` const parameter: saturating (`true`, clamp to the
//! width's maximum, as the protocol mandates for time-like fields) or checked
//! (`false`, a hard [`ParseError::Overflow`]).

use vstd::prelude::*;

use crate::chars::digit;
use crate::ParseError;

verus! {

/// Every byte of `s` is an ASCII digit.
pub open spec fn all_digits(s: Seq<u8>) -> bool {
    forall|i: int| 0 <= i < s.len() ==> digit(#[trigger] s[i])
}

/// The base-10 value of a digit run, read left to right.
pub open spec fn digits_value(s: Seq<u8>) -> int
    decreases s.len(),
{
    if s.len() == 0 {
        0
    } else {
        digits_value(s.drop_last()) * 10 + (s.last() - 0x30)
    }
}

/// Length of the maximal digit prefix of `s`.
pub open spec fn digit_prefix(s: Seq<u8>) -> int
    decreases s.len(),
{
    if s.len() == 0 || !digit(s[0]) {
        0
    } else {
        1 + digit_prefix(s.skip(1))
    }
}

/// 10 to the `n`th power.
pub open spec fn pow10(n: nat) -> int
    decreases n,
{
    if n == 0 {
        1
    } else {
        10 * pow10((n - 1) as nat)
    }
}

/// What a bounded decimal parse of `s` yields for a width whose largest value
/// is `max`, under the saturating (`sat`) or checked policy.
///
/// An empty input or any non-digit byte is `InvalidSyntax`; under the checked
/// policy a value that exceeds `max` is `Overflow`. Overflow is detected
/// while consuming digits, so it wins over a non-digit byte that only comes
/// after the digits that overflowed.
pub open spec fn parse_uint_spec(s: Seq<u8>, sat: bool, max: int) -> Result<int, ParseError> {
    if s.len() == 0 {
        Err(ParseError::InvalidSyntax)
    } else if all_digits(s) {
        if digits_value(s) <= max {
            Ok(digits_value(s))
        } else if sat {
            Ok(max)
        } else {
            Err(ParseError::Overflow)
        }
    } else {
        if !sat && digits_value(s.take(digit_prefix(s))) > max {
            Err(ParseError::Overflow)
        } else {
            Err(ParseError::InvalidSyntax)
        }
    }
}

/// A digit run's value is bounded by a power of ten in its length.
pub proof fn lemma_digits_value_bound(s: Seq<u8>)
    requires
        all_digits(s),
    ensures
        0 <= digits_value(s) < pow10(s.len() as nat),
    decreases s.len(),
{
    if s.len() > 0 {
        assert(all_digits(s.drop_last()));
        lemma_digits_value_bound(s.drop_last());
    }
}

/// Extending a digit run by one byte multiplies its value by ten and adds
/// the new digit.
pub proof fn lemma_digits_value_step(s: Seq<u8>, i: int)
    requires
        0 <= i < s.len(),
    ensures
        digits_value(s.take(i + 1)) == digits_value(s.take(i)) * 10 + (s[i] - 0x30),
{
    assert(s.take(i + 1).drop_last() =~= s.take(i));
    assert(s.take(i + 1).last() == s[i]);
}

/// The maximal digit prefix: bounded by the length, all digits, and ended by
/// a non-digit byte if it does not cover the whole run.
pub proof fn lemma_digit_prefix_props(s: Seq<u8>)
    ensures
        0 <= digit_prefix(s) <= s.len(),
        all_digits(s.take(digit_prefix(s))),
        digit_prefix(s) < s.len() ==> !digit(s[digit_prefix(s)]),
    decreases s.len(),
{
    if s.len() == 0 || !digit(s[0]) {
    } else {
        lemma_digit_prefix_props(s.skip(1));
        let p = digit_prefix(s);
        assert(p == 1 + digit_prefix(s.skip(1)));
        assert forall|j: int| 0 <= j < p implies digit(#[trigger] s.take(p)[j]) by {
            if j > 0 {
                assert(s.take(p)[j] == s.skip(1).take(p - 1)[j - 1]);
            }
        }
        if p < s.len() {
            assert(s[p] == s.skip(1)[p - 1]);
        }
    }
}

/// If the first `i` bytes are digits, the maximal digit prefix reaches `i`.
pub proof fn lemma_digit_prefix_lower(s: Seq<u8>, i: int)
    requires
        0 <= i <= s.len(),
        all_digits(s.take(i)),
    ensures
        digit_prefix(s) >= i,
    decreases i,
{
    if i > 0 {
        assert(digit(s[0])) by {
            assert(s.take(i)[0] == s[0]);
        }
        assert(all_digits(s.skip(1).take(i - 1))) by {
            assert forall|j: int| 0 <= j < i - 1 implies digit(#[trigger] s.skip(1).take(i - 1)[j])
            by {
                assert(s.skip(1).take(i - 1)[j] == s.take(i)[j + 1]);
            }
        }
        lemma_digit_prefix_lower(s.skip(1), i - 1);
        assert(digit_prefix(s) == 1 + digit_prefix(s.skip(1)));
    } else {
        lemma_digit_prefix_props(s);
    }
}

/// If the first `i` bytes are digits and the byte at `i` is not, the maximal
/// digit prefix ends exactly at `i`.
pub proof fn lemma_digit_prefix_at(s: Seq<u8>, i: int)
    requires
        0 <= i < s.len(),
        all_digits(s.take(i)),
        !digit(s[i]),
    ensures
        digit_prefix(s) == i,
{
    lemma_digit_prefix_lower(s, i);
    lemma_digit_prefix_props(s);
    if digit_prefix(s) > i {
        assert(digit(s.take(digit_prefix(s))[i]));
        assert(s.take(digit_prefix(s))[i] == s[i]);
    }
}

/// The maximal digit prefix ends at `i` when everything before `i` is a
/// digit and `i` is the end of the run or a non-digit byte.
pub proof fn lemma_digit_prefix_ends(s: Seq<u8>, i: int)
    requires
        0 <= i <= s.len(),
        all_digits(s.take(i)),
        i < s.len() ==> !digit(s[i]),
    ensures
        digit_prefix(s) == i,
{
    if i < s.len() {
        lemma_digit_prefix_at(s, i);
    } else {
        lemma_digit_prefix_lower(s, i);
        lemma_digit_prefix_props(s);
    }
}

/// The value of a digit run grows with its length.
proof fn lemma_digits_value_monotone(s: Seq<u8>, i: int, j: int)
    requires
        0 <= i <= j <= s.len(),
        all_digits(s.take(j)),
    ensures
        digits_value(s.take(i)) <= digits_value(s.take(j)),
    decreases j - i,
{
    if i < j {
        lemma_digits_value_monotone(s, i + 1, j);
        lemma_digits_value_step(s, i);
        assert(all_digits(s.take(i))) by {
            assert forall|k: int| 0 <= k < i implies digit(#[trigger] s.take(i)[k]) by {
                assert(s.take(i)[k] == s.take(j)[k]);
            }
        }
        lemma_digits_value_bound(s.take(i));
        assert(digits_value(s.take(i)) * 10 >= digits_value(s.take(i))) by (nonlinear_arith)
            requires
                digits_value(s.take(i)) >= 0,
        ;
        assert(digit(s[i])) by {
            assert(s.take(j)[i] == s[i]);
        }
    }
}

/// Powers of ten are positive.
proof fn lemma_pow10_pos(n: nat)
    ensures
        pow10(n) >= 1,
    decreases n,
{
    if n > 0 {
        lemma_pow10_pos((n - 1) as nat);
    }
}

/// Powers of ten are increasing in the exponent.
proof fn lemma_pow10_le(m: nat, n: nat)
    requires
        m <= n,
    ensures
        pow10(m) <= pow10(n),
    decreases n,
{
    if m < n {
        lemma_pow10_le(m, (n - 1) as nat);
        lemma_pow10_pos((n - 1) as nat);
    }
}

/// Division by ten against multiplication: `a > b / 10` forces `a * 10 > b`.
proof fn lemma_mul10_gt(a: int, b: int)
    requires
        0 <= a,
        0 <= b,
        a > b / 10,
    ensures
        a * 10 > b,
{
    assert(a * 10 > b) by (nonlinear_arith)
        requires
            0 <= a,
            0 <= b,
            a > b / 10,
    ;
}

/// Division by ten against multiplication: `a <= b / 10` keeps `a * 10 <= b`.
proof fn lemma_mul10_le(a: int, b: int)
    requires
        0 <= a,
        0 <= b,
        a <= b / 10,
    ensures
        a * 10 <= b,
{
    assert(a * 10 <= b) by (nonlinear_arith)
        requires
            0 <= a,
            0 <= b,
            a <= b / 10,
    ;
}

/// Parse a decimal `u8`; `SAT` selects the saturating policy.
pub fn parse_u8<const SAT: bool>(s: &[u8]) -> (r: Result<u8, ParseError>)
    ensures
        r == match parse_uint_spec(s@, SAT, u8::MAX as int) {
            Ok(v) => Ok::<u8, ParseError>(v as u8),
            Err(e) => Err::<u8, ParseError>(e),
        },
{
    proof {
        assert(pow10(2) == 100) by {
            reveal_with_fuel(pow10, 3);
        }
    }
    match parse_uint(s, SAT, 2, u8::MAX as u64) {
        Ok(v) => Ok(v as u8),
        Err(e) => Err(e),
    }
}

/// Parse a decimal `u16`; `SAT` selects the saturating policy.
pub fn parse_u16<const SAT: bool>(s: &[u8]) -> (r: Result<u16, ParseError>)
    ensures
        r == match parse_uint_spec(s@, SAT, u16::MAX as int) {
            Ok(v) => Ok::<u16, ParseError>(v as u16),
            Err(e) => Err::<u16, ParseError>(e),
        },
{
    proof {
        assert(pow10(4) == 10000) by {
            reveal_with_fuel(pow10, 5);
        }
    }
    match parse_uint(s, SAT, 4, u16::MAX as u64) {
        Ok(v) => Ok(v as u16),
        Err(e) => Err(e),
    }
}

/// Parse a decimal `u32`; `SAT` selects the saturating policy.
pub fn parse_u32<const SAT: bool>(s: &[u8]) -> (r: Result<u32, ParseError>)
    ensures
        r == match parse_uint_spec(s@, SAT, u32::MAX as int) {
            Ok(v) => Ok::<u32, ParseError>(v as u32),
            Err(e) => Err::<u32, ParseError>(e),
        },
{
    proof {
        assert(pow10(9) == 1000000000) by {
            reveal_with_fuel(pow10, 10);
        }
    }
    match parse_uint(s, SAT, 9, u32::MAX as u64) {
        Ok(v) => Ok(v as u32),
        Err(e) => Err(e),
    }
}

/// Parse a decimal `u64`; `SAT` selects the saturating policy.
pub fn parse_u64<const SAT: bool>(s: &[u8]) -> (r: Result<u64, ParseError>)
    ensures
        r == match parse_uint_spec(s@, SAT, u64::MAX as int) {
            Ok(v) => Ok::<u64, ParseError>(v as u64),
            Err(e) => Err::<u64, ParseError>(e),
        },
{
    proof {
        assert(pow10(19) == 10000000000000000000) by {
            reveal_with_fuel(pow10, 20);
        }
    }
    parse_uint(s, SAT, 19, u64::MAX)
}

/// The shared parsing loop: `safe` digits are accumulated with plain
/// arithmetic (no overflow possible while the value stays under
/// `pow10(safe) <= max + 1`); each further digit is checked against `max`
/// and either clamps (`sat`) or aborts.
fn parse_uint(s: &[u8], sat: bool, safe: usize, max: u64) -> (r: Result<u64, ParseError>)
    requires
        1 <= safe,
        10 <= max,
        pow10(safe as nat) <= max as int + 1,
    ensures
        r == match parse_uint_spec(s@, sat, max as int) {
            Ok(v) => Ok::<u64, ParseError>(v as u64),
            Err(e) => Err::<u64, ParseError>(e),
        },
        r is Ok ==> 0 <= r.unwrap() <= max,
        parse_uint_spec(s@, sat, max as int) matches Ok(v) ==> 0 <= v <= max as int,
{
    if s.len() == 0 {
        return Err(ParseError::InvalidSyntax);
    }
    let mut result: u64 = 0;
    let mut i: usize = 0;
    let end1: usize = if s.len() < safe {
        s.len()
    } else {
        safe
    };
    proof {
        lemma_pow10_le(0, safe as nat);
    }
    while i < end1
        invariant
            0 <= i <= end1,
            end1 <= s@.len(),
            end1 <= safe,
            10 <= max,
            pow10(safe as nat) <= max as int + 1,
            all_digits(s@.take(i as int)),
            result == digits_value(s@.take(i as int)),
            result < pow10(i as nat),
            pow10(i as nat) <= pow10(safe as nat),
        decreases end1 - i,
    {
        let chr = s[i];
        if chr < 0x30 || 0x39 < chr {
            proof {
                assert(!digit(s@[i as int]));
                assert(!all_digits(s@));
                lemma_digit_prefix_at(s@, i as int);
            }
            return Err(ParseError::InvalidSyntax);
        }
        proof {
            lemma_digits_value_step(s@, i as int);
            assert(all_digits(s@.take(i as int + 1)));
            assert(pow10((i + 1) as nat) == 10 * pow10(i as nat));
            lemma_pow10_le((i + 1) as nat, safe as nat);
        }
        result = result * 10 + (chr - 0x30) as u64;
        i = i + 1;
    }
    if i == s.len() {
        proof {
            assert(s@.take(i as int) =~= s@);
            lemma_digits_value_bound(s@);
        }
        return Ok(result);
    }
    while i < s.len()
        invariant
            safe <= i <= s@.len(),
            10 <= max,
            all_digits(s@.take(i as int)),
            if digits_value(s@.take(i as int)) <= max as int {
                result == digits_value(s@.take(i as int))
            } else {
                sat && result == max
            },
            result <= max,
        decreases s@.len() - i,
    {
        let chr = s[i];
        if chr < 0x30 || 0x39 < chr {
            proof {
                assert(!digit(s@[i as int]));
                assert(!all_digits(s@));
                lemma_digit_prefix_at(s@, i as int);
            }
            return Err(ParseError::InvalidSyntax);
        }
        let d: u64 = (chr - 0x30) as u64;
        proof {
            lemma_digits_value_step(s@, i as int);
            assert(all_digits(s@.take(i as int + 1)));
        }
        if result > (max - d) / 10 {
            proof {
                lemma_mul10_gt(result as int, (max - d) as int);
                if digits_value(s@.take(i as int)) > max as int {
                    assert(digits_value(s@.take(i as int)) * 10 >= digits_value(
                        s@.take(i as int),
                    )) by (nonlinear_arith)
                        requires
                            digits_value(s@.take(i as int)) >= 0,
                    ;
                }
                assert(digits_value(s@.take(i as int + 1)) > max as int);
            }
            if !sat {
                proof {
                    if all_digits(s@) {
                        lemma_digits_value_monotone(s@, i as int + 1, s@.len() as int);
                        assert(s@.take(s@.len() as int) =~= s@);
                    } else {
                        lemma_digit_prefix_lower(s@, i as int + 1);
                        lemma_digit_prefix_props(s@);
                        lemma_digits_value_monotone(s@, i as int + 1, digit_prefix(s@));
                    }
                }
                return Err(ParseError::Overflow);
            }
            result = max;
        } else {
            proof {
                lemma_mul10_le(result as int, (max - d) as int);
                assert((max - d) / 10 < max as int) by (nonlinear_arith)
                    requires
                        0 <= d <= 9,
                        10 <= max,
                ;
            }
            result = result * 10 + d;
        }
        i = i + 1;
    }
    proof {
        assert(s@.take(i as int) =~= s@);
        lemma_digits_value_bound(s@);
    }
    Ok(result)
}

/// The canonical decimal rendering of `v`: base 10, no leading zeros.
pub open spec fn dec_digits(v: nat) -> Seq<u8>
    decreases v,
{
    if v < 10 {
        seq![(0x30 + v) as u8]
    } else {
        dec_digits(v / 10) + seq![(0x30 + v % 10) as u8]
    }
}

/// The canonical decimal rendering is a digit run without leading zeros
/// whose value is the rendered number.
pub proof fn lemma_dec_digits(v: nat)
    ensures
        dec_digits(v).len() >= 1,
        all_digits(dec_digits(v)),
        digits_value(dec_digits(v)) == v,
        v > 0 ==> dec_digits(v).first() != 0x30,
        v >= 10 ==> dec_digits(v).len() >= 2,
    decreases v,
{
    if v < 10 {
        let s = dec_digits(v);
        assert(s.drop_last() =~= Seq::<u8>::empty());
        assert(digits_value(Seq::<u8>::empty()) == 0);
        assert(digits_value(s) == digits_value(s.drop_last()) * 10 + (s.last() - 0x30));
    } else {
        lemma_dec_digits(v / 10);
        let a = dec_digits(v / 10);
        let d = (0x30 + v % 10) as u8;
        let s = dec_digits(v);
        assert(s == a + seq![d]);
        assert(s.drop_last() =~= a);
        assert(s.last() == d);
        assert(digits_value(s) == digits_value(a) * 10 + (d - 0x30));
        assert(digits_value(s) == (v / 10) * 10 + v % 10);
        assert(s.first() == a.first());
        assert forall|i: int| 0 <= i < s.len() implies digit(#[trigger] s[i]) by {
            if i < a.len() {
                assert(s[i] == a[i]);
            }
        }
    }
}

/// Render `v` as decimal ASCII, most significant digit first.
pub fn encode_decimal(v: u64) -> (r: Vec<u8>)
    ensures
        r@ == dec_digits(v as nat),
{
    let mut rev: Vec<u8> = Vec::new();
    let mut x: u64 = v;
    if x == 0 {
        rev.push(0x30);
        proof {
            assert(rev@ =~= dec_digits(0).reverse());
        }
    }
    while x > 0
        invariant
            0 <= x,
            x > 0 ==> dec_digits(v as nat) =~= dec_digits(x as nat) + rev@.reverse(),
            x == 0 ==> dec_digits(v as nat) =~= rev@.reverse(),
        decreases x,
    {
        let d: u8 = (x % 10) as u8 + 0x30;
        let ghost rev0 = rev@;
        rev.push(d);
        proof {
            assert(rev@.reverse() =~= seq![d] + rev0.reverse());
            if x >= 10 {
                assert(dec_digits(x as nat) == dec_digits((x as nat) / 10) + seq![d]);
                assert(dec_digits((x as nat) / 10) + (seq![d] + rev0.reverse()) =~= (dec_digits(
                    (x as nat) / 10,
                ) + seq![d]) + rev0.reverse());
                assert((x / 10) as nat == (x as nat) / 10);
            } else {
                assert(dec_digits(x as nat) == seq![d]);
                assert(seq![d] + rev0.reverse() =~= dec_digits(x as nat) + rev0.reverse());
            }
        }
        x = x / 10;
    }
    let mut out: Vec<u8> = Vec::new();
    let n = rev.len();
    let mut j: usize = 0;
    while j < n
        invariant
            0 <= j <= n,
            n == rev@.len(),
            out@ =~= rev@.reverse().take(j as int),
            dec_digits(v as nat) == rev@.reverse(),
        decreases n - j,
    {
        out.push(rev[n - 1 - j]);
        proof {
            assert(out@ =~= rev@.reverse().take(j as int + 1));
        }
        j = j + 1;
    }
    proof {
        assert(out@ =~= rev@.reverse());
    }
    out
}

/// Law: parsing the canonical decimal rendering of any value that the width
/// can represent gives that value back, under either overflow policy.
pub proof fn lemma_parse_encode_decimal(v: nat, sat: bool, max: int)
    requires
        v <= max,
    ensures
        parse_uint_spec(dec_digits(v), sat, max) == Ok::<int, ParseError>(v as int),
{
    lemma_dec_digits(v);
}

/// Law: leading zeros carry no weight; a digit run parses to the same
/// result with any number of zeros prepended.
pub proof fn lemma_leading_zeros(k: nat, s: Seq<u8>, sat: bool, max: int)
    requires
        s.len() > 0,
        all_digits(s),
    ensures
        parse_uint_spec(Seq::new(k, |i: int| 0x30u8) + s, sat, max) == parse_uint_spec(
            s,
            sat,
            max,
        ),
{
    let z = Seq::new(k, |i: int| 0x30u8);
    lemma_zeros_prefix_value(z, s);
    assert(all_digits(z + s)) by {
        assert forall|i: int| 0 <= i < (z + s).len() implies digit(#[trigger] (z + s)[i]) by {
            if i >= z.len() {
                assert((z + s)[i] == s[i - z.len()]);
            }
        }
    }
}

/// Prepending zero digits does not change a run's value.
proof fn lemma_zeros_prefix_value(z: Seq<u8>, s: Seq<u8>)
    requires
        forall|i: int| 0 <= i < z.len() ==> #[trigger] z[i] == 0x30u8,
    ensures
        digits_value(z + s) == digits_value(s),
    decreases s.len(),
{
    if s.len() == 0 {
        assert(z + s =~= z);
        lemma_all_zeros_value(z);
    } else {
        lemma_zeros_prefix_value(z, s.drop_last());
        assert((z + s).drop_last() =~= z + s.drop_last());
        assert((z + s).last() == s.last());
    }
}

/// A run of zero digits has value zero.
proof fn lemma_all_zeros_value(z: Seq<u8>)
    requires
        forall|i: int| 0 <= i < z.len() ==> #[trigger] z[i] == 0x30u8,
    ensures
        digits_value(z) == 0,
    decreases z.len(),
{
    if z.len() > 0 {
        lemma_all_zeros_value(z.drop_last());
    }
}

/// Law: on a pure digit run the saturating policy always succeeds, and the
/// checked policy fails exactly when the value exceeds the width's maximum,
/// always with `Overflow`.
pub proof fn lemma_overflow_policy(s: Seq<u8>, max: int)
    requires
        s.len() > 0,
        all_digits(s),
        0 <= max,
    ensures
        parse_uint_spec(s, true, max) is Ok,
        parse_uint_spec(s, false, max) is Err <==> digits_value(s) > max,
        digits_value(s) > max ==> parse_uint_spec(s, false, max) == Err::<int, ParseError>(
            ParseError::Overflow,
        ),
{
}

} // verus!
