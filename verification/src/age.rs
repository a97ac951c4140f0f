//! The `Age` header: a delta-seconds value (RFC 9111 5.1).
//!
//! `Age` is a singleton header, but a recipient meeting a list-based value
//! uses the first member and discards the rest. Members are separated by
//! commas; a member is a digit run, optionally surrounded by space or tab,
//! saturating on overflow. A member that is not a valid integer — empty,
//! or holding any other byte — is skipped, not an error, and scanning
//! continues with the next member, across occurrences in order. Only a set
//! of occurrences with no valid member at all leaves the header absent.

use vstd::prelude::*;
use vstd::slice::slice_subrange;

use crate::chars::digit;
use crate::chars::is_digit;
use crate::chars::is_wsp;
use crate::chars::wsp;
use crate::util::all_digits;
use crate::util::digit_prefix;
use crate::util::digits_value;
use crate::util::lemma_digit_prefix_ends;
use crate::util::parse_u64;
use crate::ParseError;

verus! {

/// A decoded `Age` value, in seconds.
#[derive(Clone, Copy, Debug, PartialEq, Eq, Structural)]
pub struct Age(pub u64);

/// Length of the maximal run of space and tab at the front of `s`.
pub open spec fn wsp_run(s: Seq<u8>) -> int
    decreases s.len(),
{
    if s.len() == 0 || !wsp(s[0]) {
        0
    } else {
        1 + wsp_run(s.skip(1))
    }
}

/// The maximal whitespace run: bounded by the length, all whitespace, and
/// ended by a byte outside the class if it does not cover the whole input.
pub proof fn lemma_wsp_run_props(s: Seq<u8>)
    ensures
        0 <= wsp_run(s) <= s.len(),
        forall|j: int| 0 <= j < wsp_run(s) ==> wsp(#[trigger] s[j]),
        wsp_run(s) < s.len() ==> !wsp(s[wsp_run(s)]),
    decreases s.len(),
{
    if s.len() == 0 || !wsp(s[0]) {
    } else {
        lemma_wsp_run_props(s.skip(1));
        let p = wsp_run(s);
        assert(p == 1 + wsp_run(s.skip(1)));
        assert forall|j: int| 0 <= j < p implies wsp(#[trigger] s[j]) by {
            if j > 0 {
                assert(s[j] == s.skip(1)[j - 1]);
            }
        }
        if p < s.len() {
            assert(s[p] == s.skip(1)[p - 1]);
        }
    }
}

/// The maximal whitespace run ends at `i` when everything before `i` is
/// whitespace and `i` is the end or a byte outside the class.
pub proof fn lemma_wsp_run_ends(s: Seq<u8>, i: int)
    requires
        0 <= i <= s.len(),
        forall|j: int| 0 <= j < i ==> wsp(#[trigger] s[j]),
        i < s.len() ==> !wsp(s[i]),
    ensures
        wsp_run(s) == i,
    decreases i,
{
    if i > 0 {
        assert(wsp(s[0]));
        assert(forall|j: int| 0 <= j < i - 1 ==> #[trigger] s.skip(1)[j] == s[j + 1]);
        if i - 1 < s.skip(1).len() {
            assert(s.skip(1)[i - 1] == s[i]);
        }
        lemma_wsp_run_ends(s.skip(1), i - 1);
        assert(wsp_run(s) == 1 + wsp_run(s.skip(1)));
    } else {
        lemma_wsp_run_props(s);
        if wsp_run(s) > 0 {
            assert(wsp(s[0]));
        }
    }
}

/// Length of the first list member: the bytes before the first comma, or
/// the whole input when it has none.
pub open spec fn member_len(s: Seq<u8>) -> int
    decreases s.len(),
{
    if s.len() == 0 || s[0] == 0x2C {
        0
    } else {
        1 + member_len(s.skip(1))
    }
}

/// The first member: bounded by the length, free of commas, and ended by a
/// comma if it does not cover the whole input.
pub proof fn lemma_member_len_props(s: Seq<u8>)
    ensures
        0 <= member_len(s) <= s.len(),
        forall|j: int| 0 <= j < member_len(s) ==> #[trigger] s[j] != 0x2C,
        member_len(s) < s.len() ==> s[member_len(s)] == 0x2C,
    decreases s.len(),
{
    if s.len() == 0 || s[0] == 0x2C {
    } else {
        lemma_member_len_props(s.skip(1));
        let p = member_len(s);
        assert(p == 1 + member_len(s.skip(1)));
        assert forall|j: int| 0 <= j < p implies #[trigger] s[j] != 0x2C by {
            if j > 0 {
                assert(s[j] == s.skip(1)[j - 1]);
            }
        }
        if p < s.len() {
            assert(s[p] == s.skip(1)[p - 1]);
        }
    }
}

/// The first member ends at `i` when no byte before `i` is a comma and `i`
/// is the end or a comma.
pub proof fn lemma_member_len_ends(s: Seq<u8>, i: int)
    requires
        0 <= i <= s.len(),
        forall|j: int| 0 <= j < i ==> #[trigger] s[j] != 0x2C,
        i < s.len() ==> s[i] == 0x2C,
    ensures
        member_len(s) == i,
    decreases i,
{
    if i > 0 {
        assert(s[0] != 0x2C);
        assert(forall|j: int| 0 <= j < i - 1 ==> #[trigger] s.skip(1)[j] == s[j + 1]);
        if i - 1 < s.skip(1).len() {
            assert(s.skip(1)[i - 1] == s[i]);
        }
        lemma_member_len_ends(s.skip(1), i - 1);
        assert(member_len(s) == 1 + member_len(s.skip(1)));
    } else {
        lemma_member_len_props(s);
        if member_len(s) > 0 {
            assert(s[0] != 0x2C);
        }
    }
}

/// Clamp a non-negative value into `u64`.
pub open spec fn sat_u64(v: int) -> u64 {
    if v <= u64::MAX as int {
        v as u64
    } else {
        u64::MAX
    }
}

/// What one list member is worth: a digit run, optionally surrounded by
/// space or tab, is its saturating value; anything else — an empty member,
/// or one holding any other byte — is not a valid integer.
pub open spec fn member_value(m: Seq<u8>) -> Option<u64> {
    let a = wsp_run(m);
    let b = digit_prefix(m.skip(a));
    let c = wsp_run(m.skip(a + b));
    if b >= 1 && a + b + c == m.len() {
        Some(sat_u64(digits_value(m.skip(a).take(b))))
    } else {
        None
    }
}

/// The first valid member of one occurrence, scanning comma-separated
/// members left to right; invalid members are skipped, not errors.
pub open spec fn age_scan(s: Seq<u8>) -> Option<u64>
    decreases s.len(),
    via age_scan_decreases
{
    let n = member_len(s);
    match member_value(s.take(n)) {
        Some(v) => Some(v),
        None => if n >= s.len() {
            None
        } else {
            age_scan(s.skip(n + 1))
        },
    }
}

#[via_fn]
proof fn age_scan_decreases(s: Seq<u8>) {
    lemma_member_len_props(s);
}

/// The first valid member across a whole set of occurrences, in order;
/// occurrences after the one holding it are never read.
pub open spec fn age_decode_spec(vs: Seq<Seq<u8>>) -> Option<u64>
    decreases vs.len(),
{
    if vs.len() == 0 {
        None
    } else {
        match age_scan(vs[0]) {
            Some(v) => Some(v),
            None => age_decode_spec(vs.skip(1)),
        }
    }
}

/// Scan one occurrence of the header for its first valid integer member.
#[verifier::rlimit(100)]
#[verifier::loop_isolation(false)]
pub fn process_header(i: &[u8]) -> (r: Option<Age>)
    ensures
        r == match age_scan(i@) {
            Some(v) => Some(Age(v)),
            None => None::<Age>,
        },
{
    let mut pos: usize = 0;
    proof {
        assert(i@.skip(0) =~= i@);
    }
    loop
        invariant
            0 <= pos <= i@.len(),
            age_scan(i@) == age_scan(i@.skip(pos as int)),
        decreases i@.len() - pos,
    {
        let ghost u = i@.skip(pos as int);
        let mut p: usize = pos;
        while p < i.len() && is_wsp(i[p])
            invariant
                pos <= p <= i@.len(),
                forall|k: int| pos <= k < p ==> wsp(#[trigger] i@[k]),
            decreases i@.len() - p,
        {
            p = p + 1;
        }
        let dstart = p;
        while p < i.len() && is_digit(i[p])
            invariant
                dstart <= p <= i@.len(),
                forall|k: int| dstart <= k < p ==> digit(#[trigger] i@[k]),
            decreases i@.len() - p,
        {
            p = p + 1;
        }
        let dend = p;
        while p < i.len() && is_wsp(i[p])
            invariant
                dend <= p <= i@.len(),
                forall|k: int| dend <= k < p ==> wsp(#[trigger] i@[k]),
            decreases i@.len() - p,
        {
            p = p + 1;
        }
        let ghost a = dstart - pos as int;
        let ghost b = dend - dstart as int;
        let ghost c = p - dend as int;
        if dend > dstart && (p == i.len() || i[p] == 0x2C) {
            let ghost n = p - pos as int;
            let ghost m = u.take(n);
            proof {
                assert forall|j: int| 0 <= j < n implies #[trigger] u[j] != 0x2C by {
                    assert(u[j] == i@[pos + j]);
                }
                if n < u.len() {
                    assert(u[n] == i@[p as int]);
                }
                lemma_member_len_ends(u, n);
                assert(forall|j: int| 0 <= j < u.len() ==> #[trigger] u[j] == i@[pos + j]);
                lemma_member_ok(u, n, a, b, c);
            }
            let run = slice_subrange(i, dstart, dend);
            proof {
                assert(run@ =~= m.skip(a).take(b)) by {
                    assert(run@ =~= i@.subrange(dstart as int, dend as int));
                    assert(m.skip(a).take(b) =~= i@.subrange(dstart as int, dend as int));
                }
                assert(all_digits(run@)) by {
                    assert forall|j: int| 0 <= j < run@.len() implies digit(#[trigger] run@[j]) by {
                        assert(run@[j] == i@[dstart + j]);
                    }
                }
                assert(run@.len() >= 1);
            }
            match parse_u64::<true>(run) {
                Ok(v) => {
                    return Some(Age(v));
                },
                Err(_) => {
                    proof {
                        assert(false);
                    }
                    return None;
                },
            }
        }
        let scan_start = p;
        while p < i.len() && i[p] != 0x2C
            invariant
                scan_start <= p <= i@.len(),
                forall|k: int| scan_start <= k < p ==> #[trigger] i@[k] != 0x2C,
            decreases i@.len() - p,
        {
            p = p + 1;
        }
        proof {
            assert forall|j: int| 0 <= j < p - pos as int implies #[trigger] u[j] != 0x2C by {
                assert(u[j] == i@[pos + j]);
                if j < a {
                    assert(wsp(i@[pos + j]));
                } else if j < a + b {
                    assert(digit(i@[pos + j]));
                } else if j < a + b + c {
                    assert(wsp(i@[pos + j]));
                } else {
                    assert(pos + j >= scan_start);
                }
            }
            if (p as int) < i@.len() {
                assert(u[p - pos as int] == i@[p as int]);
            }
            lemma_member_len_ends(u, p - pos as int);
            assert(forall|j: int| 0 <= j < u.len() ==> #[trigger] u[j] == i@[pos + j]);
            lemma_member_none(u, p - pos as int, a, b, c);
        }
        if p == i.len() {
            return None;
        }
        proof {
            assert(u.skip(p - pos as int + 1) =~= i@.skip(p as int + 1));
        }
        pos = p + 1;
    }
}

/// The member bounded by `n` is the whitespace-framed digit run the three
/// scans delimited, and is worth that run's saturating value.
proof fn lemma_member_ok(u: Seq<u8>, n: int, a: int, b: int, c: int)
    requires
        0 <= a,
        1 <= b,
        0 <= c,
        a + b + c == n <= u.len(),
        member_len(u) == n,
        forall|j: int| 0 <= j < a ==> wsp(#[trigger] u[j]),
        forall|j: int| a <= j < a + b ==> digit(#[trigger] u[j]),
        a < u.len() ==> !wsp(u[a]),
        forall|j: int| a + b <= j < n ==> wsp(#[trigger] u[j]),
        a + b < u.len() ==> !digit(u[a + b]),
        n < u.len() ==> !wsp(u[n]),
    ensures
        member_value(u.take(n)) == Some(sat_u64(digits_value(u.take(n).skip(a).take(b)))),
{
    let m = u.take(n);
    assert(forall|j: int| 0 <= j < n ==> #[trigger] m[j] == u[j]);
    lemma_wsp_run_ends(m, a);
    assert(m.skip(a) =~= u.subrange(a, n));
    assert(forall|j: int| 0 <= j < b ==> #[trigger] m.skip(a)[j] == u[a + j]);
    if b < m.skip(a).len() {
        assert(m.skip(a)[b] == u[a + b]);
    }
    lemma_digit_prefix_ends(m.skip(a), b);
    assert(m.skip(a + b) =~= u.subrange(a + b, n));
    assert(forall|j: int| 0 <= j < c ==> #[trigger] m.skip(a + b)[j] == u[a + b + j]);
    lemma_wsp_run_ends(m.skip(a + b), c);
}

/// The member bounded by `n` is not a valid integer: either no digit run
/// follows the leading whitespace, or a foreign byte follows the run.
proof fn lemma_member_none(u: Seq<u8>, n: int, a: int, b: int, c: int)
    requires
        0 <= a,
        0 <= b,
        0 <= c,
        a + b + c <= n <= u.len(),
        member_len(u) == n,
        forall|j: int| 0 <= j < a ==> wsp(#[trigger] u[j]),
        forall|j: int| a <= j < a + b ==> digit(#[trigger] u[j]),
        a < u.len() ==> !wsp(u[a]),
        forall|j: int| a + b <= j < a + b + c ==> wsp(#[trigger] u[j]),
        a + b < u.len() ==> !digit(u[a + b]),
        a + b + c < u.len() ==> !wsp(u[a + b + c]),
        b == 0 || a + b + c < n,
    ensures
        member_value(u.take(n)) == None::<u64>,
{
    let m = u.take(n);
    assert(forall|j: int| 0 <= j < n ==> #[trigger] m[j] == u[j]);
    if a >= n {
        lemma_wsp_run_ends(m, n);
        assert(m.skip(n).len() == 0);
        assert(digit_prefix(m.skip(n)) == 0);
    } else {
        lemma_wsp_run_ends(m, a);
        assert(m.skip(a) =~= u.subrange(a, n));
        assert(forall|j: int| 0 <= j < b ==> #[trigger] m.skip(a)[j] == u[a + j]);
        if b < m.skip(a).len() {
            assert(m.skip(a)[b] == u[a + b]);
        }
        lemma_digit_prefix_ends(m.skip(a), b);
        if b >= 1 {
            assert(a + b + c < n);
            assert(m.skip(a + b) =~= u.subrange(a + b, n));
            assert(forall|j: int| 0 <= j < c ==> #[trigger] m.skip(a + b)[j] == u[a + b + j]);
            assert(m.skip(a + b)[c] == u[a + b + c]);
            lemma_wsp_run_ends(m.skip(a + b), c);
        }
    }
}

impl Age {
    /// Decode a set of header occurrences: the first valid integer member,
    /// scanning occurrences in order, wins; a set with no valid member at
    /// all leaves the header absent, reported as an error to the caller.
    pub fn decode(values: &Vec<Vec<u8>>) -> (r: Result<Age, ParseError>)
        ensures
            r == match age_decode_spec(values.deep_view()) {
                Some(v) => Ok::<Age, ParseError>(Age(v)),
                None => Err::<Age, ParseError>(ParseError::InvalidSyntax),
            },
    {
        let ghost vs = values.deep_view();
        let mut idx: usize = 0;
        proof {
            assert(vs.skip(0) =~= vs);
        }
        while idx < values.len()
            invariant
                0 <= idx <= vs.len(),
                vs == values.deep_view(),
                vs.len() == values@.len(),
                age_decode_spec(vs) == age_decode_spec(vs.skip(idx as int)),
            decreases vs.len() - idx,
        {
            proof {
                assert(vs.skip(idx as int)[0] == vs[idx as int]);
                assert(vs[idx as int] =~= values@[idx as int]@);
            }
            match process_header(values[idx].as_slice()) {
                Some(age) => {
                    return Ok(age);
                },
                None => {
                    proof {
                        assert(vs.skip(idx as int).skip(1) =~= vs.skip(idx as int + 1));
                    }
                    idx = idx + 1;
                },
            }
        }
        proof {
            assert(vs.skip(idx as int) =~= Seq::<Seq<u8>>::empty());
        }
        Err(ParseError::InvalidSyntax)
    }

    /// Encode the value as its canonical decimal rendering.
    pub fn encode(&self) -> (r: Vec<u8>)
        ensures
            r@ == crate::util::dec_digits(self.0 as nat),
    {
        crate::util::encode_decimal(self.0)
    }
}

} // verus!
