//! The directive-argument sub-grammar (RFC 9110 quoted strings and tokens).
//!
//! Right after an `=` the decoder consumes exactly one of: a bare `token`
//! run, used verbatim; a quoted string without backslashes, whose interior
//! bytes are the value; or a quoted string with backslash escapes, where
//! each `\` is dropped and the byte after it kept literally. Leading space
//! or tab before the argument is tolerated. Anything else — end of input, a
//! comma, a bare `=` — fails the decode.

use vstd::prelude::*;
use vstd::slice::slice_subrange;
use vstd::slice::slice_to_vec;

use crate::chars::is_tchar;
use crate::chars::is_wsp;
use crate::chars::tchar;
use crate::chars::wsp;
use crate::tokens::all_tchar;
use crate::tokens::lemma_token_run_ends;
use crate::tokens::lemma_token_run_props;
use crate::tokens::token_run;
use crate::ParseError;

verus! {

/// Length of a quoted-string body including its closing quote, scanning `s`
/// from just after the opening quote; `None` when no unescaped closing quote
/// is reached (a trailing lone `\` swallows the quote after it).
pub open spec fn qbody_len(s: Seq<u8>) -> Option<int>
    decreases s.len(),
{
    if s.len() == 0 {
        None
    } else if s[0] == 0x22 {
        Some(1)
    } else if s[0] == 0x5C {
        if s.len() >= 2 {
            match qbody_len(s.skip(2)) {
                Some(n) => Some(n + 2),
                None => None::<int>,
            }
        } else {
            None
        }
    } else {
        match qbody_len(s.skip(1)) {
            Some(n) => Some(n + 1),
            None => None::<int>,
        }
    }
}

/// A found closing quote lies within the input.
pub proof fn lemma_qbody_len_bounds(s: Seq<u8>)
    ensures
        qbody_len(s) matches Some(m) ==> 1 <= m <= s.len(),
    decreases s.len(),
{
    if s.len() == 0 || s[0] == 0x22 {
    } else if s[0] == 0x5C {
        if s.len() >= 2 {
            lemma_qbody_len_bounds(s.skip(2));
        }
    } else {
        lemma_qbody_len_bounds(s.skip(1));
    }
}

/// Remove the backslash escapes of a quoted-string body: each `\` is
/// dropped and the byte after it kept literally; other bytes stay.
pub open spec fn unescape(body: Seq<u8>) -> Seq<u8>
    decreases body.len(),
{
    if body.len() == 0 {
        Seq::<u8>::empty()
    } else if body[0] == 0x5C && body.len() >= 2 {
        seq![body[1]] + unescape(body.skip(2))
    } else {
        seq![body[0]] + unescape(body.skip(1))
    }
}

/// What consuming one argument at the front of `s` yields: the argument's
/// value (unescaped), the raw bytes it stood as (quotes included), and how
/// many bytes were consumed, leading whitespace counted.
pub open spec fn arg_scan(s: Seq<u8>) -> Result<(Seq<u8>, Seq<u8>, int), ParseError>
    decreases s.len(),
{
    if s.len() == 0 {
        Err(ParseError::InvalidSyntax)
    } else if wsp(s[0]) {
        match arg_scan(s.skip(1)) {
            Ok(t) => Ok((t.0, t.1, 1 + t.2)),
            Err(e) => Err(e),
        }
    } else if tchar(s[0]) {
        let n = token_run(s);
        Ok((s.take(n), s.take(n), n))
    } else if s[0] == 0x22 {
        match qbody_len(s.skip(1)) {
            Some(m) => Ok((unescape(s.subrange(1, m)), s.take(1 + m), 1 + m)),
            None => Err(ParseError::InvalidSyntax),
        }
    } else {
        Err(ParseError::InvalidSyntax)
    }
}

/// The raw bytes of an argument as the decoder stores them for an extension
/// directive: a non-empty `token` run, or a complete quoted span.
pub open spec fn raw_wf(raw: Seq<u8>) -> bool {
    ||| (raw.len() >= 1 && all_tchar(raw))
    ||| (raw.len() >= 2 && raw[0] == 0x22 && qbody_len(raw.skip(1)) == Some(raw.len() - 1))
}

/// A successful argument scan consumes at least one byte, no more than the
/// input, and hands back well-formed raw bytes.
pub proof fn lemma_arg_scan_ok(s: Seq<u8>)
    ensures
        arg_scan(s) matches Ok(t) ==> {
            &&& 1 <= t.2 <= s.len()
            &&& raw_wf(t.1)
        },
    decreases s.len(),
{
    if s.len() == 0 {
    } else if wsp(s[0]) {
        lemma_arg_scan_ok(s.skip(1));
    } else if tchar(s[0]) {
        lemma_token_run_props(s);
        assert(token_run(s) >= 1);
    } else if s[0] == 0x22 {
        match qbody_len(s.skip(1)) {
            Some(m) => {
                lemma_qbody_len_bounds(s.skip(1));
                let raw = s.take(1 + m);
                assert(raw[0] == 0x22);
                assert(raw.skip(1) =~= s.skip(1).take(m));
                lemma_qbody_len_take(s.skip(1));
            },
            None => {},
        }
    } else {
    }
}

/// The quoted-string scan only reads the bytes of the span it found:
/// truncating the input at the closing quote scans the same.
pub proof fn lemma_qbody_len_take(s: Seq<u8>)
    ensures
        qbody_len(s) matches Some(m) ==> qbody_len(s.take(m)) == Some(m),
    decreases s.len(),
{
    match qbody_len(s) {
        Some(m) => {
            lemma_qbody_len_bounds(s);
            if s[0] == 0x22 {
                assert(s.take(1)[0] == 0x22);
            } else if s[0] == 0x5C {
                lemma_qbody_len_take(s.skip(2));
                lemma_qbody_len_bounds(s.skip(2));
                assert(s.take(m)[0] == 0x5C);
                assert(s.take(m).len() >= 2);
                assert(s.take(m).skip(2) =~= s.skip(2).take(m - 2));
            } else {
                lemma_qbody_len_take(s.skip(1));
                lemma_qbody_len_bounds(s.skip(1));
                assert(s.take(m)[0] == s[0]);
                assert(s.take(m).skip(1) =~= s.skip(1).take(m - 1));
            }
        },
        None => {},
    }
}

/// Scanning a complete quoted span followed by anything finds the same
/// closing quote: the scan never reads past it.
pub proof fn lemma_qbody_len_extend(w: Seq<u8>, rest: Seq<u8>)
    requires
        qbody_len(w) == Some(w.len() as int),
    ensures
        qbody_len(w + rest) == Some(w.len() as int),
    decreases w.len(),
{
    lemma_qbody_len_bounds(w);
    let u = w + rest;
    assert(u[0] == w[0]);
    if w[0] == 0x22 {
        assert(w.len() == 1);
    } else if w[0] == 0x5C {
        assert(w.len() >= 2);
        assert(qbody_len(w.skip(2)) == Some(w.len() - 2));
        assert(w.skip(2).len() == w.len() - 2);
        lemma_qbody_len_extend(w.skip(2), rest);
        assert(u.skip(2) =~= w.skip(2) + rest);
        assert(u.len() >= 2);
    } else {
        assert(qbody_len(w.skip(1)) == Some(w.len() - 1));
        lemma_qbody_len_extend(w.skip(1), rest);
        assert(u.skip(1) =~= w.skip(1) + rest);
    }
}

/// Consume one argument of `i` starting at `pos`: its value, its raw bytes,
/// and the position just after it.
#[verifier::loop_isolation(false)]
pub fn parse_argument(i: &[u8], pos: usize) -> (r: Result<(Vec<u8>, Vec<u8>, usize), ParseError>)
    requires
        pos <= i@.len(),
    ensures
        match r {
            Ok(t) => match arg_scan(i@.skip(pos as int)) {
                Ok(u) => {
                    &&& t.0@ == u.0
                    &&& t.1@ == u.1
                    &&& t.2 == pos + u.2
                    &&& pos < t.2 <= i@.len()
                },
                Err(_) => false,
            },
            Err(e) => arg_scan(i@.skip(pos as int)) == Err::<(Seq<u8>, Seq<u8>, int), ParseError>(
                e,
            ),
        },
{
    let mut p: usize = pos;
    while p < i.len() && is_wsp(i[p])
        invariant
            pos <= p <= i@.len(),
            arg_scan(i@.skip(pos as int)) == match arg_scan(i@.skip(p as int)) {
                Ok(t) => Ok::<(Seq<u8>, Seq<u8>, int), ParseError>((t.0, t.1, t.2 + (p - pos))),
                Err(e) => Err::<(Seq<u8>, Seq<u8>, int), ParseError>(e),
            },
        decreases i@.len() - p,
    {
        proof {
            assert(i@.skip(p as int)[0] == i@[p as int]);
            assert(i@.skip(p as int).skip(1) =~= i@.skip(p as int + 1));
        }
        p = p + 1;
    }
    let ghost s = i@.skip(p as int);
    if p == i.len() {
        proof {
            assert(s =~= Seq::<u8>::empty());
        }
        return Err(ParseError::InvalidSyntax);
    }
    let chr = i[p];
    proof {
        assert(s[0] == i@[p as int]);
    }
    if is_tchar(chr) {
        let start = p;
        let mut q: usize = p + 1;
        while q < i.len() && is_tchar(i[q])
            invariant
                0 <= start < q <= i@.len(),
                forall|k: int| start <= k < q ==> tchar(#[trigger] i@[k]),
            decreases i@.len() - q,
        {
            q = q + 1;
        }
        let run = slice_subrange(i, start, q);
        proof {
            assert(run@ =~= s.take(q - start as int));
            assert forall|k: int| 0 <= k < q - start as int implies tchar(
                #[trigger] s.take(q - start as int)[k],
            ) by {
                assert(s.take(q - start as int)[k] == i@[start as int + k]);
            }
            if (q as int) < i@.len() {
                assert(s[q - start as int] == i@[q as int]);
            }
            lemma_token_run_ends(s, q - start as int);
        }
        let value = slice_to_vec(run);
        let raw = slice_to_vec(run);
        return Ok((value, raw, q));
    }
    if chr == 0x22 {
        let qstart = p;
        let mut j: usize = p + 1;
        let mut close: usize = 0;
        let mut found = false;
        while j < i.len() && !found
            invariant
                qstart + 1 <= j <= i@.len(),
                (qstart as int) < i@.len(),
                i@[qstart as int] == 0x22,
                !found ==> qbody_len(i@.skip(qstart as int + 1)) == match qbody_len(
                    i@.skip(j as int),
                ) {
                    Some(m) => Some(m + (j - qstart - 1)),
                    None => None::<int>,
                },
                found ==> qstart + 1 <= close < i@.len() && close < j && qbody_len(
                    i@.skip(qstart as int + 1),
                ) == Some(close - qstart as int),
            decreases i@.len() - j + (if found {
                0int
            } else {
                1int
            }),
        {
            let chr2 = i[j];
            proof {
                assert(i@.skip(j as int)[0] == i@[j as int]);
            }
            if chr2 == 0x22 {
                close = j;
                found = true;
                proof {
                    assert(qbody_len(i@.skip(j as int)) == Some(1int));
                }
                j = j + 1;
            } else if chr2 == 0x5C {
                if j + 1 >= i.len() {
                    proof {
                        assert(i@.skip(j as int).len() == 1);
                        assert(qbody_len(i@.skip(j as int)) == None::<int>);
                        assert(s.skip(1) =~= i@.skip(qstart as int + 1));
                    }
                    return Err(ParseError::InvalidSyntax);
                }
                proof {
                    assert(i@.skip(j as int).len() >= 2);
                    assert(i@.skip(j as int).skip(2) =~= i@.skip(j as int + 2));
                }
                j = j + 2;
            } else {
                proof {
                    assert(i@.skip(j as int).skip(1) =~= i@.skip(j as int + 1));
                }
                j = j + 1;
            }
        }
        if !found {
            proof {
                assert(i@.skip(j as int) =~= Seq::<u8>::empty());
                assert(s.skip(1) =~= i@.skip(qstart as int + 1));
            }
            return Err(ParseError::InvalidSyntax);
        }
        let ghost m = close - qstart as int;
        proof {
            assert(qbody_len(s.skip(1)) == Some(m)) by {
                assert(s.skip(1) =~= i@.skip(qstart as int + 1));
            }
        }
        let mut value: Vec<u8> = Vec::new();
        let mut k: usize = qstart + 1;
        let ghost body = i@.subrange(qstart as int + 1, close as int);
        proof {
            assert(body =~= s.subrange(1, m));
            assert(i@.subrange(k as int, close as int) =~= body);
        }
        while k < close
            invariant
                qstart + 1 <= k <= close,
                close < i@.len(),
                body == i@.subrange(qstart as int + 1, close as int),
                unescape(body) == value@ + unescape(i@.subrange(k as int, close as int)),
            decreases close - k,
        {
            let ghost u = i@.subrange(k as int, close as int);
            let chr2 = i[k];
            proof {
                assert(u[0] == i@[k as int]);
            }
            let ghost v0 = value@;
            if chr2 == 0x5C && k + 1 < close {
                value.push(i[k + 1]);
                proof {
                    assert(u.len() >= 2);
                    assert(u[1] == i@[k as int + 1]);
                    assert(u.skip(2) =~= i@.subrange(k as int + 2, close as int));
                    assert(unescape(u) == seq![i@[k as int + 1]] + unescape(u.skip(2)));
                    assert(v0 + (seq![i@[k as int + 1]] + unescape(u.skip(2))) =~= (v0 + seq![
                        i@[k as int + 1],
                    ]) + unescape(u.skip(2)));
                    assert(value@ =~= v0 + seq![i@[k as int + 1]]);
                }
                k = k + 2;
            } else {
                value.push(chr2);
                proof {
                    if u[0] == 0x5C {
                        assert(u.len() < 2);
                    }
                    assert(u.skip(1) =~= i@.subrange(k as int + 1, close as int));
                    assert(unescape(u) == seq![u[0]] + unescape(u.skip(1)));
                    assert(v0 + (seq![u[0]] + unescape(u.skip(1))) =~= (v0 + seq![u[0]])
                        + unescape(u.skip(1)));
                    assert(value@ =~= v0 + seq![u[0]]);
                }
                k = k + 1;
            }
        }
        proof {
            assert(i@.subrange(k as int, close as int) =~= Seq::<u8>::empty());
            assert(value@ + Seq::<u8>::empty() =~= value@);
        }
        let raw = slice_to_vec(slice_subrange(i, qstart, close + 1));
        proof {
            assert(raw@ =~= s.take(1 + m));
        }
        return Ok((value, raw, close + 1));
    }
    Err(ParseError::InvalidSyntax)
}

} // verus!
