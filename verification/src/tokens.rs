//! Maximal `token` runs (RFC 9110 `token = 1*tchar`).

use vstd::prelude::*;

use crate::chars::tchar;

verus! {

/// Every byte of `s` is a `tchar`.
pub open spec fn all_tchar(s: Seq<u8>) -> bool {
    forall|i: int| 0 <= i < s.len() ==> tchar(#[trigger] s[i])
}

/// Length of the maximal `tchar` run at the front of `s`.
pub open spec fn token_run(s: Seq<u8>) -> int
    decreases s.len(),
{
    if s.len() == 0 || !tchar(s[0]) {
        0
    } else {
        1 + token_run(s.skip(1))
    }
}

/// The maximal run: bounded by the length, all `tchar`, and ended by a
/// non-`tchar` byte if it does not cover the whole input.
pub proof fn lemma_token_run_props(s: Seq<u8>)
    ensures
        0 <= token_run(s) <= s.len(),
        all_tchar(s.take(token_run(s))),
        token_run(s) < s.len() ==> !tchar(s[token_run(s)]),
    decreases s.len(),
{
    if s.len() == 0 || !tchar(s[0]) {
    } else {
        lemma_token_run_props(s.skip(1));
        let p = token_run(s);
        assert(p == 1 + token_run(s.skip(1)));
        assert forall|j: int| 0 <= j < p implies tchar(#[trigger] s.take(p)[j]) by {
            if j > 0 {
                assert(s.take(p)[j] == s.skip(1).take(p - 1)[j - 1]);
            }
        }
        if p < s.len() {
            assert(s[p] == s.skip(1)[p - 1]);
        }
    }
}

/// If the first `i` bytes are `tchar`, the maximal run reaches `i`.
pub proof fn lemma_token_run_lower(s: Seq<u8>, i: int)
    requires
        0 <= i <= s.len(),
        all_tchar(s.take(i)),
    ensures
        token_run(s) >= i,
    decreases i,
{
    if i > 0 {
        assert(tchar(s[0])) by {
            assert(s.take(i)[0] == s[0]);
        }
        assert(all_tchar(s.skip(1).take(i - 1))) by {
            assert forall|j: int| 0 <= j < i - 1 implies tchar(#[trigger] s.skip(1).take(i - 1)[j])
            by {
                assert(s.skip(1).take(i - 1)[j] == s.take(i)[j + 1]);
            }
        }
        lemma_token_run_lower(s.skip(1), i - 1);
        assert(token_run(s) == 1 + token_run(s.skip(1)));
    } else {
        lemma_token_run_props(s);
    }
}

/// The maximal run ends at `i` when everything before `i` is a `tchar` and
/// `i` is the end of the input or a byte outside the class.
pub proof fn lemma_token_run_ends(s: Seq<u8>, i: int)
    requires
        0 <= i <= s.len(),
        all_tchar(s.take(i)),
        i < s.len() ==> !tchar(s[i]),
    ensures
        token_run(s) == i,
{
    lemma_token_run_lower(s, i);
    lemma_token_run_props(s);
    if token_run(s) > i {
        assert(tchar(s.take(token_run(s))[i]));
        assert(s.take(token_run(s))[i] == s[i]);
    }
}

} // verus!
