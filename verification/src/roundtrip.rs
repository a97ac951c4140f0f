//! The laws that tie the decoder and the encoder together.
//!
//! The main results: decoding tolerates whitespace and empty list members
//! without changing the record, and decoding the canonical encoding of any
//! record the decoder can produce gives that record back — so decode
//! followed by encode is idempotent on canonical forms, and unknown
//! directives survive byte-for-byte.

use vstd::prelude::*;

use crate::argument::arg_scan;
use crate::argument::lemma_arg_scan_ok;
use crate::argument::lemma_qbody_len_extend;
use crate::argument::qbody_len;
use crate::argument::raw_wf;
use crate::argument::unescape;
use crate::cache_control::apply_known_spec;
use crate::cache_control::apply_spec;
use crate::cache_control::dec;
use crate::cache_control::enc;
use crate::cache_control::enc_bool;
use crate::cache_control::enc_ext_one;
use crate::cache_control::enc_exts;
use crate::cache_control::enc_list;
use crate::cache_control::enc_u64;
use crate::cache_control::sep;
use crate::cache_control::delta_seconds_spec;
use crate::cache_control::is_delta_directive;
use crate::cache_control::is_list_directive;
use crate::cache_control::list_slot;
use crate::cache_control::lower_byte;
use crate::cache_control::empty_record;
use crate::cache_control::hlist_spec;
use crate::cache_control::join_comma;
use crate::cache_control::lower;
use crate::cache_control::rest_joined;
use crate::cache_control::CacheControlV;
use crate::cache_control::ExtensionV;
use crate::chars::tchar;
use crate::chars::wsp;
use crate::keywords::classify_spec;
use crate::keywords::kw_max_age;
use crate::keywords::kw_max_stale;
use crate::keywords::kw_min_fresh;
use crate::keywords::kw_no_cache;
use crate::keywords::kw_no_store;
use crate::keywords::kw_no_transform;
use crate::keywords::kw_only_if_cached;
use crate::keywords::kw_must_revalidate;
use crate::keywords::kw_must_understand;
use crate::keywords::kw_transform;
use crate::keywords::kw_private;
use crate::keywords::kw_proxy_revalidate;
use crate::keywords::kw_public;
use crate::keywords::kw_s_maxage;
use crate::keywords::kw_immutable;
use crate::keywords::kw_stale_while_revalidate;
use crate::keywords::kw_stale_if_error;
use crate::keywords::Directive;
use crate::chars::digit;
use crate::tokens::all_tchar;
use crate::util::all_digits;
use crate::util::dec_digits;
use crate::util::lemma_dec_digits;
use crate::util::lemma_parse_encode_decimal;
use crate::tokens::lemma_token_run_ends;
use crate::tokens::lemma_token_run_props;
use crate::tokens::token_run;
use crate::ParseError;

verus! {

/// Law: leading whitespace never changes what an occurrence decodes to.
pub proof fn lemma_decode_wsp_prefix(
    w: Seq<u8>,
    s: Seq<u8>,
    pending: Option<Seq<u8>>,
    cc: CacheControlV,
)
    requires
        forall|k: int| 0 <= k < w.len() ==> wsp(#[trigger] w[k]),
    ensures
        dec(w + s, pending, cc) == dec(s, pending, cc),
    decreases w.len(),
{
    if w.len() == 0 {
        assert(w + s =~= s);
    } else {
        assert((w + s)[0] == w[0]);
        assert((w + s).skip(1) =~= w.skip(1) + s);
        lemma_decode_wsp_prefix(w.skip(1), s, pending, cc);
    }
}

/// Law: a leading comma — an empty list member — never changes what an
/// occurrence decodes to, while no directive is pending.
pub proof fn lemma_decode_comma_prefix(s: Seq<u8>, cc: CacheControlV)
    ensures
        dec(seq![0x2C] + s, None, cc) == dec(s, None, cc),
{
    let u = seq![0x2Cu8] + s;
    assert(u[0] == 0x2C);
    assert(u.skip(1) =~= s);
}

/// Law: any run of whitespace and commas — pure delimiter variation and
/// empty list members — is transparent at every point where the decoder
/// stands between directives, whatever record it has built so far. With
/// [`lemma_decode_wsp_prefix`], which also covers whitespace before a
/// pending directive's delimiter, this is the general form of the tolerance
/// the scenario inputs exercise.
pub proof fn lemma_decode_padding_prefix(p: Seq<u8>, s: Seq<u8>, cc: CacheControlV)
    requires
        forall|k: int| 0 <= k < p.len() ==> wsp(#[trigger] p[k]) || p[k] == 0x2C,
    ensures
        dec(p + s, None, cc) == dec(s, None, cc),
    decreases p.len(),
{
    if p.len() == 0 {
        assert(p + s =~= s);
    } else {
        assert((p + s)[0] == p[0]);
        assert((p + s).skip(1) =~= p.skip(1) + s);
        lemma_decode_padding_prefix(p.skip(1), s, cc);
    }
}

/// A field-name list as the decoder leaves it: every name non-empty, made
/// of `tchar`s, and already lowercase.
pub open spec fn wf_names(l: Seq<Seq<u8>>) -> bool {
    forall|k: int| 0 <= k < l.len() ==> {
        &&& (#[trigger] l[k]).len() >= 1
        &&& all_tchar(l[k])
        &&& lower(l[k]) == l[k]
    }
}

/// An extension as the decoder leaves it: a non-empty token that names no
/// registered directive, with well-formed raw argument bytes if any.
pub open spec fn wf_ext(e: ExtensionV) -> bool {
    &&& e.name.len() >= 1
    &&& all_tchar(e.name)
    &&& classify_spec(e.name) == None::<Directive>
    &&& match e.arg {
        Some(raw) => raw_wf(raw),
        None => true,
    }
}

/// A record as the decoder leaves it: list slots are absent or non-empty
/// with well-formed names, and extensions are well-formed.
pub open spec fn wf_record(r: CacheControlV) -> bool {
    &&& match r.no_cache {
        Some(l) => l.len() >= 1 && wf_names(l),
        None => true,
    }
    &&& match r.private {
        Some(l) => l.len() >= 1 && wf_names(l),
        None => true,
    }
    &&& forall|k: int| 0 <= k < r.other.len() ==> wf_ext(#[trigger] r.other[k])
}

/// A token run followed by a delimiter scans as exactly that run.
proof fn lemma_token_concat(name: Seq<u8>, rest: Seq<u8>)
    requires
        all_tchar(name),
        rest.len() > 0 ==> !tchar(rest[0]),
    ensures
        token_run(name + rest) == name.len(),
{
    let u = name + rest;
    assert(u.take(name.len() as int) =~= name);
    if name.len() < u.len() {
        assert(u[name.len() as int] == rest[0]);
    }
    lemma_token_run_ends(u, name.len() as int);
}

/// A body free of quotes and backslashes, closed by a quote, scans as one
/// span whatever follows.
proof fn lemma_qbody_clean(body: Seq<u8>, rest: Seq<u8>)
    requires
        forall|k: int| 0 <= k < body.len() ==> #[trigger] body[k] != 0x22 && body[k] != 0x5C,
    ensures
        qbody_len(body + seq![0x22] + rest) == Some(body.len() as int + 1),
    decreases body.len(),
{
    let u = body + seq![0x22u8] + rest;
    if body.len() == 0 {
        assert(u[0] == 0x22);
    } else {
        assert(u[0] == body[0]);
        lemma_qbody_clean(body.skip(1), rest);
        assert(u.skip(1) =~= body.skip(1) + seq![0x22u8] + rest);
    }
}

/// Unescaping bytes that hold no backslash leaves them unchanged.
proof fn lemma_unescape_id(body: Seq<u8>)
    requires
        forall|k: int| 0 <= k < body.len() ==> #[trigger] body[k] != 0x5C,
    ensures
        unescape(body) == body,
    decreases body.len(),
{
    if body.len() > 0 {
        lemma_unescape_id(body.skip(1));
        assert(seq![body[0]] + body.skip(1) =~= body);
    }
}

/// The comma-joined members after the first are a comma and the
/// comma-joined remainder.
proof fn lemma_rest_joined(m: Seq<Seq<u8>>)
    requires
        m.len() >= 1,
    ensures
        rest_joined(m) == seq![0x2C] + join_comma(m),
{
    assert(seq![0x2Cu8] + (m[0] + rest_joined(m.skip(1))) =~= (seq![0x2Cu8] + m[0]) + rest_joined(
        m.skip(1),
    ));
}

/// No byte of a comma-joined well-formed name list is a quote or a
/// backslash, and none is outside the quoted-string body classes.
proof fn lemma_join_clean(l: Seq<Seq<u8>>)
    requires
        wf_names(l),
    ensures
        forall|k: int|
            0 <= k < join_comma(l).len() ==> #[trigger] join_comma(l)[k] != 0x22 && join_comma(
                l,
            )[k] != 0x5C,
    decreases l.len(),
{
    if l.len() > 0 {
        assert(wf_names(l.skip(1))) by {
            assert(forall|k: int|
                0 <= k < l.skip(1).len() ==> #[trigger] l.skip(1)[k] == l[k + 1]);
        }
        lemma_join_clean(l.skip(1));
        let j = join_comma(l);
        if l.len() == 1 {
            assert(rest_joined(l.skip(1)) =~= Seq::<u8>::empty());
            assert(j =~= l[0]);
            assert forall|k: int| 0 <= k < j.len() implies #[trigger] j[k] != 0x22 && j[k] != 0x5C
            by {
                assert(tchar(l[0][k]));
            }
        } else {
            lemma_rest_joined(l.skip(1));
            assert(j =~= l[0] + seq![0x2Cu8] + join_comma(l.skip(1)));
            assert forall|k: int| 0 <= k < j.len() implies #[trigger] j[k] != 0x22 && j[k] != 0x5C
            by {
                if k < l[0].len() {
                    assert(j[k] == l[0][k]);
                    assert(tchar(l[0][k]));
                } else if k == l[0].len() {
                    assert(j[k] == 0x2C);
                } else {
                    assert(j[k] == join_comma(l.skip(1))[k - l[0].len() - 1]);
                }
            }
        }
    }
}

/// Parsing the comma-joined rendering of a well-formed name list gives the
/// list back.
proof fn lemma_hlist_join(l: Seq<Seq<u8>>)
    requires
        wf_names(l),
        l.len() >= 1,
    ensures
        hlist_spec(join_comma(l), true) == Ok::<Seq<Seq<u8>>, ParseError>(l),
    decreases l.len(),
{
    let j = join_comma(l);
    let name = l[0];
    let rest = rest_joined(l.skip(1));
    assert(j == name + rest);
    assert(tchar(name[0])) by {
        assert(all_tchar(name));
    }
    assert(j[0] == name[0]);
    if l.len() == 1 {
        assert(rest =~= Seq::<u8>::empty());
        lemma_token_concat(name, rest);
        assert(token_run(j) == name.len());
        assert(j.take(name.len() as int) =~= name);
        assert(lower(name) == name);
        assert(j.skip(name.len() as int) =~= Seq::<u8>::empty());
        assert(hlist_spec(j.skip(name.len() as int), false) == Ok::<Seq<Seq<u8>>, ParseError>(
            Seq::empty(),
        ));
        assert(seq![name] + Seq::<Seq<u8>>::empty() =~= l);
    } else {
        assert(wf_names(l.skip(1))) by {
            assert(forall|k: int|
                0 <= k < l.skip(1).len() ==> #[trigger] l.skip(1)[k] == l[k + 1]);
        }
        lemma_hlist_join(l.skip(1));
        lemma_rest_joined(l.skip(1));
        assert(rest[0] == 0x2C);
        assert(!tchar(0x2C));
        lemma_token_concat(name, rest);
        assert(token_run(j) == name.len());
        assert(j.take(name.len() as int) =~= name);
        assert(lower(name) == name);
        let after = j.skip(name.len() as int);
        assert(after =~= rest);
        assert(after[0] == 0x2C);
        assert(after.skip(1) =~= join_comma(l.skip(1)));
        assert(hlist_spec(after, false) == hlist_spec(join_comma(l.skip(1)), true));
        assert(seq![name] + l.skip(1) =~= l);
    }
}

/// One directive of a canonical encoding.
pub ghost enum Seg {
    Num { name: Seq<u8>, value: u64 },
    List { name: Seq<u8>, items: Seq<Seq<u8>> },
    Flag { name: Seq<u8> },
    Ext { name: Seq<u8>, arg: Option<Seq<u8>> },
}

/// The directive's name.
pub open spec fn seg_name(g: Seg) -> Seq<u8> {
    match g {
        Seg::Num { name, .. } => name,
        Seg::List { name, .. } => name,
        Seg::Flag { name } => name,
        Seg::Ext { name, .. } => name,
    }
}

/// The directive's bytes, without any separator.
pub open spec fn seg_bytes(g: Seg) -> Seq<u8> {
    match g {
        Seg::Num { name, value } => name + seq![0x3D] + dec_digits(value as nat),
        Seg::List { name, items } => name + seq![0x3D, 0x22] + join_comma(items) + seq![0x22],
        Seg::Flag { name } => name,
        Seg::Ext { name, arg } => match arg {
            Some(raw) => name + seq![0x3D] + raw,
            None => name,
        },
    }
}

/// A directive the canonical encoder can emit: its name classifies as the
/// right kind of registered directive — or as none, for an extension — and
/// its payload is well formed.
pub open spec fn seg_wf(g: Seg) -> bool {
    match g {
        Seg::Num { name, .. } => {
            &&& name.len() >= 1
            &&& all_tchar(name)
            &&& classify_spec(name) matches Some(d) && is_delta_directive(d)
        },
        Seg::List { name, items } => {
            &&& name.len() >= 1
            &&& all_tchar(name)
            &&& classify_spec(name) matches Some(d) && is_list_directive(d)
            &&& items.len() >= 1
            &&& wf_names(items)
        },
        Seg::Flag { name } => {
            &&& name.len() >= 1
            &&& all_tchar(name)
            &&& classify_spec(name) matches Some(d) && !is_delta_directive(d)
                && !is_list_directive(d)
        },
        Seg::Ext { name, arg } => {
            &&& name.len() >= 1
            &&& all_tchar(name)
            &&& classify_spec(name) == None::<Directive>
            &&& match arg {
                Some(raw) => raw_wf(raw),
                None => true,
            }
        },
    }
}

/// The record after one directive of a canonical encoding is decoded.
pub open spec fn seg_apply(cc: CacheControlV, g: Seg) -> CacheControlV {
    match g {
        Seg::Num { name, value } => match classify_spec(name) {
            Some(d) => ok_or(apply_known_spec(cc, d, Some(dec_digits(value as nat))), cc),
            None => cc,
        },
        Seg::List { name, items } => match classify_spec(name) {
            Some(d) => ok_or(apply_known_spec(cc, d, Some(join_comma(items))), cc),
            None => cc,
        },
        Seg::Flag { name } => match classify_spec(name) {
            Some(d) => ok_or(apply_known_spec(cc, d, None), cc),
            None => cc,
        },
        Seg::Ext { name, arg } => CacheControlV {
            other: cc.other.push(ExtensionV { name: name, arg: arg }),
            ..cc
        },
    }
}

/// The successful value of an application, which well-formed canonical
/// directives always reach.
pub open spec fn ok_or(r: Result<CacheControlV, ParseError>, d: CacheControlV) -> CacheControlV {
    match r {
        Ok(c) => c,
        Err(_) => d,
    }
}

/// Scanning a directive name followed by a delimiter leaves the name
/// pending.
proof fn lemma_dec_name(name: Seq<u8>, rest: Seq<u8>, cc: CacheControlV)
    requires
        name.len() >= 1,
        all_tchar(name),
        rest.len() > 0 ==> !tchar(rest[0]),
    ensures
        dec(name + rest, None, cc) == dec(rest, Some(name), cc),
{
    let u = name + rest;
    assert(u[0] == name[0]);
    assert(tchar(name[0]));
    lemma_token_concat(name, rest);
    assert(u.take(name.len() as int) =~= name);
    assert(u.skip(name.len() as int) =~= rest);
}

/// An `=` with a pending name consumes one argument and applies the
/// directive with it.
proof fn lemma_dec_eq_branch(
    name: Seq<u8>,
    u2: Seq<u8>,
    a: Seq<u8>,
    w: Seq<u8>,
    n: int,
    tail: Seq<u8>,
    cc: CacheControlV,
)
    requires
        arg_scan(u2) == Ok::<(Seq<u8>, Seq<u8>, int), ParseError>((a, w, n)),
        0 <= n <= u2.len(),
        u2.skip(n) == tail,
    ensures
        dec(seq![0x3D] + u2, Some(name), cc) == (match apply_spec(cc, name, Some(a), Some(w)) {
            Ok(c2) => dec(tail, None, c2),
            Err(e) => Err::<CacheControlV, ParseError>(e),
        }),
{
    let rest1 = seq![0x3Du8] + u2;
    assert(rest1[0] == 0x3D);
    assert(rest1.skip(1) =~= u2);
    assert(rest1.skip(1 + n) =~= u2.skip(n));
}

/// Decoding one bare directive (a flag or an extension without argument):
/// the name is scanned and left pending for the delimiter.
proof fn lemma_dec_seg_bare(g: Seg, tail: Seq<u8>, cc: CacheControlV)
    requires
        seg_wf(g),
        g matches Seg::Flag { .. } || (g matches Seg::Ext { arg: None, .. }),
        tail.len() == 0 || tail[0] == 0x2C,
    ensures
        dec(seg_bytes(g) + tail, None, cc) == (if tail.len() == 0 {
            Ok::<CacheControlV, ParseError>(seg_apply(cc, g))
        } else {
            dec(tail.skip(1), None, seg_apply(cc, g))
        }),
{
    let name = seg_name(g);
    let u = seg_bytes(g) + tail;
    assert(seg_bytes(g) == name);
    assert(u[0] == name[0]);
    assert(tchar(name[0])) by {
        assert(all_tchar(name));
    }
    lemma_token_concat(name, tail);
    assert(token_run(u) == name.len());
    assert(u.take(name.len() as int) =~= name);
    assert(u.skip(name.len() as int) =~= tail);
    assert(dec(u, None, cc) == dec(tail, Some(name), cc));
    let a = apply_spec(cc, name, None, None);
    assert(a == Ok::<CacheControlV, ParseError>(seg_apply(cc, g))) by {
        match g {
            Seg::Flag { .. } => {},
            Seg::Ext { .. } => {},
            _ => {},
        }
    }
    if tail.len() == 0 {
        assert(dec(tail, Some(name), cc) == a);
    } else {
        assert(tail[0] == 0x2C);
        assert(dec(tail, Some(name), cc) == dec(tail.skip(1), None, seg_apply(cc, g)));
    }
}

/// Decoding one numeric directive of a canonical encoding: the digits are
/// read back saturating, giving the value that was rendered.
#[verifier::rlimit(100)]
proof fn lemma_dec_seg_num(g: Seg, tail: Seq<u8>, cc: CacheControlV)
    requires
        seg_wf(g),
        g matches Seg::Num { .. },
        tail.len() == 0 || tail[0] == 0x2C,
    ensures
        dec(seg_bytes(g) + tail, None, cc) == (if tail.len() == 0 {
            Ok::<CacheControlV, ParseError>(seg_apply(cc, g))
        } else {
            dec(tail.skip(1), None, seg_apply(cc, g))
        }),
{
    let name = seg_name(g);
    let value = g->Num_value;
    let digits = dec_digits(value as nat);
    lemma_dec_digits(value as nat);
    let u2 = digits + tail;
    let rest1 = seq![0x3Du8] + u2;
    assert(seg_bytes(g) + tail =~= name + rest1);
    assert(rest1[0] == 0x3D);
    lemma_dec_name(name, rest1, cc);
    assert(u2[0] == digits[0]);
    assert(all_tchar(digits) && tchar(digits[0]) && !wsp(digits[0])) by {
        assert(all_digits(digits));
        assert forall|k: int| 0 <= k < digits.len() implies tchar(#[trigger] digits[k]) by {
            assert(digit(digits[k]));
        }
        assert(digit(digits[0]));
    }
    assert(arg_scan(u2) == Ok::<(Seq<u8>, Seq<u8>, int), ParseError>((
        digits,
        digits,
        digits.len() as int,
    ))) by {
        lemma_token_concat(digits, tail);
        assert(u2.take(digits.len() as int) =~= digits);
    }
    assert(u2.skip(digits.len() as int) =~= tail);
    lemma_dec_eq_branch(name, u2, digits, digits, digits.len() as int, tail, cc);
    assert(delta_seconds_spec(digits) == Ok::<u64, ParseError>(value)) by {
        lemma_parse_encode_decimal(value as nat, true, u64::MAX as int);
    }
    assert(apply_spec(cc, name, Some(digits), Some(digits)) == Ok::<CacheControlV, ParseError>(
        seg_apply(cc, g),
    ));
    if tail.len() == 0 {
        assert(dec(tail, None, seg_apply(cc, g)) == Ok::<CacheControlV, ParseError>(
            seg_apply(cc, g),
        ));
    } else {
        assert(dec(tail, None, seg_apply(cc, g)) == dec(tail.skip(1), None, seg_apply(cc, g)));
    }
}

/// Decoding one field-name-list directive of a canonical encoding: the
/// quoted span is scanned back to its closing quote and the joined names
/// parse to the list that was rendered.
#[verifier::rlimit(100)]
proof fn lemma_dec_seg_list(g: Seg, tail: Seq<u8>, cc: CacheControlV)
    requires
        seg_wf(g),
        g matches Seg::List { .. },
        tail.len() == 0 || tail[0] == 0x2C,
    ensures
        dec(seg_bytes(g) + tail, None, cc) == (if tail.len() == 0 {
            Ok::<CacheControlV, ParseError>(seg_apply(cc, g))
        } else {
            dec(tail.skip(1), None, seg_apply(cc, g))
        }),
{
    let name = seg_name(g);
    let items = g->List_items;
    let join = join_comma(items);
    let u = seg_bytes(g) + tail;
    let rest1 = seq![0x3Du8] + (seq![0x22u8] + join + seq![0x22u8]) + tail;
    assert(u =~= name + rest1);
    assert(u[0] == name[0]);
    assert(tchar(name[0])) by {
        assert(all_tchar(name));
    }
    assert(rest1[0] == 0x3D);
    lemma_token_concat(name, rest1);
    assert(u.take(name.len() as int) =~= name);
    assert(u.skip(name.len() as int) =~= rest1);
    assert(dec(u, None, cc) == dec(rest1, Some(name), cc));
    let u2 = seq![0x22u8] + join + seq![0x22u8] + tail;
    assert(rest1.skip(1) =~= u2);
    assert(u2[0] == 0x22);
    assert(!wsp(0x22) && !tchar(0x22));
    lemma_join_clean(items);
    assert(u2.skip(1) =~= join + seq![0x22u8] + tail);
    lemma_qbody_clean(join, tail);
    assert(qbody_len(u2.skip(1)) == Some(join.len() as int + 1));
    let m = join.len() as int + 1;
    assert(u2.subrange(1, m) =~= join);
    lemma_unescape_id(join);
    assert(u2.take(1 + m) =~= seq![0x22u8] + join + seq![0x22u8]);
    assert(arg_scan(u2) == Ok::<(Seq<u8>, Seq<u8>, int), ParseError>((
        join,
        seq![0x22u8] + join + seq![0x22u8],
        1 + m,
    )));
    lemma_hlist_join(items);
    assert(list_slot(items) == Some(items));
    let a = apply_spec(cc, name, Some(join), Some(seq![0x22u8] + join + seq![0x22u8]));
    assert(a == Ok::<CacheControlV, ParseError>(seg_apply(cc, g)));
    assert(rest1.skip(1 + (1 + m)) =~= tail);
    assert(dec(rest1, Some(name), cc) == dec(tail, None, seg_apply(cc, g)));
    if tail.len() == 0 {
    } else {
        assert(dec(tail, None, seg_apply(cc, g)) == dec(tail.skip(1), None, seg_apply(cc, g)));
    }
}

/// Decoding one extension directive with an argument: the raw bytes are
/// scanned back as one token or one quoted span and stored unchanged.
#[verifier::rlimit(100)]
proof fn lemma_dec_seg_ext_arg(g: Seg, tail: Seq<u8>, cc: CacheControlV)
    requires
        seg_wf(g),
        g matches Seg::Ext { arg: Some(_), .. },
        tail.len() == 0 || tail[0] == 0x2C,
    ensures
        dec(seg_bytes(g) + tail, None, cc) == (if tail.len() == 0 {
            Ok::<CacheControlV, ParseError>(seg_apply(cc, g))
        } else {
            dec(tail.skip(1), None, seg_apply(cc, g))
        }),
{
    let name = seg_name(g);
    let raw = g->Ext_arg->Some_0;
    let u = seg_bytes(g) + tail;
    let rest1 = seq![0x3Du8] + raw + tail;
    assert(u =~= name + rest1);
    assert(u[0] == name[0]);
    assert(tchar(name[0])) by {
        assert(all_tchar(name));
    }
    assert(rest1[0] == 0x3D);
    lemma_token_concat(name, rest1);
    assert(u.take(name.len() as int) =~= name);
    assert(u.skip(name.len() as int) =~= rest1);
    assert(dec(u, None, cc) == dec(rest1, Some(name), cc));
    let u2 = raw + tail;
    assert(rest1.skip(1) =~= u2);
    assert(u2[0] == raw[0]);
    if raw.len() >= 1 && all_tchar(raw) {
        assert(tchar(raw[0]));
        lemma_token_concat(raw, tail);
        assert(u2.take(raw.len() as int) =~= raw);
        assert(arg_scan(u2) == Ok::<(Seq<u8>, Seq<u8>, int), ParseError>((
            raw,
            raw,
            raw.len() as int,
        )));
        let a = apply_spec(cc, name, Some(raw), Some(raw));
        assert(a == Ok::<CacheControlV, ParseError>(seg_apply(cc, g)));
        assert(rest1.skip(1 + raw.len() as int) =~= tail);
        assert(dec(rest1, Some(name), cc) == dec(tail, None, seg_apply(cc, g)));
    } else {
        assert(raw.len() >= 2 && raw[0] == 0x22 && qbody_len(raw.skip(1)) == Some(
            raw.len() - 1,
        ));
        assert(!wsp(0x22) && !tchar(0x22));
        assert(raw.skip(1).len() == raw.len() - 1);
        lemma_qbody_len_extend(raw.skip(1), tail);
        assert(u2.skip(1) =~= raw.skip(1) + tail);
        let m = raw.len() - 1;
        assert(qbody_len(u2.skip(1)) == Some(m));
        assert(u2.take(1 + m) =~= raw);
        let body = u2.subrange(1, m);
        assert(arg_scan(u2) == Ok::<(Seq<u8>, Seq<u8>, int), ParseError>((
            unescape(body),
            raw,
            1 + m,
        )));
        let a = apply_spec(cc, name, Some(unescape(body)), Some(raw));
        assert(a == Ok::<CacheControlV, ParseError>(seg_apply(cc, g)));
        assert(rest1.skip(1 + (1 + m)) =~= tail);
        assert(dec(rest1, Some(name), cc) == dec(tail, None, seg_apply(cc, g)));
    }
    if tail.len() == 0 {
    } else {
        assert(dec(tail, None, seg_apply(cc, g)) == dec(tail.skip(1), None, seg_apply(cc, g)));
    }
}

/// Decoding one directive of a canonical encoding consumes exactly its
/// bytes and applies it; a comma after it is consumed as the delimiter.
proof fn lemma_dec_seg(g: Seg, tail: Seq<u8>, cc: CacheControlV)
    requires
        seg_wf(g),
        tail.len() == 0 || tail[0] == 0x2C,
    ensures
        dec(seg_bytes(g) + tail, None, cc) == (if tail.len() == 0 {
            Ok::<CacheControlV, ParseError>(seg_apply(cc, g))
        } else {
            dec(tail.skip(1), None, seg_apply(cc, g))
        }),
{
    match g {
        Seg::Num { .. } => lemma_dec_seg_num(g, tail, cc),
        Seg::List { .. } => lemma_dec_seg_list(g, tail, cc),
        Seg::Flag { .. } => lemma_dec_seg_bare(g, tail, cc),
        Seg::Ext { arg, .. } => match arg {
            Some(_) => lemma_dec_seg_ext_arg(g, tail, cc),
            None => lemma_dec_seg_bare(g, tail, cc),
        },
    }
}

/// A list of directives, joined by `", "`.
pub open spec fn render(segs: Seq<Seg>) -> Seq<u8>
    decreases segs.len(),
{
    if segs.len() == 0 {
        Seq::<u8>::empty()
    } else if segs.len() == 1 {
        seg_bytes(segs[0])
    } else {
        seg_bytes(segs[0]) + seq![0x2C, 0x20] + render(segs.skip(1))
    }
}

/// Applying a list of directives to a record, left to right.
pub open spec fn fold_segs(cc: CacheControlV, segs: Seq<Seg>) -> CacheControlV
    decreases segs.len(),
{
    if segs.len() == 0 {
        cc
    } else {
        fold_segs(seg_apply(cc, segs[0]), segs.skip(1))
    }
}

/// Decoding a rendered list of well-formed directives applies exactly
/// those directives, in order.
proof fn lemma_dec_render(segs: Seq<Seg>, cc: CacheControlV)
    requires
        forall|k: int| 0 <= k < segs.len() ==> seg_wf(#[trigger] segs[k]),
    ensures
        dec(render(segs), None, cc) == Ok::<CacheControlV, ParseError>(fold_segs(cc, segs)),
    decreases segs.len(),
{
    if segs.len() == 0 {
    } else if segs.len() == 1 {
        let g = segs[0];
        assert(seg_bytes(g) + Seq::<u8>::empty() =~= seg_bytes(g));
        lemma_dec_seg(g, Seq::<u8>::empty(), cc);
        assert(segs.skip(1).len() == 0);
        assert(fold_segs(seg_apply(cc, g), segs.skip(1)) == seg_apply(cc, g));
        assert(fold_segs(cc, segs) == seg_apply(cc, g));
    } else {
        let g = segs[0];
        let tail = seq![0x2Cu8, 0x20u8] + render(segs.skip(1));
        assert(render(segs) == seg_bytes(g) + tail);
        assert(tail[0] == 0x2C);
        lemma_dec_seg(g, tail, cc);
        let cc2 = seg_apply(cc, g);
        assert(tail.skip(1) =~= seq![0x20u8] + render(segs.skip(1)));
        assert(forall|k: int| 0 <= k < 1 ==> wsp(#[trigger] seq![0x20u8][k]));
        lemma_decode_wsp_prefix(seq![0x20u8], render(segs.skip(1)), None, cc2);
        assert(forall|k: int|
            0 <= k < segs.skip(1).len() ==> seg_wf(#[trigger] segs.skip(1)[k]));
        lemma_dec_render(segs.skip(1), cc2);
        assert(fold_segs(cc, segs) == fold_segs(cc2, segs.skip(1)));
    }
}

/// The canonical segment of a numeric slot.
pub open spec fn num_segs(name: Seq<u8>, v: Option<u64>) -> Seq<Seg> {
    match v {
        Some(x) => seq![Seg::Num { name: name, value: x }],
        None => Seq::<Seg>::empty(),
    }
}

/// The canonical segment of a field-name-list slot.
pub open spec fn list_segs(name: Seq<u8>, v: Option<Seq<Seq<u8>>>) -> Seq<Seg> {
    match v {
        Some(l) => seq![Seg::List { name: name, items: l }],
        None => Seq::<Seg>::empty(),
    }
}

/// The canonical segment of a boolean slot.
pub open spec fn flag_segs(name: Seq<u8>, b: bool) -> Seq<Seg> {
    if b {
        seq![Seg::Flag { name: name }]
    } else {
        Seq::<Seg>::empty()
    }
}

/// The segments of the stored extensions, in order.
pub open spec fn ext_segs(l: Seq<ExtensionV>) -> Seq<Seg> {
    l.map_values(|e: ExtensionV| Seg::Ext { name: e.name, arg: e.arg })
}

/// The canonical segment list of a record: the registered directives in
/// canonical order, then the extensions.
pub open spec fn segs_of(r: CacheControlV) -> Seq<Seg> {
    num_segs(kw_max_age(), r.max_age) + num_segs(kw_max_stale(), r.max_stale) + num_segs(
        kw_min_fresh(),
        r.min_fresh,
    ) + list_segs(kw_no_cache(), r.no_cache) + flag_segs(kw_no_store(), r.no_store) + flag_segs(
        kw_no_transform(),
        r.no_transform,
    ) + flag_segs(kw_only_if_cached(), r.only_if_cached) + flag_segs(
        kw_must_revalidate(),
        r.must_revalidate,
    ) + flag_segs(kw_must_understand(), r.must_understand) + flag_segs(
        kw_transform(),
        r.transform,
    ) + list_segs(kw_private(), r.private) + flag_segs(
        kw_proxy_revalidate(),
        r.proxy_revalidate,
    ) + flag_segs(kw_public(), r.public) + num_segs(kw_s_maxage(), r.s_maxage) + flag_segs(
        kw_immutable(),
        r.immutable,
    ) + num_segs(kw_stale_while_revalidate(), r.stale_while_revalidate) + num_segs(
        kw_stale_if_error(),
        r.stale_if_error,
    ) + ext_segs(r.other)
}

/// Every registered name is a non-empty token run that classifies as its
/// own directive.
proof fn lemma_kw_table()
    ensures
        classify_spec(kw_max_age()) == Some(Directive::MaxAge),
        classify_spec(kw_max_stale()) == Some(Directive::MaxStale),
        classify_spec(kw_min_fresh()) == Some(Directive::MinFresh),
        classify_spec(kw_no_cache()) == Some(Directive::NoCache),
        classify_spec(kw_no_store()) == Some(Directive::NoStore),
        classify_spec(kw_no_transform()) == Some(Directive::NoTransform),
        classify_spec(kw_only_if_cached()) == Some(Directive::OnlyIfCached),
        classify_spec(kw_must_revalidate()) == Some(Directive::MustRevalidate),
        classify_spec(kw_must_understand()) == Some(Directive::MustUnderstand),
        classify_spec(kw_transform()) == Some(Directive::Transform),
        classify_spec(kw_private()) == Some(Directive::Private),
        classify_spec(kw_proxy_revalidate()) == Some(Directive::ProxyRevalidate),
        classify_spec(kw_public()) == Some(Directive::Public),
        classify_spec(kw_s_maxage()) == Some(Directive::SMaxage),
        classify_spec(kw_immutable()) == Some(Directive::Immutable),
        classify_spec(kw_stale_while_revalidate()) == Some(Directive::StaleWhileRevalidate),
        classify_spec(kw_stale_if_error()) == Some(Directive::StaleIfError),
        kw_max_age().len() >= 1,
        kw_max_stale().len() >= 1,
        kw_min_fresh().len() >= 1,
        kw_no_cache().len() >= 1,
        kw_no_store().len() >= 1,
        kw_no_transform().len() >= 1,
        kw_only_if_cached().len() >= 1,
        kw_must_revalidate().len() >= 1,
        kw_must_understand().len() >= 1,
        kw_transform().len() >= 1,
        kw_private().len() >= 1,
        kw_proxy_revalidate().len() >= 1,
        kw_public().len() >= 1,
        kw_s_maxage().len() >= 1,
        kw_immutable().len() >= 1,
        kw_stale_while_revalidate().len() >= 1,
        kw_stale_if_error().len() >= 1,
        all_tchar(kw_max_age()),
        all_tchar(kw_max_stale()),
        all_tchar(kw_min_fresh()),
        all_tchar(kw_no_cache()),
        all_tchar(kw_no_store()),
        all_tchar(kw_no_transform()),
        all_tchar(kw_only_if_cached()),
        all_tchar(kw_must_revalidate()),
        all_tchar(kw_must_understand()),
        all_tchar(kw_transform()),
        all_tchar(kw_private()),
        all_tchar(kw_proxy_revalidate()),
        all_tchar(kw_public()),
        all_tchar(kw_s_maxage()),
        all_tchar(kw_immutable()),
        all_tchar(kw_stale_while_revalidate()),
        all_tchar(kw_stale_if_error()),
{
    assert(all_tchar(kw_max_age())) by {
        assert forall|k: int| 0 <= k < kw_max_age().len() implies tchar(#[trigger] kw_max_age()[k]) by {
        }
    }
    assert(all_tchar(kw_max_stale())) by {
        assert forall|k: int| 0 <= k < kw_max_stale().len() implies tchar(#[trigger] kw_max_stale()[k]) by {
        }
    }
    assert(all_tchar(kw_min_fresh())) by {
        assert forall|k: int| 0 <= k < kw_min_fresh().len() implies tchar(#[trigger] kw_min_fresh()[k]) by {
        }
    }
    assert(all_tchar(kw_no_cache())) by {
        assert forall|k: int| 0 <= k < kw_no_cache().len() implies tchar(#[trigger] kw_no_cache()[k]) by {
        }
    }
    assert(all_tchar(kw_no_store())) by {
        assert forall|k: int| 0 <= k < kw_no_store().len() implies tchar(#[trigger] kw_no_store()[k]) by {
        }
    }
    assert(all_tchar(kw_no_transform())) by {
        assert forall|k: int| 0 <= k < kw_no_transform().len() implies tchar(#[trigger] kw_no_transform()[k]) by {
        }
    }
    assert(all_tchar(kw_only_if_cached())) by {
        assert forall|k: int| 0 <= k < kw_only_if_cached().len() implies tchar(#[trigger] kw_only_if_cached()[k]) by {
        }
    }
    assert(all_tchar(kw_must_revalidate())) by {
        assert forall|k: int| 0 <= k < kw_must_revalidate().len() implies tchar(#[trigger] kw_must_revalidate()[k]) by {
        }
    }
    assert(all_tchar(kw_must_understand())) by {
        assert forall|k: int| 0 <= k < kw_must_understand().len() implies tchar(#[trigger] kw_must_understand()[k]) by {
        }
    }
    assert(all_tchar(kw_transform())) by {
        assert forall|k: int| 0 <= k < kw_transform().len() implies tchar(#[trigger] kw_transform()[k]) by {
        }
    }
    assert(all_tchar(kw_private())) by {
        assert forall|k: int| 0 <= k < kw_private().len() implies tchar(#[trigger] kw_private()[k]) by {
        }
    }
    assert(all_tchar(kw_proxy_revalidate())) by {
        assert forall|k: int| 0 <= k < kw_proxy_revalidate().len() implies tchar(#[trigger] kw_proxy_revalidate()[k]) by {
        }
    }
    assert(all_tchar(kw_public())) by {
        assert forall|k: int| 0 <= k < kw_public().len() implies tchar(#[trigger] kw_public()[k]) by {
        }
    }
    assert(all_tchar(kw_s_maxage())) by {
        assert forall|k: int| 0 <= k < kw_s_maxage().len() implies tchar(#[trigger] kw_s_maxage()[k]) by {
        }
    }
    assert(all_tchar(kw_immutable())) by {
        assert forall|k: int| 0 <= k < kw_immutable().len() implies tchar(#[trigger] kw_immutable()[k]) by {
        }
    }
    assert(all_tchar(kw_stale_while_revalidate())) by {
        assert forall|k: int| 0 <= k < kw_stale_while_revalidate().len() implies tchar(#[trigger] kw_stale_while_revalidate()[k]) by {
        }
    }
    assert(all_tchar(kw_stale_if_error())) by {
        assert forall|k: int| 0 <= k < kw_stale_if_error().len() implies tchar(#[trigger] kw_stale_if_error()[k]) by {
        }
    }
}

/// A well-formed directive renders to at least one byte.
proof fn lemma_seg_bytes_nonempty(g: Seg)
    requires
        seg_wf(g),
    ensures
        seg_bytes(g).len() >= 1,
{
}

/// A non-empty list of well-formed directives renders to at least one byte.
proof fn lemma_render_nonempty(segs: Seq<Seg>)
    requires
        forall|k: int| 0 <= k < segs.len() ==> seg_wf(#[trigger] segs[k]),
        segs.len() >= 1,
    ensures
        render(segs).len() >= 1,
{
    lemma_seg_bytes_nonempty(segs[0]);
}

/// Rendering one more directive appends a separator — when something came
/// before — and the directive's bytes.
proof fn lemma_render_snoc(p: Seq<Seg>, g: Seg)
    ensures
        render(p + seq![g]) == (if p.len() == 0 {
            seg_bytes(g)
        } else {
            render(p) + seq![0x2C, 0x20] + seg_bytes(g)
        }),
    decreases p.len(),
{
    let u = p + seq![g];
    if p.len() == 0 {
        assert(u =~= seq![g]);
        assert(render(u) == seg_bytes(u[0]));
    } else if p.len() == 1 {
        assert(u.len() == 2);
        assert(u[0] == p[0]);
        assert(u.skip(1) =~= seq![g]);
        assert(render(u.skip(1)) == seg_bytes(g));
    } else {
        assert(u[0] == p[0]);
        assert(u.skip(1) =~= p.skip(1) + seq![g]);
        lemma_render_snoc(p.skip(1), g);
        assert(p.skip(1).len() >= 1);
        assert(render(u) == seg_bytes(p[0]) + seq![0x2Cu8, 0x20u8] + (render(p.skip(1)) + seq![
            0x2Cu8,
            0x20u8,
        ] + seg_bytes(g)));
        assert(seg_bytes(p[0]) + seq![0x2Cu8, 0x20u8] + (render(p.skip(1)) + seq![0x2Cu8, 0x20u8]
            + seg_bytes(g)) =~= (seg_bytes(p[0]) + seq![0x2Cu8, 0x20u8] + render(p.skip(1)))
            + seq![0x2Cu8, 0x20u8] + seg_bytes(g));
    }
}

/// The accumulator step for one optional directive: what the encoder
/// appends is what the directive renders to.
proof fn lemma_acc_step(acc: Seq<u8>, p: Seq<Seg>, g: Seg, piece: Seq<u8>)
    requires
        acc == render(p),
        forall|k: int| 0 <= k < p.len() ==> seg_wf(#[trigger] p[k]),
        seg_wf(g),
        piece == seg_bytes(g),
    ensures
        acc + sep(acc) + piece == render(p + seq![g]),
        forall|k: int| 0 <= k < (p + seq![g]).len() ==> seg_wf(#[trigger] (p + seq![g])[k]),
{
    lemma_render_snoc(p, g);
    if p.len() == 0 {
        assert(acc.len() == 0);
        assert(acc + sep(acc) + piece =~= piece);
    } else {
        lemma_render_nonempty(p);
        assert(acc.len() >= 1);
        assert(acc + sep(acc) + piece =~= acc + seq![0x2Cu8, 0x20u8] + piece);
    }
    assert(forall|k: int| 0 <= k < p.len() ==> (p + seq![g])[k] == p[k]);
    assert((p + seq![g])[p.len() as int] == g);
}

/// The encoder's numeric helper renders the numeric slot's segments.
proof fn lemma_enc_u64_step(acc: Seq<u8>, p: Seq<Seg>, name: Seq<u8>, v: Option<u64>)
    requires
        acc == render(p),
        forall|k: int| 0 <= k < p.len() ==> seg_wf(#[trigger] p[k]),
        name.len() >= 1,
        all_tchar(name),
        classify_spec(name) matches Some(d) && is_delta_directive(d),
    ensures
        enc_u64(acc, name, v) == render(p + num_segs(name, v)),
        forall|k: int|
            0 <= k < (p + num_segs(name, v)).len() ==> seg_wf(
                #[trigger] (p + num_segs(name, v))[k],
            ),
{
    match v {
        Some(x) => {
            let g = Seg::Num { name: name, value: x };
            lemma_acc_step(acc, p, g, seg_bytes(g));
            assert(enc_u64(acc, name, v) == acc + sep(acc) + name + seq![0x3Du8] + dec_digits(
                x as nat,
            ));
            assert(acc + sep(acc) + (name + seq![0x3Du8] + dec_digits(x as nat)) =~= acc + sep(
                acc,
            ) + name + seq![0x3Du8] + dec_digits(x as nat));
            assert(num_segs(name, v) =~= seq![g]);
        },
        None => {
            assert(p + num_segs(name, v) =~= p);
        },
    }
}

/// The encoder's boolean helper renders the flag's segments.
proof fn lemma_enc_bool_step(acc: Seq<u8>, p: Seq<Seg>, name: Seq<u8>, b: bool)
    requires
        acc == render(p),
        forall|k: int| 0 <= k < p.len() ==> seg_wf(#[trigger] p[k]),
        name.len() >= 1,
        all_tchar(name),
        classify_spec(name) matches Some(d) && !is_delta_directive(d) && !is_list_directive(d),
    ensures
        enc_bool(acc, name, b) == render(p + flag_segs(name, b)),
        forall|k: int|
            0 <= k < (p + flag_segs(name, b)).len() ==> seg_wf(
                #[trigger] (p + flag_segs(name, b))[k],
            ),
{
    if b {
        let g = Seg::Flag { name: name };
        lemma_acc_step(acc, p, g, seg_bytes(g));
        assert(flag_segs(name, b) =~= seq![g]);
    } else {
        assert(p + flag_segs(name, b) =~= p);
    }
}

/// The encoder's list helper renders the list slot's segments, for the
/// slots a decode can leave behind: absent, or present and non-empty.
proof fn lemma_enc_list_step(acc: Seq<u8>, p: Seq<Seg>, name: Seq<u8>, v: Option<Seq<Seq<u8>>>)
    requires
        acc == render(p),
        forall|k: int| 0 <= k < p.len() ==> seg_wf(#[trigger] p[k]),
        name.len() >= 1,
        all_tchar(name),
        classify_spec(name) matches Some(d) && is_list_directive(d),
        v matches Some(l) ==> l.len() >= 1 && wf_names(l),
    ensures
        enc_list(acc, name, v) == render(p + list_segs(name, v)),
        forall|k: int|
            0 <= k < (p + list_segs(name, v)).len() ==> seg_wf(
                #[trigger] (p + list_segs(name, v))[k],
            ),
{
    match v {
        Some(l) => {
            let g = Seg::List { name: name, items: l };
            lemma_acc_step(acc, p, g, seg_bytes(g));
            assert(enc_list(acc, name, v) == acc + sep(acc) + name + seq![0x3Du8, 0x22u8]
                + join_comma(l) + seq![0x22u8]);
            assert(acc + sep(acc) + (name + seq![0x3Du8, 0x22u8] + join_comma(l) + seq![0x22u8])
                =~= acc + sep(acc) + name + seq![0x3Du8, 0x22u8] + join_comma(l) + seq![0x22u8]);
            assert(list_segs(name, v) =~= seq![g]);
        },
        None => {
            assert(p + list_segs(name, v) =~= p);
        },
    }
}

/// The encoder's extension loop renders the extensions' segments.
proof fn lemma_enc_exts_step(acc: Seq<u8>, p: Seq<Seg>, l: Seq<ExtensionV>)
    requires
        acc == render(p),
        forall|k: int| 0 <= k < p.len() ==> seg_wf(#[trigger] p[k]),
        forall|k: int| 0 <= k < l.len() ==> wf_ext(#[trigger] l[k]),
    ensures
        enc_exts(acc, l) == render(p + ext_segs(l)),
        forall|k: int|
            0 <= k < (p + ext_segs(l)).len() ==> seg_wf(#[trigger] (p + ext_segs(l))[k]),
    decreases l.len(),
{
    if l.len() == 0 {
        assert(ext_segs(l) =~= Seq::<Seg>::empty());
        assert(p + ext_segs(l) =~= p);
    } else {
        let e = l[0];
        let g = Seg::Ext { name: e.name, arg: e.arg };
        assert(seg_wf(g));
        lemma_acc_step(acc, p, g, seg_bytes(g));
        let acc2 = enc_ext_one(acc, e);
        assert(acc2 == acc + sep(acc) + seg_bytes(g)) by {
            match e.arg {
                Some(raw) => {
                    assert(acc + sep(acc) + (e.name + seq![0x3Du8] + raw) =~= acc + sep(acc)
                        + e.name + seq![0x3Du8] + raw);
                },
                None => {},
            }
        }
        assert(forall|k: int| 0 <= k < l.skip(1).len() ==> #[trigger] l.skip(1)[k] == l[k + 1]);
        lemma_enc_exts_step(acc2, p + seq![g], l.skip(1));
        assert((p + seq![g]) + ext_segs(l.skip(1)) =~= p + ext_segs(l)) by {
            assert(ext_segs(l).len() == l.len());
            assert(forall|k: int| 0 <= k < l.len() ==> #[trigger] ext_segs(l)[k] == (Seg::Ext {
                name: l[k].name,
                arg: l[k].arg,
            }));
            assert(forall|k: int|
                0 <= k < l.skip(1).len() ==> #[trigger] ext_segs(l.skip(1))[k] == (Seg::Ext {
                    name: l.skip(1)[k].name,
                    arg: l.skip(1)[k].arg,
                }));
        }
    }
}

/// The canonical encoding of a record the decoder can produce is the
/// rendering of its canonical segment list, and every segment of that list
/// is well formed.
proof fn lemma_enc_is_render(r: CacheControlV)
    requires
        wf_record(r),
    ensures
        enc(r) == render(segs_of(r)),
        forall|k: int| 0 <= k < segs_of(r).len() ==> seg_wf(#[trigger] segs_of(r)[k]),
{
    lemma_kw_table();
    let p0 = Seq::<Seg>::empty();
    assert(render(p0) == Seq::<u8>::empty());
    let a1 = enc_u64(Seq::<u8>::empty(), kw_max_age(), r.max_age);
    let p1 = p0 + num_segs(kw_max_age(), r.max_age);
    lemma_enc_u64_step(Seq::<u8>::empty(), p0, kw_max_age(), r.max_age);
    let a2 = enc_u64(a1, kw_max_stale(), r.max_stale);
    let p2 = p1 + num_segs(kw_max_stale(), r.max_stale);
    lemma_enc_u64_step(a1, p1, kw_max_stale(), r.max_stale);
    let a3 = enc_u64(a2, kw_min_fresh(), r.min_fresh);
    let p3 = p2 + num_segs(kw_min_fresh(), r.min_fresh);
    lemma_enc_u64_step(a2, p2, kw_min_fresh(), r.min_fresh);
    let a4 = enc_list(a3, kw_no_cache(), r.no_cache);
    let p4 = p3 + list_segs(kw_no_cache(), r.no_cache);
    lemma_enc_list_step(a3, p3, kw_no_cache(), r.no_cache);
    let a5 = enc_bool(a4, kw_no_store(), r.no_store);
    let p5 = p4 + flag_segs(kw_no_store(), r.no_store);
    lemma_enc_bool_step(a4, p4, kw_no_store(), r.no_store);
    let a6 = enc_bool(a5, kw_no_transform(), r.no_transform);
    let p6 = p5 + flag_segs(kw_no_transform(), r.no_transform);
    lemma_enc_bool_step(a5, p5, kw_no_transform(), r.no_transform);
    let a7 = enc_bool(a6, kw_only_if_cached(), r.only_if_cached);
    let p7 = p6 + flag_segs(kw_only_if_cached(), r.only_if_cached);
    lemma_enc_bool_step(a6, p6, kw_only_if_cached(), r.only_if_cached);
    let a8 = enc_bool(a7, kw_must_revalidate(), r.must_revalidate);
    let p8 = p7 + flag_segs(kw_must_revalidate(), r.must_revalidate);
    lemma_enc_bool_step(a7, p7, kw_must_revalidate(), r.must_revalidate);
    let a9 = enc_bool(a8, kw_must_understand(), r.must_understand);
    let p9 = p8 + flag_segs(kw_must_understand(), r.must_understand);
    lemma_enc_bool_step(a8, p8, kw_must_understand(), r.must_understand);
    let a10 = enc_bool(a9, kw_transform(), r.transform);
    let p10 = p9 + flag_segs(kw_transform(), r.transform);
    lemma_enc_bool_step(a9, p9, kw_transform(), r.transform);
    let a11 = enc_list(a10, kw_private(), r.private);
    let p11 = p10 + list_segs(kw_private(), r.private);
    lemma_enc_list_step(a10, p10, kw_private(), r.private);
    let a12 = enc_bool(a11, kw_proxy_revalidate(), r.proxy_revalidate);
    let p12 = p11 + flag_segs(kw_proxy_revalidate(), r.proxy_revalidate);
    lemma_enc_bool_step(a11, p11, kw_proxy_revalidate(), r.proxy_revalidate);
    let a13 = enc_bool(a12, kw_public(), r.public);
    let p13 = p12 + flag_segs(kw_public(), r.public);
    lemma_enc_bool_step(a12, p12, kw_public(), r.public);
    let a14 = enc_u64(a13, kw_s_maxage(), r.s_maxage);
    let p14 = p13 + num_segs(kw_s_maxage(), r.s_maxage);
    lemma_enc_u64_step(a13, p13, kw_s_maxage(), r.s_maxage);
    let a15 = enc_bool(a14, kw_immutable(), r.immutable);
    let p15 = p14 + flag_segs(kw_immutable(), r.immutable);
    lemma_enc_bool_step(a14, p14, kw_immutable(), r.immutable);
    let a16 = enc_u64(a15, kw_stale_while_revalidate(), r.stale_while_revalidate);
    let p16 = p15 + num_segs(kw_stale_while_revalidate(), r.stale_while_revalidate);
    lemma_enc_u64_step(a15, p15, kw_stale_while_revalidate(), r.stale_while_revalidate);
    let a17 = enc_u64(a16, kw_stale_if_error(), r.stale_if_error);
    let p17 = p16 + num_segs(kw_stale_if_error(), r.stale_if_error);
    lemma_enc_u64_step(a16, p16, kw_stale_if_error(), r.stale_if_error);
    lemma_enc_exts_step(a17, p17, r.other);
    assert(p17 + ext_segs(r.other) =~= segs_of(r)) by {
        assert(p0 + num_segs(kw_max_age(), r.max_age) =~= num_segs(kw_max_age(), r.max_age));
    }
    assert(enc(r) == enc_exts(a17, r.other));
}

/// Folding a concatenation folds each part in turn.
proof fn lemma_fold_append(cc: CacheControlV, s1: Seq<Seg>, s2: Seq<Seg>)
    ensures
        fold_segs(cc, s1 + s2) == fold_segs(fold_segs(cc, s1), s2),
    decreases s1.len(),
{
    if s1.len() == 0 {
        assert(s1 + s2 =~= s2);
    } else {
        assert((s1 + s2)[0] == s1[0]);
        assert((s1 + s2).skip(1) =~= s1.skip(1) + s2);
        lemma_fold_append(seg_apply(cc, s1[0]), s1.skip(1), s2);
    }
}

/// Folding one directive applies it.
proof fn lemma_fold_one(cc: CacheControlV, g: Seg)
    ensures
        fold_segs(cc, seq![g]) == seg_apply(cc, g),
{
    assert(seq![g].skip(1).len() == 0);
    assert(fold_segs(seg_apply(cc, g), seq![g].skip(1)) == seg_apply(cc, g));
}

/// Folding the extensions' segments appends them to the record.
proof fn lemma_fold_exts(cc: CacheControlV, l: Seq<ExtensionV>)
    ensures
        fold_segs(cc, ext_segs(l)) == (CacheControlV { other: cc.other + l, ..cc }),
    decreases l.len(),
{
    if l.len() == 0 {
        assert(ext_segs(l) =~= Seq::<Seg>::empty());
        assert(cc.other + l =~= cc.other);
    } else {
        let e = l[0];
        assert(ext_segs(l)[0] == (Seg::Ext { name: e.name, arg: e.arg }));
        assert((ExtensionV { name: e.name, arg: e.arg }) == e);
        let cc2 = seg_apply(cc, ext_segs(l)[0]);
        assert(cc2.other == cc.other.push(e));
        assert(ext_segs(l).skip(1) =~= ext_segs(l.skip(1))) by {
            assert(forall|k: int|
                0 <= k < l.skip(1).len() ==> #[trigger] l.skip(1)[k] == l[k + 1]);
        }
        lemma_fold_exts(cc2, l.skip(1));
        assert(cc.other.push(e) + l.skip(1) =~= cc.other + l);
    }
}

/// The canonical segments before `transform`, in order.
pub open spec fn front_segs(r: CacheControlV) -> Seq<Seg> {
    num_segs(kw_max_age(), r.max_age) + num_segs(kw_max_stale(), r.max_stale) + num_segs(
        kw_min_fresh(),
        r.min_fresh,
    ) + list_segs(kw_no_cache(), r.no_cache) + flag_segs(kw_no_store(), r.no_store) + flag_segs(
        kw_no_transform(),
        r.no_transform,
    ) + flag_segs(kw_only_if_cached(), r.only_if_cached) + flag_segs(
        kw_must_revalidate(),
        r.must_revalidate,
    ) + flag_segs(kw_must_understand(), r.must_understand)
}

/// The canonical segments from `transform` through `public`.
pub open spec fn back_a_segs(r: CacheControlV) -> Seq<Seg> {
    flag_segs(kw_transform(), r.transform) + list_segs(kw_private(), r.private) + flag_segs(
        kw_proxy_revalidate(),
        r.proxy_revalidate,
    ) + flag_segs(kw_public(), r.public)
}

/// The canonical segments from `s-maxage` through `stale-if-error`.
pub open spec fn back_b_segs(r: CacheControlV) -> Seq<Seg> {
    num_segs(kw_s_maxage(), r.s_maxage) + flag_segs(kw_immutable(), r.immutable) + num_segs(
        kw_stale_while_revalidate(),
        r.stale_while_revalidate,
    ) + num_segs(kw_stale_if_error(), r.stale_if_error)
}

/// Concatenation of segment lists is associative.
proof fn lemma_seg_assoc(a: Seq<Seg>, b: Seq<Seg>, c: Seq<Seg>)
    ensures
        (a + b) + c == a + (b + c),
{
    assert((a + b) + c =~= a + (b + c));
}

/// Folding the front segments over the empty record copies those slots.
#[verifier::rlimit(100)]
proof fn lemma_fold_front(r: CacheControlV)
    requires
        wf_record(r),
    ensures
        fold_segs(empty_record(), front_segs(r)) == (CacheControlV {
            max_age: r.max_age,
            max_stale: r.max_stale,
            min_fresh: r.min_fresh,
            no_cache: r.no_cache,
            no_store: r.no_store,
            no_transform: r.no_transform,
            only_if_cached: r.only_if_cached,
            must_revalidate: r.must_revalidate,
            must_understand: r.must_understand,
            ..empty_record()
        }),
{
    lemma_kw_table();
    let cc0 = empty_record();
    let n1 = num_segs(kw_max_age(), r.max_age);
    let p1 = n1;
    let n2 = num_segs(kw_max_stale(), r.max_stale);
    let p2 = p1 + n2;
    let n3 = num_segs(kw_min_fresh(), r.min_fresh);
    let p3 = p2 + n3;
    let n4 = list_segs(kw_no_cache(), r.no_cache);
    let p4 = p3 + n4;
    let n5 = flag_segs(kw_no_store(), r.no_store);
    let p5 = p4 + n5;
    let n6 = flag_segs(kw_no_transform(), r.no_transform);
    let p6 = p5 + n6;
    let n7 = flag_segs(kw_only_if_cached(), r.only_if_cached);
    let p7 = p6 + n7;
    let n8 = flag_segs(kw_must_revalidate(), r.must_revalidate);
    let p8 = p7 + n8;
    let n9 = flag_segs(kw_must_understand(), r.must_understand);
    let p9 = p8 + n9;
    let m1 = fold_segs(cc0, p1);
    assert(m1 == (CacheControlV { max_age: r.max_age, ..cc0 })) by {
        match r.max_age {
            Some(x) => {
                lemma_fold_one(cc0, Seg::Num { name: kw_max_age(), value: x });
                lemma_parse_encode_decimal(x as nat, true, u64::MAX as int);
                assert(n1 =~= seq![Seg::Num { name: kw_max_age(), value: x }]);
            },
            None => {
                assert(n1 =~= Seq::<Seg>::empty());
            },
        }
    }
    let m2 = fold_segs(cc0, p2);
    lemma_fold_append(cc0, p1, n2);
    assert(m2 == (CacheControlV { max_stale: r.max_stale, ..m1 })) by {
        match r.max_stale {
            Some(x) => {
                lemma_fold_one(m1, Seg::Num { name: kw_max_stale(), value: x });
                lemma_parse_encode_decimal(x as nat, true, u64::MAX as int);
                assert(n2 =~= seq![Seg::Num { name: kw_max_stale(), value: x }]);
            },
            None => {
                assert(n2 =~= Seq::<Seg>::empty());
            },
        }
    }
    let m3 = fold_segs(cc0, p3);
    lemma_fold_append(cc0, p2, n3);
    assert(m3 == (CacheControlV { min_fresh: r.min_fresh, ..m2 })) by {
        match r.min_fresh {
            Some(x) => {
                lemma_fold_one(m2, Seg::Num { name: kw_min_fresh(), value: x });
                lemma_parse_encode_decimal(x as nat, true, u64::MAX as int);
                assert(n3 =~= seq![Seg::Num { name: kw_min_fresh(), value: x }]);
            },
            None => {
                assert(n3 =~= Seq::<Seg>::empty());
            },
        }
    }
    let m4 = fold_segs(cc0, p4);
    lemma_fold_append(cc0, p3, n4);
    assert(m4 == (CacheControlV { no_cache: r.no_cache, ..m3 })) by {
        match r.no_cache {
            Some(items) => {
                lemma_fold_one(m3, Seg::List { name: kw_no_cache(), items: items });
                lemma_hlist_join(items);
                assert(n4 =~= seq![Seg::List { name: kw_no_cache(), items: items }]);
            },
            None => {
                assert(n4 =~= Seq::<Seg>::empty());
            },
        }
    }
    let m5 = fold_segs(cc0, p5);
    lemma_fold_append(cc0, p4, n5);
    assert(m5 == (CacheControlV { no_store: m4.no_store || r.no_store, ..m4 })) by {
        if r.no_store {
            lemma_fold_one(m4, Seg::Flag { name: kw_no_store() });
            assert(n5 =~= seq![Seg::Flag { name: kw_no_store() }]);
        } else {
            assert(n5 =~= Seq::<Seg>::empty());
        }
    }
    let m6 = fold_segs(cc0, p6);
    lemma_fold_append(cc0, p5, n6);
    assert(m6 == (CacheControlV { no_transform: m5.no_transform || r.no_transform, ..m5 })) by {
        if r.no_transform {
            lemma_fold_one(m5, Seg::Flag { name: kw_no_transform() });
            assert(n6 =~= seq![Seg::Flag { name: kw_no_transform() }]);
        } else {
            assert(n6 =~= Seq::<Seg>::empty());
        }
    }
    let m7 = fold_segs(cc0, p7);
    lemma_fold_append(cc0, p6, n7);
    assert(m7 == (CacheControlV { only_if_cached: m6.only_if_cached || r.only_if_cached, ..m6 })) by {
        if r.only_if_cached {
            lemma_fold_one(m6, Seg::Flag { name: kw_only_if_cached() });
            assert(n7 =~= seq![Seg::Flag { name: kw_only_if_cached() }]);
        } else {
            assert(n7 =~= Seq::<Seg>::empty());
        }
    }
    let m8 = fold_segs(cc0, p8);
    lemma_fold_append(cc0, p7, n8);
    assert(m8 == (CacheControlV { must_revalidate: m7.must_revalidate || r.must_revalidate, ..m7 })) by {
        if r.must_revalidate {
            lemma_fold_one(m7, Seg::Flag { name: kw_must_revalidate() });
            assert(n8 =~= seq![Seg::Flag { name: kw_must_revalidate() }]);
        } else {
            assert(n8 =~= Seq::<Seg>::empty());
        }
    }
    let m9 = fold_segs(cc0, p9);
    lemma_fold_append(cc0, p8, n9);
    assert(m9 == (CacheControlV { must_understand: m8.must_understand || r.must_understand, ..m8 })) by {
        if r.must_understand {
            lemma_fold_one(m8, Seg::Flag { name: kw_must_understand() });
            assert(n9 =~= seq![Seg::Flag { name: kw_must_understand() }]);
        } else {
            assert(n9 =~= Seq::<Seg>::empty());
        }
    }
    assert(p9 =~= front_segs(r));
}

/// Folding the segments from `transform` through `public` copies those
/// slots and keeps the rest.
#[verifier::rlimit(100)]
proof fn lemma_fold_back_a(r: CacheControlV, cc0: CacheControlV)
    requires
        wf_record(r),
        cc0.transform == false,
        cc0.private == None::<Seq<Seq<u8>>>,
        cc0.proxy_revalidate == false,
        cc0.public == false,
    ensures
        fold_segs(cc0, back_a_segs(r)) == (CacheControlV {
            transform: r.transform,
            private: r.private,
            proxy_revalidate: r.proxy_revalidate,
            public: r.public,
            ..cc0
        }),
{
    lemma_kw_table();
    let n1 = flag_segs(kw_transform(), r.transform);
    let p1 = n1;
    let n2 = list_segs(kw_private(), r.private);
    let p2 = p1 + n2;
    let n3 = flag_segs(kw_proxy_revalidate(), r.proxy_revalidate);
    let p3 = p2 + n3;
    let n4 = flag_segs(kw_public(), r.public);
    let p4 = p3 + n4;
    let m1 = fold_segs(cc0, p1);
    assert(m1 == (CacheControlV { transform: cc0.transform || r.transform, ..cc0 })) by {
        if r.transform {
            lemma_fold_one(cc0, Seg::Flag { name: kw_transform() });
            assert(n1 =~= seq![Seg::Flag { name: kw_transform() }]);
        } else {
            assert(n1 =~= Seq::<Seg>::empty());
        }
    }
    let m2 = fold_segs(cc0, p2);
    lemma_fold_append(cc0, p1, n2);
    assert(m2 == (CacheControlV { private: r.private, ..m1 })) by {
        match r.private {
            Some(items) => {
                lemma_fold_one(m1, Seg::List { name: kw_private(), items: items });
                lemma_hlist_join(items);
                assert(n2 =~= seq![Seg::List { name: kw_private(), items: items }]);
            },
            None => {
                assert(n2 =~= Seq::<Seg>::empty());
            },
        }
    }
    let m3 = fold_segs(cc0, p3);
    lemma_fold_append(cc0, p2, n3);
    assert(m3 == (CacheControlV { proxy_revalidate: m2.proxy_revalidate || r.proxy_revalidate, ..m2 })) by {
        if r.proxy_revalidate {
            lemma_fold_one(m2, Seg::Flag { name: kw_proxy_revalidate() });
            assert(n3 =~= seq![Seg::Flag { name: kw_proxy_revalidate() }]);
        } else {
            assert(n3 =~= Seq::<Seg>::empty());
        }
    }
    let m4 = fold_segs(cc0, p4);
    lemma_fold_append(cc0, p3, n4);
    assert(m4 == (CacheControlV { public: m3.public || r.public, ..m3 })) by {
        if r.public {
            lemma_fold_one(m3, Seg::Flag { name: kw_public() });
            assert(n4 =~= seq![Seg::Flag { name: kw_public() }]);
        } else {
            assert(n4 =~= Seq::<Seg>::empty());
        }
    }
    assert(p4 =~= back_a_segs(r));
}

/// Folding the segments from `s-maxage` through `stale-if-error` copies
/// those slots and keeps the rest.
#[verifier::rlimit(100)]
proof fn lemma_fold_back_b(r: CacheControlV, cc0: CacheControlV)
    requires
        wf_record(r),
        cc0.s_maxage == None::<u64>,
        cc0.immutable == false,
        cc0.stale_while_revalidate == None::<u64>,
        cc0.stale_if_error == None::<u64>,
    ensures
        fold_segs(cc0, back_b_segs(r)) == (CacheControlV {
            s_maxage: r.s_maxage,
            immutable: r.immutable,
            stale_while_revalidate: r.stale_while_revalidate,
            stale_if_error: r.stale_if_error,
            ..cc0
        }),
{
    lemma_kw_table();
    let n1 = num_segs(kw_s_maxage(), r.s_maxage);
    let p1 = n1;
    let n2 = flag_segs(kw_immutable(), r.immutable);
    let p2 = p1 + n2;
    let n3 = num_segs(kw_stale_while_revalidate(), r.stale_while_revalidate);
    let p3 = p2 + n3;
    let n4 = num_segs(kw_stale_if_error(), r.stale_if_error);
    let p4 = p3 + n4;
    let m1 = fold_segs(cc0, p1);
    assert(m1 == (CacheControlV { s_maxage: r.s_maxage, ..cc0 })) by {
        match r.s_maxage {
            Some(x) => {
                lemma_fold_one(cc0, Seg::Num { name: kw_s_maxage(), value: x });
                lemma_parse_encode_decimal(x as nat, true, u64::MAX as int);
                assert(n1 =~= seq![Seg::Num { name: kw_s_maxage(), value: x }]);
            },
            None => {
                assert(n1 =~= Seq::<Seg>::empty());
            },
        }
    }
    let m2 = fold_segs(cc0, p2);
    lemma_fold_append(cc0, p1, n2);
    assert(m2 == (CacheControlV { immutable: m1.immutable || r.immutable, ..m1 })) by {
        if r.immutable {
            lemma_fold_one(m1, Seg::Flag { name: kw_immutable() });
            assert(n2 =~= seq![Seg::Flag { name: kw_immutable() }]);
        } else {
            assert(n2 =~= Seq::<Seg>::empty());
        }
    }
    let m3 = fold_segs(cc0, p3);
    lemma_fold_append(cc0, p2, n3);
    assert(m3 == (CacheControlV { stale_while_revalidate: r.stale_while_revalidate, ..m2 })) by {
        match r.stale_while_revalidate {
            Some(x) => {
                lemma_fold_one(m2, Seg::Num { name: kw_stale_while_revalidate(), value: x });
                lemma_parse_encode_decimal(x as nat, true, u64::MAX as int);
                assert(n3 =~= seq![Seg::Num { name: kw_stale_while_revalidate(), value: x }]);
            },
            None => {
                assert(n3 =~= Seq::<Seg>::empty());
            },
        }
    }
    let m4 = fold_segs(cc0, p4);
    lemma_fold_append(cc0, p3, n4);
    assert(m4 == (CacheControlV { stale_if_error: r.stale_if_error, ..m3 })) by {
        match r.stale_if_error {
            Some(x) => {
                lemma_fold_one(m3, Seg::Num { name: kw_stale_if_error(), value: x });
                lemma_parse_encode_decimal(x as nat, true, u64::MAX as int);
                assert(n4 =~= seq![Seg::Num { name: kw_stale_if_error(), value: x }]);
            },
            None => {
                assert(n4 =~= Seq::<Seg>::empty());
            },
        }
    }
    assert(p4 =~= back_b_segs(r));
}

/// The canonical segment list, reshaped into its four stretches.
#[verifier::rlimit(100)]
proof fn lemma_segs_of_shape(r: CacheControlV)
    ensures
        segs_of(r) == ((front_segs(r) + back_a_segs(r)) + back_b_segs(r)) + ext_segs(r.other),
{
    let fr = front_segs(r);
    let n10 = flag_segs(kw_transform(), r.transform);
    let n11 = list_segs(kw_private(), r.private);
    let n12 = flag_segs(kw_proxy_revalidate(), r.proxy_revalidate);
    let n13 = flag_segs(kw_public(), r.public);
    let n14 = num_segs(kw_s_maxage(), r.s_maxage);
    let n15 = flag_segs(kw_immutable(), r.immutable);
    let n16 = num_segs(kw_stale_while_revalidate(), r.stale_while_revalidate);
    let n17 = num_segs(kw_stale_if_error(), r.stale_if_error);
    lemma_seg_assoc(fr, n10, n11);
    lemma_seg_assoc(fr, n10 + n11, n12);
    lemma_seg_assoc(fr, (n10 + n11) + n12, n13);
    assert((((fr + n10) + n11) + n12) + n13 == fr + back_a_segs(r));
    let fa = fr + back_a_segs(r);
    lemma_seg_assoc(fa, n14, n15);
    lemma_seg_assoc(fa, n14 + n15, n16);
    lemma_seg_assoc(fa, (n14 + n15) + n16, n17);
    assert((((fa + n14) + n15) + n16) + n17 == fa + back_b_segs(r));
    lemma_seg_assoc(fr, back_a_segs(r), back_b_segs(r));
    assert(segs_of(r) == (fa + back_b_segs(r)) + ext_segs(r.other));
}

/// Folding the canonical segment list of a well-formed record over the
/// empty record rebuilds exactly that record.
#[verifier::rlimit(100)]
proof fn lemma_fold_segs_of(r: CacheControlV)
    requires
        wf_record(r),
    ensures
        fold_segs(empty_record(), segs_of(r)) == r,
{
    let cc0 = empty_record();
    lemma_segs_of_shape(r);
    lemma_fold_append(cc0, (front_segs(r) + back_a_segs(r)) + back_b_segs(r), ext_segs(r.other));
    lemma_fold_append(cc0, front_segs(r) + back_a_segs(r), back_b_segs(r));
    lemma_fold_append(cc0, front_segs(r), back_a_segs(r));
    lemma_fold_front(r);
    let mid = fold_segs(cc0, front_segs(r));
    lemma_fold_back_a(r, mid);
    let mid2 = fold_segs(mid, back_a_segs(r));
    lemma_fold_back_b(r, mid2);
    let fin = fold_segs(mid2, back_b_segs(r));
    lemma_fold_exts(fin, r.other);
    assert(fin.other + r.other =~= r.other);
    assert(fold_segs(cc0, segs_of(r)) == r);
}

/// A successful field-name-list parse leaves only well-formed names.
proof fn lemma_hlist_wf(s: Seq<u8>, comma: bool)
    ensures
        hlist_spec(s, comma) matches Ok(l) ==> wf_names(l),
    decreases s.len(),
{
    if s.len() == 0 {
    } else if wsp(s[0]) {
        lemma_hlist_wf(s.skip(1), comma);
    } else if s[0] == 0x2C {
        lemma_hlist_wf(s.skip(1), true);
    } else if tchar(s[0]) {
        if comma {
            let n = token_run(s);
            lemma_token_run_props(s);
            lemma_hlist_wf(s.skip(n), false);
            match hlist_spec(s.skip(n), false) {
                Ok(l2) => {
                    let name = lower(s.take(n));
                    assert(name.len() == n);
                    assert(all_tchar(name)) by {
                        assert forall|k: int| 0 <= k < name.len() implies tchar(
                            #[trigger] name[k],
                        ) by {
                            assert(name[k] == lower_byte(s.take(n)[k]));
                            assert(tchar(s.take(n)[k]));
                        }
                    }
                    assert(lower(name) == name) by {
                        assert forall|k: int| 0 <= k < lower(name).len() implies #[trigger] lower(
                            name,
                        )[k] == name[k] by {
                            assert(lower(name)[k] == lower_byte(name[k]));
                            assert(name[k] == lower_byte(s.take(n)[k]));
                        }
                        assert(lower(name) =~= name);
                    }
                    let l = seq![name] + l2;
                    assert(wf_names(l)) by {
                        assert forall|k: int| 0 <= k < l.len() implies {
                            &&& (#[trigger] l[k]).len() >= 1
                            &&& all_tchar(l[k])
                            &&& lower(l[k]) == l[k]
                        } by {
                            if k == 0 {
                                assert(l[k] == name);
                            } else {
                                assert(l[k] == l2[k - 1]);
                            }
                        }
                    }
                },
                Err(_) => {},
            }
        }
    } else {
    }
}

/// Applying a directive to a well-formed record with well-formed raw
/// argument bytes keeps the record well formed.
proof fn lemma_apply_wf(cc: CacheControlV, name: Seq<u8>, arg: Option<Seq<u8>>, raw: Option<
    Seq<u8>,
>)
    requires
        wf_record(cc),
        name.len() >= 1,
        all_tchar(name),
        raw matches Some(w) ==> raw_wf(w),
    ensures
        apply_spec(cc, name, arg, raw) matches Ok(r) ==> wf_record(r),
{
    match classify_spec(name) {
        Some(d) => {
            match arg {
                Some(a) => {
                    lemma_hlist_wf(a, true);
                },
                None => {},
            }
        },
        None => {
            match apply_spec(cc, name, arg, raw) {
                Ok(r) => {
                    assert(forall|k: int|
                        0 <= k < cc.other.len() ==> #[trigger] r.other[k] == cc.other[k]);
                    assert(r.other[cc.other.len() as int] == (ExtensionV {
                        name: name,
                        arg: raw,
                    }));
                },
                Err(_) => {},
            }
        },
    }
}

/// Decoding from a well-formed record leaves a well-formed record.
proof fn lemma_dec_wf_rec(s: Seq<u8>, pending: Option<Seq<u8>>, cc: CacheControlV)
    requires
        wf_record(cc),
        pending matches Some(n) ==> n.len() >= 1 && all_tchar(n),
    ensures
        dec(s, pending, cc) matches Ok(r) ==> wf_record(r),
    decreases s.len(),
{
    if s.len() == 0 {
        match pending {
            None => {},
            Some(n) => {
                lemma_apply_wf(cc, n, None, None);
            },
        }
    } else if wsp(s[0]) {
        lemma_dec_wf_rec(s.skip(1), pending, cc);
    } else if s[0] == 0x2C {
        match pending {
            None => {
                lemma_dec_wf_rec(s.skip(1), None, cc);
            },
            Some(n) => {
                lemma_apply_wf(cc, n, None, None);
                match apply_spec(cc, n, None, None) {
                    Ok(c2) => {
                        lemma_dec_wf_rec(s.skip(1), None, c2);
                    },
                    Err(_) => {},
                }
            },
        }
    } else if s[0] == 0x3D {
        match pending {
            None => {},
            Some(n) => {
                lemma_arg_scan_ok(s.skip(1));
                match arg_scan(s.skip(1)) {
                    Ok(t) => {
                        lemma_apply_wf(cc, n, Some(t.0), Some(t.1));
                        match apply_spec(cc, n, Some(t.0), Some(t.1)) {
                            Ok(c2) => {
                                lemma_dec_wf_rec(s.skip(1 + t.2), None, c2);
                            },
                            Err(_) => {},
                        }
                    },
                    Err(_) => {},
                }
            },
        }
    } else if tchar(s[0]) {
        match pending {
            Some(_) => {},
            None => {
                lemma_token_run_props(s);
                lemma_dec_wf_rec(s.skip(token_run(s)), Some(s.take(token_run(s))), cc);
            },
        }
    } else {
    }
}

/// Law: every record a decode from the empty record produces is well
/// formed: its list slots are absent or non-empty with lowercase token
/// names, and its extensions are tokens outside the registered names with
/// raw argument bytes the grammar accepts.
pub proof fn lemma_decode_wf(s: Seq<u8>)
    ensures
        dec(s, None, empty_record()) matches Ok(r) ==> wf_record(r),
{
    lemma_dec_wf_rec(s, None, empty_record());
}

/// Law: decoding the canonical encoding of any record the decoder can
/// produce gives exactly that record back.
pub proof fn lemma_decode_encode(r: CacheControlV)
    requires
        wf_record(r),
    ensures
        dec(enc(r), None, empty_record()) == Ok::<CacheControlV, ParseError>(r),
{
    lemma_enc_is_render(r);
    lemma_dec_render(segs_of(r), empty_record());
    lemma_fold_segs_of(r);
}

/// Law: decode-then-encode is idempotent on the canonical form: encoding
/// the decode of a canonical encoding re-encodes to the same bytes.
pub proof fn lemma_encode_decode_idempotent(x: Seq<u8>)
    requires
        dec(x, None, empty_record()) is Ok,
    ensures
        ({
            let r = dec(x, None, empty_record())->Ok_0;
            &&& dec(enc(r), None, empty_record()) == Ok::<CacheControlV, ParseError>(r)
            &&& enc(dec(enc(r), None, empty_record())->Ok_0) == enc(r)
        }),
{
    lemma_decode_wf(x);
    lemma_decode_encode(dec(x, None, empty_record())->Ok_0);
}

/// Law: unknown directives round-trip byte-for-byte: after decoding, the
/// canonical encoding re-decodes to the same extension sequence, names and
/// raw argument bytes unchanged.
pub proof fn lemma_unknown_directives_round_trip(x: Seq<u8>)
    requires
        dec(x, None, empty_record()) is Ok,
    ensures
        ({
            let r = dec(x, None, empty_record())->Ok_0;
            &&& dec(enc(r), None, empty_record()) is Ok
            &&& dec(enc(r), None, empty_record())->Ok_0.other == r.other
        }),
{
    lemma_encode_decode_idempotent(x);
}

} // verus!
