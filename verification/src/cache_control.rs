//! The `Cache-Control` header: a directive list (RFC 9111 5.2).
//!
//! A header value is a comma-separated list of directives; a directive is a
//! token, optionally followed by `=` and an argument. Registered names are
//! matched case-sensitively: numeric directives and field-name-list
//! directives require an argument, boolean flags forbid one, and a mismatch
//! fails the decode. Unknown directives are kept, in order, with their raw
//! argument bytes. Empty list members are tolerated; an empty or
//! whitespace-only value decodes to the empty record.

use vstd::prelude::*;
use vstd::slice::slice_subrange;
use vstd::slice::slice_to_vec;

use crate::argument::arg_scan;
use crate::argument::parse_argument;
use crate::buf::buf_into_vec;
use crate::buf::buf_is_empty;
use crate::buf::buf_new;
use crate::buf::buf_put_slice;
use crate::buf::buf_put_u8;
use crate::buf::buf_view;
use crate::chars::is_tchar;
use crate::chars::is_wsp;
use crate::chars::tchar;
use crate::chars::wsp;
use crate::keywords::bytes_immutable;
use crate::keywords::bytes_max_age;
use crate::keywords::bytes_max_stale;
use crate::keywords::bytes_min_fresh;
use crate::keywords::bytes_must_revalidate;
use crate::keywords::bytes_must_understand;
use crate::keywords::bytes_no_cache;
use crate::keywords::bytes_no_store;
use crate::keywords::bytes_no_transform;
use crate::keywords::bytes_only_if_cached;
use crate::keywords::bytes_private;
use crate::keywords::bytes_proxy_revalidate;
use crate::keywords::bytes_public;
use crate::keywords::bytes_s_maxage;
use crate::keywords::bytes_stale_if_error;
use crate::keywords::bytes_stale_while_revalidate;
use crate::keywords::bytes_transform;
use crate::keywords::classify;
use crate::keywords::classify_spec;
use crate::keywords::Directive;
use crate::tokens::lemma_token_run_ends;
use crate::tokens::lemma_token_run_props;
use crate::tokens::token_run;
use crate::util::parse_u64;
use crate::util::parse_uint_spec;
use crate::ParseError;

verus! {

/// An unrecognized directive, kept for forward compatibility: its name and,
/// if it had one, the raw bytes of its argument (quotes and escapes intact).
#[derive(Clone, Debug, PartialEq, Eq)]
pub struct Extension {
    pub name: Vec<u8>,
    pub arg: Option<Vec<u8>>,
}

/// Spec-level image of an [`Extension`].
pub ghost struct ExtensionV {
    pub name: Seq<u8>,
    pub arg: Option<Seq<u8>>,
}

impl View for Extension {
    type V = ExtensionV;

    open spec fn view(&self) -> ExtensionV {
        ExtensionV {
            name: self.name@,
            arg: match self.arg {
                Some(a) => Some(a@),
                None => None,
            },
        }
    }
}

/// The decoded form of a `Cache-Control` header.
///
/// Each registered directive has a slot; everything else accumulates in
/// `other`, in first-seen order. A registered name never appears in `other`.
#[derive(Clone, Debug, PartialEq, Eq)]
pub struct CacheControl {
    pub max_age: Option<u64>,
    pub max_stale: Option<u64>,
    pub min_fresh: Option<u64>,
    pub no_cache: Option<Vec<Vec<u8>>>,
    pub no_store: bool,
    pub no_transform: bool,
    pub only_if_cached: bool,
    pub must_revalidate: bool,
    pub must_understand: bool,
    pub transform: bool,
    pub private: Option<Vec<Vec<u8>>>,
    pub proxy_revalidate: bool,
    pub public: bool,
    pub s_maxage: Option<u64>,
    pub immutable: bool,
    pub stale_while_revalidate: Option<u64>,
    pub stale_if_error: Option<u64>,
    pub other: Vec<Extension>,
}

/// Spec-level image of a [`CacheControl`] record.
pub ghost struct CacheControlV {
    pub max_age: Option<u64>,
    pub max_stale: Option<u64>,
    pub min_fresh: Option<u64>,
    pub no_cache: Option<Seq<Seq<u8>>>,
    pub no_store: bool,
    pub no_transform: bool,
    pub only_if_cached: bool,
    pub must_revalidate: bool,
    pub must_understand: bool,
    pub transform: bool,
    pub private: Option<Seq<Seq<u8>>>,
    pub proxy_revalidate: bool,
    pub public: bool,
    pub s_maxage: Option<u64>,
    pub immutable: bool,
    pub stale_while_revalidate: Option<u64>,
    pub stale_if_error: Option<u64>,
    pub other: Seq<ExtensionV>,
}

impl View for CacheControl {
    type V = CacheControlV;

    open spec fn view(&self) -> CacheControlV {
        CacheControlV {
            max_age: self.max_age,
            max_stale: self.max_stale,
            min_fresh: self.min_fresh,
            no_cache: match self.no_cache {
                Some(v) => Some(v.deep_view()),
                None => None,
            },
            no_store: self.no_store,
            no_transform: self.no_transform,
            only_if_cached: self.only_if_cached,
            must_revalidate: self.must_revalidate,
            must_understand: self.must_understand,
            transform: self.transform,
            private: match self.private {
                Some(v) => Some(v.deep_view()),
                None => None,
            },
            proxy_revalidate: self.proxy_revalidate,
            public: self.public,
            s_maxage: self.s_maxage,
            immutable: self.immutable,
            stale_while_revalidate: self.stale_while_revalidate,
            stale_if_error: self.stale_if_error,
            other: Seq::new(self.other@.len(), |k: int| self.other@[k]@),
        }
    }
}

/// The record every decode starts from: nothing set.
pub open spec fn empty_record() -> CacheControlV {
    CacheControlV {
        max_age: None,
        max_stale: None,
        min_fresh: None,
        no_cache: None,
        no_store: false,
        no_transform: false,
        only_if_cached: false,
        must_revalidate: false,
        must_understand: false,
        transform: false,
        private: None,
        proxy_revalidate: false,
        public: false,
        s_maxage: None,
        immutable: false,
        stale_while_revalidate: None,
        stale_if_error: None,
        other: Seq::empty(),
    }
}

impl Default for CacheControl {
    /// The empty record.
    fn default() -> (r: Self)
        ensures
            r@ == empty_record(),
    {
        let r = CacheControl {
            max_age: None,
            max_stale: None,
            min_fresh: None,
            no_cache: None,
            no_store: false,
            no_transform: false,
            only_if_cached: false,
            must_revalidate: false,
            must_understand: false,
            transform: false,
            private: None,
            proxy_revalidate: false,
            public: false,
            s_maxage: None,
            immutable: false,
            stale_while_revalidate: None,
            stale_if_error: None,
            other: Vec::new(),
        };
        proof {
            assert(r@.other =~= empty_record().other);
        }
        r
    }
}

/// Lowercase one ASCII byte, as header-field names are normalized.
pub open spec fn lower_byte(b: u8) -> u8 {
    if 0x41 <= b && b <= 0x5A {
        (b + 0x20) as u8
    } else {
        b
    }
}

/// Lowercase a run of ASCII bytes.
pub open spec fn lower(s: Seq<u8>) -> Seq<u8> {
    s.map_values(|b: u8| lower_byte(b))
}

/// A delta-seconds directive argument: decimal, saturating on overflow.
pub open spec fn delta_seconds_spec(a: Seq<u8>) -> Result<u64, ParseError> {
    match parse_uint_spec(a, true, u64::MAX as int) {
        Ok(v) => Ok(v as u64),
        Err(e) => Err(e),
    }
}

/// What parsing a field-name list yields: names separated by commas, with
/// optional whitespace and empty members tolerated, each name lowercased;
/// two names with no comma between them, or a byte outside the grammar,
/// fail. `comma` records whether a separator has been seen since the last
/// name (true at the start).
pub open spec fn hlist_spec(s: Seq<u8>, comma: bool) -> Result<Seq<Seq<u8>>, ParseError>
    decreases s.len(),
    via hlist_spec_decreases
{
    if s.len() == 0 {
        Ok(Seq::empty())
    } else if wsp(s[0]) {
        hlist_spec(s.skip(1), comma)
    } else if s[0] == 0x2C {
        hlist_spec(s.skip(1), true)
    } else if tchar(s[0]) {
        if !comma {
            Err(ParseError::InvalidSyntax)
        } else {
            let n = token_run(s);
            match hlist_spec(s.skip(n), false) {
                Ok(l) => Ok(seq![lower(s.take(n))] + l),
                Err(e) => Err(e),
            }
        }
    } else {
        Err(ParseError::InvalidSyntax)
    }
}

#[via_fn]
proof fn hlist_spec_decreases(s: Seq<u8>, comma: bool) {
    if s.len() > 0 && !wsp(s[0]) && s[0] != 0x2C && tchar(s[0]) && comma {
        lemma_token_run_props(s);
        assert(token_run(s) >= 1);
    }
}

/// How one registered directive, once delimited, changes the record.
///
/// `arg` is the unescaped argument value. Numeric and field-name-list
/// directives require an argument, boolean flags forbid one, and a mismatch
/// is an error. A field-name-list directive with an empty list resets its
/// slot to absent.
pub open spec fn apply_known_spec(cc: CacheControlV, d: Directive, arg: Option<Seq<u8>>) -> Result<
    CacheControlV,
    ParseError,
> {
    match d {
        Directive::MaxAge => match arg {
            Some(a) => match delta_seconds_spec(a) {
                Ok(v) => Ok(CacheControlV { max_age: Some(v), ..cc }),
                Err(e) => Err(e),
            },
            None => Err(ParseError::InvalidSyntax),
        },
        Directive::MaxStale => match arg {
            Some(a) => match delta_seconds_spec(a) {
                Ok(v) => Ok(CacheControlV { max_stale: Some(v), ..cc }),
                Err(e) => Err(e),
            },
            None => Err(ParseError::InvalidSyntax),
        },
        Directive::MinFresh => match arg {
            Some(a) => match delta_seconds_spec(a) {
                Ok(v) => Ok(CacheControlV { min_fresh: Some(v), ..cc }),
                Err(e) => Err(e),
            },
            None => Err(ParseError::InvalidSyntax),
        },
        Directive::NoCache => match arg {
            Some(a) => match hlist_spec(a, true) {
                Ok(l) => Ok(CacheControlV { no_cache: list_slot(l), ..cc }),
                Err(e) => Err(e),
            },
            None => Ok(CacheControlV { no_cache: None, ..cc }),
        },
        Directive::NoStore => match arg {
            None => Ok(CacheControlV { no_store: true, ..cc }),
            Some(_) => Err(ParseError::InvalidSyntax),
        },
        Directive::NoTransform => match arg {
            None => Ok(CacheControlV { no_transform: true, ..cc }),
            Some(_) => Err(ParseError::InvalidSyntax),
        },
        Directive::OnlyIfCached => match arg {
            None => Ok(CacheControlV { only_if_cached: true, ..cc }),
            Some(_) => Err(ParseError::InvalidSyntax),
        },
        Directive::MustRevalidate => match arg {
            None => Ok(CacheControlV { must_revalidate: true, ..cc }),
            Some(_) => Err(ParseError::InvalidSyntax),
        },
        Directive::MustUnderstand => match arg {
            None => Ok(CacheControlV { must_understand: true, ..cc }),
            Some(_) => Err(ParseError::InvalidSyntax),
        },
        Directive::Transform => match arg {
            None => Ok(CacheControlV { transform: true, ..cc }),
            Some(_) => Err(ParseError::InvalidSyntax),
        },
        Directive::Private => match arg {
            Some(a) => match hlist_spec(a, true) {
                Ok(l) => Ok(CacheControlV { private: list_slot(l), ..cc }),
                Err(e) => Err(e),
            },
            None => Ok(CacheControlV { private: None, ..cc }),
        },
        Directive::ProxyRevalidate => match arg {
            None => Ok(CacheControlV { proxy_revalidate: true, ..cc }),
            Some(_) => Err(ParseError::InvalidSyntax),
        },
        Directive::Public => match arg {
            None => Ok(CacheControlV { public: true, ..cc }),
            Some(_) => Err(ParseError::InvalidSyntax),
        },
        Directive::SMaxage => match arg {
            Some(a) => match delta_seconds_spec(a) {
                Ok(v) => Ok(CacheControlV { s_maxage: Some(v), ..cc }),
                Err(e) => Err(e),
            },
            None => Err(ParseError::InvalidSyntax),
        },
        Directive::Immutable => match arg {
            None => Ok(CacheControlV { immutable: true, ..cc }),
            Some(_) => Err(ParseError::InvalidSyntax),
        },
        Directive::StaleWhileRevalidate => match arg {
            Some(a) => match delta_seconds_spec(a) {
                Ok(v) => Ok(CacheControlV { stale_while_revalidate: Some(v), ..cc }),
                Err(e) => Err(e),
            },
            None => Err(ParseError::InvalidSyntax),
        },
        Directive::StaleIfError => match arg {
            Some(a) => match delta_seconds_spec(a) {
                Ok(v) => Ok(CacheControlV { stale_if_error: Some(v), ..cc }),
                Err(e) => Err(e),
            },
            None => Err(ParseError::InvalidSyntax),
        },
    }
}

/// How one directive, once delimited, changes the record: a registered name
/// is applied to its slot; an unrecognized one is appended to `other` with
/// its raw argument bytes.
pub open spec fn apply_spec(
    cc: CacheControlV,
    name: Seq<u8>,
    arg: Option<Seq<u8>>,
    raw: Option<Seq<u8>>,
) -> Result<CacheControlV, ParseError> {
    match classify_spec(name) {
        Some(d) => apply_known_spec(cc, d, arg),
        None => Ok(
            CacheControlV { other: cc.other.push(ExtensionV { name: name, arg: raw }), ..cc },
        ),
    }
}

/// View of an optional borrowed byte vector.
pub open spec fn opt_view(o: Option<&Vec<u8>>) -> Option<Seq<u8>> {
    match o {
        Some(v) => Some(v@),
        None => None,
    }
}

/// View of an optional owned byte vector.
pub open spec fn opt_vec_view(o: Option<Vec<u8>>) -> Option<Seq<u8>> {
    match o {
        Some(v) => Some(v@),
        None => None,
    }
}

/// Parse a field-name list, as the argument of `no-cache` or `private`.
pub fn header_list(i: &[u8]) -> (r: Result<Vec<Vec<u8>>, ParseError>)
    ensures
        match hlist_spec(i@, true) {
            Ok(l) => r matches Ok(v) && v.deep_view() == l,
            Err(e) => r == Err::<Vec<Vec<u8>>, ParseError>(e),
        },
{
    let mut ret: Vec<Vec<u8>> = Vec::new();
    let mut comma = true;
    let mut pos: usize = 0;
    proof {
        assert(i@.skip(0) =~= i@);
        match hlist_spec(i@, true) {
            Ok(l) => {
                assert(ret.deep_view() + l =~= l);
            },
            Err(_) => {},
        }
    }
    while pos < i.len()
        invariant
            0 <= pos <= i@.len(),
            hlist_spec(i@, true) == match hlist_spec(i@.skip(pos as int), comma) {
                Ok(l) => Ok::<Seq<Seq<u8>>, ParseError>(ret.deep_view() + l),
                Err(e) => Err::<Seq<Seq<u8>>, ParseError>(e),
            },
        decreases i@.len() - pos,
    {
        let chr = i[pos];
        proof {
            assert(i@.skip(pos as int)[0] == i@[pos as int]);
        }
        if is_wsp(chr) {
            proof {
                assert(i@.skip(pos as int).skip(1) =~= i@.skip(pos as int + 1));
            }
            pos = pos + 1;
        } else if chr == 0x2C {
            proof {
                assert(i@.skip(pos as int).skip(1) =~= i@.skip(pos as int + 1));
            }
            comma = true;
            pos = pos + 1;
        } else if is_tchar(chr) {
            if !comma {
                return Err(ParseError::InvalidSyntax);
            }
            let start = pos;
            let mut q: usize = pos + 1;
            while q < i.len() && is_tchar(i[q])
                invariant
                    0 <= start < q <= i@.len(),
                    forall|k: int| start <= k < q ==> tchar(#[trigger] i@[k]),
                decreases i@.len() - q,
            {
                q = q + 1;
            }
            let ghost rest = i@.skip(start as int);
            proof {
                assert forall|k: int| 0 <= k < q - start as int implies tchar(
                    #[trigger] rest.take(q - start as int)[k],
                ) by {
                    assert(rest.take(q - start as int)[k] == i@[start as int + k]);
                }
                if (q as int) < i@.len() {
                    assert(rest[q - start as int] == i@[q as int]);
                }
                lemma_token_run_ends(rest, q - start as int);
                assert(rest.skip(q - start as int) =~= i@.skip(q as int));
            }
            let run = slice_subrange(i, start, q);
            let name = lower_vec(run);
            let ghost ret0 = ret.deep_view();
            let ghost namev = name@;
            ret.push(name);
            proof {
                assert(run@ =~= rest.take(q - start as int));
                assert(name.deep_view() =~= namev);
                assert(ret.deep_view() =~~= ret0.push(namev));
                match hlist_spec(i@.skip(q as int), false) {
                    Ok(l) => {
                        assert(ret0 + (seq![namev] + l) =~= ret0.push(namev) + l);
                    },
                    Err(_) => {},
                }
            }
            comma = false;
            pos = q;
        } else {
            return Err(ParseError::InvalidSyntax);
        }
    }
    proof {
        assert(i@.skip(pos as int) =~= Seq::<u8>::empty());
        assert(ret.deep_view() + Seq::<Seq<u8>>::empty() =~= ret.deep_view());
    }
    Ok(ret)
}

/// Lowercase a byte run.
fn lower_vec(s: &[u8]) -> (r: Vec<u8>)
    ensures
        r@ == lower(s@),
{
    let mut r: Vec<u8> = Vec::new();
    let mut k: usize = 0;
    while k < s.len()
        invariant
            0 <= k <= s@.len(),
            r@ =~= lower(s@).take(k as int),
        decreases s@.len() - k,
    {
        let b = s[k];
        if 0x41 <= b && b <= 0x5A {
            r.push(b + 0x20);
        } else {
            r.push(b);
        }
        proof {
            assert(lower(s@)[k as int] == lower_byte(s@[k as int]));
            assert(r@ =~= lower(s@).take(k as int + 1));
        }
        k = k + 1;
    }
    proof {
        assert(r@ =~= lower(s@));
    }
    r
}

/// The directive-list state machine over the remainder `s` of one
/// occurrence. `pending` holds a directive name that has been read but not
/// yet delimited; `cc` is the record built so far.
///
/// A comma or the end of input delimits the pending directive without an
/// argument; `=` hands control to the argument sub-grammar and applies the
/// directive with the argument found; a further name directly after a
/// pending one, an `=` with nothing pending, or a byte outside the grammar
/// fails the decode.
pub open spec fn dec(s: Seq<u8>, pending: Option<Seq<u8>>, cc: CacheControlV) -> Result<
    CacheControlV,
    ParseError,
>
    decreases s.len(),
    via dec_decreases
{
    if s.len() == 0 {
        match pending {
            None => Ok(cc),
            Some(n) => apply_spec(cc, n, None, None),
        }
    } else if wsp(s[0]) {
        dec(s.skip(1), pending, cc)
    } else if s[0] == 0x2C {
        match pending {
            None => dec(s.skip(1), None, cc),
            Some(n) => match apply_spec(cc, n, None, None) {
                Ok(c2) => dec(s.skip(1), None, c2),
                Err(e) => Err(e),
            },
        }
    } else if s[0] == 0x3D {
        match pending {
            None => Err(ParseError::InvalidSyntax),
            Some(n) => match arg_scan(s.skip(1)) {
                Ok(t) => match apply_spec(cc, n, Some(t.0), Some(t.1)) {
                    Ok(c2) => dec(s.skip(1 + t.2), None, c2),
                    Err(e) => Err(e),
                },
                Err(e) => Err(e),
            },
        }
    } else if tchar(s[0]) {
        match pending {
            Some(_) => Err(ParseError::InvalidSyntax),
            None => dec(s.skip(token_run(s)), Some(s.take(token_run(s))), cc),
        }
    } else {
        Err(ParseError::InvalidSyntax)
    }
}

#[via_fn]
proof fn dec_decreases(s: Seq<u8>, pending: Option<Seq<u8>>, cc: CacheControlV) {
    if s.len() > 0 && !wsp(s[0]) && s[0] != 0x2C {
        if s[0] == 0x3D {
            crate::argument::lemma_arg_scan_ok(s.skip(1));
        } else if tchar(s[0]) {
            lemma_token_run_props(s);
            assert(token_run(s) >= 1);
        }
    }
}

/// What decoding a whole set of occurrences against an accumulating record
/// yields: occurrences are decoded in order, each against the record the
/// previous ones built, exactly as if they had been joined by commas.
pub open spec fn decode_all_spec(vs: Seq<Seq<u8>>, cc: CacheControlV) -> Result<
    CacheControlV,
    ParseError,
>
    decreases vs.len(),
{
    if vs.len() == 0 {
        Ok(cc)
    } else {
        match dec(vs[0], None, cc) {
            Ok(c2) => decode_all_spec(vs.skip(1), c2),
            Err(e) => Err(e),
        }
    }
}

/// An absent list is an absent slot; a present one fills it unless empty.
pub open spec fn list_slot(l: Seq<Seq<u8>>) -> Option<Seq<Seq<u8>>> {
    if l.len() == 0 {
        None
    } else {
        Some(l)
    }
}

/// View of an optional owned field-name list.
pub open spec fn opt_list_view(o: Option<Vec<Vec<u8>>>) -> Option<Seq<Seq<u8>>> {
    match o {
        Some(v) => Some(v.deep_view()),
        None => None,
    }
}

/// Parse a required delta-seconds argument.
fn delta_arg(argument: Option<&Vec<u8>>) -> (r: Result<u64, ParseError>)
    ensures
        r == match opt_view(argument) {
            Some(a) => delta_seconds_spec(a),
            None => Err::<u64, ParseError>(ParseError::InvalidSyntax),
        },
{
    match argument {
        Some(v) => parse_u64::<true>(v.as_slice()),
        None => Err(ParseError::InvalidSyntax),
    }
}

/// Parse an optional field-name-list argument into the value its slot takes.
fn list_arg(argument: Option<&Vec<u8>>) -> (r: Result<Option<Vec<Vec<u8>>>, ParseError>)
    ensures
        match opt_view(argument) {
            Some(a) => match hlist_spec(a, true) {
                Ok(l) => r matches Ok(o) && opt_list_view(o) == list_slot(l),
                Err(e) => r == Err::<Option<Vec<Vec<u8>>>, ParseError>(e),
            },
            None => r == Ok::<Option<Vec<Vec<u8>>>, ParseError>(None),
        },
{
    match argument {
        Some(v) => match header_list(v.as_slice()) {
            Ok(l) => {
                proof {
                    assert(l.deep_view().len() == l@.len());
                }
                if l.len() == 0 {
                    Ok(None)
                } else {
                    Ok(Some(l))
                }
            },
            Err(e) => Err(e),
        },
        None => Ok(None),
    }
}

/// The registered directives that carry a delta-seconds argument.
pub open spec fn is_delta_directive(d: Directive) -> bool {
    ||| d == Directive::MaxAge
    ||| d == Directive::MaxStale
    ||| d == Directive::MinFresh
    ||| d == Directive::SMaxage
    ||| d == Directive::StaleWhileRevalidate
    ||| d == Directive::StaleIfError
}

/// The registered directives that carry a field-name-list argument.
pub open spec fn is_list_directive(d: Directive) -> bool {
    d == Directive::NoCache || d == Directive::Private
}

/// Apply a registered delta-seconds directive to the record.
#[verifier::rlimit(100)]
fn apply_delta_directive(cc: &mut CacheControl, d: Directive, argument: Option<&Vec<u8>>) -> (r:
    Result<(), ParseError>)
    requires
        is_delta_directive(d),
    ensures
        match apply_known_spec(old(cc)@, d, opt_view(argument)) {
            Ok(c2) => r is Ok && final(cc)@ == c2,
            Err(e) => r == Err::<(), ParseError>(e) && final(cc)@ == old(cc)@,
        },
{
    match delta_arg(argument) {
        Ok(x) => {
            match d {
                Directive::MaxAge => {
                    cc.max_age = Some(x);
                },
                Directive::MaxStale => {
                    cc.max_stale = Some(x);
                },
                Directive::MinFresh => {
                    cc.min_fresh = Some(x);
                },
                Directive::SMaxage => {
                    cc.s_maxage = Some(x);
                },
                Directive::StaleWhileRevalidate => {
                    cc.stale_while_revalidate = Some(x);
                },
                _ => {
                    cc.stale_if_error = Some(x);
                },
            }
            Ok(())
        },
        Err(e) => Err(e),
    }
}

/// Apply a registered field-name-list directive to the record.
#[verifier::rlimit(100)]
fn apply_list_directive(cc: &mut CacheControl, d: Directive, argument: Option<&Vec<u8>>) -> (r:
    Result<(), ParseError>)
    requires
        is_list_directive(d),
    ensures
        match apply_known_spec(old(cc)@, d, opt_view(argument)) {
            Ok(c2) => r is Ok && final(cc)@ == c2,
            Err(e) => r == Err::<(), ParseError>(e) && final(cc)@ == old(cc)@,
        },
{
    match list_arg(argument) {
        Ok(o) => {
            match d {
                Directive::NoCache => {
                    cc.no_cache = o;
                },
                _ => {
                    cc.private = o;
                },
            }
            Ok(())
        },
        Err(e) => Err(e),
    }
}

/// Apply a registered boolean-flag directive to the record.
#[verifier::rlimit(100)]
fn apply_flag_directive(cc: &mut CacheControl, d: Directive, argument: Option<&Vec<u8>>) -> (r:
    Result<(), ParseError>)
    requires
        !is_delta_directive(d),
        !is_list_directive(d),
    ensures
        match apply_known_spec(old(cc)@, d, opt_view(argument)) {
            Ok(c2) => r is Ok && final(cc)@ == c2,
            Err(e) => r == Err::<(), ParseError>(e) && final(cc)@ == old(cc)@,
        },
{
    if argument.is_some() {
        return Err(ParseError::InvalidSyntax);
    }
    match d {
        Directive::NoStore => {
            cc.no_store = true;
        },
        Directive::NoTransform => {
            cc.no_transform = true;
        },
        Directive::OnlyIfCached => {
            cc.only_if_cached = true;
        },
        Directive::MustRevalidate => {
            cc.must_revalidate = true;
        },
        Directive::MustUnderstand => {
            cc.must_understand = true;
        },
        Directive::Transform => {
            cc.transform = true;
        },
        Directive::ProxyRevalidate => {
            cc.proxy_revalidate = true;
        },
        Directive::Public => {
            cc.public = true;
        },
        _ => {
            cc.immutable = true;
        },
    }
    Ok(())
}

/// Apply one registered directive to the record.
fn apply_known(cc: &mut CacheControl, d: Directive, argument: Option<&Vec<u8>>) -> (r: Result<
    (),
    ParseError,
>)
    ensures
        match apply_known_spec(old(cc)@, d, opt_view(argument)) {
            Ok(c2) => r is Ok && final(cc)@ == c2,
            Err(e) => r == Err::<(), ParseError>(e) && final(cc)@ == old(cc)@,
        },
{
    match d {
        Directive::MaxAge
        | Directive::MaxStale
        | Directive::MinFresh
        | Directive::SMaxage
        | Directive::StaleWhileRevalidate
        | Directive::StaleIfError => apply_delta_directive(cc, d, argument),
        Directive::NoCache | Directive::Private => apply_list_directive(cc, d, argument),
        _ => apply_flag_directive(cc, d, argument),
    }
}

/// Apply one delimited directive to the record.
///
/// On an error the record is left as it was; a failed decode discards it
/// anyway.
pub fn process_directive(
    cc: &mut CacheControl,
    name: &Vec<u8>,
    argument: Option<&Vec<u8>>,
    raw_argument: Option<&Vec<u8>>,
) -> (r: Result<(), ParseError>)
    ensures
        match apply_spec(old(cc)@, name@, opt_view(argument), opt_view(raw_argument)) {
            Ok(c2) => r is Ok && final(cc)@ == c2,
            Err(e) => r == Err::<(), ParseError>(e) && final(cc)@ == old(cc)@,
        },
{
    match classify(name.as_slice()) {
        Some(d) => apply_known(cc, d, argument),
        None => {
            let raw_copy: Option<Vec<u8>> = match raw_argument {
                Some(r2) => Some(slice_to_vec(r2.as_slice())),
                None => None,
            };
            let ext = Extension { name: slice_to_vec(name.as_slice()), arg: raw_copy };
            let ghost extv = ext@;
            proof {
                assert(extv == (ExtensionV {
                    name: name@,
                    arg: opt_view(raw_argument),
                }));
            }
            cc.other.push(ext);
            proof {
                assert(cc@.other =~= old(cc)@.other.push(extv));
            }
            Ok(())
        },
    }
}

/// Decode one occurrence of the header value into the record, directive by
/// directive: on an error the record holds the directives already consumed,
/// so callers either discard it or restore their own copy.
#[verifier::rlimit(100)]
#[verifier::loop_isolation(false)]
fn decode_into(cc: &mut CacheControl, i: &[u8]) -> (r: Result<(), ParseError>)
    ensures
        match dec(i@, None, old(cc)@) {
            Ok(c2) => r is Ok && final(cc)@ == c2,
            Err(e) => r == Err::<(), ParseError>(e),
        },
{
    let mut pos: usize = 0;
    let mut pending: Option<Vec<u8>> = None;
    proof {
        assert(i@.skip(0) =~= i@);
    }
    while pos < i.len()
        invariant
            0 <= pos <= i@.len(),
            dec(i@, None, old(cc)@) == dec(i@.skip(pos as int), opt_vec_view(pending), cc@),
        decreases i@.len() - pos,
    {
        let chr = i[pos];
        proof {
            assert(i@.skip(pos as int)[0] == i@[pos as int]);
        }
        if is_wsp(chr) {
            proof {
                assert(i@.skip(pos as int).skip(1) =~= i@.skip(pos as int + 1));
            }
            pos = pos + 1;
        } else if chr == 0x2C {
            proof {
                assert(i@.skip(pos as int).skip(1) =~= i@.skip(pos as int + 1));
            }
            if pending.is_some() {
                let name = pending.unwrap();
                match process_directive(cc, &name, None, None) {
                    Ok(_) => {},
                    Err(e) => {
                        return Err(e);
                    },
                }
                pending = None;
            }
            pos = pos + 1;
        } else if chr == 0x3D {
            if pending.is_none() {
                return Err(ParseError::InvalidSyntax);
            }
            let name = pending.unwrap();
            pending = None;
            proof {
                assert(i@.skip(pos as int).skip(1) =~= i@.skip(pos as int + 1));
            }
            match parse_argument(i, pos + 1) {
                Err(e) => {
                    return Err(e);
                },
                Ok((value, raw, newpos)) => {
                    match process_directive(cc, &name, Some(&value), Some(&raw)) {
                        Ok(_) => {},
                        Err(e) => {
                            return Err(e);
                        },
                    }
                    proof {
                        assert(i@.skip(pos as int).skip(
                            1 + (newpos - (pos + 1)),
                        ) =~= i@.skip(newpos as int));
                    }
                    pos = newpos;
                },
            }
        } else if is_tchar(chr) {
            if pending.is_some() {
                return Err(ParseError::InvalidSyntax);
            }
            let start = pos;
            let mut q: usize = pos + 1;
            while q < i.len() && is_tchar(i[q])
                invariant
                    start < q <= i@.len(),
                    forall|k: int| start <= k < q ==> tchar(#[trigger] i@[k]),
                decreases i@.len() - q,
            {
                q = q + 1;
            }
            let ghost rest = i@.skip(start as int);
            proof {
                assert forall|k: int| 0 <= k < q - start as int implies tchar(
                    #[trigger] rest.take(q - start as int)[k],
                ) by {
                    assert(rest.take(q - start as int)[k] == i@[start as int + k]);
                }
                if (q as int) < i@.len() {
                    assert(rest[q - start as int] == i@[q as int]);
                }
                lemma_token_run_ends(rest, q - start as int);
                assert(rest.skip(q - start as int) =~= i@.skip(q as int));
            }
            let name = slice_to_vec(slice_subrange(i, start, q));
            proof {
                assert(name@ =~= rest.take(q - start as int));
            }
            pending = Some(name);
            pos = q;
        } else {
            return Err(ParseError::InvalidSyntax);
        }
    }
    proof {
        assert(i@.skip(pos as int) =~= Seq::<u8>::empty());
    }
    if pending.is_some() {
        let name = pending.unwrap();
        match process_directive(cc, &name, None, None) {
            Ok(_) => {},
            Err(e) => {
                return Err(e);
            },
        }
    }
    Ok(())
}

/// Copy a byte vector.
fn copy_bytes(v: &Vec<u8>) -> (r: Vec<u8>)
    ensures
        r@ == v@,
{
    slice_to_vec(v.as_slice())
}

/// Copy a field-name list.
fn copy_name_list(v: &Vec<Vec<u8>>) -> (r: Vec<Vec<u8>>)
    ensures
        r.deep_view() == v.deep_view(),
{
    let mut r: Vec<Vec<u8>> = Vec::new();
    let mut k: usize = 0;
    proof {
        assert(r.deep_view() =~~= v.deep_view().take(0));
    }
    while k < v.len()
        invariant
            0 <= k <= v@.len(),
            r.deep_view() == v.deep_view().take(k as int),
        decreases v@.len() - k,
    {
        let item = copy_bytes(&v[k]);
        let ghost r0 = r.deep_view();
        let ghost itemv = item@;
        r.push(item);
        proof {
            assert(r.deep_view() =~~= r0.push(itemv));
            assert(itemv =~= v.deep_view()[k as int]);
            assert(r0.push(itemv) =~~= v.deep_view().take(k as int + 1));
        }
        k = k + 1;
    }
    proof {
        assert(v.deep_view().take(k as int) =~~= v.deep_view());
    }
    r
}

/// Copy an extension list.
fn copy_exts(v: &Vec<Extension>) -> (r: Vec<Extension>)
    ensures
        ext_views(&r) == ext_views(v),
{
    let mut r: Vec<Extension> = Vec::new();
    let mut k: usize = 0;
    proof {
        assert(ext_views(&r) =~= ext_views(v).take(0));
    }
    while k < v.len()
        invariant
            0 <= k <= v@.len(),
            ext_views(&r) == ext_views(v).take(k as int),
        decreases v@.len() - k,
    {
        let arg_copy: Option<Vec<u8>> = match &v[k].arg {
            Some(a) => Some(copy_bytes(a)),
            None => None,
        };
        let item = Extension { name: copy_bytes(&v[k].name), arg: arg_copy };
        let ghost r0 = ext_views(&r);
        let ghost itemv = item@;
        r.push(item);
        proof {
            assert(itemv == ext_views(v)[k as int]);
            assert(ext_views(&r) =~= r0.push(itemv));
            assert(r0.push(itemv) =~= ext_views(v).take(k as int + 1));
        }
        k = k + 1;
    }
    proof {
        assert(ext_views(v).take(k as int) =~= ext_views(v));
    }
    r
}

/// Copy a whole record.
fn copy_record(cc: &CacheControl) -> (r: CacheControl)
    ensures
        r@ == cc@,
{
    let r = CacheControl {
        max_age: cc.max_age,
        max_stale: cc.max_stale,
        min_fresh: cc.min_fresh,
        no_cache: match &cc.no_cache {
            Some(v) => Some(copy_name_list(v)),
            None => None,
        },
        no_store: cc.no_store,
        no_transform: cc.no_transform,
        only_if_cached: cc.only_if_cached,
        must_revalidate: cc.must_revalidate,
        must_understand: cc.must_understand,
        transform: cc.transform,
        private: match &cc.private {
            Some(v) => Some(copy_name_list(v)),
            None => None,
        },
        proxy_revalidate: cc.proxy_revalidate,
        public: cc.public,
        s_maxage: cc.s_maxage,
        immutable: cc.immutable,
        stale_while_revalidate: cc.stale_while_revalidate,
        stale_if_error: cc.stale_if_error,
        other: copy_exts(&cc.other),
    };
    proof {
        assert(r@.other == ext_views(&r.other));
        assert(cc@.other == ext_views(&cc.other));
    }
    r
}

/// Decode one occurrence of the header value into the record.
///
/// Decoding is all-or-nothing per occurrence: on success the record holds
/// every directive of the occurrence; on an error it is left exactly as it
/// was.
pub fn process_header(cc: &mut CacheControl, i: &[u8]) -> (r: Result<(), ParseError>)
    ensures
        match dec(i@, None, old(cc)@) {
            Ok(c2) => r is Ok && final(cc)@ == c2,
            Err(e) => r == Err::<(), ParseError>(e) && final(cc)@ == old(cc)@,
        },
{
    let mut work = copy_record(cc);
    match decode_into(&mut work, i) {
        Ok(_) => {
            *cc = work;
            Ok(())
        },
        Err(e) => Err(e),
    }
}

impl CacheControl {
    /// Decode a set of header occurrences into one record, as if they had
    /// been joined by commas. An error in any occurrence fails the whole
    /// decode; no occurrences, or only empty ones, give the empty record.
    pub fn decode(values: &Vec<Vec<u8>>) -> (r: Result<CacheControl, ParseError>)
        ensures
            match decode_all_spec(values.deep_view(), empty_record()) {
                Ok(c) => r matches Ok(v) && v@ == c,
                Err(e) => r == Err::<CacheControl, ParseError>(e),
            },
    {
        let ghost vs = values.deep_view();
        let mut ret = CacheControl::default();
        let mut idx: usize = 0;
        proof {
            assert(vs.skip(0) =~= vs);
        }
        while idx < values.len()
            invariant
                0 <= idx <= vs.len(),
                vs == values.deep_view(),
                vs.len() == values@.len(),
                decode_all_spec(vs, empty_record()) == decode_all_spec(
                    vs.skip(idx as int),
                    ret@,
                ),
            decreases vs.len() - idx,
        {
            proof {
                assert(vs.skip(idx as int)[0] == vs[idx as int]);
                assert(vs[idx as int] =~= values@[idx as int]@);
            }
            match decode_into(&mut ret, values[idx].as_slice()) {
                Err(e) => {
                    return Err(e);
                },
                Ok(_) => {
                    proof {
                        assert(vs.skip(idx as int).skip(1) =~= vs.skip(idx as int + 1));
                    }
                    idx = idx + 1;
                },
            }
        }
        proof {
            assert(vs.skip(idx as int) =~= Seq::<Seq<u8>>::empty());
        }
        Ok(ret)
    }
}

/// The `", "` separator, emitted only when something has been emitted.
pub open spec fn sep(acc: Seq<u8>) -> Seq<u8> {
    if acc.len() > 0 {
        seq![0x2C, 0x20]
    } else {
        Seq::<u8>::empty()
    }
}

/// Append a numeric directive: `name=<decimal>`, or nothing when absent.
pub open spec fn enc_u64(acc: Seq<u8>, name: Seq<u8>, v: Option<u64>) -> Seq<u8> {
    match v {
        Some(x) => acc + sep(acc) + name + seq![0x3D] + crate::util::dec_digits(x as nat),
        None => acc,
    }
}

/// Append a boolean directive: its bare name when set, nothing otherwise.
pub open spec fn enc_bool(acc: Seq<u8>, name: Seq<u8>, b: bool) -> Seq<u8> {
    if b {
        acc + sep(acc) + name
    } else {
        acc
    }
}

/// The members of a field-name list, joined by commas.
pub open spec fn join_comma(l: Seq<Seq<u8>>) -> Seq<u8>
    decreases l.len(),
{
    if l.len() == 0 {
        Seq::<u8>::empty()
    } else {
        l[0] + rest_joined(l.skip(1))
    }
}

/// The members after the first, each preceded by a comma.
pub open spec fn rest_joined(l: Seq<Seq<u8>>) -> Seq<u8>
    decreases l.len(),
{
    if l.len() == 0 {
        Seq::<u8>::empty()
    } else {
        seq![0x2C] + l[0] + rest_joined(l.skip(1))
    }
}

/// Append a field-name-list directive: `name="a,b"` when the list is
/// non-empty, the bare name for a present-but-empty list, nothing when
/// absent.
pub open spec fn enc_list(acc: Seq<u8>, name: Seq<u8>, v: Option<Seq<Seq<u8>>>) -> Seq<u8> {
    match v {
        Some(l) => if l.len() == 0 {
            acc + sep(acc) + name
        } else {
            acc + sep(acc) + name + seq![0x3D, 0x22] + join_comma(l) + seq![0x22]
        },
        None => acc,
    }
}

/// Append one extension directive: `name` or `name=<raw>`, the stored raw
/// argument bytes emitted verbatim.
pub open spec fn enc_ext_one(acc: Seq<u8>, e: ExtensionV) -> Seq<u8> {
    match e.arg {
        Some(raw) => acc + sep(acc) + e.name + seq![0x3D] + raw,
        None => acc + sep(acc) + e.name,
    }
}

/// Append every extension directive, in stored order.
pub open spec fn enc_exts(acc: Seq<u8>, l: Seq<ExtensionV>) -> Seq<u8>
    decreases l.len(),
{
    if l.len() == 0 {
        acc
    } else {
        enc_exts(enc_ext_one(acc, l[0]), l.skip(1))
    }
}

/// The canonical encoding of a record: registered directives in a fixed
/// order, then the extensions in stored order, separated by `", "`; empty
/// when nothing is set.
pub open spec fn enc(cc: CacheControlV) -> Seq<u8> {
    let a1 = enc_u64(Seq::<u8>::empty(), crate::keywords::kw_max_age(), cc.max_age);
    let a2 = enc_u64(a1, crate::keywords::kw_max_stale(), cc.max_stale);
    let a3 = enc_u64(a2, crate::keywords::kw_min_fresh(), cc.min_fresh);
    let a4 = enc_list(a3, crate::keywords::kw_no_cache(), cc.no_cache);
    let a5 = enc_bool(a4, crate::keywords::kw_no_store(), cc.no_store);
    let a6 = enc_bool(a5, crate::keywords::kw_no_transform(), cc.no_transform);
    let a7 = enc_bool(a6, crate::keywords::kw_only_if_cached(), cc.only_if_cached);
    let a8 = enc_bool(a7, crate::keywords::kw_must_revalidate(), cc.must_revalidate);
    let a9 = enc_bool(a8, crate::keywords::kw_must_understand(), cc.must_understand);
    let a10 = enc_bool(a9, crate::keywords::kw_transform(), cc.transform);
    let a11 = enc_list(a10, crate::keywords::kw_private(), cc.private);
    let a12 = enc_bool(a11, crate::keywords::kw_proxy_revalidate(), cc.proxy_revalidate);
    let a13 = enc_bool(a12, crate::keywords::kw_public(), cc.public);
    let a14 = enc_u64(a13, crate::keywords::kw_s_maxage(), cc.s_maxage);
    let a15 = enc_bool(a14, crate::keywords::kw_immutable(), cc.immutable);
    let a16 = enc_u64(a15, crate::keywords::kw_stale_while_revalidate(), cc.stale_while_revalidate);
    let a17 = enc_u64(a16, crate::keywords::kw_stale_if_error(), cc.stale_if_error);
    enc_exts(a17, cc.other)
}

/// Emit `", "` if the buffer already holds something.
fn put_sep(ret: &mut bytes::BytesMut)
    ensures
        buf_view(*final(ret)) == buf_view(*old(ret)) + sep(buf_view(*old(ret))),
{
    if !buf_is_empty(ret) {
        buf_put_u8(ret, 0x2C);
        buf_put_u8(ret, 0x20);
        proof {
            assert((buf_view(*old(ret)) + seq![0x2Cu8]) + seq![0x20u8] =~= buf_view(*old(ret))
                + seq![0x2Cu8, 0x20u8]);
        }
    } else {
        proof {
            assert(buf_view(*old(ret)) + Seq::<u8>::empty() =~= buf_view(*old(ret)));
        }
    }
}

/// Emit a numeric directive, if present.
fn put_u64(ret: &mut bytes::BytesMut, v: &Option<u64>, s: &[u8])
    ensures
        buf_view(*final(ret)) == enc_u64(buf_view(*old(ret)), s@, *v),
{
    match v {
        Some(x) => {
            put_sep(ret);
            buf_put_slice(ret, s);
            buf_put_u8(ret, 0x3D);
            let d = crate::util::encode_decimal(*x);
            buf_put_slice(ret, d.as_slice());
        },
        None => {},
    }
}

/// Emit a boolean directive, if set.
fn put_bool(ret: &mut bytes::BytesMut, v: &bool, s: &[u8])
    ensures
        buf_view(*final(ret)) == enc_bool(buf_view(*old(ret)), s@, *v),
{
    if *v {
        put_sep(ret);
        buf_put_slice(ret, s);
    }
}

/// Emit a field-name-list directive, if present.
#[verifier::loop_isolation(false)]
fn put_headerlist(ret: &mut bytes::BytesMut, v: &Option<Vec<Vec<u8>>>, s: &[u8])
    ensures
        buf_view(*final(ret)) == enc_list(buf_view(*old(ret)), s@, opt_list_view_ref(v)),
{
    match v {
        Some(l) => {
            put_sep(ret);
            buf_put_slice(ret, s);
            if l.len() > 0 {
                buf_put_u8(ret, 0x3D);
                buf_put_u8(ret, 0x22);
                let ghost ldeep = l.deep_view();
                let ghost base = buf_view(*ret);
                proof {
                    assert(ldeep.len() == l@.len());
                }
                buf_put_slice(ret, l[0].as_slice());
                proof {
                    assert(ldeep[0] == l@[0]@);
                    assert(ldeep.skip(1).len() == ldeep.len() - 1);
                }
                let mut k: usize = 1;
                while k < l.len()
                    invariant
                        1 <= k <= ldeep.len(),
                        buf_view(*ret) + rest_joined(ldeep.skip(k as int)) == base + join_comma(
                            ldeep,
                        ),
                    decreases ldeep.len() - k,
                {
                    let ghost b0 = buf_view(*ret);
                    buf_put_u8(ret, 0x2C);
                    buf_put_slice(ret, l[k].as_slice());
                    proof {
                        let rest = ldeep.skip(k as int);
                        assert(rest[0] == ldeep[k as int]);
                        assert(ldeep[k as int] == l@[k as int]@);
                        assert(rest.skip(1) =~= ldeep.skip(k as int + 1));
                        assert(rest_joined(rest) == seq![0x2Cu8] + rest[0] + rest_joined(
                            rest.skip(1),
                        ));
                        assert(((b0 + seq![0x2Cu8]) + l@[k as int]@) + rest_joined(
                            ldeep.skip(k as int + 1),
                        ) =~= b0 + (seq![0x2Cu8] + rest[0] + rest_joined(rest.skip(1))));
                    }
                    k = k + 1;
                }
                proof {
                    assert(rest_joined(ldeep.skip(k as int)) =~= Seq::<u8>::empty());
                    assert(buf_view(*ret) + Seq::<u8>::empty() =~= buf_view(*ret));
                }
                buf_put_u8(ret, 0x22);
                proof {
                    let old0 = buf_view(*old(ret));
                    assert((old0 + sep(old0) + s@ + seq![0x3Du8]) + seq![0x22u8] =~= old0 + sep(
                        old0,
                    ) + s@ + seq![0x3Du8, 0x22u8]);
                }
            }
        },
        None => {},
    }
}

/// View of a borrowed optional field-name list.
pub open spec fn opt_list_view_ref(o: &Option<Vec<Vec<u8>>>) -> Option<Seq<Seq<u8>>> {
    match *o {
        Some(v) => Some(v.deep_view()),
        None => None,
    }
}

/// Emit every extension directive, in stored order.
#[verifier::loop_isolation(false)]
fn put_other(ret: &mut bytes::BytesMut, v: &Vec<Extension>)
    ensures
        buf_view(*final(ret)) == enc_exts(buf_view(*old(ret)), ext_views(v)),
{
    let ghost exts = ext_views(v);
    let mut k: usize = 0;
    proof {
        assert(exts.skip(0) =~= exts);
    }
    while k < v.len()
        invariant
            0 <= k <= exts.len(),
            enc_exts(buf_view(*ret), exts.skip(k as int)) == enc_exts(
                buf_view(*old(ret)),
                exts,
            ),
        decreases exts.len() - k,
    {
        let ghost rest = exts.skip(k as int);
        let ghost b0 = buf_view(*ret);
        proof {
            assert(rest[0] == exts[k as int]);
        }
        put_sep(ret);
        buf_put_slice(ret, v[k].name.as_slice());
        match &v[k].arg {
            Some(raw) => {
                buf_put_u8(ret, 0x3D);
                buf_put_slice(ret, raw.as_slice());
                proof {
                    assert(buf_view(*ret) == enc_ext_one(b0, exts[k as int]));
                }
            },
            None => {
                proof {
                    assert(buf_view(*ret) == enc_ext_one(b0, exts[k as int]));
                }
            },
        }
        proof {
            assert(rest.skip(1) =~= exts.skip(k as int + 1));
        }
        k = k + 1;
    }
    proof {
        assert(exts.skip(k as int) =~= Seq::<ExtensionV>::empty());
    }
}

/// The spec-level images of a vector of extensions.
pub open spec fn ext_views(v: &Vec<Extension>) -> Seq<ExtensionV> {
    Seq::new(v@.len(), |k: int| v@[k]@)
}

impl CacheControl {
    /// Serialize the record as one header value in canonical form, or
    /// nothing when the record has no directive set at all.
    #[verifier::rlimit(100)]
    pub fn encode(&self) -> (r: Option<Vec<u8>>)
        ensures
            match r {
                Some(v) => v@ == enc(self@) && enc(self@).len() > 0,
                None => enc(self@).len() == 0,
            },
    {
        let mut ret = buf_new();
        put_u64(&mut ret, &self.max_age, bytes_max_age().as_slice());
        put_u64(&mut ret, &self.max_stale, bytes_max_stale().as_slice());
        put_u64(&mut ret, &self.min_fresh, bytes_min_fresh().as_slice());
        put_headerlist(&mut ret, &self.no_cache, bytes_no_cache().as_slice());
        put_bool(&mut ret, &self.no_store, bytes_no_store().as_slice());
        put_bool(&mut ret, &self.no_transform, bytes_no_transform().as_slice());
        put_bool(&mut ret, &self.only_if_cached, bytes_only_if_cached().as_slice());
        put_bool(&mut ret, &self.must_revalidate, bytes_must_revalidate().as_slice());
        put_bool(&mut ret, &self.must_understand, bytes_must_understand().as_slice());
        put_bool(&mut ret, &self.transform, bytes_transform().as_slice());
        put_headerlist(&mut ret, &self.private, bytes_private().as_slice());
        put_bool(&mut ret, &self.proxy_revalidate, bytes_proxy_revalidate().as_slice());
        put_bool(&mut ret, &self.public, bytes_public().as_slice());
        put_u64(&mut ret, &self.s_maxage, bytes_s_maxage().as_slice());
        put_bool(&mut ret, &self.immutable, bytes_immutable().as_slice());
        put_u64(&mut ret, &self.stale_while_revalidate, bytes_stale_while_revalidate().as_slice());
        put_u64(&mut ret, &self.stale_if_error, bytes_stale_if_error().as_slice());
        put_other(&mut ret, &self.other);
        proof {
            assert(ext_views(&self.other) =~= self@.other);
        }
        if buf_is_empty(&ret) {
            None
        } else {
            Some(buf_into_vec(ret))
        }
    }
}

} // verus!
