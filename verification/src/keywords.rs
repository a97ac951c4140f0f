//! The registered `Cache-Control` directive names (RFC 9111 5.2), as byte
//! sequences, with their classification against the extension-token fallback.
//!
//! Matching is exact and case-sensitive. A token that equals none of the
//! names below is an extension directive.

use vstd::prelude::*;

verus! {

/// A registered directive name.
#[derive(Clone, Copy, Debug, PartialEq, Eq, Structural)]
pub enum Directive {
    MaxAge,
    MaxStale,
    MinFresh,
    NoCache,
    NoStore,
    NoTransform,
    OnlyIfCached,
    MustRevalidate,
    MustUnderstand,
    Transform,
    Private,
    ProxyRevalidate,
    Public,
    SMaxage,
    Immutable,
    StaleWhileRevalidate,
    StaleIfError,
}

/// The name `max-age`.
pub open spec fn kw_max_age() -> Seq<u8> {
    seq![0x6d, 0x61, 0x78, 0x2d, 0x61, 0x67, 0x65]
}

/// The name `max-stale`.
pub open spec fn kw_max_stale() -> Seq<u8> {
    seq![0x6d, 0x61, 0x78, 0x2d, 0x73, 0x74, 0x61, 0x6c, 0x65]
}

/// The name `min-fresh`.
pub open spec fn kw_min_fresh() -> Seq<u8> {
    seq![0x6d, 0x69, 0x6e, 0x2d, 0x66, 0x72, 0x65, 0x73, 0x68]
}

/// The name `no-cache`.
pub open spec fn kw_no_cache() -> Seq<u8> {
    seq![0x6e, 0x6f, 0x2d, 0x63, 0x61, 0x63, 0x68, 0x65]
}

/// The name `no-store`.
pub open spec fn kw_no_store() -> Seq<u8> {
    seq![0x6e, 0x6f, 0x2d, 0x73, 0x74, 0x6f, 0x72, 0x65]
}

/// The name `no-transform`.
pub open spec fn kw_no_transform() -> Seq<u8> {
    seq![0x6e, 0x6f, 0x2d, 0x74, 0x72, 0x61, 0x6e, 0x73, 0x66, 0x6f, 0x72, 0x6d]
}

/// The name `only-if-cached`.
pub open spec fn kw_only_if_cached() -> Seq<u8> {
    seq![0x6f, 0x6e, 0x6c, 0x79, 0x2d, 0x69, 0x66, 0x2d, 0x63, 0x61, 0x63, 0x68, 0x65, 0x64]
}

/// The name `must-revalidate`.
pub open spec fn kw_must_revalidate() -> Seq<u8> {
    seq![0x6d, 0x75, 0x73, 0x74, 0x2d, 0x72, 0x65, 0x76, 0x61, 0x6c, 0x69, 0x64, 0x61, 0x74, 0x65]
}

/// The name `must-understand`.
pub open spec fn kw_must_understand() -> Seq<u8> {
    seq![0x6d, 0x75, 0x73, 0x74, 0x2d, 0x75, 0x6e, 0x64, 0x65, 0x72, 0x73, 0x74, 0x61, 0x6e, 0x64]
}

/// The name `transform`.
pub open spec fn kw_transform() -> Seq<u8> {
    seq![0x74, 0x72, 0x61, 0x6e, 0x73, 0x66, 0x6f, 0x72, 0x6d]
}

/// The name `private`.
pub open spec fn kw_private() -> Seq<u8> {
    seq![0x70, 0x72, 0x69, 0x76, 0x61, 0x74, 0x65]
}

/// The name `proxy-revalidate`.
pub open spec fn kw_proxy_revalidate() -> Seq<u8> {
    seq![0x70, 0x72, 0x6f, 0x78, 0x79, 0x2d, 0x72, 0x65, 0x76, 0x61, 0x6c, 0x69, 0x64, 0x61, 0x74, 0x65]
}

/// The name `public`.
pub open spec fn kw_public() -> Seq<u8> {
    seq![0x70, 0x75, 0x62, 0x6c, 0x69, 0x63]
}

/// The name `s-maxage`.
pub open spec fn kw_s_maxage() -> Seq<u8> {
    seq![0x73, 0x2d, 0x6d, 0x61, 0x78, 0x61, 0x67, 0x65]
}

/// The name `immutable`.
pub open spec fn kw_immutable() -> Seq<u8> {
    seq![0x69, 0x6d, 0x6d, 0x75, 0x74, 0x61, 0x62, 0x6c, 0x65]
}

/// The name `stale-while-revalidate`.
pub open spec fn kw_stale_while_revalidate() -> Seq<u8> {
    seq![0x73, 0x74, 0x61, 0x6c, 0x65, 0x2d, 0x77, 0x68, 0x69, 0x6c, 0x65, 0x2d, 0x72, 0x65, 0x76, 0x61, 0x6c, 0x69, 0x64, 0x61, 0x74, 0x65]
}

/// The name `stale-if-error`.
pub open spec fn kw_stale_if_error() -> Seq<u8> {
    seq![0x73, 0x74, 0x61, 0x6c, 0x65, 0x2d, 0x69, 0x66, 0x2d, 0x65, 0x72, 0x72, 0x6f, 0x72]
}

/// Which registered directive a token names, if any.
pub open spec fn classify_spec(n: Seq<u8>) -> Option<Directive> {
    if n == kw_max_age() {
        Some(Directive::MaxAge)
    } else if n == kw_max_stale() {
        Some(Directive::MaxStale)
    } else if n == kw_min_fresh() {
        Some(Directive::MinFresh)
    } else if n == kw_no_cache() {
        Some(Directive::NoCache)
    } else if n == kw_no_store() {
        Some(Directive::NoStore)
    } else if n == kw_no_transform() {
        Some(Directive::NoTransform)
    } else if n == kw_only_if_cached() {
        Some(Directive::OnlyIfCached)
    } else if n == kw_must_revalidate() {
        Some(Directive::MustRevalidate)
    } else if n == kw_must_understand() {
        Some(Directive::MustUnderstand)
    } else if n == kw_transform() {
        Some(Directive::Transform)
    } else if n == kw_private() {
        Some(Directive::Private)
    } else if n == kw_proxy_revalidate() {
        Some(Directive::ProxyRevalidate)
    } else if n == kw_public() {
        Some(Directive::Public)
    } else if n == kw_s_maxage() {
        Some(Directive::SMaxage)
    } else if n == kw_immutable() {
        Some(Directive::Immutable)
    } else if n == kw_stale_while_revalidate() {
        Some(Directive::StaleWhileRevalidate)
    } else if n == kw_stale_if_error() {
        Some(Directive::StaleIfError)
    } else {
        None
    }
}

/// The bytes of `max-age`.
pub fn bytes_max_age() -> (v: Vec<u8>)
    ensures
        v@ == kw_max_age(),
{
    let mut v: Vec<u8> = Vec::new();
    v.push(0x6d);
    v.push(0x61);
    v.push(0x78);
    v.push(0x2d);
    v.push(0x61);
    v.push(0x67);
    v.push(0x65);
    proof {
        assert(v@ =~= kw_max_age());
    }
    v
}

/// The bytes of `max-stale`.
pub fn bytes_max_stale() -> (v: Vec<u8>)
    ensures
        v@ == kw_max_stale(),
{
    let mut v: Vec<u8> = Vec::new();
    v.push(0x6d);
    v.push(0x61);
    v.push(0x78);
    v.push(0x2d);
    v.push(0x73);
    v.push(0x74);
    v.push(0x61);
    v.push(0x6c);
    v.push(0x65);
    proof {
        assert(v@ =~= kw_max_stale());
    }
    v
}

/// The bytes of `min-fresh`.
pub fn bytes_min_fresh() -> (v: Vec<u8>)
    ensures
        v@ == kw_min_fresh(),
{
    let mut v: Vec<u8> = Vec::new();
    v.push(0x6d);
    v.push(0x69);
    v.push(0x6e);
    v.push(0x2d);
    v.push(0x66);
    v.push(0x72);
    v.push(0x65);
    v.push(0x73);
    v.push(0x68);
    proof {
        assert(v@ =~= kw_min_fresh());
    }
    v
}

/// The bytes of `no-cache`.
pub fn bytes_no_cache() -> (v: Vec<u8>)
    ensures
        v@ == kw_no_cache(),
{
    let mut v: Vec<u8> = Vec::new();
    v.push(0x6e);
    v.push(0x6f);
    v.push(0x2d);
    v.push(0x63);
    v.push(0x61);
    v.push(0x63);
    v.push(0x68);
    v.push(0x65);
    proof {
        assert(v@ =~= kw_no_cache());
    }
    v
}

/// The bytes of `no-store`.
pub fn bytes_no_store() -> (v: Vec<u8>)
    ensures
        v@ == kw_no_store(),
{
    let mut v: Vec<u8> = Vec::new();
    v.push(0x6e);
    v.push(0x6f);
    v.push(0x2d);
    v.push(0x73);
    v.push(0x74);
    v.push(0x6f);
    v.push(0x72);
    v.push(0x65);
    proof {
        assert(v@ =~= kw_no_store());
    }
    v
}

/// The bytes of `no-transform`.
pub fn bytes_no_transform() -> (v: Vec<u8>)
    ensures
        v@ == kw_no_transform(),
{
    let mut v: Vec<u8> = Vec::new();
    v.push(0x6e);
    v.push(0x6f);
    v.push(0x2d);
    v.push(0x74);
    v.push(0x72);
    v.push(0x61);
    v.push(0x6e);
    v.push(0x73);
    v.push(0x66);
    v.push(0x6f);
    v.push(0x72);
    v.push(0x6d);
    proof {
        assert(v@ =~= kw_no_transform());
    }
    v
}

/// The bytes of `only-if-cached`.
pub fn bytes_only_if_cached() -> (v: Vec<u8>)
    ensures
        v@ == kw_only_if_cached(),
{
    let mut v: Vec<u8> = Vec::new();
    v.push(0x6f);
    v.push(0x6e);
    v.push(0x6c);
    v.push(0x79);
    v.push(0x2d);
    v.push(0x69);
    v.push(0x66);
    v.push(0x2d);
    v.push(0x63);
    v.push(0x61);
    v.push(0x63);
    v.push(0x68);
    v.push(0x65);
    v.push(0x64);
    proof {
        assert(v@ =~= kw_only_if_cached());
    }
    v
}

/// The bytes of `must-revalidate`.
pub fn bytes_must_revalidate() -> (v: Vec<u8>)
    ensures
        v@ == kw_must_revalidate(),
{
    let mut v: Vec<u8> = Vec::new();
    v.push(0x6d);
    v.push(0x75);
    v.push(0x73);
    v.push(0x74);
    v.push(0x2d);
    v.push(0x72);
    v.push(0x65);
    v.push(0x76);
    v.push(0x61);
    v.push(0x6c);
    v.push(0x69);
    v.push(0x64);
    v.push(0x61);
    v.push(0x74);
    v.push(0x65);
    proof {
        assert(v@ =~= kw_must_revalidate());
    }
    v
}

/// The bytes of `must-understand`.
pub fn bytes_must_understand() -> (v: Vec<u8>)
    ensures
        v@ == kw_must_understand(),
{
    let mut v: Vec<u8> = Vec::new();
    v.push(0x6d);
    v.push(0x75);
    v.push(0x73);
    v.push(0x74);
    v.push(0x2d);
    v.push(0x75);
    v.push(0x6e);
    v.push(0x64);
    v.push(0x65);
    v.push(0x72);
    v.push(0x73);
    v.push(0x74);
    v.push(0x61);
    v.push(0x6e);
    v.push(0x64);
    proof {
        assert(v@ =~= kw_must_understand());
    }
    v
}

/// The bytes of `transform`.
pub fn bytes_transform() -> (v: Vec<u8>)
    ensures
        v@ == kw_transform(),
{
    let mut v: Vec<u8> = Vec::new();
    v.push(0x74);
    v.push(0x72);
    v.push(0x61);
    v.push(0x6e);
    v.push(0x73);
    v.push(0x66);
    v.push(0x6f);
    v.push(0x72);
    v.push(0x6d);
    proof {
        assert(v@ =~= kw_transform());
    }
    v
}

/// The bytes of `private`.
pub fn bytes_private() -> (v: Vec<u8>)
    ensures
        v@ == kw_private(),
{
    let mut v: Vec<u8> = Vec::new();
    v.push(0x70);
    v.push(0x72);
    v.push(0x69);
    v.push(0x76);
    v.push(0x61);
    v.push(0x74);
    v.push(0x65);
    proof {
        assert(v@ =~= kw_private());
    }
    v
}

/// The bytes of `proxy-revalidate`.
pub fn bytes_proxy_revalidate() -> (v: Vec<u8>)
    ensures
        v@ == kw_proxy_revalidate(),
{
    let mut v: Vec<u8> = Vec::new();
    v.push(0x70);
    v.push(0x72);
    v.push(0x6f);
    v.push(0x78);
    v.push(0x79);
    v.push(0x2d);
    v.push(0x72);
    v.push(0x65);
    v.push(0x76);
    v.push(0x61);
    v.push(0x6c);
    v.push(0x69);
    v.push(0x64);
    v.push(0x61);
    v.push(0x74);
    v.push(0x65);
    proof {
        assert(v@ =~= kw_proxy_revalidate());
    }
    v
}

/// The bytes of `public`.
pub fn bytes_public() -> (v: Vec<u8>)
    ensures
        v@ == kw_public(),
{
    let mut v: Vec<u8> = Vec::new();
    v.push(0x70);
    v.push(0x75);
    v.push(0x62);
    v.push(0x6c);
    v.push(0x69);
    v.push(0x63);
    proof {
        assert(v@ =~= kw_public());
    }
    v
}

/// The bytes of `s-maxage`.
pub fn bytes_s_maxage() -> (v: Vec<u8>)
    ensures
        v@ == kw_s_maxage(),
{
    let mut v: Vec<u8> = Vec::new();
    v.push(0x73);
    v.push(0x2d);
    v.push(0x6d);
    v.push(0x61);
    v.push(0x78);
    v.push(0x61);
    v.push(0x67);
    v.push(0x65);
    proof {
        assert(v@ =~= kw_s_maxage());
    }
    v
}

/// The bytes of `immutable`.
pub fn bytes_immutable() -> (v: Vec<u8>)
    ensures
        v@ == kw_immutable(),
{
    let mut v: Vec<u8> = Vec::new();
    v.push(0x69);
    v.push(0x6d);
    v.push(0x6d);
    v.push(0x75);
    v.push(0x74);
    v.push(0x61);
    v.push(0x62);
    v.push(0x6c);
    v.push(0x65);
    proof {
        assert(v@ =~= kw_immutable());
    }
    v
}

/// The bytes of `stale-while-revalidate`.
pub fn bytes_stale_while_revalidate() -> (v: Vec<u8>)
    ensures
        v@ == kw_stale_while_revalidate(),
{
    let mut v: Vec<u8> = Vec::new();
    v.push(0x73);
    v.push(0x74);
    v.push(0x61);
    v.push(0x6c);
    v.push(0x65);
    v.push(0x2d);
    v.push(0x77);
    v.push(0x68);
    v.push(0x69);
    v.push(0x6c);
    v.push(0x65);
    v.push(0x2d);
    v.push(0x72);
    v.push(0x65);
    v.push(0x76);
    v.push(0x61);
    v.push(0x6c);
    v.push(0x69);
    v.push(0x64);
    v.push(0x61);
    v.push(0x74);
    v.push(0x65);
    proof {
        assert(v@ =~= kw_stale_while_revalidate());
    }
    v
}

/// The bytes of `stale-if-error`.
pub fn bytes_stale_if_error() -> (v: Vec<u8>)
    ensures
        v@ == kw_stale_if_error(),
{
    let mut v: Vec<u8> = Vec::new();
    v.push(0x73);
    v.push(0x74);
    v.push(0x61);
    v.push(0x6c);
    v.push(0x65);
    v.push(0x2d);
    v.push(0x69);
    v.push(0x66);
    v.push(0x2d);
    v.push(0x65);
    v.push(0x72);
    v.push(0x72);
    v.push(0x6f);
    v.push(0x72);
    proof {
        assert(v@ =~= kw_stale_if_error());
    }
    v
}

/// Byte-for-byte equality of two slices.
pub fn bytes_eq(a: &[u8], b: &[u8]) -> (r: bool)
    ensures
        r == (a@ == b@),
{
    if a.len() != b.len() {
        proof {
            assert(a@.len() != b@.len());
        }
        return false;
    }
    let mut k: usize = 0;
    while k < a.len()
        invariant
            0 <= k <= a@.len(),
            a@.len() == b@.len(),
            forall|j: int| 0 <= j < k ==> a@[j] == b@[j],
        decreases a@.len() - k,
    {
        if a[k] != b[k] {
            proof {
                assert(a@[k as int] != b@[k as int]);
            }
            return false;
        }
        k = k + 1;
    }
    proof {
        assert(a@ =~= b@);
    }
    true
}

/// Classify a token: a registered directive name, or an extension token.
pub fn classify(name: &[u8]) -> (r: Option<Directive>)
    ensures
        r == classify_spec(name@),
{
    if bytes_eq(name, bytes_max_age().as_slice()) {
        Some(Directive::MaxAge)
    } else if bytes_eq(name, bytes_max_stale().as_slice()) {
        Some(Directive::MaxStale)
    } else if bytes_eq(name, bytes_min_fresh().as_slice()) {
        Some(Directive::MinFresh)
    } else if bytes_eq(name, bytes_no_cache().as_slice()) {
        Some(Directive::NoCache)
    } else if bytes_eq(name, bytes_no_store().as_slice()) {
        Some(Directive::NoStore)
    } else if bytes_eq(name, bytes_no_transform().as_slice()) {
        Some(Directive::NoTransform)
    } else if bytes_eq(name, bytes_only_if_cached().as_slice()) {
        Some(Directive::OnlyIfCached)
    } else if bytes_eq(name, bytes_must_revalidate().as_slice()) {
        Some(Directive::MustRevalidate)
    } else if bytes_eq(name, bytes_must_understand().as_slice()) {
        Some(Directive::MustUnderstand)
    } else if bytes_eq(name, bytes_transform().as_slice()) {
        Some(Directive::Transform)
    } else if bytes_eq(name, bytes_private().as_slice()) {
        Some(Directive::Private)
    } else if bytes_eq(name, bytes_proxy_revalidate().as_slice()) {
        Some(Directive::ProxyRevalidate)
    } else if bytes_eq(name, bytes_public().as_slice()) {
        Some(Directive::Public)
    } else if bytes_eq(name, bytes_s_maxage().as_slice()) {
        Some(Directive::SMaxage)
    } else if bytes_eq(name, bytes_immutable().as_slice()) {
        Some(Directive::Immutable)
    } else if bytes_eq(name, bytes_stale_while_revalidate().as_slice()) {
        Some(Directive::StaleWhileRevalidate)
    } else if bytes_eq(name, bytes_stale_if_error().as_slice()) {
        Some(Directive::StaleIfError)
    } else {
        None
    }
}

} // verus!
