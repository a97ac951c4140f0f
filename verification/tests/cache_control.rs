use cache_headers::cache_control::header_list;
use cache_headers::cache_control::CacheControl;
use cache_headers::cache_control::Extension;
use cache_headers::ParseError;

fn decode(vals: &[&str]) -> Result<CacheControl, ParseError> {
    let occurrences: Vec<Vec<u8>> = vals.iter().map(|v| v.as_bytes().to_vec()).collect();
    CacheControl::decode(&occurrences)
}

fn encode_str(cc: &CacheControl) -> Option<String> {
    cc.encode().map(|v| String::from_utf8(v).unwrap())
}

#[test]
fn test_header_list() {
    assert_eq!(
        header_list(b"foo,bar,bazzz"),
        Ok(vec![b"foo".to_vec(), b"bar".to_vec(), b"bazzz".to_vec()])
    );
    assert_eq!(
        header_list(b",,, , foo, bar, bazzz ,    , "),
        Ok(vec![b"foo".to_vec(), b"bar".to_vec(), b"bazzz".to_vec()])
    );
    assert_eq!(header_list(b""), Ok(vec![]));
    assert_eq!(header_list(b"foo bar"), Err(ParseError::InvalidSyntax));
}

#[test]
fn it_works() {
    let cc = decode(&[r#",,, , , ,, ,,,,  no-store ,, , ,,zak     ="\\\"" ,, ,immutable     , ,     ,"#])
        .unwrap();
    assert_eq!(encode_str(&cc).unwrap(), r#"no-store, immutable, zak="\\\"""#);
}

#[test]
fn numeric_directive_round_trip() {
    let cc = decode(&["max-age=123"]).unwrap();
    assert_eq!(cc.max_age, Some(123));
    assert_eq!(encode_str(&cc).unwrap(), "max-age=123");
}

#[test]
fn numeric_directive_saturates() {
    let cc = decode(&["max-age=99999999999999999999"]).unwrap();
    assert_eq!(cc.max_age, Some(u64::MAX));
    assert_eq!(encode_str(&cc).unwrap(), "max-age=18446744073709551615");
}

#[test]
fn numeric_directive_needs_digits() {
    assert_eq!(decode(&["max-age=a"]), Err(ParseError::InvalidSyntax));
    assert_eq!(decode(&["max-age"]), Err(ParseError::InvalidSyntax));
    assert_eq!(decode(&["no-store, max-age=a"]), Err(ParseError::InvalidSyntax));
}

#[test]
fn flag_directive_forbids_argument() {
    assert_eq!(decode(&["no-store=1"]), Err(ParseError::InvalidSyntax));
    assert_eq!(decode(&["public=x"]), Err(ParseError::InvalidSyntax));
}

#[test]
fn stray_delimiters_fail() {
    assert_eq!(decode(&["=1"]), Err(ParseError::InvalidSyntax));
    assert_eq!(decode(&["no-store no-cache"]), Err(ParseError::InvalidSyntax));
    assert_eq!(decode(&["max-age="]), Err(ParseError::InvalidSyntax));
    assert_eq!(decode(&["max-age=\"12"]), Err(ParseError::InvalidSyntax));
    assert_eq!(decode(&["\u{7f}"]), Err(ParseError::InvalidSyntax));
}

#[test]
fn whitespace_and_empty_members_are_tolerated() {
    let plain = decode(&["no-store"]).unwrap();
    assert_eq!(decode(&[" , no-store , "]).unwrap(), plain);
    assert_eq!(decode(&[",,no-store,,"]).unwrap(), plain);
    assert_eq!(decode(&["\tno-store\t"]).unwrap(), plain);
}

#[test]
fn padding_between_directives_is_transparent() {
    let plain = decode(&["no-store,max-age=1,foo=bar"]).unwrap();
    let padded = decode(&["no-store ,,\t , max-age=1 ,\t,foo=bar ,,"]).unwrap();
    assert_eq!(padded, plain);
}

#[test]
fn empty_value_is_the_empty_record() {
    let cc = decode(&[""]).unwrap();
    assert_eq!(cc, CacheControl::default());
    assert_eq!(cc.encode(), None);
    let cc2 = decode(&["  \t ,, ,"]).unwrap();
    assert_eq!(cc2, CacheControl::default());
}

#[test]
fn field_name_lists_round_trip() {
    let cc = decode(&["no-cache=\"foo,bar\""]).unwrap();
    assert_eq!(cc.no_cache, Some(vec![b"foo".to_vec(), b"bar".to_vec()]));
    assert_eq!(encode_str(&cc).unwrap(), "no-cache=\"foo,bar\"");
    let cc2 = decode(&["private=etag"]).unwrap();
    assert_eq!(cc2.private, Some(vec![b"etag".to_vec()]));
    assert_eq!(encode_str(&cc2).unwrap(), "private=\"etag\"");
}

#[test]
fn field_names_are_lowercased() {
    let cc = decode(&["no-cache=\"FOO,Bar\""]).unwrap();
    assert_eq!(cc.no_cache, Some(vec![b"foo".to_vec(), b"bar".to_vec()]));
}

#[test]
fn empty_field_name_list_resets_to_absent() {
    let cc = decode(&["no-cache=\"\""]).unwrap();
    assert_eq!(cc.no_cache, None);
    let cc2 = decode(&["no-cache"]).unwrap();
    assert_eq!(cc2.no_cache, None);
    let cc3 = decode(&["private=\",,\""]).unwrap();
    assert_eq!(cc3.private, None);
}

#[test]
fn unknown_directives_round_trip() {
    let cc = decode(&["foo, qux=bar, zak=\"a b\""]).unwrap();
    assert_eq!(
        cc.other,
        vec![
            Extension { name: b"foo".to_vec(), arg: None },
            Extension { name: b"qux".to_vec(), arg: Some(b"bar".to_vec()) },
            Extension { name: b"zak".to_vec(), arg: Some(b"\"a b\"".to_vec()) },
        ]
    );
    assert_eq!(encode_str(&cc).unwrap(), "foo, qux=bar, zak=\"a b\"");
}

#[test]
fn decode_encode_is_idempotent_on_canonical_forms() {
    let inputs = [
        "  max-age = 123 ,, no-store,private=\"A,b\" , x-mine=\"q\\\"z\" ,foo",
        "must-understand, transform, stale-while-revalidate=5",
        "s-maxage=0, immutable, min-fresh=99, max-stale=1",
        "only-if-cached, proxy-revalidate, public, no-transform, stale-if-error=7",
    ];
    for input in inputs {
        let once = decode(&[input]).unwrap();
        let canonical = encode_str(&once).unwrap();
        let twice = decode(&[canonical.as_str()]).unwrap();
        assert_eq!(twice, once);
        assert_eq!(encode_str(&twice).unwrap(), canonical);
    }
}

#[test]
fn occurrences_accumulate_like_a_joined_list() {
    let split = decode(&["max-age=1, no-store", "foo=bar", "max-age=2"]).unwrap();
    let joined = decode(&["max-age=1, no-store, foo=bar, max-age=2"]).unwrap();
    assert_eq!(split, joined);
    assert_eq!(split.max_age, Some(2));
    assert!(split.no_store);
}

#[test]
fn escaped_arguments_keep_raw_bytes() {
    let cc = decode(&[r#"zak="\\""#]).unwrap();
    assert_eq!(
        cc.other,
        vec![Extension { name: b"zak".to_vec(), arg: Some(br#""\\""#.to_vec()) }]
    );
    assert_eq!(encode_str(&cc).unwrap(), r#"zak="\\""#);
}

#[test]
fn canonical_order_is_fixed() {
    let cc = decode(&["ext=1, stale-if-error=3, no-store, max-age=9"]).unwrap();
    assert_eq!(encode_str(&cc).unwrap(), "max-age=9, no-store, stale-if-error=3, ext=1");
}

#[test]
fn must_understand_is_kept() {
    let cc = decode(&["must-understand, no-store"]).unwrap();
    assert!(cc.must_understand);
    assert_eq!(encode_str(&cc).unwrap(), "no-store, must-understand");
}
