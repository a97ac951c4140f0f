use cache_headers::age::process_header;
use cache_headers::age::Age;

fn decode(vals: &[&str]) -> Option<Age> {
    let occurrences: Vec<Vec<u8>> = vals.iter().map(|v| v.as_bytes().to_vec()).collect();
    Age::decode(&occurrences).ok()
}

#[test]
fn age_test_decode() {
    assert_eq!(decode(&["0"]), Some(Age(0)));
    assert_eq!(decode(&["123"]), Some(Age(123)));
    assert_eq!(decode(&["000000000000000123"]), Some(Age(123)));
    assert_eq!(decode(&["123123123123123123"]), Some(Age(123123123123123123)));
    assert_eq!(decode(&["000000000000000000123"]), Some(Age(123)));
    assert_eq!(decode(&["123123123123123123123"]), Some(Age(u64::MAX)));
    assert_eq!(decode(&[", ,,,   ,  123, ,    ,"]), Some(Age(123)));
    assert_eq!(decode(&["123, 234"]), Some(Age(123)));
    assert_eq!(decode(&["123", ""]), Some(Age(123)));
    assert_eq!(decode(&["123", ",, ,    ,"]), Some(Age(123)));
    assert_eq!(decode(&[", ,,,   ,  123, ,    ,", ",, ,,   ,"]), Some(Age(123)));
    assert_eq!(decode(&["123, a"]), Some(Age(123)));
    assert_eq!(decode(&[", ,,,   ,  123, ,a   ,"]), Some(Age(123)));
    assert_eq!(decode(&[", ,,,   ,  123, ,   ,", "a"]), Some(Age(123)));
    assert_eq!(decode(&[", ,,,   ,  123, ,   ,", ",, a, ,,   ,"]), Some(Age(123)));
    assert_eq!(decode(&["-0"]), None);
    assert_eq!(decode(&["-123"]), None);
    assert_eq!(decode(&["-000000000000000123"]), None);
    assert_eq!(decode(&["-123123123123123123"]), None);
    assert_eq!(decode(&["-000000000000000000123"]), None);
    assert_eq!(decode(&["-123123123123123123123"]), None);
    assert_eq!(decode(&["123 234"]), None);
    assert_eq!(decode(&["a"]), None);
    assert_eq!(decode(&["a, 123"]), Some(Age(123)));
    assert_eq!(decode(&[",, a, 123,"]), Some(Age(123)));
    assert_eq!(decode(&["a", "123"]), Some(Age(123)));
}

#[test]
fn age_test_encode() {
    assert_eq!(Age(0).encode(), b"0".to_vec());
    assert_eq!(Age(123).encode(), b"123".to_vec());
    assert_eq!(Age(123123123123123123).encode(), b"123123123123123123".to_vec());
}

#[test]
fn age_empty_set_is_absent() {
    assert_eq!(decode(&[]), None);
    assert_eq!(decode(&["", ""]), None);
}

#[test]
fn age_single_occurrence_scan() {
    assert_eq!(process_header(b"  42  "), Some(Age(42)));
    assert_eq!(process_header(b" , , "), None);
    assert_eq!(process_header(b"4 2"), None);
}

#[test]
fn age_invalid_members_are_skipped() {
    assert_eq!(process_header(b"x, 7"), Some(Age(7)));
    assert_eq!(process_header(b"12 34, 7"), Some(Age(7)));
    assert_eq!(process_header(b"-1, 7"), Some(Age(7)));
    assert_eq!(decode(&["garbage", "z, 9"]), Some(Age(9)));
    assert_eq!(decode(&["x y", "%%"]), None);
}
