use primeclue::serialization::{Deserializable, Serializable, Serializator};
use std::collections::HashMap;
use std::fmt::Debug;

fn round_trip<T: Serializable + Deserializable + PartialEq + Debug>(v: T) {
    let mut s = Serializator::new();
    s.add(&v);
    assert!(s.is_ascii_tokens());
    let bytes = s.to_bytes();
    let mut d = Serializator::from_bytes(bytes).unwrap();
    let n = T::deserialize(&mut d).unwrap();
    assert_eq!(n, v);
}

#[test]
fn test_bool() {
    let f = false;
    round_trip(f);
    let t = true;
    round_trip(t);
}

#[test]
fn test_vec() {
    let v = vec![1u16, 2, 3];
    round_trip(v);
}

#[test]
fn test_string_with_space() {
    let s = "Some string with spaces".to_owned();
    let n = 43usize;
    round_trip((n, s));
}

#[test]
fn test_invalid_checksum() {
    let t = (42usize, "Some text".to_string());
    let mut s = Serializator::new();
    s.add(&t);
    let mut bytes = s.to_bytes();
    bytes[60] = 15;
    let r = Serializator::from_bytes(bytes);
    assert!(r.is_err());
    assert_eq!(r.err().unwrap(), "Invalid checksum");
}

#[test]
fn test_enough_tokens() {
    let mut s = Serializator::new();
    s.add(&42usize);
    let r = <(usize, String)>::deserialize(&mut s);
    assert!(r.is_err());
    assert_eq!(r.err().unwrap(), "Not enough tokens");
}

#[test]
fn test_option_invalid_token() {
    let mut s = Serializator::new();
    s.add_str("Smoe");
    s.add_str("15");
    let bytes = s.to_bytes();
    let mut s = Serializator::from_bytes(bytes).unwrap();
    let r: Result<Option<usize>, String> = Option::deserialize(&mut s);
    assert!(r.is_err());
    assert_eq!(r.err().unwrap(), "Invalid token when deserializing Option: 'Smoe'");
}

#[test]
fn test_option_round_trip() {
    round_trip(Some(15usize));
    round_trip(Option::<usize>::None);
    round_trip(Some((7usize, "seven".to_owned())));
}

#[test]
fn test_nested_round_trip() {
    let v: Vec<(usize, String)> =
        vec![(1, "one one".to_owned()), (2, "two".to_owned()), (3, "three".to_owned())];
    round_trip(v);
}

#[test]
fn test_usize_round_trip() {
    round_trip(0usize);
    round_trip(usize::MAX);
    round_trip(12345usize);
}

#[test]
fn test_corrupt_any_byte() {
    let t = (7usize, "label".to_string(), true);
    let mut s = Serializator::new();
    s.add(&t.0);
    s.add(&t.1);
    s.add(&t.2);
    let bytes = s.to_bytes();
    for i in 0..bytes.len() {
        let mut corrupted = bytes.clone();
        corrupted[i] = if corrupted[i] == b'x' { b'y' } else { b'x' };
        let r = Serializator::from_bytes(corrupted);
        assert!(r.is_err(), "byte {} corruption went unnoticed", i);
    }
}

#[test]
fn test_next_token_order() {
    let mut s = Serializator::new();
    s.add_str("alpha");
    s.add_str("beta");
    assert_eq!(s.next_token().unwrap(), "alpha");
    assert_eq!(s.next_token().unwrap(), "beta");
    assert_eq!(s.next_token().err().unwrap(), "Not enough tokens");
}

#[test]
fn test_as_serialized() {
    let mut s = Serializator::new();
    s.add_str("a");
    s.add_str("b c");
    assert_eq!(s.as_serialized(), "a bPRIMECLUE_SPACE_SUBSTITUTEc ");
}

#[test]
fn test_add_items() {
    let mut s = Serializator::new();
    let a = 1usize;
    let b = 2usize;
    s.add_items(&[&a, &b]);
    assert_eq!(s.next_token().unwrap(), "1");
    assert_eq!(s.next_token().unwrap(), "2");
}

#[test]
fn test_sentinel_text_is_lossy() {
    // A string holding the sentinel text itself cannot survive the space
    // substitution: it comes back as a single space.
    let mut s = Serializator::new();
    s.add(&"PRIMECLUE_SPACE_SUBSTITUTE".to_owned());
    let bytes = s.to_bytes();
    let mut d = Serializator::from_bytes(bytes).unwrap();
    let n = String::deserialize(&mut d).unwrap();
    assert_eq!(n, " ");
}

#[test]
fn test_map() {
    let mut m = HashMap::new();
    m.insert(1u16, "1".to_string());
    m.insert(2, "2".to_string());
    m.insert(3, "3".to_string());
    let entries: Vec<(u16, String)> = m.iter().map(|(k, v)| (*k, v.clone())).collect();
    let mut s = Serializator::new();
    s.add(&entries);
    let bytes = s.to_bytes();
    let mut d = Serializator::from_bytes(bytes).unwrap();
    let back = Vec::<(u16, String)>::deserialize(&mut d).unwrap();
    let n: HashMap<u16, String> = back.into_iter().collect();
    assert_eq!(n, m);
}
