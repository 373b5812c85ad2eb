//! Tests of the byte codec: pinned little-endian layout, post and post-list
//! round trips, and the failure on malformed input.
use twitcluster::codec::{put_str, put_u64, read_string, read_u64};
use twitcluster::tweet::{Tweet, TweetList};

#[test]
fn u64_layout_is_little_endian() {
    let mut out: Vec<u8> = Vec::new();
    put_u64(&mut out, 0x0102_0304_0506_0708);
    assert_eq!(out, vec![8, 7, 6, 5, 4, 3, 2, 1]);
    let (x, p) = read_u64(out.as_slice(), 0).unwrap();
    assert_eq!(x, 0x0102_0304_0506_0708);
    assert_eq!(p, 8);
}

#[test]
fn string_layout_is_length_prefixed() {
    let mut out: Vec<u8> = Vec::new();
    put_str(&mut out, "hi");
    assert_eq!(out, vec![2, 0, 0, 0, 0, 0, 0, 0, b'h', b'i']);
    let (s, p) = read_string(out.as_slice(), 0).unwrap();
    assert_eq!(s, "hi");
    assert_eq!(p, 10);
}

#[test]
fn read_rejects_short_input() {
    assert!(read_u64(&[1, 2, 3], 0).is_err());
    // a length prefix promising more bytes than remain
    let bytes = [9, 0, 0, 0, 0, 0, 0, 0, b'x'];
    assert!(read_string(&bytes, 0).is_err());
}

#[test]
fn read_rejects_invalid_utf8() {
    let bytes = [1, 0, 0, 0, 0, 0, 0, 0, 0xFF];
    assert!(read_string(&bytes, 0).is_err());
}

#[test]
fn tweet_round_trip() {
    let t = Tweet::new(42, String::from("Hello http://x.io WORLD"), String::from("bob"));
    let mut bytes: Vec<u8> = Vec::new();
    t.serialize(&mut bytes);
    assert_eq!(bytes.len() as u64, t.serialized_len());
    let (back, used) = Tweet::deserialize(bytes.as_slice(), 0).unwrap();
    assert_eq!(used, bytes.len());
    assert_eq!(back.id, 42);
    assert_eq!(back.text, "Hello http://x.io WORLD");
    assert_eq!(back.handle, "bob");
    assert_eq!(back.stripped_text, t.stripped_text);
}

#[test]
fn tweet_list_round_trip() {
    let list = TweetList(vec![
        Tweet::new(1, String::from("one two"), String::from("a")),
        Tweet::new(2, String::from("three"), String::from("b")),
    ]);
    let mut bytes: Vec<u8> = Vec::new();
    list.serialize(&mut bytes);
    assert_eq!(bytes.len() as u64, list.serialized_len());
    let (back, used) = TweetList::deserialize(bytes.as_slice(), 0).unwrap();
    assert_eq!(used, bytes.len());
    assert_eq!(back.0.len(), 2);
    assert_eq!(back.0[0].id, 1);
    assert_eq!(back.0[0].handle, "a");
    assert_eq!(back.0[1].text, "three");
}
