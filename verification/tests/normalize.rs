//! Tests of text normalization: URL stripping, entity stripping, the
//! character allow-list, and lower-casing, in that order.
use twitcluster::text::strip_text;
use twitcluster::tweet::Tweet;

#[test]
fn normalize_example() {
    // the URL vanishes before filtering, leaving its surrounding spaces;
    // the exclamation mark is dropped; the rest is lower-cased
    let r = strip_text("Check http://example.com NOW! #Vote @Sen");
    assert_eq!(r, "check  now #vote @sen");
}

#[test]
fn normalize_strips_entities() {
    assert_eq!(strip_text("cats &amp; dogs"), "cats  dogs");
}

#[test]
fn normalize_keeps_allowed_characters() {
    assert_eq!(strip_text("A_b@C#1' x-y.z"), "a_b@c#1' xyz");
}

#[test]
fn normalize_url_without_scheme() {
    assert_eq!(strip_text("see example.com please"), "see  please");
}

#[test]
fn tweet_new_normalizes_once() {
    let t = Tweet::new(
        7,
        String::from("Hello WORLD!"),
        String::from("alice"),
    );
    assert_eq!(t.id, 7);
    assert_eq!(t.text, "Hello WORLD!");
    assert_eq!(t.handle, "alice");
    assert_eq!(t.stripped_text, "hello world");
}
