//! Tests of the frequency model: ingestion counts, the division-by-zero
//! guards, the exact vector algebra behind the cosine similarity, the
//! ranking lines, and the binary codec round trip.
use twitcluster::freq::FrequencyTable;
use twitcluster::tweet::Tweet;

fn post(text: &str, handle: &str) -> Tweet {
    Tweet::new(1, String::from(text), String::from(handle))
}

fn model_of(text: &str) -> FrequencyTable {
    let mut ft = FrequencyTable::new();
    ft.add_tweet(&post(text, "a"));
    ft
}

#[test]
fn add_tweet_counts_tokens() {
    let mut ft = FrequencyTable::new();
    ft.add_tweet(&post("red blue red", "a"));
    assert_eq!(ft.freq(&String::from("red")), 2);
    assert_eq!(ft.freq(&String::from("blue")), 1);
    ft.add_tweet(&post("red", "a"));
    assert_eq!(ft.freq(&String::from("red")), 3);
}

#[test]
fn freq_guards_absent_words() {
    let ft = model_of("red");
    // absent words report 1 to keep downstream ratios away from zero
    assert_eq!(ft.freq(&String::from("green")), 1);
    // while the raw count is 0
    assert_eq!(ft.count_of(&String::from("green")), 0);
    assert_eq!(ft.count_of(&String::from("red")), 1);
}

#[test]
fn add_tweet_skips_empty_tokens() {
    let mut ft = FrequencyTable::new();
    // double spaces and edge spaces produce no empty token
    ft.add_tweet(&post(" red  blue ", "a"));
    assert_eq!(ft.vocab_len(), 2);
    assert_eq!(ft.freq(&String::from("red")), 1);
    assert_eq!(ft.freq(&String::from("blue")), 1);
}

#[test]
fn vocab_len_counts_distinct_words() {
    let ft = model_of("red blue red");
    assert_eq!(ft.vocab_len(), 2);
}

#[test]
fn dot_and_norm_are_exact() {
    // counts: red 2, blue 1 -> norm squared 5
    let a = model_of("red blue red");
    // counts: red 3, green 1 -> dot with a = 2 * 3 = 6
    let b = model_of("red red red green");
    assert_eq!(a.norm_sq(), 5);
    assert_eq!(b.norm_sq(), 10);
    assert_eq!(a.dot_counts(&b), 6);
    assert_eq!(b.dot_counts(&a), 6);
    assert_eq!(a.count_total(), 3);
}

#[test]
fn self_similarity_is_one() {
    // counts: x 3, y 4 -> norm squared 25, a perfect square, so even the
    // floating-point cosine of the model with itself is exactly 1
    let a = model_of("x x x y y y y");
    assert_eq!(a.dot_counts(&a), a.norm_sq());
    let sim = a.dot_counts(&a) as f64
        / ((a.norm_sq() as f64).sqrt() * (a.norm_sq() as f64).sqrt());
    assert_eq!(sim, 1.0);
}

#[test]
fn disjoint_similarity_is_zero() {
    let a = model_of("red blue");
    let b = model_of("green yellow");
    assert_eq!(a.dot_counts(&b), 0);
    let denom = (a.norm_sq() as f64).sqrt() * (b.norm_sq() as f64).sqrt();
    let sim = if denom == 0.0 { 0.0 } else { a.dot_counts(&b) as f64 / denom };
    assert_eq!(sim, 0.0);
}

#[test]
fn display_ranks_and_formats() {
    let mut ft = FrequencyTable::new();
    for _ in 0..12 {
        ft.add_tweet(&post("apple", "a"));
    }
    for _ in 0..3 {
        ft.add_tweet(&post("pear", "a"));
    }
    let lines = ft.display();
    assert_eq!(lines, vec![String::from("12x - apple"), String::from("3x  - pear")]);
}

#[test]
fn display_truncates_to_ten() {
    let mut ft = FrequencyTable::new();
    ft.add_tweet(&post("a b c d e f g h i j k l", "a"));
    assert_eq!(ft.display().len(), 10);
}

#[test]
fn model_round_trip_preserves_counts() {
    let mut ft = FrequencyTable::new();
    ft.add_tweet(&post("red blue red green", "a"));
    let mut bytes: Vec<u8> = Vec::new();
    ft.serialize(&mut bytes);
    let (back, used) = FrequencyTable::deserialize(bytes.as_slice(), 0).unwrap();
    assert_eq!(used, bytes.len());
    assert_eq!(back.vocab_len(), 3);
    assert_eq!(back.freq(&String::from("red")), 2);
    assert_eq!(back.freq(&String::from("blue")), 1);
    assert_eq!(back.freq(&String::from("green")), 1);
    // a model built via deserialize round-trips its word count too: the
    // first 8 bytes are the stored total word count
    let mut bytes2: Vec<u8> = Vec::new();
    back.serialize(&mut bytes2);
    assert_eq!(&bytes[0..8], &bytes2[0..8]);
    let (back2, _) = FrequencyTable::deserialize(bytes2.as_slice(), 0).unwrap();
    assert_eq!(back2.vocab_len(), back.vocab_len());
    assert_eq!(back2.freq(&String::from("red")), 2);
}

#[test]
fn deserialize_rejects_truncated_input() {
    let mut ft = FrequencyTable::new();
    ft.add_tweet(&post("red blue", "a"));
    let mut bytes: Vec<u8> = Vec::new();
    ft.serialize(&mut bytes);
    let cut = &bytes[0..bytes.len() - 1];
    assert!(FrequencyTable::deserialize(cut, 0).is_err());
}

#[test]
fn serialized_len_uses_reported_formula() {
    let mut ft = FrequencyTable::new();
    ft.add_tweet(&post("ab c", "a"));
    // 16 fixed + (16 + 2) + (16 + 1): the documented over-counting formula
    assert_eq!(ft.serialized_len(), 51);
}
