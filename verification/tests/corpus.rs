//! Tests of the corpus manager: ingestion by author, clustering, the
//! nearest-author search, and their typed errors.
use twitcluster::processor::{CorpusError, TweetProcessor};
use twitcluster::tweet::Tweet;

fn post(text: &str, handle: &str) -> Tweet {
    Tweet::new(1, String::from(text), String::from(handle))
}

fn ingest(p: &mut TweetProcessor, text: &str, handle: &str) {
    p.process_tweet(&post(text, handle));
}

#[test]
fn process_tweet_groups_by_author() {
    let mut p = TweetProcessor::new();
    ingest(&mut p, "red blue", "alice");
    ingest(&mut p, "red", "alice");
    ingest(&mut p, "green", "bob");
    assert_eq!(p.map.count, 2);
    let alice = p.map.get(&String::from("alice")).unwrap();
    assert_eq!(alice.freq(&String::from("red")), 2);
    assert_eq!(alice.freq(&String::from("blue")), 1);
    let bob = p.map.get(&String::from("bob")).unwrap();
    assert_eq!(bob.freq(&String::from("green")), 1);
}

#[test]
fn single_group_holds_every_author() {
    let mut p = TweetProcessor::new();
    ingest(&mut p, "red red red", "alice");
    ingest(&mut p, "blue", "bob");
    ingest(&mut p, "green green", "carol");
    for iters in [0usize, 3usize] {
        let groups = p.k_means_groups(1, iters).unwrap();
        assert_eq!(groups.len(), 1);
        let mut names = groups[0].clone();
        names.sort();
        assert_eq!(
            names,
            vec![String::from("alice"), String::from("bob"), String::from("carol")]
        );
    }
}

#[test]
fn clustering_partitions_the_authors() {
    let mut p = TweetProcessor::new();
    ingest(&mut p, "a", "tiny1");
    ingest(&mut p, "b", "tiny2");
    ingest(&mut p, "c c c c c c c c c c c c c c c c c c c c", "big1");
    ingest(&mut p, "d d d d d d d d d d d d d d d d d d d d d", "big2");
    let groups = p.k_means_groups(2, 10).unwrap();
    assert_eq!(groups.len(), 2);
    let mut all: Vec<String> = groups.concat();
    all.sort();
    assert_eq!(
        all,
        vec![
            String::from("big1"),
            String::from("big2"),
            String::from("tiny1"),
            String::from("tiny2")
        ]
    );
}

#[test]
fn clustering_errors() {
    let p = TweetProcessor::new();
    assert_eq!(p.k_means_groups(1, 5), Err(CorpusError::EmptyCorpus));
    let mut p2 = TweetProcessor::new();
    ingest(&mut p2, "x", "alice");
    assert_eq!(p2.k_means_groups(0, 5), Err(CorpusError::NotEnoughAuthors));
    assert_eq!(p2.k_means_groups(2, 5), Err(CorpusError::NotEnoughAuthors));
}

#[test]
fn two_author_corpus_returns_the_other() {
    let mut p = TweetProcessor::new();
    ingest(&mut p, "red blue red", "alice");
    ingest(&mut p, "red green", "bob");
    assert_eq!(p.closest_key(&String::from("alice")), Ok(String::from("bob")));
    assert_eq!(p.closest_key(&String::from("bob")), Ok(String::from("alice")));
}

#[test]
fn closest_skips_zero_similarity() {
    let mut p = TweetProcessor::new();
    ingest(&mut p, "red blue red blue", "alice");
    ingest(&mut p, "red blue blue", "near");
    ingest(&mut p, "unrelated words only", "far");
    // "far" shares no vocabulary with "alice", so whatever the enumeration
    // order, the nearest author is "near"
    assert_eq!(p.closest_key(&String::from("alice")), Ok(String::from("near")));
}

#[test]
fn closest_key_errors() {
    let p = TweetProcessor::new();
    assert_eq!(p.closest_key(&String::from("alice")), Err(CorpusError::EmptyCorpus));
    let mut p2 = TweetProcessor::new();
    ingest(&mut p2, "x", "alice");
    assert_eq!(p2.closest_key(&String::from("bob")), Err(CorpusError::UnknownAuthor));
    assert_eq!(p2.closest_key(&String::from("alice")), Err(CorpusError::NoOtherAuthor));
}
