//! A post: its id, raw text, normalized text and author handle. The
//! normalized text is computed once, at construction. Both the single post
//! and a list of posts carry the binary codec of `codec`: a post is
//! `[id:8][normalized:string][raw:string][handle:string]`, a list is an
//! 8-byte count followed by the posts.
use crate::codec::{
    decode_str_at, decode_u64_at, encode_str, encode_u64, lemma_str_round_trip,
    lemma_u64_round_trip, put_str, put_u64, read_string, read_u64, DecodeError,
};
use crate::text::{entity_stripped, filter_allowed, lower_of, strip_text, url_stripped};
use vstd::prelude::*;

verus! {

/// An immutable record of one post, produced once at ingestion time.
pub struct Tweet {
    pub stripped_text: String,
    pub text: String,
    pub id: u64,
    pub handle: String,
}

/// The byte encoding of one post.
pub open spec fn encode_tweet(t: Tweet) -> Seq<u8> {
    encode_u64(t.id) + encode_str(t.stripped_text@) + encode_str(t.text@) + encode_str(t.handle@)
}

/// The post whose encoding starts at `pos`: its fields and the position after
/// it, or `None` when the bytes do not decode.
pub open spec fn decode_tweet_at(bytes: Seq<u8>, pos: int) -> Option<
    ((u64, Seq<char>, Seq<char>, Seq<char>), int),
> {
    if !(0 <= pos && pos + 8 <= bytes.len()) {
        None
    } else {
        let id = decode_u64_at(bytes, pos);
        match decode_str_at(bytes, pos + 8) {
            None => None,
            Some((st, p1)) => match decode_str_at(bytes, p1) {
                None => None,
                Some((tx, p2)) => match decode_str_at(bytes, p2) {
                    None => None,
                    Some((h, p3)) => Some(((id, st, tx, h), p3)),
                },
            },
        }
    }
}

impl Tweet {
    /// Builds a post from plain values, normalizing the raw text once.
    pub fn new(id: u64, text: String, handle: String) -> (t: Tweet)
        ensures
            t.id == id,
            t.text == text,
            t.handle == handle,
            t.stripped_text@ == lower_of(filter_allowed(entity_stripped(url_stripped(text@)))),
    {
        let stripped_text = strip_text(text.as_str());
        Tweet { stripped_text, text, id, handle }
    }

    /// Appends this post's encoding to the sink.
    pub fn serialize(&self, out: &mut Vec<u8>)
        ensures
            final(out)@ == old(out)@ + encode_tweet(*self),
    {
        put_u64(out, self.id);
        put_str(out, self.stripped_text.as_str());
        put_str(out, self.text.as_str());
        put_str(out, self.handle.as_str());
        proof {
            assert(final(out)@ =~= old(out)@ + encode_tweet(*self));
        }
    }

    /// Reads one post from `data` at `pos`; fails exactly when the bytes do
    /// not decode.
    pub fn deserialize(data: &[u8], pos: usize) -> (r: Result<(Tweet, usize), DecodeError>)
        ensures
            match r {
                Ok(v) => {
                    &&& decode_tweet_at(data@, pos as int) == Some(
                        ((v.0.id, v.0.stripped_text@, v.0.text@, v.0.handle@), v.1 as int),
                    )
                    &&& pos <= v.1 <= data@.len()
                },
                Err(_) => decode_tweet_at(data@, pos as int) is None,
            },
    {
        let (id, p0) = match read_u64(data, pos) {
            Ok(x) => x,
            Err(e) => {
                return Err(e);
            },
        };
        let (stripped_text, p1) = match read_string(data, p0) {
            Ok(x) => x,
            Err(e) => {
                return Err(e);
            },
        };
        let (text, p2) = match read_string(data, p1) {
            Ok(x) => x,
            Err(e) => {
                return Err(e);
            },
        };
        let (handle, p3) = match read_string(data, p2) {
            Ok(x) => x,
            Err(e) => {
                return Err(e);
            },
        };
        Ok((Tweet { stripped_text, text, id, handle }, p3))
    }

    /// The exact number of bytes `serialize` appends, saturated at the
    /// largest 64-bit value.
    pub fn serialized_len(&self) -> (r: u64)
        ensures
            r as nat == spec_tweet_len(*self),
    {
        let total: u128 = 32u128 + self.stripped_text.as_str().len() as u128
            + self.text.as_str().len() as u128 + self.handle.as_str().len() as u128;
        if total > u64::MAX as u128 {
            u64::MAX
        } else {
            total as u64
        }
    }
}

/// The byte length of one post's encoding, saturated at the largest 64-bit
/// value.
pub open spec fn spec_tweet_len(t: Tweet) -> nat {
    let n = 32 + (vstd::utf8::encode_utf8(t.stripped_text@).len() as usize)
        + (vstd::utf8::encode_utf8(t.text@).len() as usize) + (vstd::utf8::encode_utf8(
        t.handle@,
    ).len() as usize);
    if n > u64::MAX {
        u64::MAX as nat
    } else {
        n as nat
    }
}

/// A list of posts, encoded as an 8-byte count followed by the posts.
pub struct TweetList(pub Vec<Tweet>);

/// The concatenated encodings of a sequence of posts.
pub open spec fn encode_tweets(ts: Seq<Tweet>) -> Seq<u8>
    decreases ts.len(),
{
    if ts.len() == 0 {
        Seq::empty()
    } else {
        encode_tweets(ts.drop_last()) + encode_tweet(ts.last())
    }
}

/// The encoding of a whole list.
pub open spec fn encode_tweet_list(ts: Seq<Tweet>) -> Seq<u8> {
    encode_u64(ts.len() as u64) + encode_tweets(ts)
}

/// The fields of `n` posts decoded in sequence from `pos`.
pub open spec fn decode_tweets_at(bytes: Seq<u8>, pos: int, n: nat) -> Option<
    (Seq<(u64, Seq<char>, Seq<char>, Seq<char>)>, int),
>
    decreases n,
{
    if n == 0 {
        Some((Seq::empty(), pos))
    } else {
        match decode_tweet_at(bytes, pos) {
            None => None,
            Some((t, p1)) => match decode_tweets_at(bytes, p1, (n - 1) as nat) {
                None => None,
                Some((rest, end)) => Some((seq![t] + rest, end)),
            },
        }
    }
}

/// The field tuples of a sequence of posts.
pub open spec fn tweet_fields(ts: Seq<Tweet>) -> Seq<(u64, Seq<char>, Seq<char>, Seq<char>)> {
    ts.map_values(|t: Tweet| (t.id, t.stripped_text@, t.text@, t.handle@))
}

impl TweetList {
    /// Appends the list's encoding to the sink.
    pub fn serialize(&self, out: &mut Vec<u8>)
        ensures
            final(out)@ == old(out)@ + encode_tweet_list(self.0@),
    {
        put_u64(out, self.0.len() as u64);
        let ghost base = out@;
        let mut i: usize = 0;
        while i < self.0.len()
            invariant
                i <= self.0@.len(),
                out@ == base + encode_tweets(self.0@.take(i as int)),
            decreases self.0@.len() - i,
        {
            self.0[i].serialize(out);
            proof {
                let t1 = self.0@.take(i + 1 as int);
                assert(t1.drop_last() =~= self.0@.take(i as int));
                assert(t1.last() == self.0@[i as int]);
                assert(out@ =~= base + encode_tweets(t1));
            }
            i += 1;
        }
        proof {
            assert(self.0@.take(self.0@.len() as int) =~= self.0@);
            assert(final(out)@ =~= old(out)@ + encode_tweet_list(self.0@));
        }
    }

    /// Reads a whole list from `data` at `pos`; fails exactly when the bytes
    /// do not decode.
    pub fn deserialize(data: &[u8], pos: usize) -> (r: Result<(TweetList, usize), DecodeError>)
        ensures
            match r {
                Ok(v) => {
                    &&& pos + 8 <= data@.len()
                    &&& decode_tweets_at(
                        data@,
                        pos + 8,
                        decode_u64_at(data@, pos as int) as nat,
                    ) == Some((tweet_fields(v.0.0@), v.1 as int))
                },
                Err(_) => pos + 8 > data@.len() || decode_tweets_at(
                    data@,
                    pos + 8,
                    decode_u64_at(data@, pos as int) as nat,
                ) is None,
            },
    {
        let (n, p0) = match read_u64(data, pos) {
            Ok(x) => x,
            Err(e) => {
                return Err(e);
            },
        };
        let mut out: Vec<Tweet> = Vec::new();
        let mut i: u64 = 0;
        let mut p = p0;
        while i < n
            invariant
                i <= n,
                pos + 8 <= data@.len(),
                n == decode_u64_at(data@, pos as int),
                p0 == pos + 8,
                out@.len() == i,
                decode_tweets_at(data@, p0 as int, n as nat) == (match decode_tweets_at(
                    data@,
                    p as int,
                    (n - i) as nat,
                ) {
                    None => None::<(Seq<(u64, Seq<char>, Seq<char>, Seq<char>)>, int)>,
                    Some((rest, end)) => Some((tweet_fields(out@) + rest, end)),
                }),
            decreases n - i,
        {
            let (t, p2) = match Tweet::deserialize(data, p) {
                Ok(x) => x,
                Err(e) => {
                    return Err(e);
                },
            };
            out.push(t);
            proof {
                assert(tweet_fields(out@) =~= tweet_fields(out@.drop_last()) + seq![
                    (t.id, t.stripped_text@, t.text@, t.handle@),
                ]);
                assert forall|rest: Seq<(u64, Seq<char>, Seq<char>, Seq<char>)>|
                    true implies #[trigger] (tweet_fields(out@.drop_last()) + (seq![
                    (t.id, t.stripped_text@, t.text@, t.handle@),
                ] + rest)) =~= tweet_fields(out@) + rest by {}
            }
            p = p2;
            i += 1;
        }
        proof {
            assert(tweet_fields(out@) + Seq::<(u64, Seq<char>, Seq<char>, Seq<char>)>::empty()
                =~= tweet_fields(out@));
        }
        Ok((TweetList(out), p))
    }

    /// The exact number of bytes `serialize` appends, saturated at the
    /// largest 64-bit value.
    pub fn serialized_len(&self) -> (r: u64)
        ensures
            r as nat == spec_tweet_list_len(self.0@),
    {
        let mut total: u64 = 8;
        let mut i: usize = 0;
        while i < self.0.len()
            invariant
                i <= self.0@.len(),
                total as nat == spec_tweets_len(self.0@.take(i as int)),
            decreases self.0@.len() - i,
        {
            let t = self.0[i].serialized_len();
            total = if total > u64::MAX - t {
                u64::MAX
            } else {
                total + t
            };
            proof {
                let t1 = self.0@.take(i + 1 as int);
                assert(t1.drop_last() =~= self.0@.take(i as int));
                assert(t1.last() == self.0@[i as int]);
            }
            i += 1;
        }
        proof {
            assert(self.0@.take(self.0@.len() as int) =~= self.0@);
        }
        total
    }
}

/// The saturated sum of the posts' byte lengths, starting from the 8-byte
/// count field.
pub open spec fn spec_tweets_len(ts: Seq<Tweet>) -> nat
    decreases ts.len(),
{
    if ts.len() == 0 {
        8
    } else {
        let n = spec_tweets_len(ts.drop_last()) + spec_tweet_len(ts.last());
        if n > u64::MAX {
            u64::MAX as nat
        } else {
            n
        }
    }
}

/// The byte length that `TweetList::serialize` reports, saturated.
pub open spec fn spec_tweet_list_len(ts: Seq<Tweet>) -> nat {
    spec_tweets_len(ts)
}

/// The reported length of one post is exactly the number of bytes its
/// `serialize` appends, whenever the texts fit in memory and the total fits
/// the 64-bit report.
pub proof fn lemma_tweet_len_is_encoding_len(t: Tweet)
    requires
        vstd::utf8::encode_utf8(t.stripped_text@).len() <= usize::MAX,
        vstd::utf8::encode_utf8(t.text@).len() <= usize::MAX,
        vstd::utf8::encode_utf8(t.handle@).len() <= usize::MAX,
        32 + vstd::utf8::encode_utf8(t.stripped_text@).len() + vstd::utf8::encode_utf8(
            t.text@,
        ).len() + vstd::utf8::encode_utf8(t.handle@).len() <= u64::MAX,
    ensures
        spec_tweet_len(t) == encode_tweet(t).len(),
{
    vstd::bytes::lemma_auto_spec_u64_to_from_le_bytes();
    assert(encode_u64(t.id).len() == 8);
    assert(encode_str(t.stripped_text@).len() == 8 + vstd::utf8::encode_utf8(
        t.stripped_text@,
    ).len());
    assert(encode_str(t.text@).len() == 8 + vstd::utf8::encode_utf8(t.text@).len());
    assert(encode_str(t.handle@).len() == 8 + vstd::utf8::encode_utf8(t.handle@).len());
}

/// A post read back from where one was written is the written post, provided
/// each text's byte length fits its 8-byte length field.
#[verifier::rlimit(50)]
pub proof fn lemma_tweet_round_trip(a: Seq<u8>, t: Tweet, b: Seq<u8>)
    requires
        vstd::utf8::encode_utf8(t.stripped_text@).len() < 0x1_0000_0000_0000_0000,
        vstd::utf8::encode_utf8(t.text@).len() < 0x1_0000_0000_0000_0000,
        vstd::utf8::encode_utf8(t.handle@).len() < 0x1_0000_0000_0000_0000,
    ensures
        decode_tweet_at(a + encode_tweet(t) + b, a.len() as int) == Some(
            ((t.id, t.stripped_text@, t.text@, t.handle@), a.len() as int + encode_tweet(t).len()),
        ),
{
    let bytes = a + encode_tweet(t) + b;
    let pos = a.len() as int;
    let e0 = encode_u64(t.id);
    let e1 = encode_str(t.stripped_text@);
    let e2 = encode_str(t.text@);
    let e3 = encode_str(t.handle@);
    vstd::bytes::lemma_auto_spec_u64_to_from_le_bytes();
    assert(e0.len() == 8);
    assert(e1.len() == 8 + vstd::utf8::encode_utf8(t.stripped_text@).len());
    assert(e2.len() == 8 + vstd::utf8::encode_utf8(t.text@).len());
    assert(e3.len() == 8 + vstd::utf8::encode_utf8(t.handle@).len());
    lemma_u64_round_trip(a, t.id, e1 + e2 + e3 + b);
    assert(a + e0 + (e1 + e2 + e3 + b) =~= bytes);
    assert(decode_u64_at(bytes, pos) == t.id);
    lemma_str_round_trip(a + e0, t.stripped_text@, e2 + e3 + b);
    assert((a + e0) + e1 + (e2 + e3 + b) =~= bytes);
    let p1 = pos + 8 + e1.len() as int;
    assert(decode_str_at(bytes, pos + 8) == Some((t.stripped_text@, p1)));
    lemma_str_round_trip(a + e0 + e1, t.text@, e3 + b);
    assert((a + e0 + e1) + e2 + (e3 + b) =~= bytes);
    assert((a + e0 + e1).len() == p1);
    let p2 = p1 + e2.len() as int;
    assert(decode_str_at(bytes, p1) == Some((t.text@, p2)));
    lemma_str_round_trip(a + e0 + e1 + e2, t.handle@, b);
    assert((a + e0 + e1 + e2) + e3 + b =~= bytes);
    assert((a + e0 + e1 + e2).len() == p2);
    let p3 = p2 + e3.len() as int;
    assert(decode_str_at(bytes, p2) == Some((t.handle@, p3)));
    assert(p3 == pos + encode_tweet(t).len());
}

} // verus!
