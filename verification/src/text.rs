//! Text normalization: a raw post is stripped of URL-like substrings and
//! HTML-entity escapes, reduced to an allow-listed character set, and
//! lower-cased — in that order, so that URL and entity punctuation never
//! leaks into the kept characters.
use vstd::prelude::*;

verus! {

/// What stripping URL-like substrings returns for a given text; a function of
/// the characters alone.
pub uninterp spec fn url_stripped(s: Seq<char>) -> Seq<char>;

/// What stripping `&...;` entity escapes returns for a given text; a function
/// of the characters alone.
pub uninterp spec fn entity_stripped(s: Seq<char>) -> Seq<char>;

/// What lower-casing returns for a given text; a function of the characters
/// alone.
pub uninterp spec fn lower_of(s: Seq<char>) -> Seq<char>;

/// Relies on regex's `Regex::replace_all`, with a fixed pattern that roughly
/// recognizes URLs (an optional scheme, a host-like token, a 2–3 letter top
/// level domain, an optional path): every match is removed, and the result
/// depends on the text alone.
#[verifier::external_body]
fn strip_urls(x: &str) -> (r: String)
    ensures
        r@ == url_stripped(x@),
{
    let re = regex::Regex::new("(https://|http://)?[a-zA-Z\\-]+\\.([a-zA-Z]{2,3})(/\\S+)?").unwrap();
    re.replace_all(x, "").into_owned()
}

/// Relies on regex's `Regex::replace_all`, with a fixed pattern recognizing
/// HTML-entity escapes of the form `&...;`: every match is removed, and the
/// result depends on the text alone.
#[verifier::external_body]
fn strip_entities(x: &str) -> (r: String)
    ensures
        r@ == entity_stripped(x@),
{
    let re = regex::Regex::new("&.+;").unwrap();
    re.replace_all(x, "").into_owned()
}

/// Relies on `str::to_lowercase`: the result depends on the characters alone.
#[verifier::external_body]
fn lowercase(x: &str) -> (r: String)
    ensures
        r@ == lower_of(x@),
{
    x.to_lowercase()
}

/// Relies on std's `String::push`: appends one character.
#[verifier::external_body]
pub(crate) fn push_char(s: &mut String, c: char)
    ensures
        final(s)@ == old(s)@.push(c),
{
    s.push(c);
}

/// The characters that normalization keeps: ASCII letters and digits, a fixed
/// emoji code-point range, underscore, `@`, `#`, apostrophe, and space.
pub open spec fn is_allowed_char(c: char) -> bool {
    let u = c as u32;
    ||| (65 <= u && u <= 90)
    ||| (97 <= u && u <= 122)
    ||| (48 <= u && u <= 57)
    ||| u == 95
    ||| u == 64
    ||| u == 35
    ||| u == 39
    ||| u == 32
    ||| (0x203C <= u && u <= 0x1F9C0)
}

/// The text reduced to its allowed characters, in order.
pub open spec fn filter_allowed(s: Seq<char>) -> Seq<char> {
    s.filter(|c: char| is_allowed_char(c))
}

/// Keeps exactly the allowed characters of the text, in order.
fn keep_allowed(x: &str) -> (r: String)
    ensures
        r@ == filter_allowed(x@),
{
    let n = x.unicode_len();
    let mut out = String::new();
    let mut i: usize = 0;
    while i < n
        invariant
            i <= n,
            n == x@.len(),
            out@ == filter_allowed(x@.take(i as int)),
        decreases n - i,
    {
        let c = x.get_char(i);
        let u = c as u32;
        if (65 <= u && u <= 90) || (97 <= u && u <= 122) || (48 <= u && u <= 57) || u == 95 || u
            == 64 || u == 35 || u == 39 || u == 32 || (0x203C <= u && u <= 0x1F9C0) {
            push_char(&mut out, c);
        }
        proof {
            reveal(Seq::filter);
            let t1 = x@.take(i + 1 as int);
            assert(t1.drop_last() =~= x@.take(i as int));
            assert(t1.last() == c);
            assert(filter_allowed(t1) == if is_allowed_char(c) {
                filter_allowed(x@.take(i as int)).push(c)
            } else {
                filter_allowed(x@.take(i as int))
            });
        }
        i += 1;
    }
    proof {
        assert(x@.take(n as int) =~= x@);
    }
    out
}

/// Normalizes a raw post: strips URL-like substrings, then HTML-entity
/// escapes, keeps only the allowed characters, and lower-cases the result.
/// The order is significant: stripping happens before filtering so that URL
/// and entity punctuation does not leak into the allow-listed characters.
pub fn strip_text(x: &str) -> (r: String)
    ensures
        r@ == lower_of(filter_allowed(entity_stripped(url_stripped(x@)))),
{
    let z = strip_urls(x);
    let y = strip_entities(z.as_str());
    let kept = keep_allowed(y.as_str());
    lowercase(kept.as_str())
}

} // verus!
