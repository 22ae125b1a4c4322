//! What the API clients send: request URLs with query strings, and the
//! RapidAPI headers, checked as the `http` crate checks header values.

use vstd::prelude::*;
use vstd::string::StringExecFns;

verus! {

#[verifier::external_type_specification]
#[verifier::external_body]
pub struct ExHeaderValue(http::HeaderValue);

/// The text of the URL that `reqwest::Url::parse` makes of `url`, with
/// `query_pairs_mut().append_pair(name, value)` applied, as `as_str` gives
/// it; nothing where `url` does not parse.
pub uninterp spec fn url_append_pair(url: Seq<char>, name: Seq<char>, value: Seq<char>) -> Option<Seq<char>>;

/// Calls `reqwest::Url::parse` (the `url` crate's parser) on `url`, then
/// `query_pairs_mut().append_pair(name, value)`, which adds `name=value`,
/// form-urlencoded, to the query, and gives back `as_str` of the result.
/// Claimed: the outcome depends on the three strings alone. What the URL
/// text is, is left to the name `url_append_pair`.
#[verifier::external_body]
fn append_query_pair(url: &str, name: &str, value: &str) -> (r: Option<String>)
    ensures
        r is Some <==> url_append_pair(url@, name@, value@) is Some,
        r matches Some(u) ==> url_append_pair(url@, name@, value@) == Some(u@),
{
    match reqwest::Url::parse(url) {
        Ok(mut u) => {
            u.query_pairs_mut().append_pair(name, value);
            Some(u.as_str().to_string())
        },
        Err(_) => None,
    }
}

/// The URL `url` with the pairs appended to its query one after another.
pub open spec fn url_with_query(url: Seq<char>, pairs: Seq<(Seq<char>, Seq<char>)>) -> Option<Seq<char>>
    decreases pairs.len(),
{
    if pairs.len() == 0 {
        Some(url)
    } else {
        match url_with_query(url, pairs.drop_last()) {
            Some(u) => url_append_pair(u, pairs.last().0, pairs.last().1),
            None => None,
        }
    }
}

/// The pairs of string slices as pairs of strings.
pub open spec fn pair_views(pairs: Seq<(&str, &str)>) -> Seq<(Seq<char>, Seq<char>)> {
    pairs.map_values(|p: (&str, &str)| (p.0@, p.1@))
}

/// Appends the pairs, in order, to the query of `url`; nothing where the URL
/// does not parse.
pub fn with_query(url: &str, pairs: &[(&str, &str)]) -> (r: Option<String>)
    ensures
        r is Some <==> url_with_query(url@, pair_views(pairs@)) is Some,
        r matches Some(u) ==> url_with_query(url@, pair_views(pairs@)) == Some(u@),
{
    let ghost ps = pair_views(pairs@);
    let mut current = String::from_str(url);
    let n = pairs.len();
    let mut i: usize = 0;
    proof {
        assert(ps.take(0) =~= Seq::<(Seq<char>, Seq<char>)>::empty());
    }
    while i < n
        invariant
            n == pairs@.len(),
            ps == pair_views(pairs@),
            i <= n,
            url_with_query(url@, ps.take(i as int)) == Some(current@),
        decreases n - i,
    {
        proof {
            assert(ps.take(i + 1).drop_last() =~= ps.take(i as int));
            assert(ps.take(i + 1).last() == (pairs@[i as int].0@, pairs@[i as int].1@));
        }
        let (name, value) = pairs[i];
        match append_query_pair(current.as_str(), name, value) {
            Some(next) => {
                current = next;
            },
            None => {
                proof {
                    lemma_url_with_query_none(url@, ps, i + 1);
                    assert(ps.take(n as int) =~= ps);
                }
                return None;
            },
        }
        i = i + 1;
    }
    proof {
        assert(ps.take(n as int) =~= ps);
    }
    Some(current)
}

/// Once the URL fails to parse, appending more pairs fails too.
proof fn lemma_url_with_query_none(url: Seq<char>, pairs: Seq<(Seq<char>, Seq<char>)>, i: int)
    requires
        0 <= i <= pairs.len(),
        url_with_query(url, pairs.take(i)) is None,
    ensures
        url_with_query(url, pairs) is None,
    decreases pairs.len() - i,
{
    if i < pairs.len() {
        assert(pairs.take(i + 1).drop_last() =~= pairs.take(i));
        lemma_url_with_query_none(url, pairs, i + 1);
    } else {
        assert(pairs.take(i) =~= pairs);
    }
}

/// A byte that the `http` crate allows in a header value: a visible ASCII
/// character, a space, a tab, or any byte from 128 up.
pub open spec fn header_value_byte(b: u8) -> bool {
    (b >= 32 && b != 127) || b == 9
}

/// Every byte of the UTF-8 text of `s` is allowed in a header value.
pub open spec fn valid_header_value(s: Seq<char>) -> bool {
    forall|i: int| 0 <= i < crate::text::utf8(s).len() ==> header_value_byte(#[trigger] crate::text::utf8(s)[i])
}

/// The bytes a header value holds (`HeaderValue::as_bytes`).
pub uninterp spec fn header_bytes(v: http::HeaderValue) -> Seq<u8>;

/// Calls `http::HeaderValue::from_str`, which accepts the text exactly when
/// each of its bytes is allowed in a header value (`is_valid`: 32 and up
/// but 127, or a tab), and copies the text's bytes into the value.
#[verifier::external_body]
fn header_value(s: &str) -> (r: Option<http::HeaderValue>)
    ensures
        r is Some <==> valid_header_value(s@),
        r matches Some(v) ==> header_bytes(v) == crate::text::utf8(s@),
{
    match http::HeaderValue::from_str(s) {
        Ok(v) => Some(v),
        Err(_) => None,
    }
}

/// The two headers that authenticate a request to a RapidAPI service: the
/// service's host and the caller's key.
pub struct RapidApiHeaders {
    pub host: http::HeaderValue,
    pub key: http::HeaderValue,
}

/// Why the RapidAPI headers cannot be made.
#[derive(Debug, Clone, Copy, PartialEq, Eq)]
pub enum HeaderError {
    /// The host has a byte not allowed in a header value.
    InvalidHost,
    /// The API key has a byte not allowed in a header value.
    InvalidApiKey,
}

/// The headers `x-rapidapi-host: host` and `x-rapidapi-key: api_key`; an
/// error for the first of the two values that has a byte not allowed in a
/// header value.
pub fn rapidapi_headers(host: &str, api_key: &str) -> (r: Result<RapidApiHeaders, HeaderError>)
    ensures
        r is Ok <==> valid_header_value(host@) && valid_header_value(api_key@),
        r matches Ok(h) ==> header_bytes(h.host) == crate::text::utf8(host@) && header_bytes(h.key)
            == crate::text::utf8(api_key@),
        r == Err::<RapidApiHeaders, HeaderError>(HeaderError::InvalidHost) <==> !valid_header_value(host@),
        r == Err::<RapidApiHeaders, HeaderError>(HeaderError::InvalidApiKey) <==> valid_header_value(host@) && !valid_header_value(api_key@),
{
    let host = match header_value(host) {
        Some(v) => v,
        None => return Err(HeaderError::InvalidHost),
    };
    let key = match header_value(api_key) {
        Some(v) => v,
        None => return Err(HeaderError::InvalidApiKey),
    };
    Ok(RapidApiHeaders { host, key })
}

/// The name of the header that names the RapidAPI host.
pub fn host_header_name() -> (name: &'static str)
    ensures
        name@ == seq!['x', '-', 'r', 'a', 'p', 'i', 'd', 'a', 'p', 'i', '-', 'h', 'o', 's', 't'],
{
    let name = "x-rapidapi-host";
    proof {
        reveal_strlit("x-rapidapi-host");
    }
    name
}

/// The name of the header that carries the RapidAPI key.
pub fn key_header_name() -> (name: &'static str)
    ensures
        name@ == seq!['x', '-', 'r', 'a', 'p', 'i', 'd', 'a', 'p', 'i', '-', 'k', 'e', 'y'],
{
    let name = "x-rapidapi-key";
    proof {
        reveal_strlit("x-rapidapi-key");
    }
    name
}

/// `s` between double quotes.
pub fn quoted(s: &str) -> (q: String)
    ensures
        q@ == seq!['"'] + s@ + seq!['"'],
{
    let mut q = String::new();
    q.append("\"");
    q.append(s);
    q.append("\"");
    proof {
        reveal_strlit("\"");
        assert(q@ =~= seq!['"'] + s@ + seq!['"']);
    }
    q
}

} // verus!
