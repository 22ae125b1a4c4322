//! Streaming Availability API results: what the API tells of a movie, and
//! on which streaming services it can be watched.

use crate::sorted_map::{SortedMap, keys_of};
use crate::text::str_lt;
use crate::text::utf8;
use crate::web::{url_append_pair, header_bytes, HeaderError, RapidApiHeaders, rapidapi_headers, valid_header_value, pair_views, url_with_query, with_query};
use vstd::prelude::*;

verus! {

/// Where a movie streams on one service in one country.
#[derive(Debug)]
pub struct Streaming {
    pub link: String,
    pub added: u64,
    pub leaving: u64,
}

/// What the Streaming Availability API tells of a movie.
#[derive(Debug)]
pub struct Availability {
    pub imdb_id: String,
    pub tmdb_id: String,
    pub imdb_rating: u16,
    pub imdb_vote_count: u64,
    pub tmdb_rating: u16,
    pub original_title: String,
    pub genres: Vec<u16>,
    pub countries: Vec<String>,
    pub year: u16,
    pub runtime: u16,
    pub cast: Vec<String>,
    pub significants: Vec<String>,
    pub title: String,
    pub overview: String,
    pub tagline: String,
    /// For each streaming service, by name, where the movie streams on it,
    /// by country.
    pub streaming_info: SortedMap<SortedMap<Streaming>>,
}

impl Availability {
    /// The names of the streaming services the movie streams on, in order.
    pub fn services(&self) -> (names: Vec<String>)
        ensures
            names@.map_values(|s: String| s@) == keys_of(self.streaming_info@),
            forall|i: int, j: int|
                0 <= i < j < names@.len() ==> str_lt(#[trigger] names@[i]@, #[trigger] names@[j]@),
    {
        self.streaming_info.keys()
    }
}

/// The host of the Streaming Availability API on RapidAPI.
pub fn api_host() -> (host: &'static str)
    ensures
        host@ == "streaming-availability.p.rapidapi.com"@,
{
    "streaming-availability.p.rapidapi.com"
}

/// The query of a lookup of the movie with IMDb id `imdb_id`: English
/// output, the US catalogue, and the id.
pub open spec fn lookup_query(imdb_id: Seq<char>) -> Seq<(Seq<char>, Seq<char>)> {
    seq![("output_language"@, "en"@), ("country"@, "us"@), ("imdb_id"@, imdb_id)]
}

/// The lookup URL of every IMDb id asks for English output and the US
/// catalogue, then for the id itself: the first two pairs of the query are
/// the same for any two ids, and the URL is the base with
/// `output_language=en`, `country=us` and `imdb_id` = the id appended in
/// that order.
pub proof fn lemma_lookup_url_query(imdb_id: Seq<char>)
    ensures
        forall|other: Seq<char>| #[trigger] lookup_query(other).take(2) == lookup_query(imdb_id).take(2),
        lookup_query(imdb_id).len() == 3,
        lookup_query(imdb_id)[0] == ("output_language"@, "en"@),
        lookup_query(imdb_id)[1] == ("country"@, "us"@),
        lookup_query(imdb_id)[2] == ("imdb_id"@, imdb_id),
        url_with_query("https://streaming-availability.p.rapidapi.com/get/basic"@, lookup_query(imdb_id)) == match url_append_pair("https://streaming-availability.p.rapidapi.com/get/basic"@, "output_language"@, "en"@) {
            Some(u1) => match url_append_pair(u1, "country"@, "us"@) {
                Some(u2) => url_append_pair(u2, "imdb_id"@, imdb_id),
                None => None,
            },
            None => None,
        },
{
    assert forall|other: Seq<char>| #[trigger] lookup_query(other).take(2) == lookup_query(imdb_id).take(2) by {
        assert(lookup_query(other).take(2) =~= lookup_query(imdb_id).take(2));
    };
    let base = "https://streaming-availability.p.rapidapi.com/get/basic"@;
    let q = lookup_query(imdb_id);
    assert(q.drop_last().drop_last().drop_last() =~= Seq::<(Seq<char>, Seq<char>)>::empty());
    assert(q.drop_last().drop_last() =~= seq![("output_language"@, "en"@)]);
    assert(q.drop_last() =~= seq![("output_language"@, "en"@), ("country"@, "us"@)]);
    assert(url_with_query(base, q.drop_last().drop_last().drop_last()) == Some(base));
    assert(url_with_query(base, q.drop_last().drop_last()) == url_append_pair(base, "output_language"@, "en"@));
    assert(q.drop_last().last() == ("country"@, "us"@));
    assert(url_with_query(base, q.drop_last()) == match url_with_query(base, q.drop_last().drop_last()) {
        Some(u1) => url_append_pair(u1, "country"@, "us"@),
        None => None,
    });
    assert(q.last() == ("imdb_id"@, imdb_id));
    assert(url_with_query(base, q) == match url_with_query(base, q.drop_last()) {
        Some(u2) => url_append_pair(u2, "imdb_id"@, imdb_id),
        None => None,
    });
}

/// The URL of a lookup of the movie with IMDb id `imdb_id`:
/// `https://streaming-availability.p.rapidapi.com/get/basic` with the lookup
/// query appended; nothing where the URL does not parse.
pub fn lookup_url(imdb_id: &str) -> (r: Option<String>)
    ensures
        r is Some <==> url_with_query("https://streaming-availability.p.rapidapi.com/get/basic"@, lookup_query(imdb_id@)) is Some,
        r matches Some(u) ==> url_with_query("https://streaming-availability.p.rapidapi.com/get/basic"@, lookup_query(imdb_id@)) == Some(u@),
        // the query is `output_language=en`, `country=us`, `imdb_id` = the id, for every id
        r matches Some(u) ==> match url_append_pair("https://streaming-availability.p.rapidapi.com/get/basic"@, "output_language"@, "en"@) {
            Some(u1) => match url_append_pair(u1, "country"@, "us"@) {
                Some(u2) => url_append_pair(u2, "imdb_id"@, imdb_id@) == Some(u@),
                None => false,
            },
            None => false,
        },
        r is None ==> match url_append_pair("https://streaming-availability.p.rapidapi.com/get/basic"@, "output_language"@, "en"@) {
            Some(u1) => match url_append_pair(u1, "country"@, "us"@) {
                Some(u2) => url_append_pair(u2, "imdb_id"@, imdb_id@) is None,
                None => true,
            },
            None => true,
        },
{
    proof {
        lemma_lookup_url_query(imdb_id@);
    }
    let base = "https://streaming-availability.p.rapidapi.com/get/basic";
    let pairs = vec![("output_language", "en"), ("country", "us"), ("imdb_id", imdb_id)];
    proof {
        assert(pair_views(pairs@) =~= lookup_query(imdb_id@));
    }
    with_query(base, pairs.as_slice())
}

/// The headers a Streaming Availability client sends with each request:
/// `x-rapidapi-host: streaming-availability.p.rapidapi.com` and `x-rapidapi-key: api_key`; an
/// error where a value has a byte not allowed in a header value.
pub fn client_headers(api_key: &str) -> (r: Result<RapidApiHeaders, HeaderError>)
    ensures
        r is Ok <==> valid_header_value("streaming-availability.p.rapidapi.com"@) && valid_header_value(api_key@),
        r matches Ok(h) ==> header_bytes(h.host) == utf8("streaming-availability.p.rapidapi.com"@) && header_bytes(h.key) == utf8(api_key@),
        r == Err::<RapidApiHeaders, HeaderError>(HeaderError::InvalidHost) <==> !valid_header_value("streaming-availability.p.rapidapi.com"@),
        r == Err::<RapidApiHeaders, HeaderError>(HeaderError::InvalidApiKey) <==> valid_header_value("streaming-availability.p.rapidapi.com"@) && !valid_header_value(api_key@),
{
    rapidapi_headers(api_host(), api_key)
}

} // verus!
