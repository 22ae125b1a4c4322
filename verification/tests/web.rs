use cable_streaming::web::{host_header_name, key_header_name, quoted, rapidapi_headers, with_query, HeaderError};

#[test]
fn headers_for_a_good_key() {
    let h = rapidapi_headers("mdblist.p.rapidapi.com", "abc123\tdef").unwrap();
    assert_eq!(h.host.as_bytes(), b"mdblist.p.rapidapi.com");
    assert_eq!(h.key.as_bytes(), b"abc123\tdef");
    assert_eq!(host_header_name(), "x-rapidapi-host");
    assert_eq!(key_header_name(), "x-rapidapi-key");
}

#[test]
fn a_key_with_a_control_character_is_refused() {
    assert_eq!(rapidapi_headers("mdblist.p.rapidapi.com", "abc\n").err(), Some(HeaderError::InvalidApiKey));
    assert_eq!(rapidapi_headers("mdblist.p.rapidapi.com", "a\u{7f}").err(), Some(HeaderError::InvalidApiKey));
}

#[test]
fn a_bad_host_is_refused_first() {
    assert_eq!(rapidapi_headers("bad\rhost", "abc\n").err(), Some(HeaderError::InvalidHost));
}

#[test]
fn query_pairs_are_appended_in_order() {
    assert_eq!(with_query("https://example.net/a", &[]).unwrap(), "https://example.net/a");
    assert_eq!(
        with_query("https://example.net/a", &[("x", "1 2"), ("y", "&")]).unwrap(),
        "https://example.net/a?x=1+2&y=%26"
    );
    assert!(with_query("not a url", &[("x", "1")]).is_none());
}

#[test]
fn quoting() {
    assert_eq!(quoted("Heat"), "\"Heat\"");
    assert_eq!(quoted(""), "\"\"");
}

#[test]
fn client_headers_name_the_service_and_carry_the_key() {
    let h = cable_streaming::mdblist::client_headers("k3y").unwrap();
    assert_eq!(h.host.as_bytes(), b"mdblist.p.rapidapi.com");
    assert_eq!(h.key.as_bytes(), b"k3y");
    let h = cable_streaming::streaming_availability::client_headers("other-key").unwrap();
    assert_eq!(h.host.as_bytes(), b"streaming-availability.p.rapidapi.com");
    assert_eq!(h.key.as_bytes(), b"other-key");
    let h = cable_streaming::web::rapidapi_headers("h\u{e9}", "caf\u{e9}").unwrap();
    assert_eq!(h.host.as_bytes(), "h\u{e9}".as_bytes());
    assert_eq!(h.key.as_bytes(), "caf\u{e9}".as_bytes());
}

#[test]
fn client_headers_refuse_a_bad_key() {
    assert_eq!(cable_streaming::mdblist::client_headers("bad\u{1}").err(), Some(HeaderError::InvalidApiKey));
    assert_eq!(
        cable_streaming::streaming_availability::client_headers("bad\r\n").err(),
        Some(HeaderError::InvalidApiKey)
    );
}
