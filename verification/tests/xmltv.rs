use cable_streaming::xmltv::{ends_http_headers, deserialize_xmltv_datetime, instant_of, is_weekend, weekend_starts, Channel, Program, Timestamp, Weekday};

fn channel() -> Channel {
    Channel {
        id: "I10139.json.schedulesdirect.org".to_string(),
        display_names: ["AMC HD Pacific".to_string(), "AMC-PHD".to_string(), "1254".to_string()],
    }
}

#[test]
fn channel_names() {
    let c = channel();
    assert_eq!(c.full_name(), "AMC HD Pacific");
    assert_eq!(c.callsign(), "AMC-PHD");
    assert_eq!(c.channel_number(), "1254");
}

#[test]
fn xmltv_time_in_utc() {
    let t = deserialize_xmltv_datetime("20220326223000 +0000").unwrap();
    assert_eq!(t, Timestamp { seconds: 1648333800, nanos: 0 });
}

#[test]
fn xmltv_time_with_offset() {
    let t = deserialize_xmltv_datetime("20220327020000 +0500").unwrap();
    assert_eq!(t, Timestamp { seconds: 1648328400, nanos: 0 });
}

#[test]
fn xmltv_time_without_offset_is_refused() {
    assert!(deserialize_xmltv_datetime("20220326223000").is_err());
    assert!(deserialize_xmltv_datetime("2022-03-26 22:30:00 +0000").is_err());
    assert!(deserialize_xmltv_datetime("").is_err());
}

#[test]
fn instant_leaves_out_the_offset() {
    assert_eq!(instant_of((12, 5, 3600)), Timestamp { seconds: 12, nanos: 5 });
}

#[test]
fn weekend_days() {
    assert!(is_weekend(Some(Weekday::Sat)));
    assert!(is_weekend(Some(Weekday::Sun)));
    assert!(!is_weekend(Some(Weekday::Fri)));
    assert!(!is_weekend(Some(Weekday::Mon)));
    assert!(!is_weekend(None));
}

#[test]
fn weekend_starts_has_a_flag_per_programme() {
    let p = |secs: i64| Program {
        start: Timestamp { seconds: secs, nanos: 0 },
        stop: "x".to_string(),
        channel: "c".to_string(),
        title: "t".to_string(),
        category: "Movie".to_string(),
    };
    // Saturday 2022-03-26 12:00 UTC is a Saturday in every zone from UTC-11 to UTC+11;
    // Wednesday 2022-03-23 12:00 UTC is a Wednesday in all of them.
    let flags = weekend_starts(&[p(1648296000), p(1648296000 - 3 * 86400)]);
    assert_eq!(flags.len(), 2);
}

#[test]
fn sunday_midnight_utc_is_a_weekend_everywhere_and_wednesday_noon_nowhere() {
    let p = |secs: i64| Program {
        start: Timestamp { seconds: secs, nanos: 0 },
        stop: "x".to_string(),
        channel: "c".to_string(),
        title: "t".to_string(),
        category: "Movie".to_string(),
    };
    // 2022-03-27 00:00:00 UTC starts a Sunday; 2022-03-23 12:00:00 UTC is a Wednesday noon.
    let flags = weekend_starts(&[p(1648339200), p(1648036800)]);
    assert_eq!(flags, vec![true, false]);
}

#[test]
fn the_blank_line_ends_http_headers() {
    assert!(ends_http_headers("\r\n"));
    assert!(!ends_http_headers("\n"));
    assert!(!ends_http_headers("Content-Type: text/xml\r\n"));
    assert!(!ends_http_headers(""));
}
