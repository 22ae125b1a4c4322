use cable_streaming::listings::{
    channel_index, count_by_channel, group_movies, preferred_callsigns, select_channels, top_entry,
    weekend_movies, weekend_report,
};
use cable_streaming::xmltv::{Channel, Program, Timestamp, Tv};

fn ch(id: &str, full: &str, callsign: &str, number: &str) -> Channel {
    Channel {
        id: id.to_string(),
        display_names: [full.to_string(), callsign.to_string(), number.to_string()],
    }
}

fn prog(channel: &str, title: &str, category: &str) -> Program {
    Program {
        start: Timestamp { seconds: 1648296000, nanos: 0 },
        stop: "20220326140000 +0000".to_string(),
        channel: channel.to_string(),
        title: title.to_string(),
        category: category.to_string(),
    }
}

fn channels() -> Vec<Channel> {
    vec![
        ch("c1", "AMC", "AMC-PHD", "100"),
        ch("c2", "BBC America", "BBC", "101"),
        ch("c3", "CNN", "CNN", "102"),
        ch("c2", "BBC Two", "BBC2", "103"),
    ]
}

fn programs() -> Vec<Program> {
    vec![
        prog("c1", "Alien", "Movie"),
        prog("c2", "Alien", "Movie"),
        prog("c2", "Alien", "Movie"),
        prog("c3", "Alien", "Movie"),
        prog("c1", "Heat", "Movie"),
        prog("c1", "News", "News"),
        prog("c1", "Brazil", "Movie"),
        prog("c2", "Brazil", "Movie"),
    ]
}

const WEEKEND: [bool; 8] = [false, true, false, true, false, true, true, true];

#[test]
fn channels_are_indexed_by_their_last_position() {
    let idx = channel_index(&channels());
    assert_eq!(idx.len(), 3);
    assert_eq!(idx.key_at(0), "c1");
    assert_eq!(*idx.value_at(0), 0);
    assert_eq!(idx.key_at(1), "c2");
    assert_eq!(*idx.value_at(1), 3);
    assert_eq!(*idx.get("c3").unwrap(), 2);
}

#[test]
fn channels_are_selected_by_callsign() {
    let sel = select_channels(&channels(), &["BBC", "AMC-PHD", "TNT"]);
    assert_eq!(sel.len(), 2);
    assert_eq!(sel.key_at(0), "c1");
    assert_eq!(*sel.value_at(0), 0);
    assert_eq!(sel.key_at(1), "c2");
    assert_eq!(*sel.value_at(1), 1);
    assert!(sel.get("c3").is_none());
}

#[test]
fn movies_on_selected_channels_are_grouped_by_title() {
    let chs = channels();
    let ps = programs();
    let sel = select_channels(&chs, &["BBC", "AMC-PHD"]);
    let groups = group_movies(&ps, &sel);
    assert_eq!(groups.len(), 3);
    assert_eq!(groups.key_at(0), "Alien");
    assert_eq!(groups.value_at(0), &vec![0, 1, 2]);
    assert_eq!(groups.key_at(1), "Brazil");
    assert_eq!(groups.value_at(1), &vec![6, 7]);
    assert_eq!(groups.key_at(2), "Heat");
    assert_eq!(groups.value_at(2), &vec![4]);
}

#[test]
fn showings_are_counted_per_channel() {
    let ps = programs();
    let counts = count_by_channel(&ps, &[0, 1, 2, 3]).unwrap();
    assert_eq!(counts.len(), 3);
    assert_eq!((counts.key_at(0), *counts.value_at(0)), ("c1", 1));
    assert_eq!((counts.key_at(1), *counts.value_at(1)), ("c2", 2));
    assert_eq!((counts.key_at(2), *counts.value_at(2)), ("c3", 1));
    assert_eq!(top_entry(&counts), 1);
}

#[test]
fn the_last_of_equal_counts_is_the_top_one() {
    let ps = programs();
    let counts = count_by_channel(&ps, &[6, 7]).unwrap();
    assert_eq!(top_entry(&counts), 1);
}

#[test]
fn a_count_beyond_u16_is_refused() {
    let ps: Vec<Program> = (0..65536).map(|_| prog("c1", "Alien", "Movie")).collect();
    let all: Vec<usize> = (0..65536).collect();
    assert!(count_by_channel(&ps, &all).is_none());
    assert_eq!(*count_by_channel(&ps, &all[..65535]).unwrap().value_at(0), 65535);
}

#[test]
fn report_lists_weekend_movies_on_selected_channels() {
    let rows = weekend_movies(&channels(), &programs(), &["BBC", "AMC-PHD"], &WEEKEND).unwrap();
    assert_eq!(rows.len(), 2);
    assert_eq!(rows[0].title, "Alien");
    assert_eq!(rows[0].showings, 3);
    assert_eq!(rows[0].channels, 2);
    assert_eq!(rows[0].top_callsign, "BBC2");
    assert_eq!(rows[0].top_showings, 2);
    assert_eq!(rows[1].title, "Brazil");
    assert_eq!(rows[1].showings, 2);
    assert_eq!(rows[1].channels, 2);
    assert_eq!(rows[1].top_callsign, "BBC2");
    assert_eq!(rows[1].top_showings, 1);
}

#[test]
fn report_without_weekend_showings_is_empty() {
    let rows = weekend_movies(&channels(), &programs(), &["BBC", "AMC-PHD"], &[false; 8]).unwrap();
    assert!(rows.is_empty());
}

#[test]
fn report_without_selected_channels_is_empty() {
    let rows = weekend_movies(&channels(), &programs(), &["TNT"], &WEEKEND).unwrap();
    assert!(rows.is_empty());
}

#[test]
fn report_of_a_listing_on_a_saturday() {
    let tv = Tv { date: "20220326".to_string(), channels: channels(), programs: programs() };
    let rows = weekend_report(&tv, &["BBC", "AMC-PHD"]).unwrap();
    let titles: Vec<&str> = rows.iter().map(|r| r.title.as_str()).collect();
    assert_eq!(titles, vec!["Alien", "Brazil", "Heat"]);
    assert_eq!(rows[0].showings, 3);
}

#[test]
fn preferred_callsigns_are_the_nine_channels() {
    assert_eq!(
        preferred_callsigns(),
        vec!["AMC-PHD", "BBC", "BRAVO", "FX", "FXX-HD-W", "TBS", "TNT", "USAHD-P", "VH1"]
    );
}

#[test]
fn a_movie_starting_at_sunday_midnight_utc_is_reported() {
    let mut ps = programs();
    for p in ps.iter_mut() {
        // 2022-03-23 12:00:00 UTC, a Wednesday noon everywhere.
        p.start = Timestamp { seconds: 1648036800, nanos: 0 };
    }
    // 2022-03-27 00:00:00 UTC starts a Sunday: a Saturday or a Sunday everywhere.
    ps[4].start = Timestamp { seconds: 1648339200, nanos: 0 };
    let tv = Tv { date: "20220327".to_string(), channels: channels(), programs: ps };
    let rows = weekend_report(&tv, &["BBC", "AMC-PHD"]).unwrap();
    let titles: Vec<&str> = rows.iter().map(|r| r.title.as_str()).collect();
    assert_eq!(titles, vec!["Heat"]);
}
