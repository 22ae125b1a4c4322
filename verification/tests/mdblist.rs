use cable_streaming::mdblist::{prune, search_url, api_host, Match};

fn m(id: &str, year: Option<u16>, score: i16, imdbid: Option<&str>) -> Match {
    Match {
        id: id.to_string(),
        title: format!("Title {}", id),
        year,
        score,
        kind: "movie".to_string(),
        imdbid: imdbid.map(|s| s.to_string()),
        traktid: 7,
    }
}

fn ids(ms: &[Match]) -> Vec<String> {
    ms.iter().map(|x| x.id.clone()).collect()
}

#[test]
fn prune_drops_incomplete_and_unscored_matches() {
    let results = vec![
        m("a", Some(1999), 50, Some("tt1")),
        m("no-year", None, 90, Some("tt2")),
        m("no-imdb", Some(2001), 90, None),
        m("zero", Some(2001), 0, Some("tt3")),
        m("negative", Some(2001), -4, Some("tt4")),
        m("b", Some(2003), 70, Some("tt5")),
    ];
    let pruned = prune(&results);
    assert_eq!(ids(&pruned), vec!["b", "a"]);
}

#[test]
fn prune_ranks_by_descending_score_keeping_ties_in_order() {
    let results = vec![
        m("low", Some(2000), 10, Some("tt1")),
        m("tie1", Some(2000), 60, Some("tt2")),
        m("high", Some(2000), 99, Some("tt3")),
        m("tie2", Some(2000), 60, Some("tt4")),
        m("tie3", Some(2000), 60, Some("tt5")),
        m("mid", Some(2000), 30, Some("tt6")),
    ];
    let pruned = prune(&results);
    assert_eq!(ids(&pruned), vec!["high", "tie1", "tie2", "tie3", "mid", "low"]);
}

#[test]
fn prune_keeps_every_field_of_a_kept_match() {
    let results = vec![m("a", Some(1999), 50, Some("tt0133093"))];
    let pruned = prune(&results);
    assert_eq!(pruned.len(), 1);
    let x = &pruned[0];
    assert_eq!(x.id, "a");
    assert_eq!(x.title, "Title a");
    assert_eq!(x.year, Some(1999));
    assert_eq!(x.score, 50);
    assert_eq!(x.kind, "movie");
    assert_eq!(x.imdbid.as_deref(), Some("tt0133093"));
    assert_eq!(x.traktid, 7);
}

#[test]
fn prune_of_nothing_is_nothing() {
    assert!(prune(&[]).is_empty());
}

#[test]
fn prune_is_idempotent() {
    let results = vec![
        m("a", Some(2000), 20, Some("tt1")),
        m("b", None, 20, Some("tt2")),
        m("c", Some(2000), 40, Some("tt3")),
        m("d", Some(2000), 20, Some("tt4")),
    ];
    let once = prune(&results);
    let twice = prune(&once);
    assert_eq!(ids(&once), ids(&twice));
    assert_eq!(ids(&once), vec!["c", "a", "d"]);
}

#[test]
fn duplicate_copies_a_match() {
    let a = m("a", Some(1999), 50, None);
    let b = a.duplicate();
    assert_eq!(b.id, a.id);
    assert_eq!(b.imdbid, None);
    assert_eq!(b.score, 50);
}

#[test]
fn search_url_quotes_the_title_and_asks_for_movies() {
    assert_eq!(api_host(), "mdblist.p.rapidapi.com");
    assert_eq!(
        search_url("The Matrix").unwrap(),
        "https://mdblist.p.rapidapi.com/?s=%22The+Matrix%22&m=movie"
    );
    assert_eq!(
        search_url("Amélie & co").unwrap(),
        "https://mdblist.p.rapidapi.com/?s=%22Am%C3%A9lie+%26+co%22&m=movie"
    );
}

#[test]
fn pruning_a_permuted_input_gives_the_same_scores() {
    let a = vec![
        m("a", Some(2000), 20, Some("tt1")),
        m("b", Some(2000), 40, Some("tt2")),
        m("c", Some(2000), 20, Some("tt3")),
        m("d", None, 90, Some("tt4")),
    ];
    let b = vec![
        m("c", Some(2000), 20, Some("tt3")),
        m("d", None, 90, Some("tt4")),
        m("b", Some(2000), 40, Some("tt2")),
        m("a", Some(2000), 20, Some("tt1")),
    ];
    let pa = prune(&a);
    let pb = prune(&b);
    let scores = |v: &[Match]| v.iter().map(|x| x.score).collect::<Vec<i16>>();
    assert_eq!(scores(&pa), vec![40, 20, 20]);
    assert_eq!(scores(&pa), scores(&pb));
    assert_eq!(ids(&pa), vec!["b", "a", "c"]);
    assert_eq!(ids(&pb), vec!["b", "c", "a"]);
}
