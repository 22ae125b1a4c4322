use cable_streaming::sorted_map::SortedMap;
use cable_streaming::streaming_availability::{api_host, lookup_url, Availability, Streaming};

fn availability(services: &[&str]) -> Availability {
    let mut info: SortedMap<SortedMap<Streaming>> = SortedMap::new();
    for s in services {
        let mut by_country: SortedMap<Streaming> = SortedMap::new();
        by_country.insert(
            "us".to_string(),
            Streaming { link: format!("https://{}.example/watch", s), added: 1, leaving: 0 },
        );
        info.insert(s.to_string(), by_country);
    }
    Availability {
        imdb_id: "tt0133093".to_string(),
        tmdb_id: "603".to_string(),
        imdb_rating: 87,
        imdb_vote_count: 1900000,
        tmdb_rating: 82,
        original_title: "The Matrix".to_string(),
        genres: vec![28, 878],
        countries: vec!["US".to_string()],
        year: 1999,
        runtime: 136,
        cast: vec!["Keanu Reeves".to_string()],
        significants: vec!["Lana Wachowski".to_string()],
        title: "The Matrix".to_string(),
        overview: "A hacker learns the truth.".to_string(),
        tagline: "Welcome to the Real World.".to_string(),
        streaming_info: info,
    }
}

#[test]
fn services_are_listed_in_order_each_once() {
    let a = availability(&["prime", "hbo", "netflix", "hbo", "apple"]);
    assert_eq!(a.services(), vec!["apple", "hbo", "netflix", "prime"]);
}

#[test]
fn services_follow_byte_order() {
    let a = availability(&["paramount", "Peacock", "hulu", "HBO"]);
    assert_eq!(a.services(), vec!["HBO", "Peacock", "hulu", "paramount"]);
}

#[test]
fn no_services() {
    let a = availability(&[]);
    assert!(a.services().is_empty());
}

#[test]
fn lookup_url_asks_for_english_us_results() {
    assert_eq!(api_host(), "streaming-availability.p.rapidapi.com");
    assert_eq!(
        lookup_url("tt4846340").unwrap(),
        "https://streaming-availability.p.rapidapi.com/get/basic?output_language=en&country=us&imdb_id=tt4846340"
    );
}
