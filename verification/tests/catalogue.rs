use lpframe::enrich::catalogue::{
    apple_art_urls, check_status, itunes_url, musicbrainz_url, retry_after, urlencode, user_agent,
    CatalogueError, Endpoints,
};

const APPLE: &str = "https://is1-ssl.mzstatic.com/image/thumb/Music/v4/a/b/c/\
                     file.jpg/100x100bb.jpg";

#[test]
fn apple_urls_walk_down_the_documented_size_ladder() {
    let urls = apple_art_urls(APPLE, 3000);
    let sizes: Vec<&str> = urls.iter().map(|u| u.rsplit('/').next().unwrap()).collect();
    assert_eq!(
        sizes,
        [
            "3000x3000bb.jpg",
            "1500x1500bb.jpg",
            "1000x1000bb.jpg",
            "600x600bb.jpg"
        ]
    );
    assert!(urls[0].starts_with("https://is1-ssl.mzstatic.com/image/thumb/Music/v4/a/b/c/"));
}

#[test]
fn a_lower_max_dimension_drops_the_sizes_above_it() {
    let sizes: Vec<String> = apple_art_urls(APPLE, 1200)
        .iter()
        .map(|u| u.rsplit('/').next().unwrap().to_string())
        .collect();
    assert_eq!(
        sizes,
        ["1200x1200bb.jpg", "1000x1000bb.jpg", "600x600bb.jpg"]
    );
}

#[test]
fn a_url_apple_has_reshaped_is_left_alone_rather_than_mangled() {
    // Better a 100px candidate that fails the size gate than a fabricated
    // URL that 404s and looks like the network is down.
    for odd in [
        "https://example.test/image/artwork.jpg",
        "https://example.test/image/100x100.jpg",
        "https://example.test/image/widthxheightbb.jpg",
        "no-slashes-at-all",
    ] {
        assert_eq!(apple_art_urls(odd, 3000), vec![odd.to_string()], "{odd}");
    }
}

#[test]
fn the_ceiling_is_three_thousand_whatever_the_config_says() {
    let sizes: Vec<String> = apple_art_urls(APPLE, 99_999)
        .iter()
        .map(|u| u.rsplit('/').next().unwrap().to_string())
        .collect();
    assert_eq!(sizes[0], "3000x3000bb.jpg");
}

#[test]
fn query_parameters_are_encoded() {
    assert_eq!(urlencode("Massive Attack"), "Massive+Attack");
    assert_eq!(urlencode("Sigur Rós"), "Sigur+R%C3%B3s");
    assert_eq!(urlencode("AC/DC"), "AC%2FDC");
    assert_eq!(urlencode("a&b=c"), "a%26b%3Dc");
    assert_eq!(urlencode("~-_."), "~-_.");
}

#[test]
fn only_errors_worth_retrying_are_transient() {
    assert!(CatalogueError::Network("refused".into()).is_transient());
    assert!(CatalogueError::RateLimited(1).is_transient());
    assert!(CatalogueError::Status(503).is_transient());
    assert!(!CatalogueError::Status(400).is_transient());
    assert!(!CatalogueError::NotFound.is_transient());
    assert!(!CatalogueError::Malformed("junk".into()).is_transient());
}
