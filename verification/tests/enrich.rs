use lpframe::capture::png::fake_cover;
use lpframe::config::{Config, Strictness};
use lpframe::enrich::cache::{
    expiry_cutoff, is_negative, is_orphan, path_for, source_from_str, source_to_str, victims,
    Entry, Swept,
};
use lpframe::enrich::catalogue::{
    musicbrainz_candidates, Candidate, CatalogueError, ReleaseGroup,
};
use lpframe::enrich::gate::{fingerprint, Visual};
use lpframe::enrich::hunt::{
    accepted, best_candidate, from_cache, judge, judge_visual, min_side, pause_after, Action, Hunt,
    Ruling,
};
use lpframe::enrich::limit::{Bucket, SECOND};
use lpframe::double::ONE;
use lpframe::enrich::text::Scores;
use lpframe::enrich::{album_key, source_name, Enricher, Request, Source, Verdict};
use lpframe::proto::ArtworkSource;
use lpframe::single::Single;

#[test]
fn the_album_key_ignores_the_differences_senders_disagree_about() {
    // One cache entry per record, however it was spelled.
    assert_eq!(
        album_key("Sigur Rós", "Ágætis byrjun"),
        album_key("SIGUR ROS", "agaetis  byrjun")
    );
    assert_eq!(
        album_key("Nirvana", "Nevermind"),
        album_key("Nirvana", "Nevermind (Deluxe Edition)")
    );
    assert_ne!(
        album_key("Queen", "Greatest Hits"),
        album_key("Tom Petty", "Greatest Hits")
    );
    assert_ne!(
        album_key("The Beatles", "Abbey Road"),
        album_key("The Beatles", "Revolver")
    );
}

/// The parts of a double.
fn parts(x: f64) -> u128 {
    (x * 2f64.powi(120)) as u128
}

fn similarity(x: f32) -> Single {
    Single { bits: x.to_bits() }
}

#[test]
fn every_rejection_explains_itself_with_numbers() {
    let scores = Scores { artist: parts(0.62), album: parts(0.99) };
    let d = Verdict::TextRejected {
        best: scores,
        candidate: "Fleetwood Mac — Greatest Hits".into(),
    }
    .describe();
    assert!(d.contains("0.62") && d.contains("0.99"), "{d}");

    let d = Verdict::SizeRejected { current: 500, candidate: 600 }.describe();
    assert!(d.contains("600") && d.contains("500"), "{d}");

    let d = Verdict::PerceptualRejected {
        visual: Visual { hamming: 31, similarity: similarity(0.41) },
        scores,
    }
    .describe();
    assert!(d.contains("31") && d.contains("0.41"), "{d}");
}

#[test]
fn enrichment_disabled_yields_no_enricher_at_all() {
    // The privacy guarantee, at the strongest point it can be made: with
    // `enabled = false` there is no object that could reach the network.
    let mut cfg = Config::default();
    cfg.enrichment.enabled = false;
    assert!(Enricher::new(&cfg).is_none());

    let mut cfg = Config::default();
    cfg.enrichment.strictness = Strictness::Off;
    assert!(Enricher::new(&cfg).is_none());

    let mut cfg = Config::default();
    cfg.enrichment.sources.clear();
    assert!(Enricher::new(&cfg).is_none());

    assert!(Enricher::new(&Config::default()).is_some());
}

fn request(album: &str, revision: u64) -> Request {
    Request {
        artist: "Massive Attack".into(),
        album: album.into(),
        current_path: "/run/a.png".into(),
        current_revision: revision,
        current_dimensions: Some((500, 500)),
    }
}

#[test]
fn identical_artwork_for_the_same_album_is_not_reconsidered_at_all() {
    let mut e = Enricher::new(&Config::default()).unwrap();
    let job = e.consider(&request("Mezzanine", 1)).unwrap();
    assert!(e.consider(&request("Mezzanine", 1)).is_none());
    // A new revision of an album in flight starts nothing either.
    assert!(e.consider(&request("Mezzanine", 2)).is_none());
    assert!(e.still_current(&job.key));
    assert!(e.conclude(job, Some(Verdict::NoMatch), false).is_some());
    assert!(e.consider(&request("Mezzanine", 3)).is_some());
    assert!(e.consider(&request(" ", 4)).is_none());
}

fn candidate(album: &str, urls: &[&str]) -> Candidate {
    Candidate {
        artist: "Massive Attack".into(),
        album: album.into(),
        art_urls: urls.iter().map(|u| u.to_string()).collect(),
        source: ArtworkSource::Itunes,
    }
}

fn hunt(sources: Vec<Source>) -> Hunt {
    let (h, first) = Hunt::start("Massive Attack", "Mezzanine", sources, 2000);
    assert!(matches!(first, Action::Search(_)));
    h
}

#[test]
fn the_best_candidate_is_taken_rather_than_the_first() {
    let found = vec![candidate("Mezzanine Remixes", &[]), candidate("Mezzanine", &[])];
    let (scores, at) = best_candidate("Massive Attack", "Mezzanine", &found).unwrap();
    assert_eq!(at, 1);
    assert!(scores.passes() && scores.near_exact());
    assert!(best_candidate("a", "b", &vec![]).is_none());
}

#[test]
fn apple_size_fallbacks_are_walked_down_on_404() {
    let mut h = hunt(vec![Source::Itunes]);
    let a = h.searched(false, Ok(vec![candidate("Mezzanine", &["u3000", "u1200"])]));
    assert!(matches!(a, Action::Fetch(u) if u == "u3000"));
    let a = h.fetched(Err(CatalogueError::NotFound));
    assert!(matches!(a, Action::Fetch(u) if u == "u1200"));
    let a = h.fetched(Ok(vec![1, 2]));
    match a {
        Action::Judge { scores, source, bytes } => {
            assert!(scores.near_exact());
            assert_eq!(source, ArtworkSource::Itunes);
            assert_eq!(bytes, [1, 2]);
        }
        other => panic!("{other:?}"),
    }
    assert!(!h.was_rate_limited());
}

#[test]
fn musicbrainz_is_tried_when_itunes_has_the_wrong_album() {
    let sources = || vec![Source::Itunes, Source::MusicBrainz];
    let (mut h, first) = Hunt::start("The Beatles", "Abbey Road", sources(), 2000);
    assert!(matches!(first, Action::Search(Source::Itunes)));
    let revolver = Candidate {
        artist: "The Beatles".into(),
        album: "Revolver".into(),
        art_urls: vec!["u3000".into()],
        source: ArtworkSource::Itunes,
    };
    let a = h.searched(false, Ok(vec![revolver]));
    assert!(matches!(a, Action::Search(Source::MusicBrainz)));
    let group = ReleaseGroup {
        id: "b1a9c0e9-d987-4042-ae91-78d6a3267d69".into(),
        title: "Abbey Road".into(),
        artist: Some("The Beatles".into()),
    };
    let found = musicbrainz_candidates(&vec![group], "https://archive.test").unwrap();
    let url = match h.searched(false, Ok(found)) {
        Action::Fetch(url) => url,
        other => panic!("{other:?}"),
    };
    assert!(url.contains("front-1200"), "{url}");
    let picture = fake_cover(120, 30);
    match h.fetched(Ok(picture)) {
        Action::Judge { scores, source, bytes } => {
            assert_eq!(source, ArtworkSource::CoverArtArchive);
            let (ruling, size) = judge(Strictness::TextAndVisual, scores, 50, &bytes, None);
            assert!(matches!(ruling, Ruling::Accepted));
            assert!(matches!(
                accepted(bytes, size, source),
                Verdict::Upgraded(u)
                    if u.dimensions == (120, 120) && u.source == ArtworkSource::CoverArtArchive
            ));
        }
        other => panic!("{other:?}"),
    }

    // And when nobody has it, the nearest miss is remembered with its scores.
    let mut h = hunt(sources());
    let a = h.searched(false, Ok(vec![candidate("Greatest Hits", &["u"])]));
    assert!(matches!(a, Action::Search(Source::MusicBrainz)));
    match h.searched(false, Err(CatalogueError::NotFound)) {
        Action::FinishAndRemember(Verdict::TextRejected { candidate, .. }) => {
            assert_eq!(candidate, "Massive Attack — Greatest Hits");
        }
        other => panic!("{other:?}"),
    }
}

#[test]
fn an_album_no_catalogue_has_is_remembered_as_a_miss() {
    let mut h = hunt(vec![Source::Itunes]);
    let a = h.searched(false, Ok(vec![]));
    assert!(matches!(a, Action::FinishAndRemember(Verdict::NoMatch)));
}

#[test]
fn a_transient_failure_is_retried_and_then_given_up() {
    let mut h = hunt(vec![Source::Itunes]);
    let down = || Err(CatalogueError::Status(503));
    assert!(matches!(h.searched(false, down()), Action::WaitAndSearch(2000, Source::Itunes)));
    assert!(matches!(h.searched(false, down()), Action::WaitAndSearch(4000, Source::Itunes)));
    assert!(matches!(h.searched(false, down()), Action::Finish(Verdict::Unreachable(_))));

    let mut h = hunt(vec![Source::Itunes]);
    let odd = Err(CatalogueError::Malformed("html".into()));
    assert!(matches!(h.searched(false, odd), Action::Finish(Verdict::Undecodable(_))));
}

#[test]
fn a_429_is_counted_and_its_retry_after_is_waited_out() {
    let mut h = hunt(vec![Source::Itunes]);
    let told = Err(CatalogueError::RateLimited(1));
    assert_eq!(pause_after(&told), Some(1));
    assert!(matches!(h.searched(false, told), Action::Search(Source::Itunes)));
    assert!(h.was_rate_limited());
    assert_eq!(pause_after(&Ok(vec![])), None);

    // Until then nobody gets a token.
    let mut bucket = Bucket::per_minute(20, 0);
    bucket.pause(0, SECOND);
    assert_eq!(bucket.take(0), Some(SECOND), "Retry-After was ignored");
    assert_eq!(bucket.take(SECOND), None);

    // And then the picture is found as if nothing had happened.
    let a = h.searched(true, Ok(vec![candidate("Mezzanine", &["u3000"])]));
    assert!(matches!(a, Action::Fetch(u) if u == "u3000"));
    let a = h.fetched(Ok(fake_cover(150, 0)));
    assert!(matches!(a, Action::Judge { source: ArtworkSource::Itunes, .. }));
}

#[test]
fn a_hunt_that_lapsed_asks_nobody() {
    let mut h = hunt(vec![Source::Itunes]);
    assert!(matches!(h.lapsed(), Action::FinishAndRemember(Verdict::NoMatch)));
}

fn perfect() -> Scores {
    Scores { artist: ONE, album: ONE }
}

#[test]
fn a_marginal_upgrade_is_rejected_by_the_size_gate() {
    let small = fake_cover(100, 30);
    let (r, _) = judge(Strictness::TextOnly, perfect(), 90, &small, None);
    assert!(matches!(
        r,
        Ruling::Settled(Verdict::SizeRejected { current: 90, candidate: 100 })
    ));
    let (r, size) = judge(Strictness::TextOnly, perfect(), 60, &small, None);
    assert!(matches!(r, Ruling::Accepted));
    assert_eq!(size, (100, 100));
    match accepted(small.clone(), size, ArtworkSource::Itunes) {
        Verdict::Upgraded(u) => assert_eq!((u.bytes, u.dimensions), (small, (100, 100))),
        other => panic!("{other:?}"),
    }
}

#[test]
fn strict_mode_removes_the_bypass() {
    let small = fake_cover(40, 30);
    let large = fake_cover(100, 30);
    // Near-exact text is enough, except in strict mode.
    let (r, _) = judge(Strictness::TextAndVisual, perfect(), 40, &large, None);
    assert!(matches!(r, Ruling::Accepted));
    let (r, _) = judge(Strictness::Strict, perfect(), 40, &large, Some(&small));
    match r {
        Ruling::Compare { current, candidate } => {
            assert_eq!((current.width, candidate.width), (40, 100));
            assert!(judge_visual(perfect(), &current, &candidate, similarity(1.0)).is_none());
            assert!(matches!(
                judge_visual(perfect(), &current, &candidate, similarity(0.5)),
                Some(Verdict::PerceptualRejected { .. })
            ));
        }
        other => panic!("{other:?}"),
    }
    let (r, _) = judge(Strictness::Strict, perfect(), 40, &large, Some(b"junk"));
    assert!(matches!(r, Ruling::Settled(Verdict::Undecodable(_))));
    let (r, _) = judge(Strictness::Strict, perfect(), 40, b"junk", Some(&small));
    assert!(matches!(r, Ruling::Settled(Verdict::Undecodable(_))));
}

#[test]
fn an_unknown_size_is_taken_from_the_displayed_picture() {
    let small = fake_cover(90, 30);
    let large = fake_cover(100, 30);
    let (r, _) = judge(Strictness::TextOnly, perfect(), 0, &large, Some(&small));
    assert!(matches!(
        r,
        Ruling::Settled(Verdict::SizeRejected { current: 90, candidate: 100 })
    ));
    assert_eq!(fingerprint(&small).unwrap().min_side(), 90);
}

// --- the cache ------------------------------------------------------------

fn entry(side: Option<u32>) -> (Entry, Vec<u8>) {
    let bytes = b"picture".to_vec();
    let e = Entry::for_image(&bytes, side.map(|s| (s, s)), ArtworkSource::Itunes);
    (e, bytes)
}

#[test]
fn the_cache_settles_what_it_knows() {
    match from_cache(Some(entry(Some(1200))), false, 500) {
        Some(Verdict::Cached(Some(u))) => {
            assert_eq!(u.dimensions, (1200, 1200));
            assert_eq!(u.source, ArtworkSource::Cache);
            assert_eq!(u.bytes, b"picture");
        }
        other => panic!("{other:?}"),
    }
    assert!(matches!(from_cache(Some(entry(Some(500))), false, 500), Some(Verdict::Cached(None))));
    assert!(matches!(from_cache(Some(entry(None)), false, 0), Some(Verdict::Cached(None))));
    assert!(matches!(from_cache(None, true, 0), Some(Verdict::NegativeCacheHit)));
    assert!(from_cache(None, false, 0).is_none());
    assert_eq!(min_side(Some((3, 2))), 2);
    assert_eq!(min_side(None), 0);
}

#[test]
fn a_stored_image_is_recognised_and_a_corrupted_one_is_not() {
    let (e, bytes) = entry(Some(10));
    assert!(e.intact(&bytes));
    assert!(!e.intact(b"pictura"));
    assert!(!e.intact(b""));
    assert_eq!(path_for("abcdef"), "ab/abcdef.jpg");
}

#[test]
fn a_negative_entry_expires_after_its_ttl() {
    assert!(!is_negative(None, 1_000_000, 60), "nothing recorded yet");
    let missed = Some(1_000_000);
    assert!(is_negative(missed, 1_000_000, 60));
    assert!(is_negative(missed, 1_000_059, 60), "expired one second early");
    assert!(!is_negative(missed, 1_000_060, 60), "still negative past the TTL");
    // The sweep takes what was missed at this moment or before it.
    assert_eq!(expiry_cutoff(1_000_060, 60), 1_000_000);
}

#[test]
fn eviction_removes_as_few_as_it_must() {
    assert_eq!(victims(&vec![10, 20, 30], 60, 60), 0);
    assert_eq!(victims(&vec![10, 20, 30], 60, 45), 2);
    assert_eq!(victims(&vec![10, -5, 30], 40, 0), 3);
    let known = vec!["abc".to_string()];
    assert!(!is_orphan(Some("abc"), false, &known));
    assert!(is_orphan(Some("abc"), true, &known));
    assert!(is_orphan(Some("xyz"), false, &known));
    assert!(is_orphan(None, false, &known));
    assert!(Swept::default().is_empty());
}

#[test]
fn sources_keep_their_names() {
    for s in [ArtworkSource::Airplay, ArtworkSource::Itunes, ArtworkSource::CoverArtArchive] {
        assert_eq!(source_from_str(source_to_str(s)), s);
    }
    assert_eq!(source_name(ArtworkSource::CoverArtArchive), "coverartarchive");
}
