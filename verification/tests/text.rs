use lpframe::double::ONE;
use lpframe::enrich::text::{
    fold_char, jaro, jaro_winkler, normalise, similarity, Scores, ALBUM_THRESHOLD,
    ARTIST_THRESHOLD, NEAR_EXACT_THRESHOLD,
};

/// A double in parts, as the machine has it.
fn float(parts: u128) -> f64 {
    parts as f64 / 2f64.powi(120)
}

/// The parts of a double.
fn parts(x: f64) -> u128 {
    (x * 2f64.powi(120)) as u128
}

#[test]
fn normalisation_folds_case_accents_and_punctuation() {
    let cases = [
        ("Sigur Rós", "sigur ros"),
        ("Motörhead", "motorhead"),
        ("Beyoncé", "beyonce"),
        ("Björk", "bjork"),
        ("AC/DC", "ac dc"),
        ("Simon & Garfunkel", "simon and garfunkel"),
        ("  Wu-Tang   Clan  ", "wu tang clan"),
        ("Kraftwerk", "kraftwerk"),
        ("Blue Öyster Cult", "blue oyster cult"),
        ("Mötley Crüe", "motley crue"),
        ("Godspeed You! Black Emperor", "godspeed you black emperor"),
        ("Anaïs Mitchell", "anais mitchell"),
    ];
    for (input, want) in cases {
        assert_eq!(normalise(input), want, "normalising {input:?}");
    }
}

#[test]
fn edition_qualifiers_are_stripped_but_real_subtitles_are_not() {
    let cases = [
        ("Nevermind (Deluxe Edition)", "nevermind"),
        ("Rumours [Explicit]", "rumours"),
        ("OK Computer - Remastered 2011", "ok computer"),
        ("Abbey Road (2019 Remaster)", "abbey road"),
        ("Blue (Bonus Track Version)", "blue"),
        (
            "Definitely Maybe (Deluxe Edition Remastered)",
            "definitely maybe",
        ),
        // Not editions: these change which record is meant.
        ("Greatest Hits (Volume 2)", "greatest hits volume 2"),
        ("Music From Big Pink", "music from big pink"),
        ("Songs - Ohia", "songs ohia"),
        ("Zaireeka (Disc 1)", "zaireeka disc 1"),
    ];
    for (input, want) in cases {
        assert_eq!(normalise(input), want, "normalising {input:?}");
    }
}

#[test]
fn jaro_winkler_matches_its_published_reference_values() {
    // The canonical examples, so a rewrite of the metric is caught.
    for (a, b, want) in [
        ("martha", "marhta", 0.961),
        ("dixon", "dicksonx", 0.813),
        ("dwayne", "duane", 0.840),
        ("", "", 1.0),
        ("abc", "abc", 1.0),
        ("abc", "xyz", 0.0),
    ] {
        let got = float(jaro_winkler(a, b));
        assert!(
            (got - want).abs() < 0.002,
            "{a}/{b}: got {got}, want {want}"
        );
    }
}

/// Real-world pairs and what has to be decided about each.
#[test]
fn the_text_gate_accepts_matches_and_rejects_near_misses() {
    struct Case {
        playing: (&'static str, &'static str),
        candidate: (&'static str, &'static str),
        accept: bool,
        why: &'static str,
    }
    let cases = [
        Case {
            playing: ("Massive Attack", "Mezzanine"),
            candidate: ("Massive Attack", "Mezzanine"),
            accept: true,
            why: "exact",
        },
        Case {
            playing: ("Massive Attack", "Mezzanine"),
            candidate: ("Massive Attack", "Mezzanine (2019 Remaster)"),
            accept: true,
            why: "a remaster of the same record",
        },
        Case {
            playing: ("Sigur Ros", "Ágætis byrjun"),
            candidate: ("Sigur Rós", "Agaetis byrjun"),
            accept: true,
            why: "the sender and the catalogue disagree about accents",
        },
        Case {
            playing: ("Beyoncé", "Lemonade"),
            candidate: ("Beyonce", "Lemonade [Explicit]"),
            accept: true,
            why: "explicit tag only",
        },
        Case {
            playing: ("The Beatles", "Abbey Road"),
            candidate: ("The Beatles", "Revolver"),
            accept: false,
            why: "a different album by the same artist",
        },
        Case {
            playing: ("Queen", "Greatest Hits"),
            candidate: ("Fleetwood Mac", "Greatest Hits"),
            accept: false,
            why: "the same compilation title by another artist",
        },
        Case {
            playing: ("Radiohead", "Kid A"),
            candidate: ("Radiohead", "Amnesiac"),
            accept: false,
            why: "adjacent album, similar length title",
        },
        Case {
            playing: ("Nirvana", "Nevermind"),
            candidate: ("Nirvana", "Nevermind (Deluxe Edition)"),
            accept: true,
            why: "deluxe edition of the same record",
        },
        Case {
            playing: ("Bob Dylan", "Blood on the Tracks"),
            candidate: ("Bob Dylan", "Blonde on Blonde"),
            accept: false,
            why: "same artist, alliterative neighbour",
        },
        Case {
            playing: ("Daft Punk", "Discovery"),
            candidate: ("Daft Punk", "Homework"),
            accept: false,
            why: "same artist, different album",
        },
        Case {
            playing: ("Air", "Moon Safari"),
            candidate: ("AIR", "Moon Safari"),
            accept: true,
            why: "case only",
        },
        Case {
            playing: ("Simon & Garfunkel", "Bookends"),
            candidate: ("Simon and Garfunkel", "Bookends"),
            accept: true,
            why: "ampersand spelled out",
        },
        Case {
            playing: ("Various Artists", "Trainspotting"),
            candidate: ("Various Artists", "Trainspotting 2"),
            accept: false,
            why: "a sequel soundtrack is a different record",
        },
        Case {
            playing: ("Led Zeppelin", "Led Zeppelin II"),
            candidate: ("Led Zeppelin", "Led Zeppelin III"),
            accept: false,
            why: "consecutive numbered albums, which Jaro-Winkler alone \
                  scores above the threshold",
        },
        Case {
            playing: ("Frank Ocean", "Blonde"),
            candidate: ("Frank Ocean", "Blond"),
            accept: true,
            why: "the same record, spelled two ways by two catalogues",
        },
    ];

    for c in cases {
        let s = Scores::compare(c.playing.0, c.playing.1, c.candidate.0, c.candidate.1);
        assert_eq!(
            s.passes(),
            c.accept,
            "{:?} vs {:?} ({}): {}",
            c.playing,
            c.candidate,
            c.why,
            s.to_string()
        );
    }
}

#[test]
fn a_wrong_album_is_rejected_by_the_text_gate() {
    let s = Scores::compare("The Beatles", "Abbey Road", "The Beatles", "Let It Be");
    assert!(s.artist >= ARTIST_THRESHOLD, "artist should still match");
    assert!(s.album < ALBUM_THRESHOLD, "album scored {}", s.album);
    assert!(!s.passes());
}

#[test]
fn greatest_hits_by_two_artists_is_rejected_by_the_artist_score() {
    let s = Scores::compare("Queen", "Greatest Hits", "Tom Petty", "Greatest Hits");
    assert!(s.album >= ALBUM_THRESHOLD, "album titles are identical");
    assert!(s.artist < ARTIST_THRESHOLD, "artist scored {}", s.artist);
    assert!(!s.passes());
}

#[test]
fn only_an_unambiguous_match_bypasses_the_perceptual_gate() {
    let exact =
        Scores::compare("Massive Attack", "Mezzanine", "Massive Attack", "Mezzanine");
    assert!(exact.near_exact());

    // It passes, but not well enough to skip looking at the picture.
    let loose = Scores::compare(
        "Massive Attack",
        "Mezzanine",
        "Massive Attack",
        "Mezzanine Live",
    );
    assert!(loose.passes());
    assert!(!loose.near_exact(), "{}", loose.to_string());
}

#[test]
fn a_disagreement_about_numbers_is_decisive() {
    // Jaro-Winkler alone rates all three of these pairs above the album
    // threshold, which is exactly the wrong answer.
    for (a, b) in [
        ("trainspotting", "trainspotting 2"),
        ("led zeppelin ii", "led zeppelin iii"),
        ("greatest hits", "greatest hits volume 2"),
        ("chapter 1", "chapter 2"),
    ] {
        assert!(jaro_winkler(a, b) > ALBUM_THRESHOLD, "premise: {a}/{b}");
        assert_eq!(similarity(a, b), 0, "{a}/{b}");
    }
    // Agreeing numbers are left alone.
    assert!(similarity("blink 182", "blink 182") > parts(0.99));
    assert!(similarity("chapter 2", "chapter 2 deluxe") > parts(0.85));
}

#[test]
fn normalising_empty_and_punctuation_only_input_is_safe() {
    assert_eq!(normalise(""), "");
    assert_eq!(normalise("   "), "");
    assert_eq!(normalise("!!!"), "");
    assert_eq!(normalise("(Deluxe Edition)"), "");
    // An unterminated bracket keeps its contents rather than eating them.
    assert_eq!(normalise("Kid A (unfinished"), "kid a unfinished");
    assert_eq!(float(jaro_winkler("", "anything")), 0.0);
}

#[test]
fn every_latin_letter_folds_to_ascii() {
    for (c, want) in [('Ĳ', "ij"), ('ĳ', "ij"), ('ĸ', "k"), ('ſ', "s"), ('Þ', "th"), ('ß', "ss")] {
        assert_eq!(fold_char(c), want, "{c}");
    }
    for c in ('\u{c0}'..'\u{180}').filter(|c| !"×÷".contains(*c)) {
        let folded = fold_char(c);
        assert!(matches!(folded.len(), 1 | 2), "{c} became {folded:?}");
        assert!(folded.chars().all(|f| f.is_ascii_lowercase()), "{c} became {folded:?}");
    }
    assert_eq!(fold_char('&'), " and ");
    assert_eq!(fold_char('\u{201C}'), "'");
    assert_eq!(fold_char('\u{2014}'), "-");
    assert_eq!(fold_char('×'), "×");
    assert_eq!(fold_char('京'), "京");
}

#[test]
fn normalising_twice_changes_nothing() {
    for c in '\u{0}'..'\u{180}' {
        let once = normalise(&format!("{c} x{c}y"));
        assert_eq!(normalise(&once), once, "{c:?}");
    }
    for s in ["Ágætis byrjun (Deluxe)", "µ-Ziq ½ × ª", "OK Computer - Remastered", "  a  -  b "] {
        let once = normalise(s);
        assert_eq!(normalise(&once), once, "{s}");
    }
}

#[test]
fn long_texts_are_scored_like_short_ones() {
    let long = "ab".repeat(2000);
    assert_eq!(similarity(&long, &long), ONE);
    let other = format!("{long}c");
    let score = similarity(&long, &other);
    assert!(NEAR_EXACT_THRESHOLD < score && score < ONE);
}

#[test]
fn thresholds_are_the_doubles_they_are_named_after() {
    assert_eq!(float(ARTIST_THRESHOLD), 0.90);
    assert_eq!(float(ALBUM_THRESHOLD), 0.85);
    assert_eq!(float(NEAR_EXACT_THRESHOLD), 0.97);
    assert_eq!(float(ONE), 1.0);
}

/// The metric in the machine's own arithmetic.
fn machine_jaro(a: &str, b: &str) -> f64 {
    let (a, b): (Vec<char>, Vec<char>) = (a.chars().collect(), b.chars().collect());
    if a.is_empty() && b.is_empty() {
        return 1.0;
    }
    let window = (a.len().max(b.len()) / 2).saturating_sub(1);
    let mut taken = vec![false; b.len()];
    let mut from_a = Vec::new();
    for (i, c) in a.iter().enumerate() {
        let hi = (i + window + 1).min(b.len());
        if let Some(j) = (i.saturating_sub(window)..hi).find(|&j| !taken[j] && b[j] == *c) {
            taken[j] = true;
            from_a.push(*c);
        }
    }
    let from_b: Vec<char> =
        b.iter().zip(&taken).filter(|(_, t)| **t).map(|(c, _)| *c).collect();
    if from_a.is_empty() {
        return 0.0;
    }
    let m = from_a.len() as f64;
    let t = from_a.iter().zip(&from_b).filter(|(x, y)| x != y).count() as f64;
    (m / a.len() as f64 + m / b.len() as f64 + (m - t / 2.0) / m) / 3.0
}

fn machine_winkler(a: &str, b: &str) -> f64 {
    let j = machine_jaro(a, b);
    if j <= 0.7 {
        return j;
    }
    let prefix = a.chars().zip(b.chars()).take(4).take_while(|(x, y)| x == y).count() as f64;
    j + prefix * 0.1 * (1.0 - j)
}

#[test]
fn scores_are_those_of_double_arithmetic() {
    // Seven tenths exactly, but for the last bit of the sum.
    let (a, b) = ("abcdefghijklmnopqrst", "abcdefghijkuvwxyz012");
    assert_eq!(float(jaro(a, b)), machine_jaro(a, b));
    assert_eq!(float(jaro_winkler(a, b)), machine_winkler(a, b));
    assert!(float(jaro_winkler(a, b)) > 0.8, "the prefix counts");

    // And a few thousand texts of a small alphabet.
    let mut seed: u64 = 7;
    let mut text = || {
        let mut s = String::new();
        seed = seed.wrapping_mul(6364136223846793005).wrapping_add(1442695040888963407);
        for _ in 0..(seed >> 59) {
            seed = seed.wrapping_mul(6364136223846793005).wrapping_add(1442695040888963407);
            s.push(b"abcde"[(seed >> 33) as usize % 5] as char);
        }
        s
    };
    for _ in 0..4000 {
        let (a, b) = (text(), text());
        assert_eq!(float(jaro(&a, &b)), machine_jaro(&a, &b), "{a}/{b}");
        assert_eq!(float(jaro_winkler(&a, &b)), machine_winkler(&a, &b), "{a}/{b}");
    }
}
