use lpframe::client::{display_named, no_password, password_path, summary};
use lpframe::pipe::must_create;
use lpframe::ipc::Existing;
use lpframe::proto::{Artwork, ArtworkSource, DisplayPower, Playback, State, Track};

fn playing() -> State {
    let mut s = State::default();
    s.playback = Playback::Playing;
    let mut t = Track::default();
    t.id = "one".into();
    t.artist = Some("Massive Attack".into());
    t.title = Some("Angel".into());
    s.track = Some(t);
    s.artwork = Some(Artwork {
        revision: 3,
        path: "/run/a.png".into(),
        sha256: "00".into(),
        bytes: 1,
        width: Some(600),
        height: Some(600),
        source: ArtworkSource::CoverArtArchive,
        is_upgrade: false,
    });
    s.power.amp = true;
    s.power.display = DisplayPower::On;
    s
}

#[test]
fn a_state_fits_on_a_line() {
    assert_eq!(
        summary(7, &playing(), None),
        format!(
            "[   7] playing   {:<44}  {:<28} amp:on  display:on",
            "Massive Attack — Angel", "art r3 600×600 caa"
        )
    );
    let idle = State::default();
    let line = summary(12345, &idle, None);
    assert!(line.starts_with("[12345] idle      —   "), "{line}");
    assert!(line.contains(" no art "), "{line}");
    assert!(line.contains(" amp:off display:"), "{line}");
}

#[test]
fn what_changed_is_marked() {
    let s = playing();
    let same = summary(1, &s, Some(&playing()));
    assert!(!same.contains('*'), "{same}");
    let mut other = playing();
    other.track.as_mut().unwrap().id = "two".into();
    let line = summary(2, &s, Some(&other));
    assert!(line.contains("*Massive Attack"), "{line}");
    assert!(!line.contains("*art"), "{line}");
    let mut older = playing();
    older.artwork.as_mut().unwrap().revision = 2;
    assert!(summary(2, &s, Some(&older)).contains("*art r3"));
    let line = summary(2, &s, Some(&State::default()));
    assert_eq!(line.matches('*').count(), 2);
}

#[test]
fn display_states_are_named() {
    assert_eq!(display_named("on"), Ok(DisplayPower::On));
    assert_eq!(display_named("ambient"), Ok(DisplayPower::Ambient));
    assert_eq!(display_named("off"), Ok(DisplayPower::Off));
    assert_eq!(
        display_named("bright"),
        Err("unknown display state \"bright\"; use on, ambient or off".to_string())
    );
}

#[test]
fn the_password_is_reprinted_from_beside_the_local_config() {
    assert_eq!(
        password_path("/var/lib/lpframe/config.local.toml"),
        "/var/lib/lpframe/web-password.txt"
    );
    assert_eq!(password_path("config.local.toml"), "web-password.txt");
    assert_eq!(password_path("/"), "./web-password.txt");
}

#[test]
fn a_missing_password_file_says_where_it_would_have_been() {
    let said = no_password("/d/web-password.txt");
    assert!(said.contains("web-password.txt"), "{said}");
    assert!(said.contains("startup log"), "{said}");
}

#[test]
fn refuses_to_clobber_a_regular_file() {
    assert_eq!(must_create("/tmp/p", Existing::Nothing), Ok(true));
    assert_eq!(must_create("/tmp/p", Existing::Ours), Ok(false));
    let e = must_create("/tmp/p", Existing::Other).unwrap_err();
    assert!(e.contains("not a FIFO"), "{e}");
}
