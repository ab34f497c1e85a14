use lpframe::config::{
    accept, commit, parse_bytes, ByteSize, Cache, Config, ConfigError, Edit, SocketAddress, HEADER,
};
use lpframe::document::read_value;
use lpframe::duration::{Dur, MaybeDuration};
use lpframe::overrides::{
    edit_overrides, load, read_local, read_toml, reset_overrides, set_overrides, Proposal, Update,
};
use lpframe::single::Single;
use lpframe::value::{
    collect_leaves, collect_paths, get_path, insert_path, merge, remove_path, Node, Table,
};

/// How an address reads, as far as these tests need it.
fn bind(c: &Config) -> Option<SocketAddress> {
    let (host, port) = c.web.bind.rsplit_once(':')?;
    let port: u16 = port.parse().ok()?;
    let numeric = host.chars().all(|c| c.is_ascii_digit() || c == '.');
    if !numeric && host != "[::1]" {
        return None;
    }
    let loopback = host.starts_with("127.") || host == "[::1]";
    Some(SocketAddress { text: c.web.bind.clone(), port, loopback })
}

fn check(c: &Config) -> Result<(), String> {
    c.validate(bind(c).as_ref()).map_err(|p| p.message(""))
}

#[test]
fn defaults_are_valid() {
    check(&Config::default()).unwrap();
}

#[test]
fn a_missing_file_is_not_an_error() {
    let layers = load(None, "nope.toml", None, "also-nope.toml").unwrap();
    assert_eq!(layers.merged, Node::Table(Table::new()));
    assert!(layers.overridden.is_empty());
    let c = Config::default();
    let b = bind(&c);
    let loaded = accept(Ok(c), b.as_ref(), &layers.blamed, layers.overridden).unwrap();
    assert_eq!(loaded.config, Config::default());
    assert!(loaded.overridden.is_empty());
}

fn at<'a>(v: &'a Node, path: &str) -> Option<&'a Node> {
    match v {
        Node::Table(t) => get_path(t, path),
        _ => None,
    }
}

#[test]
fn local_overrides_win_per_key_and_are_reported() {
    let base = r#"
[render]
ambient = false
crossfade = "600ms"

[power.display]
blank_after = "5m"
"#;
    let local = r#"
[render]
ambient = true

[power.display]
blank_after = "90s"
"#;
    let loaded = load(Some(base), "config.toml", Some(local), "config.local.toml").unwrap();
    assert_eq!(at(&loaded.merged, "render.ambient"), Some(&Node::Bool(true)), "local should win");
    // Untouched sibling keys must survive the merge.
    assert_eq!(at(&loaded.merged, "render.crossfade"), Some(&Node::Str("600ms".into())));
    assert_eq!(at(&loaded.merged, "power.display.blank_after"), Some(&Node::Str("90s".into())));

    assert_eq!(
        loaded.overridden,
        vec!["power.display.blank_after".to_string(), "render.ambient".to_string()]
    );
    assert_eq!(loaded.blamed, "config.local.toml");
}

#[test]
fn arrays_are_replaced_not_appended() {
    let base = "[enrichment]\nsources = [\"itunes\", \"musicbrainz\"]\ncontact = \"a@b.c\"\n";
    let local = "[enrichment]\nsources = [\"itunes\"]\n";
    let loaded = load(Some(base), "c.toml", Some(local), "l.toml").unwrap();
    assert_eq!(
        at(&loaded.merged, "enrichment.sources"),
        Some(&Node::Array(vec![Node::Str("itunes".into())]))
    );
}

#[test]
fn validation_rejects_an_unreachable_paused_state() {
    // stall must fire before session, or the device appears to jump straight
    // from playing to dark.
    let mut c = Config::default();
    c.timeouts.stall = Dur::from_secs(90);
    c.timeouts.session = Dur::from_secs(60);
    let err = check(&c).unwrap_err();
    assert!(err.contains("must be shorter"), "{err}");
}

#[test]
fn validation_rejects_ambient_after_blanking() {
    let mut c = Config::default();
    c.power.display.ambient_after = MaybeDuration::secs(600);
    c.power.display.blank_after = Dur::from_secs(300);
    assert!(check(&c).is_err());
}

#[test]
fn validation_requires_a_contact_for_musicbrainz() {
    // Not on by default, precisely because it cannot work without a contact.
    let mut c = Config::default();
    assert!(!c.enrichment.sources.iter().any(|s| s == "musicbrainz"));

    c.enrichment.sources.push("musicbrainz".into());
    let err = check(&c).unwrap_err();
    assert!(err.contains("contact"), "{err}");

    c.enrichment.contact = "me@example.com".into();
    check(&c).unwrap();
}

#[test]
fn validation_names_an_unknown_source() {
    let mut c = Config::default();
    c.enrichment.sources.push("napster".into());
    let err = check(&c).unwrap_err();
    assert_eq!(
        err,
        "enrichment.sources contains unknown source \"napster\"; known: [\"itunes\", \"musicbrainz\"]"
    );
    c.enrichment.enabled = false;
    check(&c).unwrap();
}

fn single(x: f32) -> Single {
    Single { bits: x.to_bits() }
}

#[test]
fn validation_rejects_bad_rotation_and_dim() {
    let mut c = Config::default();
    c.display.rotation = 45;
    assert_eq!(check(&c).unwrap_err(), "display.rotation must be 0, 90, 180 or 270, not 45");

    let mut c = Config::default();
    c.render.ambient_dim = single(1.5);
    let e = c.validate(bind(&c).as_ref()).unwrap_err().message("1.5");
    assert_eq!(e, "render.ambient_dim must be between 0 and 1, not 1.5");

    for (margin, ok) in [(0.0, true), (45.0, true), (45.01, false), (-1.0, false), (f32::NAN, false)] {
        let mut c = Config::default();
        c.display.margin_percent = single(margin);
        assert_eq!(check(&c).is_ok(), ok, "{margin}");
    }
}

#[test]
fn validation_rejects_an_unparseable_web_bind() {
    let mut c = Config::default();
    c.web.bind = "lpframe.local:8730".into();
    assert!(check(&c).is_err());

    // ...but not when the interface is off.
    c.web.enabled = false;
    check(&c).unwrap();
}

#[test]
fn validation_rejects_too_few_retained_artwork_revisions() {
    let mut c = Config::default();
    c.ipc.art_retain = 1;
    assert!(check(&c).is_err());
}

#[test]
fn byte_sizes_parse_and_render() {
    for (text, expect) in [("2GiB", 2u64 << 30), ("512MiB", 512 << 20), ("1024", 1024)] {
        assert_eq!(parse_bytes(text).unwrap(), expect, "{text}");
    }
    assert!(parse_bytes("2 parsecs").is_err());
    assert_eq!(parse_bytes(" 3 k ").unwrap(), 3072);
    assert!(parse_bytes("99999999999999999999").is_err());
    assert!(parse_bytes("99999999999GiB").unwrap_err().contains("overflows"));

    assert_eq!(Cache::default().max_bytes.to_string(), "2GiB");
    assert_eq!(ByteSize(1500).to_string(), "1500");
    assert_eq!(ByteSize(3 << 10).to_string(), "3KiB");
}

#[test]
fn validation_refuses_a_lan_bind_with_authentication_off() {
    let mut c = Config::default();
    c.web.bind = "0.0.0.0:8730".into();
    c.web.auth = false;
    let err = check(&c).unwrap_err();
    assert!(err.contains("web.auth = false"), "{err}");

    // Loopback is fine unauthenticated: reaching it already means being on
    // the device.
    c.web.bind = "127.0.0.1:8730".into();
    check(&c).unwrap();

    // ...and so is the LAN, once the escape hatch is deliberately set.
    c.web.bind = "0.0.0.0:8730".into();
    c.web.insecure_no_auth = true;
    check(&c).unwrap();
}

// --- reading --------------------------------------------------------------

#[test]
fn a_document_reads_as_a_tree() {
    let v = read_value(
        "n = -3\nx = 0.5\nwhen = 1979-05-27T07:32:00Z\nlist = [1, [true]]\n[a.b]\nc = \"d\"\n",
    )
    .unwrap();
    assert_eq!(at(&v, "n"), Some(&Node::Int(-3)));
    assert_eq!(at(&v, "x"), Some(&Node::Float(0.5f64.to_bits())));
    assert_eq!(at(&v, "when"), Some(&Node::Datetime("1979-05-27T07:32:00Z".into())));
    assert_eq!(
        at(&v, "list"),
        Some(&Node::Array(vec![Node::Int(1), Node::Array(vec![Node::Bool(true)])]))
    );
    assert_eq!(at(&v, "a.b.c"), Some(&Node::Str("d".into())));
    assert_eq!(at(&v, "a.b.c.d"), None);
    assert!(read_value("= nonsense").is_err());
}

#[test]
fn a_file_that_does_not_read_is_blamed() {
    assert!(read_toml(None, "x").unwrap().is_none());
    let e = read_toml(Some("a = "), "/etc/x.toml").unwrap_err();
    assert!(matches!(&e, ConfigError::Parse { path, .. } if path == "/etc/x.toml"));
    assert!(e.message("").starts_with("/etc/x.toml is not valid TOML: "));
    let e = load(Some("a ="), "base", Some("b ="), "local").unwrap_err();
    assert!(matches!(e, ConfigError::Parse { path, .. } if path == "base"));
    let e = load(Some("a = 1"), "base", Some("b ="), "local").unwrap_err();
    assert!(matches!(e, ConfigError::Parse { path, .. } if path == "local"));
    assert_eq!(load(Some("a = 1"), "base", None, "local").unwrap().blamed, "base");
}

// --- the write path -------------------------------------------------------

fn known() -> Vec<String> {
    [
        "render.ambient",
        "render.crossfade",
        "power.amp.off_delay",
        "timeouts.stall",
        "display.rotation",
        "display.mode",
    ]
    .iter()
    .map(|s| s.to_string())
    .collect()
}

fn updates(pairs: Vec<(&str, Node)>) -> Vec<Update> {
    pairs.into_iter().map(|(k, value)| Update { key: k.to_string(), value }).collect()
}

fn toml_of(v: &Node) -> toml::Value {
    match v {
        Node::Str(s) => toml::Value::String(s.clone()),
        Node::Int(n) => toml::Value::Integer(*n),
        Node::Float(b) => toml::Value::Float(f64::from_bits(*b)),
        Node::Bool(b) => toml::Value::Boolean(*b),
        Node::Datetime(s) => toml::Value::Datetime(s.parse().unwrap()),
        Node::Array(a) => toml::Value::Array(a.iter().map(toml_of).collect()),
        Node::Table(t) => toml::Value::Table(
            (0..t.len()).map(|i| (t.entry(i).key.clone(), toml_of(&t.entry(i).value))).collect(),
        ),
    }
}

/// What the override file then holds.
fn written(p: &Proposal) -> String {
    let c = Config::default();
    let b = bind(&c);
    let body = toml::to_string_pretty(&toml_of(&p.local)).map_err(|e| e.to_string());
    commit(&p.local, Ok(c), b.as_ref(), body, "local").unwrap().text
}

#[test]
fn a_set_value_survives_a_reload() {
    let base = "[render]\nambient = false\n";
    let p = set_overrides(
        Some(base),
        "base",
        None,
        "local",
        &updates(vec![("render.ambient", Node::Bool(true))]),
        &known(),
    )
    .unwrap();
    assert_eq!(at(&p.merged, "render.ambient"), Some(&Node::Bool(true)));

    let file = written(&p);
    assert!(file.starts_with(HEADER));
    let reloaded = load(Some(base), "base", Some(&file), "local").unwrap();
    assert_eq!(at(&reloaded.merged, "render.ambient"), Some(&Node::Bool(true)));
    assert!(reloaded.overridden.contains(&"render.ambient".to_string()));
}

#[test]
fn a_reset_key_falls_back_to_the_base_value() {
    let base = "[render]\nambient = false\ncrossfade = \"600ms\"\n";
    let p = set_overrides(
        Some(base),
        "base",
        None,
        "local",
        &updates(vec![
            ("render.ambient", Node::Bool(true)),
            ("render.crossfade", Node::Str("2s".into())),
        ]),
        &known(),
    )
    .unwrap();
    let file = written(&p);
    let p = reset_overrides(
        Some(base),
        "base",
        Some(&file),
        "local",
        &vec!["render.ambient".to_string()],
        &known(),
    )
    .unwrap();

    let file = written(&p);
    let reloaded = load(Some(base), "base", Some(&file), "local").unwrap();
    assert_eq!(
        at(&reloaded.merged, "render.ambient"),
        Some(&Node::Bool(false)),
        "back to the base value"
    );
    // The sibling override is untouched.
    assert_eq!(at(&reloaded.merged, "render.crossfade"), Some(&Node::Str("2s".into())));
    assert_eq!(reloaded.overridden, vec!["render.crossfade".to_string()]);
}

#[test]
fn resetting_the_last_key_in_a_table_prunes_the_table() {
    let p = set_overrides(
        None,
        "base",
        None,
        "local",
        &updates(vec![("power.amp.off_delay", Node::Str("20m".into()))]),
        &known(),
    )
    .unwrap();
    let file = written(&p);
    assert!(file.contains("off_delay"));
    let p = reset_overrides(
        None,
        "base",
        Some(&file),
        "local",
        &vec!["power.amp.off_delay".to_string()],
        &known(),
    )
    .unwrap();

    let text = written(&p);
    assert!(!text.contains("power"), "empty tables left behind:\n{text}");
    assert!(read_local(Some(&text), "local").unwrap().is_empty());
}

#[test]
fn an_invalid_change_is_never_written() {
    // stall must stay shorter than session, or the paused state is
    // unreachable and the device appears to jump straight to dark.
    let mut c = Config::default();
    c.timeouts.stall = Dur::from_secs(90);
    let p = set_overrides(
        None,
        "base",
        None,
        "local",
        &updates(vec![("timeouts.stall", Node::Str("90s".into()))]),
        &known(),
    )
    .unwrap();
    let b = bind(&c);
    let err = commit(&p.local, Ok(c), b.as_ref(), Ok("x".into()), "local").unwrap_err();
    assert!(err.message("").contains("must be shorter"), "{err:?}");
}

#[test]
fn a_value_of_the_wrong_type_is_refused_without_writing() {
    let p = set_overrides(
        None,
        "base",
        None,
        "local",
        &updates(vec![("render.ambient", Node::Str("yes please".into()))]),
        &known(),
    )
    .unwrap();
    // What reads the merged tree finds no boolean there.
    let merged = toml_of(&p.merged);
    let read = match merged["render"]["ambient"].clone().try_into::<bool>() {
        Ok(_) => Ok(Config::default()),
        Err(e) => Err(e.to_string()),
    };
    let body = toml::to_string_pretty(&toml_of(&p.local)).map_err(|e| e.to_string());
    let err = commit(&p.local, read, None, body, "local").unwrap_err();
    assert!(matches!(err, ConfigError::Parse { .. }), "{err:?}");
    assert!(err.message("").contains("expected a boolean"), "{err:?}");
}

#[test]
fn an_unknown_key_is_refused_by_name() {
    let err = set_overrides(
        None,
        "base",
        None,
        "local",
        &updates(vec![("render.ambiant", Node::Bool(true))]),
        &known(),
    )
    .unwrap_err()
    .message("");
    assert!(err.contains("ambiant"), "{err}");
}

#[test]
fn a_key_through_a_value_is_refused() {
    let e = edit_overrides(
        None,
        "base",
        Some("render = 3\n"),
        "local",
        &vec![Edit { key: "render.ambient".into(), value: Some(Node::Bool(true)) }],
        &known(),
    )
    .unwrap_err();
    assert_eq!(
        e.message(""),
        "\"render.ambient\" runs through \"render\", which is not a table"
    );
}

#[test]
fn edits_can_set_and_drop_keys_in_one_commit() {
    // This is the shape confirm-or-revert needs: some of the keys it puts
    // back were overridden before, and some were not.
    let p = set_overrides(
        None,
        "base",
        None,
        "local",
        &updates(vec![("display.rotation", Node::Int(90))]),
        &known(),
    )
    .unwrap();
    let file = written(&p);
    let p = edit_overrides(
        None,
        "base",
        Some(&file),
        "local",
        &vec![
            Edit { key: "display.mode".into(), value: Some(Node::Str("1920x1920@60".into())) },
            Edit { key: "display.rotation".into(), value: None },
        ],
        &known(),
    )
    .unwrap();

    assert_eq!(at(&p.merged, "display.rotation"), None);
    assert_eq!(at(&p.merged, "display.mode"), Some(&Node::Str("1920x1920@60".into())));
}

#[test]
fn an_override_that_cannot_be_written_out_is_refused() {
    let mut t = Table::new();
    t.insert("a".into(), Node::Int(1));
    let c = Config::default();
    let b = bind(&c);
    let e = commit(&Node::Table(t), Ok(c), b.as_ref(), Err("odd".into()), "l").unwrap_err();
    assert_eq!(
        e.message(""),
        "configuration is invalid: the override could not be serialised: odd"
    );
}

#[test]
fn a_text_that_does_not_hold_the_override_is_refused() {
    let mut t = Table::new();
    t.insert("a".into(), Node::Int(1));
    let t = Node::Table(t);
    for body in ["a = 2\n", "a = 1\nb = 1\n", "", "a = \n"] {
        let c = Config::default();
        let b = bind(&c);
        let e = commit(&t, Ok(c), b.as_ref(), Ok(body.into()), "l").unwrap_err();
        assert!(e.message("").contains("does not read back"), "{e:?}");
    }
    let c = Config::default();
    let b = bind(&c);
    let done = commit(&t, Ok(c), b.as_ref(), Ok("a = 1\n".into()), "l").unwrap();
    assert!(read_value(&done.text).unwrap().same_tree(&t));
}

#[test]
fn a_list_of_edits_keeps_what_it_does_not_name() {
    let p = edit_overrides(
        Some("[render]\nambient = false\n"),
        "base",
        Some("[render]\nambient = true\ncrossfade = \"2s\"\n[timeouts]\nstall = \"5s\"\n"),
        "local",
        &vec![
            Edit { key: "render.ambient".into(), value: None },
            Edit { key: "display.rotation".into(), value: Some(Node::Int(90)) },
            Edit { key: "timeouts.stall".into(), value: None },
        ],
        &known(),
    )
    .unwrap();
    assert_eq!(at(&p.merged, "render.ambient"), Some(&Node::Bool(false)));
    assert_eq!(at(&p.merged, "display.rotation"), Some(&Node::Int(90)));
    assert_eq!(collect_paths(&p.local, ""), ["display.rotation", "render.crossfade"]);
}

#[test]
fn trees_are_the_same_whatever_the_order_of_their_keys() {
    let a = read_value("x = [1, {a = 1, b = 2}]\ny = 0.5\n").unwrap();
    let b = read_value("y = 0.5\nx = [1, {b = 2, a = 1}]\n").unwrap();
    assert!(a.same_tree(&b));
    for other in ["y = 0.5\n", "x = [1]\ny = 0.5\n", "x = [1, {a = 1, b = 2}]\ny = 1\n"] {
        let c = read_value(other).unwrap();
        assert!(!a.same_tree(&c) && !c.same_tree(&a), "{other}");
    }
}

// --- trees ----------------------------------------------------------------

#[test]
fn paths_are_set_read_and_removed() {
    let mut t = Table::new();
    insert_path(&mut t, "a.b.c", Node::Int(1)).unwrap();
    insert_path(&mut t, "a.d", Node::Int(2)).unwrap();
    assert_eq!(get_path(&t, "a.b.c"), Some(&Node::Int(1)));
    let e = insert_path(&mut t, "a.d.e", Node::Int(3)).unwrap_err();
    assert_eq!(e.part, "d");
    assert_eq!(collect_paths(&Node::Table(t.copy()), ""), ["a.b.c", "a.d"]);
    assert_eq!(collect_leaves(&Node::Table(t.copy()), "x").len(), 2);
    assert!(remove_path(&mut t, "a.b.c"));
    assert!(!remove_path(&mut t, "a.b.c"));
    assert!(get_path(&t, "a.b").is_none(), "the empty table should be gone");
    assert!(remove_path(&mut t, "a.d"));
    assert!(t.is_empty());
}

#[test]
fn a_value_replaces_a_table_wholesale() {
    let mut base = read_value("[a]\nb = 1\n").unwrap();
    merge(&mut base, &read_value("a = 2\nc = 3\n").unwrap());
    assert_eq!(at(&base, "a"), Some(&Node::Int(2)));
    assert_eq!(at(&base, "c"), Some(&Node::Int(3)));
}

#[test]
fn what_was_committed_is_what_is_loaded() {
    let base = "[render]\nambient = false\ncrossfade = \"600ms\"\n";
    let local = "[display]\nrotation = 90\n[timeouts]\nstall = \"10s\"\n";
    let p = edit_overrides(
        Some(base),
        "base",
        Some(local),
        "local",
        &vec![
            Edit { key: "render.ambient".into(), value: Some(Node::Bool(true)) },
            Edit { key: "display.rotation".into(), value: None },
        ],
        &known(),
    )
    .unwrap();
    let mut c = Config::default();
    c.timeouts.stall = Dur::from_secs(10);
    let b = bind(&c);
    let body = toml::to_string_pretty(&toml_of(&p.local)).map_err(|e| e.to_string());
    let done = commit(&p.local, Ok(c.clone()), b.as_ref(), body, "local").unwrap();

    let again = load(Some(base), "base", Some(&done.text), "local").unwrap();
    assert!(again.merged.same_tree(&p.merged));
    let loaded = accept(Ok(c), b.as_ref(), &again.blamed, again.overridden).unwrap();
    assert_eq!(loaded.overridden, done.loaded.overridden);
    assert_eq!(loaded.overridden, ["render.ambient", "timeouts.stall"]);
    assert_eq!(loaded.config.timeouts.stall, Dur::from_secs(10));
    // Set, reset, and left alone.
    assert_eq!(at(&again.merged, "render.ambient"), Some(&Node::Bool(true)));
    assert_eq!(at(&again.merged, "display.rotation"), None);
    assert_eq!(at(&again.merged, "timeouts.stall"), Some(&Node::Str("10s".into())));
}
