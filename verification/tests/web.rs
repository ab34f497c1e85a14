use lpframe::config::{Config, ConfigError, Edit, SocketAddress, Web};
use lpframe::document::read_value;
use lpframe::ipc::Command;
use lpframe::overrides::{edit_overrides, read_local};
use lpframe::proto::DisplayPower;
use lpframe::value::{Leaf, Node, Table};
use lpframe::web::auth::{hash_password, verify_password};
use lpframe::web::settings::{
    choices, hint, is_secret, json_to_toml, restarted, snapshot_keys, tier, toml_to_json, Asked,
    Json, Member, Settings, Tier, SECRET_KEY,
};
use lpframe::web::{
    advertisement, announcement, begin_login, check_bind, clear_cookie, config_error, end_login,
    guard, list_settings, logout, loopback, plan_action, plan_patch, plan_reset, prepare_auth,
    session, session_token, set_cookie, tiers_touched, too_busy, visible_overrides, Act, Refusal,
};

fn address(text: &str, port: u16, loopback: bool) -> Option<SocketAddress> {
    Some(SocketAddress { text: text.into(), port, loopback })
}

#[test]
fn loopback_binds_are_accepted() {
    let v4 = address("127.0.0.1:8730", 8730, true);
    assert!(loopback::check_bind("127.0.0.1:8730", v4, false).is_ok());
    let v6 = address("[::1]:8730", 8730, true);
    assert!(loopback::check_bind("[::1]:8730", v6, false).is_ok());
}

#[test]
fn non_loopback_binds_are_refused_until_auth_exists() {
    let lan = || address("0.0.0.0:8730", 8730, false);
    let err = loopback::check_bind("0.0.0.0:8730", lan(), false).unwrap_err();
    assert!(err.contains("authentication is not implemented"), "{err}");
    assert!(err.contains("127.0.0.1:8730"), "{err}");

    // Once auth lands, the same bind is fine.
    assert!(loopback::check_bind("0.0.0.0:8730", lan(), true).is_ok());
}

#[test]
fn web_a_malformed_bind_is_rejected() {
    assert!(loopback::check_bind("lpframe.local:8730", None, true).is_err());
}

fn web(bind: &str, auth: bool, hash: &str, escape: bool) -> Web {
    Web {
        enabled: true,
        bind: bind.into(),
        auth,
        password_hash: hash.into(),
        mdns: false,
        insecure_no_auth: escape,
    }
}

#[test]
fn loopback_binds_are_accepted_however_auth_is_configured() {
    // Reaching loopback already means being on the device.
    for cfg in [
        web("127.0.0.1:8730", true, "$argon2id$v=19$x", false),
        web("127.0.0.1:8730", false, "", false),
        web("[::1]:8730", false, "", false),
    ] {
        let parsed = address(&cfg.bind, 8730, true);
        assert!(check_bind(&cfg, parsed).unwrap().warning.is_none());
    }
}

#[test]
fn a_non_loopback_bind_needs_authentication_and_a_hash() {
    let lan = || address("0.0.0.0:8730", 8730, false);
    let ok = check_bind(&web("0.0.0.0:8730", true, "$argon2id$v=19$x", false), lan()).unwrap();
    assert_eq!(ok.addr.port, 8730);
    assert!(ok.warning.is_none());

    // Auth on with nothing to check against is the state a failed
    // first-run generation leaves behind, and it must not serve.
    let err = check_bind(&web("0.0.0.0:8730", true, "", false), lan()).unwrap_err();
    assert!(err.contains("no password hash"), "{err}");
}

#[test]
fn a_non_loopback_bind_with_auth_off_refuses_to_start() {
    let lan = address("192.168.1.10:8730", 8730, false);
    let err = check_bind(&web("192.168.1.10:8730", false, "", false), lan).unwrap_err();
    assert!(err.contains("web.auth = false"), "{err}");
    assert!(err.contains("127.0.0.1:8730"), "{err}");
    assert!(err.contains("insecure_no_auth"), "{err}");
}

#[test]
fn the_escape_hatch_allows_the_bind_and_warns_every_time() {
    let lan = address("0.0.0.0:8730", 8730, false);
    let bind = check_bind(&web("0.0.0.0:8730", false, "", true), lan).unwrap();
    let warning = bind.warning.expect("the escape hatch must warn");
    assert!(warning.contains("NO AUTHENTICATION"), "{warning}");
    assert!(warning.contains("insecure_no_auth"), "{warning}");
}

#[test]
fn mod_a_malformed_bind_is_rejected() {
    assert!(check_bind(&web("lpframe.local:8730", true, "x", false), None).is_err());
}

#[test]
fn the_session_cookie_carries_exactly_the_flags_it_should() {
    let cookie = set_cookie("abc");
    assert!(cookie.starts_with("lpframe_session=abc;"));
    assert!(cookie.contains("Path=/"));
    assert!(cookie.contains("HttpOnly"));
    assert!(cookie.contains("SameSite=Strict"));
    assert!(cookie.contains("Max-Age=2592000"), "thirty days");
    // Not an oversight: the device serves plain HTTP, and `Secure` would
    // make the browser drop the cookie on every request.
    assert!(!cookie.contains("Secure"), "{cookie}");
    assert!(clear_cookie().ends_with("Max-Age=0"));
}

#[test]
fn a_cookie_header_with_other_cookies_still_yields_the_session() {
    assert_eq!(
        session_token(Some("theme=dark; lpframe_session=deadbeef; other=1")).as_deref(),
        Some("deadbeef")
    );
    assert_eq!(session_token(Some("theme=dark")), None);
    assert_eq!(session_token(None), None);
}

#[test]
fn every_setting_lands_in_exactly_one_tier() {
    // The point is that there are no gaps, so a key added later gets a label
    // rather than disappearing.
    for key in [
        "device.name",
        "device.metadata_pipe",
        "audio.alsa_device",
        "audio.mixer",
        "display.connector",
        "display.mode",
        "display.rotation",
        "display.card",
        "display.margin_percent",
        "render.square",
        "render.fit",
        "render.background",
        "render.background_dim",
        "render.crossfade",
        "render.enrichment_crossfade",
        "render.ken_burns",
        "render.ken_burns_period",
        "render.ambient",
        "render.ambient_dim",
        "render.placeholder",
        "enrichment.enabled",
        "enrichment.strictness",
        "enrichment.sources",
        "enrichment.itunes_country",
        "enrichment.max_dimension",
        "enrichment.contact",
        "enrichment.rate_limit_per_min",
        "cache.dir",
        "cache.max_bytes",
        "cache.negative_ttl",
        "power.amp.enabled",
        "power.amp.gpio_chip",
        "power.amp.gpio_line",
        "power.amp.active_low",
        "power.amp.pulse",
        "power.amp.on_event",
        "power.amp.off_delay",
        "power.amp.debounce",
        "power.display.blank_after",
        "power.display.ambient_after",
        "power.display.fade_out",
        "timeouts.stall",
        "timeouts.session",
        "ipc.socket",
        "ipc.art_dir",
        "ipc.art_retain",
        "web.enabled",
        "web.bind",
        "web.auth",
        "web.password_hash",
        "web.mdns",
        "web.insecure_no_auth",
        "logging.level",
        "logging.event_buffer",
        "a.key.of.the.future",
    ] {
        let t = tier(key);
        assert!(["live", "renderer", "daemon"].contains(&t.as_str()), "{key}");
    }
}

#[test]
fn the_keys_artd_re_reads_are_the_ones_labelled_live() {
    assert_eq!(tier("timeouts.stall"), Tier::Live);
    assert_eq!(tier("power.amp.off_delay"), Tier::Live);
    assert_eq!(tier("power.display.blank_after"), Tier::Live);
    // The line itself is requested once, at startup.
    assert_eq!(tier("power.amp.gpio_line"), Tier::Daemon);
    assert_eq!(tier("display.rotation"), Tier::Renderer);
    assert_eq!(tier("render.crossfade"), Tier::Renderer);
    assert_eq!(tier("web.bind"), Tier::Daemon);
    assert_eq!(tier("ipc.socket"), Tier::Daemon);
}

fn whole(n: i64) -> Json {
    Json::Number { whole: Some(n), bits: Some((n as f64).to_bits()) }
}

#[test]
fn json_values_convert_only_where_the_meaning_is_unambiguous() {
    assert_eq!(json_to_toml(&Json::Bool(true)), Some(Node::Bool(true)));
    assert_eq!(json_to_toml(&whole(17)), Some(Node::Int(17)));
    let bits = 0.35f64.to_bits();
    assert_eq!(
        json_to_toml(&Json::Number { whole: None, bits: Some(bits) }),
        Some(Node::Float(bits))
    );
    assert_eq!(
        json_to_toml(&Json::Array(vec![Json::Str("itunes".into())])),
        Some(Node::Array(vec![Node::Str("itunes".into())]))
    );
    assert_eq!(json_to_toml(&Json::Null), None);
    let object = Json::Object(vec![Member { key: "a".into(), value: whole(1) }]);
    assert_eq!(json_to_toml(&object), None);
}

#[test]
fn values_are_shown_as_they_are() {
    assert_eq!(toml_to_json(&Node::Str("x".into())), Json::Str("x".into()));
    assert_eq!(toml_to_json(&Node::Bool(false)), Json::Bool(false));
    assert_eq!(toml_to_json(&Node::Datetime("1979-05-27".into())), Json::Str("1979-05-27".into()));
}

#[test]
fn restarting_something_that_cannot_be_restarted_explains_itself() {
    let unit = "lpframe-nothing-of-the-sort";
    assert!(restarted(unit, Asked::Done).is_ok());
    let e = restarted(unit, Asked::Refused(" Unit not found.\n".into())).unwrap_err();
    assert_eq!(e, "systemctl restart lpframe-nothing-of-the-sort failed: Unit not found.");
    let e = restarted(unit, Asked::Missing).unwrap_err();
    assert!(e.contains("systemd is not available here"), "{e}");
    let e = restarted(unit, Asked::Failed("denied".into())).unwrap_err();
    assert_eq!(e, "could not run systemctl: denied");
}

#[test]
fn the_hash_is_the_one_secret() {
    assert!(is_secret("web.password_hash"));
    assert!(!is_secret("web.bind"));
    assert_eq!(choices("display.rotation").unwrap(), ["0", "90", "180", "270"]);
    assert!(choices("device.name").is_none());
    assert!(hint("web.mdns").unwrap().contains("Avahi"));
    assert!(hint("device.name").is_none());
}

fn member(key: &str, value: Json) -> Member {
    Member { key: key.into(), value }
}

fn status(r: &Refusal) -> (u16, &str) {
    match r {
        Refusal::Because { status, message } => (*status, message),
        _ => panic!("another refusal: {r:?}"),
    }
}

#[test]
fn a_change_is_planned_or_refused() {
    let e = plan_patch(&vec![]).unwrap_err();
    assert_eq!(status(&e), (400, "no settings in the request"));

    let secret = vec![member(SECRET_KEY, Json::Str("x".into()))];
    assert_eq!(status(&plan_patch(&secret).unwrap_err()).0, 403);

    let odd = vec![member("render.ambient", Json::Null)];
    assert_eq!(status(&plan_patch(&odd).unwrap_err()).0, 400);

    let p = plan_patch(&vec![
        member("render.ambient", Json::Bool(true)),
        member("display.rotation", whole(90)),
    ])
    .unwrap();
    assert_eq!(p.updates.len(), 2);
    assert_eq!(p.updates[0].key, "render.ambient");
    assert_eq!(p.updates[0].value, Some(Node::Bool(true)));
    assert_eq!(p.updates[1].value, Some(Node::Int(90)));
    assert_eq!(p.touched, ["display.rotation"]);
}

#[test]
fn a_reset_is_planned_or_refused() {
    assert_eq!(status(&plan_reset(&vec![]).unwrap_err()).0, 400);
    let e = plan_reset(&vec!["web.bind".into(), SECRET_KEY.into()]).unwrap_err();
    assert_eq!(status(&e).0, 403);
    let edits = plan_reset(&vec!["web.bind".into()]).unwrap();
    assert_eq!(edits.len(), 1);
    assert_eq!(edits[0].key, "web.bind");
    assert!(edits[0].value.is_none());
}

#[test]
fn restarts_are_named_and_the_hash_is_not() {
    let keys = vec!["render.ambient".to_string(), "web.bind".into(), "timeouts.stall".into()];
    assert_eq!(tiers_touched(&keys), ["daemon", "renderer"]);
    assert!(tiers_touched(&vec!["timeouts.stall".into()]).is_empty());
    let overridden = vec!["web.bind".to_string(), SECRET_KEY.into()];
    assert_eq!(visible_overrides(&overridden), ["web.bind"]);
}

fn leaf(path: &str, value: Node) -> Leaf {
    Leaf { path: path.into(), value }
}

#[test]
fn the_settings_page_leaves_the_hash_out() {
    let current = vec![
        leaf("display.rotation", Node::Int(90)),
        leaf(SECRET_KEY, Node::Str("$argon2id$".into())),
    ];
    let defaults = vec![leaf("display.rotation", Node::Int(0))];
    let items = list_settings(&current, &defaults, &vec!["display.rotation".into()]);
    assert_eq!(items.len(), 1);
    assert_eq!(items[0].key, "display.rotation");
    assert_eq!(items[0].value, Json::Number { whole: Some(90), bits: None });
    assert_eq!(items[0].default, Some(Json::Number { whole: Some(0), bits: None }));
    assert!(items[0].overridden);
    assert_eq!(items[0].tier, Tier::Renderer);
    assert!(items[0].choices.is_some());
}

#[test]
fn errors_are_the_users_or_the_devices() {
    let e = ConfigError::BadKey("no".into());
    assert_eq!(status(&config_error(&e, "")), (400, "no"));
    let e = ConfigError::Write { path: "p".into(), source: "full".into() };
    assert_eq!(status(&config_error(&e, "")), (500, "writing p: full"));
}

#[test]
fn actions_reach_the_daemon_and_unknown_ones_do_not() {
    assert!(matches!(plan_action("amp_on", true), Act::Send(Command::SetAmp(true))));
    assert!(matches!(plan_action("amp_off", true), Act::Send(Command::SetAmp(false))));
    assert!(matches!(
        plan_action("display_wake", false),
        Act::Send(Command::SetDisplay(DisplayPower::On))
    ));
    assert!(matches!(
        plan_action("display_sleep", false),
        Act::Send(Command::SetDisplay(DisplayPower::Off))
    ));
    assert!(matches!(plan_action("restart_renderer", true), Act::Restart(_)));
    assert!(matches!(plan_action("restart_daemon", true), Act::RestartAfter(_)));
    assert!(matches!(
        plan_action("restart_daemon", false),
        Act::Refuse(Refusal::ByHand { .. })
    ));
    assert!(matches!(
        plan_action("cache_clear", true),
        Act::Refuse(Refusal::Because { status: 501, .. })
    ));
    match plan_action("format_disk", true) {
        Act::Refuse(r) => assert_eq!(status(&r), (400, "unknown action \"format_disk\"")),
        other => panic!("{other:?}"),
    }
}

#[test]
fn an_unconfirmed_change_puts_the_older_state_back() {
    let mut s = Settings::new();
    assert!(s.can_arm());
    let mut table = Table::new();
    table.insert("display".into(), {
        let mut t = Table::new();
        t.insert("rotation".into(), Node::Int(180));
        Node::Table(t)
    });
    let first = s.arm(snapshot_keys(&table, &vec!["display.rotation".into()]));
    // A second change before the first was confirmed: undone to the same state.
    let mut changed = Table::new();
    changed.insert("display".into(), {
        let mut t = Table::new();
        t.insert("rotation".into(), Node::Int(90));
        Node::Table(t)
    });
    let second = s.arm(snapshot_keys(&changed, &vec!["display.rotation".into(), "display.mode".into()]));
    assert!(!s.confirm(first));
    assert!(s.revert(first).is_none());
    let undo = s.revert(second).unwrap();
    assert_eq!(undo.len(), 2);
    assert_eq!(undo[0].key, "display.mode");
    assert!(undo[0].value.is_none());
    assert_eq!(undo[1].key, "display.rotation");
    assert_eq!(undo[1].value, Some(Node::Int(180)));
    assert!(s.revert(second).is_none());
}

#[test]
fn a_confirmed_change_stays() {
    let mut s = Settings::new();
    let id = s.arm(snapshot_keys(&Table::new(), &vec!["display.mode".into()]));
    assert!(s.confirm(id));
    assert!(s.revert(id).is_none());
    assert!(!s.confirm(id));
}

#[test]
fn a_login_admits_and_a_logout_ends_it() {
    let mut cfg = Config::default();
    cfg.web.password_hash = hash_password("pw").unwrap();
    let (mut auth, first) = prepare_auth(&mut cfg, "/var/lib/lpframe").unwrap();
    assert!(first.is_none());

    // Nobody is logged in.
    let refused = guard(&mut auth, false, false, "/api/state", None, 0);
    assert!(matches!(refused, Some(Refusal::Unauthenticated)));
    assert_eq!(session(&mut auth, None, 0), (true, false));

    let hash = begin_login(&mut auth, "192.0.2.7", 0).unwrap();
    assert_eq!(hash, cfg.web.password_hash);
    let wrong = end_login(&mut auth, "192.0.2.7", false, 0).unwrap_err();
    assert!(matches!(wrong, Refusal::Unauthenticated));
    // A wrong password is answered like a session that is not there.
    let unknown = guard(&mut auth, false, false, "/api/state", None, 0).unwrap();
    let (wrong, unknown) = (wrong.reply(), unknown.reply());
    assert_eq!((wrong.status, &wrong.error), (401, &unknown.error));
    assert_eq!((wrong.status, wrong.retry_after), (unknown.status, unknown.retry_after));
    let cookie = end_login(&mut auth, "192.0.2.7", true, 0).unwrap();
    let pair = cookie.split(';').next().unwrap().to_string();
    assert_eq!(session(&mut auth, Some(&pair), 0), (true, true));
    assert!(guard(&mut auth, false, false, "/api/state", Some(&pair), 0).is_none());
    // A mutation needs the header too.
    let bare = guard(&mut auth, true, false, "/api/config", Some(&pair), 0);
    assert_eq!(status(&bare.unwrap()).0, 400);
    assert!(guard(&mut auth, true, true, "/api/config", Some(&pair), 0).is_none());

    assert_eq!(logout(&mut auth, Some(&pair)), clear_cookie());
    assert_eq!(session(&mut auth, Some(&pair), 0), (true, false));
    assert_eq!(status(&too_busy()).0, 503);
}

#[test]
fn the_login_rate_limit_engages_after_five_attempts() {
    let mut cfg = Config::default();
    cfg.web.password_hash = hash_password("right").unwrap();
    let (mut auth, _) = prepare_auth(&mut cfg, "/d").unwrap();
    // What a whole login is answered, with a password.
    let mut login = |from: &str, password: &str| -> Result<String, Refusal> {
        let hash = begin_login(&mut auth, from, 0)?;
        let ok = verify_password(&hash, password);
        end_login(&mut auth, from, ok, 0)
    };
    for attempt in 1..=5 {
        let refusal = login("192.0.2.7", "wrong").unwrap_err();
        assert_eq!(refusal.reply().status, 401, "attempt {attempt} was throttled early");
    }
    let sixth = login("192.0.2.7", "wrong").unwrap_err();
    let sixth = sixth.reply();
    assert_eq!((sixth.status, sixth.retry_after), (429, Some(60)));

    // And the right password does not get through either, so the limit
    // cannot be walked past by finally guessing correctly.
    assert!(matches!(login("192.0.2.7", "right"), Err(Refusal::TooManyAttempts)));
    // Another address has its own budget.
    assert!(login("192.0.2.8", "right").is_ok());
}

#[test]
fn with_auth_disabled_the_pages_open_but_mutations_still_need_the_header() {
    let mut cfg = Config::default();
    cfg.web.auth = false;
    let (mut auth, first) = prepare_auth(&mut cfg, "/d").unwrap();
    assert!(auth.is_none() && first.is_none());
    assert!(guard(&mut auth, false, false, "/api/state", None, 0).is_none());
    assert!(guard(&mut auth, true, false, "/api/config", None, 0).is_some());
    assert!(guard(&mut auth, true, true, "/api/config", None, 0).is_none());
    assert_eq!(session(&mut auth, None, 0), (false, true));
    assert_eq!(status(&begin_login(&mut auth, "x", 0).unwrap_err()).0, 400);
}

#[test]
fn a_first_start_generates_a_password_and_stores_only_its_hash() {
    let mut cfg = Config::default();
    let (auth, first) = prepare_auth(&mut cfg, "/var/lib/lpframe").unwrap();
    let first = first.unwrap();
    let auth = auth.unwrap();
    assert!(auth.verify(&first.passphrase));
    assert_eq!(first.passphrase.len(), 23, "{:?}", first.passphrase);
    assert_eq!(first.file.mode, 0o600, "the password file is readable by others");
    assert!(cfg.web.password_hash.starts_with("$argon2id$v=19$m=19456,t=2,p=1$"));
    assert_eq!(first.file.path, "/var/lib/lpframe/web-password.txt");
    assert_eq!(first.file.contents, format!("{}\n", first.passphrase));
    assert_eq!(first.edit.key, "web.password_hash");
    assert_eq!(first.edit.value, Some(Node::Str(cfg.web.password_hash.clone())));
    assert!(!cfg.web.password_hash.contains(&first.passphrase));
    let said = announcement(&first.passphrase, Some(&first.file.path));
    assert!(said.contains(&first.passphrase) && said.contains("lpctl web-password"));
    assert!(announcement("p", None).contains("the only copy"));
}

#[test]
fn the_interface_is_advertised() {
    assert_eq!(
        advertisement("LP Frame", 8730),
        ["--service", "LP Frame web", "_http._tcp", "8730", "path=/"]
    );
}

#[test]
fn a_mutation_without_the_csrf_header_is_rejected() {
    let mut cfg = Config::default();
    cfg.web.password_hash = hash_password("pw").unwrap();
    let (mut auth, _) = prepare_auth(&mut cfg, "/d").unwrap();
    let cookie = end_login(&mut auth, "192.0.2.7", true, 0).unwrap();
    let cookie = Some(cookie.split(';').next().unwrap());
    for path in [
        "/api/config",
        "/api/config/reset",
        "/api/config/confirm",
        "/api/actions/amp_on",
        "/api/logout",
    ] {
        let refused = guard(&mut auth, true, false, path, cookie, 0);
        let refused = refused.expect(path);
        let (code, said) = status(&refused);
        assert_eq!(code, 400, "{path} accepted a request a cross-origin form could make");
        assert!(said.contains("X-LPFrame-Request"), "{said}");
        assert!(guard(&mut auth, true, true, path, cookie, 0).is_none(), "{path}");
    }
    // Without a session list it is the same.
    let refused = guard(&mut None, true, false, "/api/config", None, 0).unwrap();
    assert_eq!(status(&refused).0, 400);
}

#[test]
fn even_logging_in_needs_the_csrf_header() {
    // Login CSRF is the mildest of the family, but the header costs the real
    // client nothing and a uniform rule is one fewer exception to audit.
    let mut cfg = Config::default();
    cfg.web.password_hash = "$argon2id$v=19$x".into();
    let (mut auth, _) = prepare_auth(&mut cfg, "/d").unwrap();
    let refused = guard(&mut auth, true, false, "/api/login", None, 0).unwrap();
    assert_eq!(status(&refused).0, 400);
    assert!(guard(&mut auth, true, true, "/api/login", None, 0).is_none());
    assert!(guard(&mut auth, false, false, "/", None, 0).is_none());
}

#[test]
fn an_accepted_configuration_can_be_served() {
    let lan = || address("0.0.0.0:8730", 8730, false);
    for (auth, hash, escape) in [
        (true, "$argon2id$v=19$x", false),
        (true, "$argon2id$v=19$x", true),
        (false, "", true),
        (false, "", false),
    ] {
        let mut cfg = Config::default();
        cfg.web = web("0.0.0.0:8730", auth, hash, escape);
        let accepted = cfg.validate(lan().as_ref()).is_ok();
        assert_eq!(accepted, check_bind(&cfg.web, lan()).is_ok());
    }
}

#[test]
fn reverting_puts_back_several_keys_changed_together() {
    let known: Vec<String> = ["display.mode", "display.rotation", "render.ambient"]
        .iter()
        .map(|k| k.to_string())
        .collect();
    let before = "[display]\nrotation = 180\n[render]\nambient = true\n";
    let wanted = vec!["display.rotation".to_string(), "display.mode".to_string()];
    let table = read_local(Some(before), "local").unwrap();
    let undo = snapshot_keys(&table, &wanted);
    let edits = vec![
        Edit { key: "display.rotation".into(), value: Some(Node::Int(90)) },
        Edit { key: "display.mode".into(), value: Some(Node::Str("1920x1920@60".into())) },
    ];
    let changed = edit_overrides(None, "base", Some(before), "local", &edits, &known).unwrap();
    assert!(!changed.local.same_tree(&read_value(before).unwrap()));
    let during = "[display]\nrotation = 90\nmode = \"1920x1920@60\"\n[render]\nambient = true\n";
    assert!(changed.local.same_tree(&read_value(during).unwrap()));

    let back = edit_overrides(None, "base", Some(during), "local", &undo, &known).unwrap();
    assert!(back.local.same_tree(&read_value(before).unwrap()));
}

#[test]
fn an_unconfirmed_change_is_undone_once() {
    let known: Vec<String> =
        ["display.mode", "display.rotation"].iter().map(|k| k.to_string()).collect();
    let before = "[display]\nrotation = 180\n";
    let during = "[display]\nrotation = 90\nmode = \"1920x1920@60\"\n";
    let wanted = vec!["display.rotation".to_string(), "display.mode".to_string()];
    let recorded = || snapshot_keys(&read_local(Some(before), "local").unwrap(), &wanted);

    let mut s = Settings::new();
    let id = s.arm(recorded());
    let undo = s.revert(id).unwrap();
    let back = edit_overrides(None, "base", Some(during), "local", &undo, &known).unwrap();
    assert!(back.local.same_tree(&read_value(before).unwrap()));
    assert!(s.revert(id).is_none());

    let id = s.arm(recorded());
    assert!(s.confirm(id));
    assert!(s.revert(id).is_none());

    let id = s.arm(recorded());
    let newer = s.arm(recorded());
    assert!(s.revert(id).is_none());
    assert!(s.revert(newer).is_some());
}
