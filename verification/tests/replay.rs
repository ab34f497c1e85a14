use lpframe::config::Config;
use lpframe::duration::{Dur, MaybeDuration};
use lpframe::machine::{Effect, EnrichmentOutcome as O, Input, Machine, Outcome};
use lpframe::meta::{CoreField, MetaEvent};
use lpframe::proto::{ArtworkSource, DisplayPower, Playback};

/// Deterministic config, so a test does not move when a default does.
fn test_config() -> Config {
    let mut cfg = Config::default();
    cfg.timeouts.stall = Dur::from_secs(15);
    cfg.timeouts.session = Dur::from_secs(60);
    cfg.power.amp.off_delay = Dur::from_secs(600);
    cfg.power.display.blank_after = Dur::from_secs(300);
    cfg.web.enabled = false;
    cfg
}

fn machine() -> Machine {
    Machine::new(test_config(), 0)
}

fn meta(m: &mut Machine, ev: MetaEvent, at: u64) -> Outcome {
    m.apply(Input::Meta(ev), at)
}

#[test]
fn per_track_play_cycles_do_not_leave_the_session() {
    // The core property: pbeg/pend fire per track, so a four-track
    // album must stay Active between tracks and never reach Idle.
    let mut m = machine();
    meta(&mut m, MetaEvent::ActiveBegin, 0);
    let mut t = 0;
    for _ in 0..4 {
        t += 1000;
        meta(&mut m, MetaEvent::PlayBegin, t);
        meta(&mut m, MetaEvent::FirstFrame, t + 10);
        assert_eq!(m.state().playback, Playback::Playing);
        t += 2000;
        meta(&mut m, MetaEvent::PlayEnd, t);
        assert_eq!(
            m.state().playback,
            Playback::Active,
            "pend must return to Active, not Idle"
        );
        assert!(m.state().power.amp, "amp must not drop between tracks");
        assert_eq!(m.state().power.display, DisplayPower::On);
    }
    meta(&mut m, MetaEvent::ActiveEnd, t + 100);
    assert_eq!(m.state().playback, Playback::Idle);
}

#[test]
fn the_amp_switches_once_per_listening_session() {
    let mut m = machine();
    let mut amp_changes = 0;
    let mut t = 0;

    let apply = |m: &mut Machine, ev: MetaEvent, t: u64, count: &mut i32| {
        for e in m.apply(Input::Meta(ev), t).effects {
            if matches!(e, Effect::SetAmp(_)) {
                *count += 1;
            }
        }
    };

    apply(&mut m, MetaEvent::ActiveBegin, 0, &mut amp_changes);
    for _ in 0..5 {
        t += 1000;
        apply(&mut m, MetaEvent::PlayBegin, t, &mut amp_changes);
        apply(&mut m, MetaEvent::FirstFrame, t + 10, &mut amp_changes);
        apply(&mut m, MetaEvent::PlayEnd, t + 2000, &mut amp_changes);
        t += 2000;
    }
    assert_eq!(amp_changes, 1, "amp relay chattered between tracks");
}

#[test]
fn a_sender_that_omits_abeg_still_opens_and_closes_a_session() {
    let mut m = machine();
    meta(&mut m, MetaEvent::PlayBegin, 0);
    assert!(m.state().playback.is_session(), "pbeg must imply a session");
    meta(&mut m, MetaEvent::FirstFrame, 10);
    meta(&mut m, MetaEvent::PlayEnd, 1000);
    assert_eq!(m.state().playback, Playback::Active);

    // No aend ever arrives; the session timeout has to close it.
    m.apply(Input::Tick, 1000 + 60_000);
    assert_eq!(m.state().playback, Playback::Idle);
    assert_eq!(m.counters().session_timeouts, 1);
}

#[test]
fn a_stalled_stream_pauses_then_times_out() {
    let mut m = machine();
    meta(&mut m, MetaEvent::ActiveBegin, 0);
    meta(&mut m, MetaEvent::PlayBegin, 100);
    meta(&mut m, MetaEvent::FirstFrame, 200);

    m.apply(Input::Tick, 200 + 15_000);
    assert_eq!(m.state().playback, Playback::Paused);
    assert_eq!(m.counters().stall_timeouts, 1);

    m.apply(Input::Tick, 200 + 60_000);
    assert_eq!(m.state().playback, Playback::Idle);
}

#[test]
fn pipe_eof_forces_idle_immediately() {
    // shairport-sync dying must not leave the amp on and the screen lit.
    let mut m = machine();
    meta(&mut m, MetaEvent::ActiveBegin, 0);
    meta(&mut m, MetaEvent::PlayBegin, 100);
    meta(&mut m, MetaEvent::FirstFrame, 200);
    assert!(m.state().power.amp);

    let out = m.apply(Input::PipeEof, 300);
    assert_eq!(m.state().playback, Playback::Idle);
    assert_eq!(m.counters().pipe_eofs, 1);
    assert!(out.notes.iter().any(|n| n.contains("writer closed")));

    // The amp holds for its configured delay, then drops.
    assert!(m.state().power.amp, "amp should hold through the off delay");
    m.apply(Input::Tick, 300 + 600_000);
    assert!(!m.state().power.amp);
}

#[test]
fn the_display_blank_timer_starts_at_idle_not_at_play_end() {
    let mut m = machine();
    meta(&mut m, MetaEvent::ActiveBegin, 0);
    meta(&mut m, MetaEvent::PlayBegin, 100);
    meta(&mut m, MetaEvent::FirstFrame, 200);
    meta(&mut m, MetaEvent::PlayEnd, 1_000);

    // Six minutes after pend but still in a session: the display stays on,
    // because between-tracks gaps must not start the countdown.
    m.apply(Input::Meta(MetaEvent::PlayBegin), 300_000);
    assert_eq!(m.state().power.display, DisplayPower::On);

    meta(&mut m, MetaEvent::PlayEnd, 301_000);
    meta(&mut m, MetaEvent::ActiveEnd, 302_000);
    assert_eq!(m.state().power.display, DisplayPower::On, "just went idle");
    m.apply(Input::Tick, 302_000 + 300_000);
    assert_eq!(m.state().power.display, DisplayPower::Off);
}

#[test]
fn a_bundle_is_committed_atomically() {
    let mut m = machine();
    meta(&mut m, MetaEvent::ActiveBegin, 0);
    meta(&mut m, MetaEvent::BundleStart, 10);
    meta(
        &mut m,
        MetaEvent::Core(CoreField::Artist("Massive Attack".into())),
        20,
    );
    meta(
        &mut m,
        MetaEvent::Core(CoreField::Title("Teardrop".into())),
        30,
    );
    // Mid-bundle, nothing is published yet.
    assert!(m.state().track.is_none(), "partial bundle leaked");

    meta(&mut m, MetaEvent::BundleEnd, 40);
    let t = m.state().track.as_ref().unwrap();
    assert_eq!(t.artist.as_deref(), Some("Massive Attack"));
    assert_eq!(t.title.as_deref(), Some("Teardrop"));
    assert_eq!(m.counters().tracks, 1);
}

#[test]
fn a_resent_identical_bundle_is_not_a_new_track() {
    let mut m = machine();
    let send = |m: &mut Machine, at: u64| {
        m.apply(Input::Meta(MetaEvent::BundleStart), at);
        m.apply(
            Input::Meta(MetaEvent::Core(CoreField::PersistentId(0x1234))),
            at + 1,
        );
        m.apply(
            Input::Meta(MetaEvent::Core(CoreField::Title("Same".into()))),
            at + 2,
        );
        m.apply(Input::Meta(MetaEvent::BundleEnd), at + 3);
    };
    send(&mut m, 0);
    send(&mut m, 100);
    send(&mut m, 200);
    assert_eq!(
        m.counters().tracks,
        1,
        "resent bundles counted as new tracks"
    );
}

#[test]
fn identical_artwork_does_not_bump_the_revision() {
    // The revision is the renderer's crossfade trigger; senders resend the
    // same PICT routinely and that must not cause a visible transition.
    let mut m = machine();
    let set = |m: &mut Machine, sha: &str| {
        m.set_artwork(
            sha.into(),
            "/tmp/x.jpg".into(),
            100,
            Some((500, 500)),
            ArtworkSource::Airplay,
            false,
        )
    };
    assert!(set(&mut m, "aaaa"));
    assert_eq!(m.state().artwork.as_ref().unwrap().revision, 1);
    assert!(!set(&mut m, "aaaa"), "duplicate art bumped the revision");
    assert_eq!(m.state().artwork.as_ref().unwrap().revision, 1);
    assert!(set(&mut m, "bbbb"));
    assert_eq!(m.state().artwork.as_ref().unwrap().revision, 2);
    assert_eq!(m.counters().artwork_duplicates, 1);
}

#[test]
fn a_picture_after_a_cleared_one_gets_a_new_revision() {
    // The renderer crossfades on a new revision only, so no two pictures may
    // share one, also across a track without a picture.
    let mut m = machine();
    let set = |m: &mut Machine, sha: &str| {
        m.set_artwork(sha.into(), "/tmp/x.jpg".into(), 100, None, ArtworkSource::Airplay, false)
    };
    assert!(set(&mut m, "aaaa"));
    assert_eq!(m.state().artwork.as_ref().unwrap().revision, 1);
    m.apply(Input::Meta(MetaEvent::PictureCleared), 10);
    assert!(m.state().artwork.is_none());
    assert!(set(&mut m, "bbbb"));
    assert_eq!(m.state().artwork.as_ref().unwrap().revision, 2);
    m.apply(Input::Meta(MetaEvent::PictureCleared), 20);
    // The first one again is a new picture too, for it is not shown.
    assert!(set(&mut m, "aaaa"));
    assert_eq!(m.state().artwork.as_ref().unwrap().revision, 3);
}

#[test]
fn a_tick_before_the_deadline_does_nothing() {
    let mut m = machine();
    assert_eq!(m.next_deadline_ms(), None);
    m.apply(Input::Meta(MetaEvent::ActiveBegin), 0);
    assert_eq!(m.next_deadline_ms(), Some(60_000));
    for now in [0, 1, 59_999] {
        let out = m.apply(Input::Tick, now);
        assert!(!out.changed && out.effects.is_empty() && out.notes.is_empty(), "at {now}");
    }
    assert!(m.apply(Input::Tick, 60_000).changed);
}

#[test]
fn an_enrichment_swap_is_marked_as_an_upgrade_and_airplay_art_is_not() {
    // The renderer picks its crossfade length off this flag alone: 250ms for
    // the same picture getting sharper, 600ms for a new record.
    let mut m = machine();
    m.set_artwork(
        "aaaa".into(),
        "/tmp/a.jpg".into(),
        100,
        Some((500, 500)),
        ArtworkSource::Airplay,
        false,
    );
    assert!(!m.state().artwork.as_ref().unwrap().is_upgrade);

    m.set_artwork(
        "bbbb".into(),
        "/tmp/b.jpg".into(),
        900,
        Some((3000, 3000)),
        ArtworkSource::Itunes,
        true,
    );
    let art = m.state().artwork.as_ref().unwrap();
    assert!(art.is_upgrade);
    assert_eq!(art.revision, 2);
    assert_eq!(art.source, ArtworkSource::Itunes);

    // The next track's AirPlay art clears the flag again.
    m.set_artwork(
        "cccc".into(),
        "/tmp/c.jpg".into(),
        100,
        Some((500, 500)),
        ArtworkSource::Airplay,
        false,
    );
    assert!(!m.state().artwork.as_ref().unwrap().is_upgrade);
}

#[test]
fn every_enrichment_outcome_lands_in_its_own_counter() {
    let mut m = machine();
    for outcome in [
        O::CacheHit,
        O::NegativeCacheHit,
        O::TextRejected,
        O::SizeRejected,
        O::PerceptualRejected,
        O::Upgraded,
        O::NetworkError,
        O::NoMatch,
    ] {
        m.record_enrichment(outcome, false);
    }
    m.record_enrichment(O::Upgraded, true);

    let c = m.counters().enrichment;
    assert_eq!(c.attempted, 9);
    assert_eq!(c.cache_hits, 1);
    assert_eq!(c.negative_cache_hits, 1);
    assert_eq!(c.text_rejections, 1);
    assert_eq!(c.size_rejections, 1);
    assert_eq!(c.perceptual_rejections, 1);
    assert_eq!(c.upgrades, 2);
    assert_eq!(c.network_errors, 1);
    assert_eq!(c.rate_limited, 1);
}

#[test]
fn core_fields_outside_a_bundle_are_dropped() {
    // Without mdst/mden framing there is no way to know whether a field
    // belongs to the current track or the next one.
    let mut m = machine();
    meta(
        &mut m,
        MetaEvent::Core(CoreField::Title("Orphan".into())),
        0,
    );
    assert!(m.state().track.is_none());
}

#[test]
fn progress_recovers_a_session_that_was_paused_by_the_stall_timeout() {
    let mut m = machine();
    meta(&mut m, MetaEvent::ActiveBegin, 0);
    meta(&mut m, MetaEvent::PlayBegin, 100);
    meta(&mut m, MetaEvent::FirstFrame, 200);
    m.apply(Input::Tick, 200 + 15_000);
    assert_eq!(m.state().playback, Playback::Paused);

    meta(
        &mut m,
        MetaEvent::Progress { position_ms: 1_000, duration_ms: 10_000 },
        200 + 16_000,
    );
    assert_eq!(m.state().playback, Playback::Playing);
}

#[test]
fn next_deadline_never_schedules_a_wakeup_with_nothing_to_do() {
    // A wakeup that changes nothing is wasted power on a device that should
    // sit at zero work while idle.
    let mut m = machine();
    // Fresh boot, never been on: nothing pending.
    assert_eq!(m.next_deadline_ms(), None);

    meta(&mut m, MetaEvent::ActiveBegin, 0);
    let d = m.next_deadline_ms().expect("session timeout is pending");
    assert_eq!(d, 60_000);
}

#[test]
fn a_settled_idle_device_has_no_pending_deadline() {
    // A deadline left in the past makes the main loop compute a zero-length
    // sleep and spin at full CPU for as long as the device stays idle.
    let mut m = machine();
    meta(&mut m, MetaEvent::ActiveBegin, 0);
    meta(&mut m, MetaEvent::PlayBegin, 100);
    meta(&mut m, MetaEvent::FirstFrame, 200);
    meta(&mut m, MetaEvent::ActiveEnd, 1_000);

    // Run every timer to completion the way the daemon would.
    let mut at = 1_000u64;
    for _ in 0..16 {
        let Some(deadline) = m.next_deadline_ms() else {
            break;
        };
        assert!(
            deadline > at,
            "deadline {deadline} is not in the future of {at}: the main loop would spin"
        );
        at = deadline;
        m.apply(Input::Tick, at);
    }

    assert_eq!(m.next_deadline_ms(), None, "a timer never retired");
    assert!(!m.state().power.amp);
    assert_eq!(m.state().power.display, DisplayPower::Off);
}

#[test]
fn ambient_precedes_blanking_when_it_is_configured() {
    // Off by default, so this is the path most likely to rot unnoticed.
    let mut cfg = test_config();
    cfg.power.display.ambient_after = MaybeDuration::secs(30);
    cfg.power.display.blank_after = Dur::from_secs(300);
    let mut m = Machine::new(cfg, 0);

    meta(&mut m, MetaEvent::ActiveBegin, 0);
    meta(&mut m, MetaEvent::PlayBegin, 100);
    meta(&mut m, MetaEvent::FirstFrame, 200);
    assert_eq!(m.state().power.display, DisplayPower::On);

    meta(&mut m, MetaEvent::ActiveEnd, 1_000);
    assert_eq!(m.state().power.display, DisplayPower::On, "just went idle");

    m.apply(Input::Tick, 1_000 + 30_000);
    assert_eq!(
        m.state().power.display,
        DisplayPower::Ambient,
        "ambient never engaged"
    );

    m.apply(Input::Tick, 1_000 + 300_000);
    assert_eq!(m.state().power.display, DisplayPower::Off);

    // And playing again wakes it straight back to full brightness.
    meta(&mut m, MetaEvent::ActiveBegin, 400_000);
    assert_eq!(m.state().power.display, DisplayPower::On);
}

#[test]
fn a_parse_error_is_counted_and_changes_nothing() {
    let mut m = machine();
    meta(&mut m, MetaEvent::ActiveBegin, 0);
    let out = m.apply(Input::ParseError, 10);
    assert!(!out.changed);
    assert!(out.effects.is_empty());
    assert_eq!(m.counters().parse_errors, 1);
}

#[test]
fn an_amp_override_holds_until_the_next_transition() {
    let mut m = machine();
    meta(&mut m, MetaEvent::ActiveBegin, 0);
    assert!(m.state().power.amp);
    let out = m.override_amp(false, 100);
    assert!(out.effects.iter().any(|e| matches!(e, Effect::SetAmp(false))));
    assert!(!m.state().power.amp);
    meta(&mut m, MetaEvent::ActiveEnd, 200);
    meta(&mut m, MetaEvent::ActiveBegin, 300);
    assert!(m.state().power.amp);
}

#[test]
fn new_settings_take_effect_on_the_running_machine() {
    let mut m = machine();
    meta(&mut m, MetaEvent::ActiveBegin, 0);
    assert_eq!(m.next_deadline_ms(), Some(60_000));
    let mut cfg = test_config();
    cfg.timeouts.session = Dur::from_secs(90);
    assert!(m.accepts(&cfg));
    m.set_config(cfg);
    assert_eq!(m.next_deadline_ms(), Some(90_000));
    assert_eq!(m.config().timeouts.session, Dur::from_secs(90));
}

#[test]
fn a_machine_says_what_fits_its_clock() {
    let m = machine();
    assert!(Machine::fits(&test_config(), 0));
    assert!(m.can_apply(1_000));
    assert!(!m.can_apply(u64::MAX));
    assert!(m.can_set_artwork());
    assert!(m.can_record());
}

#[test]
fn devices_are_switched_exactly_when_their_power_moves() {
    let mut cfg = test_config();
    cfg.power.display.ambient_after = MaybeDuration(Some(Dur::from_secs(100)));
    let mut m = Machine::new(cfg, 0);
    let script = [
        (MetaEvent::ActiveBegin, 0),
        (MetaEvent::PlayBegin, 100),
        (MetaEvent::FirstFrame, 200),
        (MetaEvent::PlayEnd, 1_000),
        (MetaEvent::ActiveEnd, 2_000),
    ];
    let mut displays = Vec::new();
    let mut step = |m: &mut Machine, input: Input, at: u64| {
        let (amp, display) = (m.state().power.amp, m.state().power.display);
        let out = m.apply(input, at);
        let now = (m.state().power.amp, m.state().power.display);
        let amps: Vec<bool> = out
            .effects
            .iter()
            .filter_map(|e| match e {
                Effect::SetAmp(on) => Some(*on),
                _ => None,
            })
            .collect();
        let shown: Vec<DisplayPower> = out
            .effects
            .iter()
            .filter_map(|e| match e {
                Effect::SetDisplay(d) => Some(*d),
                _ => None,
            })
            .collect();
        assert_eq!(amps, if now.0 != amp { vec![now.0] } else { vec![] });
        assert_eq!(shown, if now.1 != display { vec![now.1] } else { vec![] });
        displays.extend(shown);
        assert_eq!(m.state().session.active, m.state().playback != Playback::Idle);
    };
    for (ev, at) in script {
        step(&mut m, Input::Meta(ev), at);
    }
    for at in [50_000, 102_000, 200_000, 302_000, 602_000, 700_000] {
        step(&mut m, Input::Tick, at);
    }
    assert_eq!(displays, [DisplayPower::On, DisplayPower::Ambient, DisplayPower::Off]);
}

#[test]
fn an_amplifier_that_is_not_enabled_stays_off() {
    let mut cfg = test_config();
    cfg.power.amp.enabled = false;
    let mut m = Machine::new(cfg, 0);
    for (ev, at) in [(MetaEvent::ActiveBegin, 0), (MetaEvent::PlayBegin, 100)] {
        let out = m.apply(Input::Meta(ev), at);
        assert!(!out.effects.iter().any(|e| matches!(e, Effect::SetAmp(_))));
        assert!(!m.state().power.amp);
    }
}
