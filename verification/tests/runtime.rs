use lpframe::artwork::Stored;
use lpframe::capture::png::fake_cover;
use lpframe::config::{Config, Strictness};
use lpframe::duration::Dur;
use lpframe::enrich::hunt::Action;
use lpframe::enrich::{Enricher, Report, Source, Upgrade, Verdict};
use lpframe::hub::Hub;
use lpframe::ipc::Command;
use lpframe::machine::Input;
use lpframe::meta::{CoreField, MetaEvent};
use lpframe::pipe::{decoded, Act, Event, Reader};
use lpframe::proto::{ArtworkSource, DisplayPower, ServerMessage};
use lpframe::runtime::{
    request_for, AmpBackend, Applied, Clock, Commanded, Core, RecordingAmp, Step, TestClock,
};

fn ts() -> String {
    "2026-01-01T00:00:00Z".into()
}

fn test_config() -> Config {
    let mut cfg = Config::default();
    cfg.ipc.art_dir = "/run/art".into();
    cfg.timeouts.stall = Dur::from_secs(15);
    cfg.timeouts.session = Dur::from_secs(60);
    cfg.power.amp.off_delay = Dur::from_secs(600);
    cfg.power.display.blank_after = Dur::from_secs(300);
    cfg.web.enabled = false;
    cfg
}

/// A core with what it drives, and the files that it would have.
struct Bench {
    core: Core,
    hub: Hub,
    amp: RecordingAmp,
    clock: TestClock,
    files: Vec<String>,
    jobs: Vec<(lpframe::enrich::Job, lpframe::enrich::Request)>,
}

impl Bench {
    fn new(cfg: Config) -> Bench {
        let clock = TestClock::default();
        Bench {
            core: Core::new(cfg, clock.now_ms()),
            hub: Hub::new(64),
            amp: RecordingAmp::default(),
            clock,
            files: vec![],
            jobs: vec![],
        }
    }

    fn gone(&mut self, names: Vec<String>) {
        self.files.retain(|f| !names.contains(f));
    }

    fn feed(&mut self, input: Input) -> Option<ServerMessage> {
        self.clock.advance(100);
        let now = self.clock.now_ms();
        assert!(self.core.can_handle(now) && self.core.can_store());
        let (turn, effects) = self.core.handle(input, now);
        self.carry_out(turn, effects)
    }

    fn carry_out(
        &mut self,
        mut turn: lpframe::runtime::Turn,
        effects: Vec<lpframe::machine::Effect>,
    ) -> Option<ServerMessage> {
        for e in effects {
            let (step, amp) = self.core.perform(e, &mut turn, &mut self.amp);
            amp.unwrap();
            match step {
                Step::Nothing => {}
                Step::Write(staged, _) => {
                    self.files.push(staged.stored.path.clone());
                    let gone = self.core.stored(&mut turn, staged.stored);
                    self.gone(gone);
                }
                Step::Unlink(names) => self.gone(names),
            }
        }
        let (message, job) = self.core.finish(turn, &mut self.hub, ts());
        self.jobs.extend(job);
        message
    }

    fn meta(&mut self, ev: MetaEvent) -> Option<ServerMessage> {
        self.feed(Input::Meta(ev))
    }

    fn track(&mut self, album: &str, title: &str) {
        self.meta(MetaEvent::BundleStart);
        self.meta(MetaEvent::Core(CoreField::Artist("Massive Attack".into())));
        self.meta(MetaEvent::Core(CoreField::Album(album.into())));
        self.meta(MetaEvent::Core(CoreField::Title(title.into())));
        self.meta(MetaEvent::BundleEnd);
    }
}

#[test]
fn the_amp_backend_is_driven_off_on_shutdown() {
    // The orderly half of the guarantee. The disorderly half is the external
    // pull-down resistor, which no test can stand in for.
    let mut b = Bench::new(test_config());
    b.meta(MetaEvent::ActiveBegin);
    assert_eq!(b.amp.0.last().map(|e| e.1), Some(true), "the amp never came on");

    b.core.shutdown(&mut b.amp).unwrap();
    assert_eq!(
        b.amp.0.last().map(|e| e.1),
        Some(false),
        "shutdown left the amplifier powered"
    );
}

#[test]
fn pictures_are_published_and_unlinked_behind_the_reader() {
    let mut b = Bench::new(test_config());
    b.meta(MetaEvent::ActiveBegin);
    for hue in 0..6 {
        let m = b.meta(MetaEvent::Picture(fake_cover(16, hue))).unwrap();
        assert!(matches!(m, ServerMessage::State { .. }));
        let art = b.hub.snapshot().1.artwork.unwrap();
        assert_eq!(art.revision, hue as u64 + 1);
        assert_eq!((art.width, art.height), (Some(16), Some(16)));
        assert!(b.files.contains(&art.path), "the current picture was unlinked");
    }
    assert_eq!(b.files.len(), 4);
    // The same picture again is no news.
    assert!(b.meta(MetaEvent::Picture(fake_cover(16, 5))).is_none());
}

#[test]
fn a_track_without_a_picture_clears_the_wall() {
    let mut b = Bench::new(test_config());
    b.meta(MetaEvent::ActiveBegin);
    b.meta(MetaEvent::Picture(fake_cover(16, 1)));
    assert_eq!(b.files.len(), 1);
    b.meta(MetaEvent::PictureCleared);
    assert!(b.files.is_empty());
    assert!(b.hub.snapshot().1.artwork.is_none());
}

#[test]
fn sleeping_ends_at_the_next_deadline() {
    let mut b = Bench::new(test_config());
    assert_eq!(b.core.next_deadline_ms(), None);
    b.meta(MetaEvent::ActiveBegin);
    assert_eq!(b.core.next_deadline_ms(), Some(60_100));
    assert!(b.core.sleep_ms(60_050) <= 50);
    assert_eq!(b.core.sleep_ms(70_000), 0);
}

fn enriching() -> Config {
    let mut cfg = test_config();
    cfg.enrichment.enabled = true;
    cfg.enrichment.strictness = Strictness::TextOnly;
    cfg.enrichment.sources = vec!["itunes".into()];
    cfg
}

fn on_the_wall() -> Bench {
    let cfg = enriching();
    let enricher = Enricher::new(&cfg);
    let mut b = Bench::new(cfg);
    b.core.set_enricher(enricher);
    b.meta(MetaEvent::ActiveBegin);
    b.track("Mezzanine", "Angel");
    b.meta(MetaEvent::Picture(fake_cover(16, 1)));
    b
}

fn upgrade(hue: u8) -> Verdict {
    Verdict::Upgraded(Upgrade {
        bytes: fake_cover(32, hue),
        dimensions: (32, 32),
        source: ArtworkSource::Itunes,
    })
}

/// Take in a result as whoever runs the core would.
fn apply(b: &mut Bench, report: &Report) -> Option<ServerMessage> {
    assert!(b.core.can_enrich());
    match b.core.handle_enrichment(report, &mut b.hub, ts()) {
        Applied::Stale => None,
        Applied::Counted => b.core.finish_enrichment(report, None, &mut b.hub, ts()).0,
        Applied::Write(staged) => {
            let s: Stored = staged.stored;
            b.files.push(s.path.clone());
            let (m, gone) = b.core.finish_enrichment(report, Some(s), &mut b.hub, ts());
            b.gone(gone);
            m
        }
    }
}

#[test]
fn a_larger_cover_replaces_the_airplay_art_as_an_upgrade() {
    let mut b = on_the_wall();
    assert_eq!(b.jobs.len(), 1, "one album, one job");
    let (job, request) = b.jobs.pop().unwrap();
    assert_eq!((request.artist.as_str(), request.album.as_str()), ("Massive Attack", "Mezzanine"));
    assert_eq!(request.current_dimensions, Some((16, 16)));
    assert_eq!(job.label, "Massive Attack — Mezzanine");
    let (_, first, strictness) = b.core.pursue(&request).unwrap();
    assert!(matches!(first, Action::Search(Source::Itunes)));
    assert_eq!(strictness, Strictness::TextOnly);
    assert!(b.core.still_current(&job.key));

    let report = b.core.conclude(job, Some(upgrade(9)), true).unwrap();
    let m = apply(&mut b, &report);
    assert!(matches!(m, Some(ServerMessage::State { .. })));
    let (_, s) = b.hub.snapshot();
    let art = s.artwork.unwrap();
    assert!(art.is_upgrade);
    assert_eq!(art.source, ArtworkSource::Itunes);
    assert_eq!(art.width, Some(32));
    let c = b.hub.counters().enrichment;
    assert_eq!((c.attempted, c.upgrades, c.rate_limited), (1, 1, 1));
    assert_eq!(
        b.hub.notes()[0].text,
        "Massive Attack — Mezzanine: upgraded to 32×32 from itunes"
    );
    // What enrichment put up is not offered to it again.
    assert!(request_for(&b.hub.snapshot().1).is_none());
}

#[test]
fn a_result_for_an_album_that_has_ended_is_discarded() {
    let mut b = on_the_wall();
    let (job, _) = b.jobs.pop().unwrap();
    let report = b.core.conclude(job, Some(upgrade(9)), false).unwrap();
    b.track("Protection", "Sly");
    b.meta(MetaEvent::Picture(fake_cover(16, 2)));
    let (before, state) = b.hub.snapshot();
    let shown = state.artwork.unwrap();
    assert!(apply(&mut b, &report).is_none());
    let (after, state) = b.hub.snapshot();
    let art = state.artwork.unwrap();
    assert_eq!(after, before);
    assert!(!art.is_upgrade);
    assert_eq!(art.sha256, shown.sha256, "another album's art swapped in");
    assert_eq!(art.revision, shown.revision);
    let counted = b.hub.counters().enrichment;
    assert_eq!(counted.attempted + counted.upgrades, 0, "a discarded report was counted");
}

#[test]
fn a_job_that_was_overtaken_reports_nothing() {
    let mut b = on_the_wall();
    let (job, _) = b.jobs.pop().unwrap();
    b.track("Protection", "Sly");
    b.meta(MetaEvent::Picture(fake_cover(16, 2)));
    assert!(b.core.conclude(job, Some(Verdict::NoMatch), false).is_none());
}

#[test]
fn a_miss_leaves_the_airplay_art_untouched() {
    let mut b = on_the_wall();
    let (job, _) = b.jobs.pop().unwrap();
    let report = b.core.conclude(job, Some(Verdict::Unreachable("down".into())), false).unwrap();
    let before = b.hub.snapshot().0;
    assert!(apply(&mut b, &report).is_none());
    assert_eq!(b.hub.snapshot().0, before);
    assert_eq!(b.hub.counters().enrichment.network_errors, 1);
}

#[test]
fn a_resent_bundle_does_not_start_a_second_job() {
    let mut b = on_the_wall();
    b.track("Mezzanine", "Angel");
    b.track("Mezzanine", "Risingson");
    assert_eq!(b.jobs.len(), 1);
}

#[test]
fn a_track_without_an_album_is_never_searched_for() {
    let cfg = enriching();
    let enricher = Enricher::new(&cfg);
    let mut b = Bench::new(cfg);
    b.core.set_enricher(enricher);
    b.meta(MetaEvent::ActiveBegin);
    for ev in [
        MetaEvent::BundleStart,
        MetaEvent::Core(CoreField::Artist("Massive Attack".into())),
        MetaEvent::Core(CoreField::Title("Angel".into())),
        MetaEvent::BundleEnd,
        MetaEvent::Picture(fake_cover(16, 1)),
    ] {
        b.meta(ev);
    }
    assert!(b.jobs.is_empty());
    // Nor for one whose name is blank.
    b.track("  ", "Angel");
    b.meta(MetaEvent::Picture(fake_cover(16, 2)));
    assert!(b.jobs.is_empty());
}

#[test]
fn commands_reach_the_machine() {
    let mut b = Bench::new(test_config());
    assert!(matches!(
        b.core.handle_command(Command::SetDisplay(DisplayPower::Off), 0),
        Commanded::Nothing
    ));
    assert!(matches!(
        b.core.handle_command(Command::InjectArtwork("/tmp/x".into()), 0),
        Commanded::Read(p) if p == "/tmp/x"
    ));
    match b.core.handle_command(Command::SetAmp(true), 10) {
        Commanded::Turn(turn, effects) => {
            assert_eq!(turn.label, "set_amp");
            b.carry_out(turn, effects);
        }
        other => panic!("{other:?}"),
    }
    assert_eq!(b.amp.0.last().map(|e| e.1), Some(true));
    assert!(b.hub.snapshot().1.power.amp);
    let mut cfg = test_config();
    cfg.timeouts.session = Dur::from_secs(99);
    b.core.handle_command(Command::Reload(Box::new(cfg)), 20);
    assert_eq!(b.core.machine().config().timeouts.session, Dur::from_secs(99));
}

#[test]
fn an_amp_keeps_what_it_was_asked() {
    let mut a = RecordingAmp::default();
    a.set(true).unwrap();
    a.set(false).unwrap();
    assert_eq!(a.0, [(0, true), (0, false)]);
}

#[test]
fn a_pipe_reports_the_end_of_a_writer_once() {
    let mut r = Reader::new();
    assert_eq!(r.step(Event::Quiet { listening: true }), Act::Wait);
    assert_eq!(r.step(Event::Again), Act::Wait);
    // An end without a writer is no news.
    assert_eq!(r.step(Event::End), Act::Reopen { ended: false });
    assert_eq!(r.step(Event::Bytes), Act::Decode { attached: true });
    assert_eq!(r.step(Event::Bytes), Act::Decode { attached: false });
    assert_eq!(r.step(Event::End), Act::Reopen { ended: true });
    assert_eq!(r.step(Event::End), Act::Reopen { ended: false });
    assert_eq!(r.step(Event::Quiet { listening: false }), Act::Stop);
    assert_eq!(r.step(Event::Failed), Act::Fail);
    assert!(matches!(decoded(None), Input::ParseError));
    assert!(matches!(decoded(Some(MetaEvent::Stall)), Input::Meta(MetaEvent::Stall)));
}
