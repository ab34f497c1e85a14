//! The core: owns the state machine and the artwork store, and decides what
//! has to be done about each input.
//!
//! Everything that needs the current time is told it, so a whole session can
//! be replayed in microseconds with the timers still firing at the right
//! relative moments. Whoever runs the core writes the files, drives the
//! amplifier and keeps the clock.

use vstd::prelude::*;

use crate::artwork::{ArtStore, ArtStoreView, Staged, Stored};
use crate::config::{Config, Strictness};
use crate::enrich::hunt::{Action, Hunt};
use crate::enrich::{
    album_key, key_of, Enricher, EnricherView, Job, Report, Request, Verdict, VerdictView,
};
use crate::hub::{is_snapshot, Hub, HubView, NoteView};
use crate::ipc::Command;
use crate::machine::{
    booted, effects_view, rules, Counters, Effect, EnrichmentOutcome, Input, Machine, Model,
    Outcome,
};
use crate::proto::{ArtworkSource, ServerMessage, State, StateView};
use crate::strings::{concat, same, texts};

verus! {

broadcast use vstd::seq::group_seq_axioms;

/// Monotonic milliseconds. Never wall-clock: a clock step shortly after boot
/// must not fire a ten-minute amp timer early.
pub trait Clock {
    fn now_ms(&self) -> u64;
}

/// A clock that is driven by hand.
#[derive(Debug)]
pub struct TestClock(u64);

impl Default for TestClock {
    fn default() -> (r: TestClock)
        ensures
            r.time() == 0,
    {
        TestClock(0)
    }
}

impl TestClock {
    /// What it shows.
    pub closed spec fn time(self) -> u64 {
        self.0
    }

    /// Move it on. It wraps around at the end of its range.
    pub fn advance(&mut self, ms: u64)
        ensures
            final(self).time() == (old(self).time() + ms) % 0x1_0000_0000_0000_0000,
    {
        self.0 = self.0.wrapping_add(ms);
    }

    pub fn set(&mut self, ms: u64)
        ensures
            final(self).time() == ms,
    {
        self.0 = ms;
    }
}

impl Clock for TestClock {
    fn now_ms(&self) -> (r: u64)
        ensures
            r == self.time(),
    {
        self.0
    }
}

/// Where amp transitions go.
pub trait AmpBackend {
    /// The levels it has been asked for, in order.
    spec fn asked(&self) -> Seq<bool>;

    fn set(&mut self, on: bool) -> (r: Result<(), String>)
        ensures
            final(self).asked() == old(self).asked().push(on),
    ;
}

/// Records transitions instead of performing them.
#[derive(Debug)]
pub struct RecordingAmp(pub Vec<(u64, bool)>);

impl Default for RecordingAmp {
    fn default() -> (r: RecordingAmp)
        ensures
            r.0@.len() == 0,
    {
        RecordingAmp(Vec::new())
    }
}

impl AmpBackend for RecordingAmp {
    open spec fn asked(&self) -> Seq<bool> {
        self.0@.map_values(|e: (u64, bool)| e.1)
    }

    fn set(&mut self, on: bool) -> (r: Result<(), String>)
        ensures
            final(self).0@ == old(self).0@.push((0u64, on)),
            r is Ok,
    {
        self.0.push((0u64, on));
        assert(self.asked() == old(self).asked().push(on));
        Ok(())
    }
}

/// One input, on its way through the core.
#[derive(Debug)]
pub struct Turn {
    /// What the input is called in the notes.
    pub label: String,
    pub notes: Vec<String>,
    /// Whether there is something to publish.
    pub changed: bool,
}

/// What one effect asks of whoever runs the core.
#[derive(Debug)]
pub enum Step {
    /// Nothing.
    Nothing,
    /// Write a picture, then report it with [`Core::stored`]. Losing artwork
    /// must never take the daemon down: if that fails, the previous image
    /// stays up and the next track retries.
    Write(Staged, Vec<u8>),
    /// Remove files.
    Unlink(Vec<String>),
}

/// What a command asks of whoever runs the core.
#[derive(Debug)]
pub enum Commanded {
    /// Nothing.
    Nothing,
    /// Read a file, and feed it in as a picture.
    Read(String),
    /// Perform some effects, then finish the turn.
    Turn(Turn, Vec<Effect>),
}

/// What an enrichment result asks of whoever runs the core.
#[derive(Debug)]
pub enum Applied {
    /// Nothing: the album has ended meanwhile.
    Stale,
    /// Nothing but to finish: the displayed picture stays.
    Counted,
    /// Write the new picture, then finish.
    Write(Staged),
}

/// The core.
pub struct Core {
    machine: Machine,
    store: ArtStore,
    /// Absent when enrichment is off, which is how "off means off" is
    /// enforced: there is no object here that could reach the network.
    enricher: Option<Enricher>,
}

/// A [`Core`] as values.
pub struct CoreView {
    pub model: Model,
    pub settings: Config,
    pub store: ArtStoreView,
    pub enricher: Option<EnricherView>,
}

impl View for Core {
    type V = CoreView;

    closed spec fn view(&self) -> CoreView {
        CoreView {
            model: self.machine.model(),
            settings: self.machine.settings(),
            store: self.store@,
            enricher: match self.enricher {
                Some(e) => Some(e@),
                None => None,
            },
        }
    }
}

/// The hub after some notes of one input.
pub open spec fn noted_all(
    h: HubView,
    ts: Seq<char>,
    label: Seq<char>,
    notes: Seq<Seq<char>>,
) -> HubView
    decreases notes.len(),
{
    if notes.len() == 0 {
        h
    } else {
        noted_all(h, ts, label, notes.drop_last()).noted(
            NoteView { ts, input: label, text: notes.last() },
        )
    }
}

/// What is offered for enrichment: artist, album and revision of AirPlay art
/// that belongs to a track with both names.
///
/// Only AirPlay art is a candidate for upgrading. Offering an already enriched
/// image again would compare it against itself.
pub open spec fn offer(s: StateView) -> Option<(Seq<char>, Seq<char>, u64)> {
    match (s.track, s.artwork) {
        (Some(t), Some(a)) => match (t.artist, t.album) {
            (Some(artist), Some(album)) => if a.source == ArtworkSource::Airplay {
                Some((artist, album, a.revision))
            } else {
                None
            },
            _ => None,
        },
        _ => None,
    }
}

/// Whether a request is for what is offered.
pub open spec fn requests(s: StateView, q: Request) -> bool {
    &&& offer(s) == Some((q.artist@, q.album@, q.current_revision))
    &&& s.artwork matches Some(a) && q.current_path@ == a.path && q.current_dimensions == match (
        a.width,
        a.height,
    ) {
        (Some(w), Some(h)) => Some((w, h)),
        _ => None,
    }
}

/// Whether a job is for a request.
pub open spec fn works_on(job: Job, q: Request) -> bool {
    &&& job.key@ == key_of(q.artist@, q.album@)
    &&& job.label@ == q.artist@ + " — "@ + q.album@
    &&& job.flight.held() == job.key@
}

/// The request for what is offered.
pub fn request_for(s: &State) -> (r: Option<Request>)
    ensures
        match r {
            Some(q) => requests(s@, q),
            None => offer(s@) is None,
        },
{
    match (&s.track, &s.artwork) {
        (Some(t), Some(a)) => match (&t.artist, &t.album) {
            (Some(artist), Some(album)) => if a.source == ArtworkSource::Airplay {
                Some(
                    Request {
                        artist: artist.clone(),
                        album: album.clone(),
                        current_path: a.path.clone(),
                        current_revision: a.revision,
                        current_dimensions: match (a.width, a.height) {
                            (Some(w), Some(h)) => Some((w, h)),
                            _ => None,
                        },
                    },
                )
            } else {
                None
            },
            _ => None,
        },
        _ => None,
    }
}

/// The key of the album that is playing, if it has both names.
pub open spec fn playing(s: StateView) -> Option<Seq<char>> {
    match s.track {
        Some(t) => match (t.artist, t.album) {
            (Some(artist), Some(album)) => Some(key_of(artist, album)),
            _ => None,
        },
        None => None,
    }
}

fn playing_key(s: &State) -> (r: Option<String>)
    ensures
        match r {
            Some(k) => playing(s@) == Some(k@),
            None => playing(s@) is None,
        },
{
    match &s.track {
        Some(t) => match (&t.artist, &t.album) {
            (Some(artist), Some(album)) => Some(album_key(artist.as_str(), album.as_str())),
            _ => None,
        },
        None => None,
    }
}

/// The counter that a verdict belongs to.
pub open spec fn counted_as(v: VerdictView) -> EnrichmentOutcome {
    match v {
        VerdictView::Cached(_) => EnrichmentOutcome::CacheHit,
        VerdictView::Upgraded(_) => EnrichmentOutcome::Upgraded,
        VerdictView::NegativeCacheHit => EnrichmentOutcome::NegativeCacheHit,
        VerdictView::TextRejected { .. } => EnrichmentOutcome::TextRejected,
        VerdictView::SizeRejected { .. } => EnrichmentOutcome::SizeRejected,
        VerdictView::PerceptualRejected { .. } => EnrichmentOutcome::PerceptualRejected,
        VerdictView::Unreachable(_) => EnrichmentOutcome::NetworkError,
        VerdictView::NoMatch | VerdictView::Undecodable(_) => EnrichmentOutcome::NoMatch,
    }
}

fn outcome_of(v: &Verdict) -> (r: EnrichmentOutcome)
    ensures
        r == counted_as(v@),
{
    match v {
        Verdict::Cached(_) => EnrichmentOutcome::CacheHit,
        Verdict::Upgraded(_) => EnrichmentOutcome::Upgraded,
        Verdict::NegativeCacheHit => EnrichmentOutcome::NegativeCacheHit,
        Verdict::TextRejected { .. } => EnrichmentOutcome::TextRejected,
        Verdict::SizeRejected { .. } => EnrichmentOutcome::SizeRejected,
        Verdict::PerceptualRejected { .. } => EnrichmentOutcome::PerceptualRejected,
        Verdict::Unreachable(_) => EnrichmentOutcome::NetworkError,
        Verdict::NoMatch | Verdict::Undecodable(_) => EnrichmentOutcome::NoMatch,
    }
}

impl CoreView {
    /// The core after a picture was put in place.
    pub open spec fn with_picture(
        self,
        s: Stored,
        dimensions: Option<(u32, u32)>,
        source: ArtworkSource,
        is_upgrade: bool,
    ) -> CoreView {
        CoreView {
            model: Machine::art_recorded(
                self.model,
                s.sha256@,
                s.path@,
                s.bytes,
                dimensions,
                source,
                is_upgrade,
            ),
            store: self.store.kept(s.path@),
            ..self
        }
    }

    /// Whether a picture is another one than the displayed one.
    pub open spec fn is_new(self, s: Stored) -> bool {
        !(self.model.state.artwork matches Some(a) && a.sha256 == s.sha256@)
    }

    /// Whether a report is about the album that is playing.
    ///
    /// A report can arrive after the track has moved on, and swapping then
    /// would put the previous album's cover over the current one: a failure a
    /// viewer notices immediately and cannot explain.
    pub open spec fn concerns(self, r: Report) -> bool {
        playing(self.model.state) == Some(r.key@)
    }

    /// The core after a report was counted.
    pub open spec fn counted(self, r: Report) -> CoreView {
        CoreView {
            model: Model {
                counters: Counters {
                    enrichment: self.model.counters.enrichment.recorded(
                        counted_as(r.verdict@),
                        r.rate_limited,
                    ),
                    ..self.model.counters
                },
                ..self.model
            },
            ..self
        }
    }

    /// What is published: the counters, and the state with a new number.
    pub open spec fn publication(self, h: HubView) -> HubView {
        HubView { counters: self.model.counters, ..h }.published(self.model.state)
    }

    /// The core after its picture was offered for enrichment, and whether a
    /// job is started.
    pub open spec fn offered(self) -> (CoreView, bool) {
        match (self.enricher, offer(self.model.state)) {
            (Some(e), Some((artist, album, revision))) => {
                let (after, started) = e.considered(artist, album, revision);
                (CoreView { enricher: Some(after), ..self }, started)
            },
            _ => (self, false),
        }
    }
}

impl Core {
    /// The invariant of its parts.
    pub closed spec fn valid(self) -> bool {
        &&& self.machine.valid()
        &&& self.store@.valid()
        &&& self.enricher matches Some(e) ==> e.valid()
    }

    /// A core at boot, with no enrichment attached.
    pub fn new(cfg: Config, now_ms: u64) -> (r: Core)
        requires
            rules(cfg).fit(now_ms),
        ensures
            r.valid(),
            r@.settings == cfg,
            r@.model == booted(now_ms),
            r@.store == (ArtStoreView {
                dir: cfg.ipc.art_dir@,
                retain: if cfg.ipc.art_retain >= 2 {
                    cfg.ipc.art_retain as nat
                } else {
                    2
                },
                written: Seq::empty(),
                next_seq: 1,
            }),
            r@.enricher is None,
    {
        let store = ArtStore::new(cfg.ipc.art_dir.as_str(), cfg.ipc.art_retain);
        let machine = Machine::new(cfg, now_ms);
        Core { machine, store, enricher: None }
    }

    /// Attach the enrichment pipeline.
    pub fn set_enricher(&mut self, enricher: Option<Enricher>)
        requires
            old(self).valid(),
            enricher matches Some(e) ==> e.valid(),
        ensures
            final(self).valid(),
            final(self)@ == (CoreView {
                enricher: match enricher {
                    Some(e) => Some(e@),
                    None => None,
                },
                ..old(self)@
            }),
    {
        self.enricher = enricher;
    }

    pub fn machine(&self) -> (r: &Machine)
        requires
            self.valid(),
        ensures
            r.valid(),
            r.model() == self@.model,
            r.settings() == self@.settings,
    {
        &self.machine
    }

    /// Whether enrichment is attached, and still wants results for an album.
    pub fn still_current(&self, key: &str) -> (r: bool)
        ensures
            r == (self@.enricher matches Some(e) && e.current == Some(key@)),
    {
        match &self.enricher {
            Some(e) => e.still_current(key),
            None => false,
        }
    }

    /// Begin the search that a job asks for, if enrichment is attached.
    pub fn pursue(&self, request: &Request) -> (r: Option<(Hunt, Action, Strictness)>)
        requires
            self.valid(),
        ensures
            match self@.enricher {
                None => r is None,
                Some(e) => {
                    &&& r matches Some(p)
                    &&& p.0@.valid()
                    &&& p.0@.artist == request.artist@
                    &&& p.0@.album == request.album@
                    &&& p.0@.sources == e.sources
                    &&& p.0@.backoff_ms == e.retry_backoff_ms
                    &&& p.0@.at == 0
                    &&& !p.0@.rate_limited
                    &&& p.0@.best_text is None
                    &&& (p.0@, p.1@) == p.0@.ask()
                    &&& p.2 == e.strictness
                },
            },
    {
        match &self.enricher {
            Some(e) => {
                let (h, a) = e.hunt(request.artist.as_str(), request.album.as_str());
                Some((h, a, e.strictness()))
            },
            None => None,
        }
    }

    /// An enrichment job is over.
    pub fn conclude(&mut self, job: Job, verdict: Option<Verdict>, rate_limited: bool) -> (r: Option<
        Report,
    >)
        requires
            old(self).valid(),
        ensures
            final(self).valid(),
            final(self)@ == (CoreView {
                enricher: match old(self)@.enricher {
                    Some(e) => Some(
                        EnricherView { in_flight: e.in_flight.remove(job.flight.held()), ..e },
                    ),
                    None => None,
                },
                ..old(self)@
            }),
            r is Some <==> verdict is Some && (old(self)@.enricher matches Some(e) && e.current
                == Some(job.key@)),
            r matches Some(report) ==> report.key == job.key && report.label == job.label && Some(
                report.verdict,
            ) == verdict && report.rate_limited == rate_limited,
    {
        match self.enricher.take() {
            Some(mut e) => {
                let r = e.conclude(job, verdict, rate_limited);
                self.enricher = Some(e);
                r
            },
            None => None,
        }
    }

    /// Take in one input. The effects are to be performed in order, each with
    /// [`Core::perform`], and then the turn is to be finished.
    pub fn handle(&mut self, input: Input, now_ms: u64) -> (r: (Turn, Vec<Effect>))
        requires
            old(self).valid(),
            rules(old(self)@.settings).fit(now_ms),
            old(self)@.model.counters.has_room(),
        ensures
            final(self).valid(),
            ({
                let step = old(self)@.model.step(rules(old(self)@.settings), input@, now_ms);
                &&& final(self)@ == (CoreView { model: step.m, ..old(self)@ })
                &&& r.0.label@ == input@.name()
                &&& texts(r.0.notes@) == step.notes
                &&& r.0.changed == !step.m.state.equals(old(self)@.model.state)
                &&& effects_view(r.1@) == step.effects
            }),
    {
        let label = input.label();
        let outcome = self.machine.apply(input, now_ms);
        let Outcome { changed, effects, notes } = outcome;
        (Turn { label, notes, changed }, effects)
    }

    /// Whether an input can be taken in at this moment.
    pub fn can_handle(&self, now_ms: u64) -> (r: bool)
        ensures
            r == (rules(self@.settings).fit(now_ms) && self@.model.counters.has_room()),
    {
        self.machine.can_apply(now_ms)
    }

    /// Whether another picture can be numbered and recorded.
    pub open spec fn has_art_room(self) -> bool {
        &&& self@.store.next_seq < u64::MAX
        &&& self@.model.counters.has_art_room()
        &&& self@.model.last_revision < u64::MAX
    }

    /// Whether another picture can be numbered and recorded.
    pub fn can_store(&self) -> (r: bool)
        ensures
            r == self.has_art_room(),
    {
        self.store.can_stage() && self.machine.can_set_artwork()
    }

    /// Perform one effect, or say what is to be done for it.
    ///
    /// A failing amplifier is reported by its backend and changes nothing
    /// here. The display is published as intent; the renderer performs the
    /// transition.
    pub fn perform<A: AmpBackend>(
        &mut self,
        effect: Effect,
        turn: &mut Turn,
        amp: &mut A,
    ) -> (r: (Step, Result<(), String>))
        requires
            old(self).valid(),
            old(self)@.store.next_seq < u64::MAX,
        ensures
            final(self).valid(),
            final(turn).label == old(turn).label,
            final(turn).notes == old(turn).notes,
            final(turn).changed == (old(turn).changed || effect is ClearArtwork),
            effect !is SetAmp ==> r.1 is Ok,
            match effect {
                Effect::StoreArtwork(bytes) => {
                    &&& r.0 matches Step::Write(staged, b) && b == bytes
                        && old(self)@.store.stages(bytes@, staged)
                    &&& final(self)@ == (CoreView {
                        store: ArtStoreView {
                            next_seq: old(self)@.store.next_seq + 1,
                            ..old(self)@.store
                        },
                        ..old(self)@
                    })
                    &&& final(amp).asked() == old(amp).asked()
                },
                Effect::ClearArtwork => {
                    &&& r.0 matches Step::Unlink(files) && texts(files@) == old(self)@.store.written
                    &&& final(self)@ == (CoreView {
                        store: ArtStoreView { written: Seq::empty(), ..old(self)@.store },
                        ..old(self)@
                    })
                    &&& final(amp).asked() == old(amp).asked()
                },
                Effect::SetAmp(on) => {
                    &&& r.0 is Nothing
                    &&& final(self)@ == old(self)@
                    &&& final(amp).asked() == old(amp).asked().push(on)
                },
                Effect::SetDisplay(_) => {
                    &&& r.0 is Nothing
                    &&& final(self)@ == old(self)@
                    &&& final(amp).asked() == old(amp).asked()
                },
            },
    {
        match effect {
            Effect::StoreArtwork(bytes) => {
                let staged = self.store.stage(&bytes);
                (Step::Write(staged, bytes), Ok(()))
            },
            Effect::ClearArtwork => {
                let files = self.store.clear();
                turn.changed = true;
                (Step::Unlink(files), Ok(()))
            },
            Effect::SetAmp(on) => {
                let r = amp.set(on);
                (Step::Nothing, r)
            },
            Effect::SetDisplay(_) => (Step::Nothing, Ok(())),
        }
    }

    /// A picture of this turn is in place. Returns the files to unlink.
    ///
    /// Unconditional and immediate: enrichment is decoration and may never
    /// delay this.
    pub fn stored(&mut self, turn: &mut Turn, s: Stored) -> (r: Vec<String>)
        requires
            old(self).valid(),
            old(self).has_art_room(),
        ensures
            final(self).valid(),
            final(self)@ == old(self)@.with_picture(
                s,
                s.dimensions,
                ArtworkSource::Airplay,
                false,
            ),
            texts(r@) == old(self)@.store.written.push(s.path@).take(old(self)@.store.excess()),
            final(turn).label == old(turn).label,
            final(turn).notes == old(turn).notes,
            final(turn).changed == (old(turn).changed || old(self)@.is_new(s)),
    {
        let gone = self.store.store(s.path.as_str());
        let new = self.machine.set_artwork(
            s.sha256,
            s.path,
            s.bytes,
            s.dimensions,
            ArtworkSource::Airplay,
            false,
        );
        turn.changed = turn.changed || new;
        gone
    }

    /// Finish a turn: keep its notes, publish the state if it changed, and
    /// offer the current track to the enrichment pipeline.
    ///
    /// Offered after every input rather than only on a track change: the
    /// artwork arrives separately from the metadata bundle, so which of the
    /// two lands last varies by sender.
    pub fn finish(&mut self, turn: Turn, hub: &mut Hub, ts: String) -> (r: (
        Option<ServerMessage>,
        Option<(Job, Request)>,
    ))
        requires
            old(self).valid(),
            old(hub)@.valid(),
            old(hub)@.seq < u64::MAX,
        ensures
            final(self).valid(),
            final(hub)@.valid(),
            (final(self)@, r.1 is Some) == old(self)@.offered(),
            ({
                let noted = noted_all(old(hub)@, ts@, turn.label@, texts(turn.notes@));
                if turn.changed {
                    &&& final(hub)@ == old(self)@.publication(noted)
                    &&& r.0 matches Some(m) && is_snapshot(
                        m,
                        (old(hub)@.seq + 1) as u64,
                        ts@,
                        old(self)@.model.state,
                    )
                } else {
                    final(hub)@ == noted && r.0 is None
                }
            }),
            r.1 matches Some(p) ==> requests(old(self)@.model.state, p.1) && works_on(p.0, p.1),
    {
        let ghost notes = texts(turn.notes@);
        let ghost before = hub@;
        let mut i: usize = 0;
        assert(notes.take(0).len() == 0);
        while i < turn.notes.len()
            invariant
                i <= turn.notes@.len(),
                notes == texts(turn.notes@),
                hub@.valid(),
                hub@ == noted_all(before, ts@, turn.label@, notes.take(i as int)),
                hub@.seq == before.seq,
            decreases turn.notes.len() - i,
        {
            assert(notes.take(i + 1).drop_last() == notes.take(i as int));
            assert(notes.take(i + 1).last() == turn.notes@[i as int]@);
            hub.push_note(ts.clone(), turn.label.as_str(), turn.notes[i].clone());
            i = i + 1;
        }
        assert(notes.take(notes.len() as int) == notes);
        let mut message: Option<ServerMessage> = None;
        if turn.changed {
            hub.set_counters(self.machine.counters());
            let (_, m) = hub.publish(ts, self.machine.state().clone());
            message = Some(m);
        }
        let job = self.consider_enrichment();
        (message, job)
    }

    fn consider_enrichment(&mut self) -> (r: Option<(Job, Request)>)
        requires
            old(self).valid(),
        ensures
            final(self).valid(),
            (final(self)@, r is Some) == old(self)@.offered(),
            r matches Some(p) ==> requests(old(self)@.model.state, p.1) && works_on(p.0, p.1),
    {
        let request = match request_for(self.machine.state()) {
            Some(q) => q,
            None => {
                return None;
            },
        };
        match self.enricher.take() {
            Some(mut e) => {
                let job = e.consider(&request);
                self.enricher = Some(e);
                match job {
                    Some(j) => Some((j, request)),
                    None => None,
                }
            },
            None => None,
        }
    }

    /// Take in one enrichment result: count it, explain it in a note, and
    /// stage the new picture if there is one.
    ///
    /// A result for an album that has ended is discarded.
    pub fn handle_enrichment(&mut self, report: &Report, hub: &mut Hub, ts: String) -> (r: Applied)
        requires
            old(self).valid(),
            old(self)@.store.next_seq < u64::MAX,
            old(self)@.model.counters.enrichment.has_room(),
            old(hub)@.valid(),
            report.verdict@.valid(),
        ensures
            final(self).valid(),
            final(hub)@.valid(),
            if !old(self)@.concerns(*report) {
                r is Stale && final(self)@ == old(self)@ && final(hub)@ == old(hub)@
            } else {
                &&& final(hub)@ == old(hub)@.noted(
                    NoteView {
                        ts: ts@,
                        input: "enrichment"@,
                        text: report.label@ + ": "@ + report.verdict@.text(),
                    },
                )
                &&& match report.verdict@.image() {
                    None => r is Counted && final(self)@ == old(self)@.counted(*report),
                    Some(u) => {
                        let after = old(self)@.counted(*report);
                        &&& final(self)@ == (CoreView {
                            store: ArtStoreView {
                                next_seq: after.store.next_seq + 1,
                                ..after.store
                            },
                            ..after
                        })
                        &&& r matches Applied::Write(staged) && after.store.stages(
                            u.bytes,
                            staged,
                        )
                    },
                }
            },
    {
        let current: bool = match playing_key(self.machine.state()) {
            Some(k) => same(k.as_str(), report.key.as_str()),
            None => false,
        };
        if !current {
            return Applied::Stale;
        }
        self.machine.record_enrichment(outcome_of(&report.verdict), report.rate_limited);
        let mut text = concat(report.label.as_str(), ": ");
        text.append(report.verdict.describe().as_str());
        hub.push_note(ts, "enrichment", text);
        match report.verdict.upgrade() {
            Some(u) => Applied::Write(self.store.stage(&u.bytes)),
            None => Applied::Counted,
        }
    }

    /// Whether an enrichment result can be taken in.
    pub fn can_enrich(&self) -> (r: bool)
        ensures
            r == (self@.store.next_seq < u64::MAX
                && self@.model.counters.enrichment.has_room()),
    {
        self.store.can_stage() && self.machine.can_record()
    }

    /// Finish an enrichment result: show the new picture if it is in place,
    /// and publish. Returns the message and the files to unlink.
    pub fn finish_enrichment(
        &mut self,
        report: &Report,
        stored: Option<Stored>,
        hub: &mut Hub,
        ts: String,
    ) -> (r: (Option<ServerMessage>, Vec<String>))
        requires
            old(self).valid(),
            old(self).has_art_room(),
            old(hub)@.valid(),
            old(hub)@.seq < u64::MAX,
        ensures
            final(self).valid(),
            final(hub)@.valid(),
            match (stored, report.verdict@.image()) {
                (Some(s), Some(u)) => {
                    let after = old(self)@.with_picture(
                        s,
                        match s.dimensions {
                            Some(d) => Some(d),
                            None => Some(u.dimensions),
                        },
                        u.source,
                        true,
                    );
                    &&& final(self)@ == after
                    &&& texts(r.1@) == old(self)@.store.written.push(s.path@).take(
                        old(self)@.store.excess(),
                    )
                    &&& if old(self)@.is_new(s) {
                        &&& final(hub)@ == after.publication(old(hub)@)
                        &&& r.0 matches Some(m) && is_snapshot(
                            m,
                            (old(hub)@.seq + 1) as u64,
                            ts@,
                            after.model.state,
                        )
                    } else {
                        final(hub)@ == (HubView { counters: after.model.counters, ..old(hub)@ })
                            && r.0 is None
                    }
                },
                _ => {
                    &&& final(self)@ == old(self)@
                    &&& final(hub)@ == (HubView {
                        counters: old(self)@.model.counters,
                        ..old(hub)@
                    })
                    &&& r.0 is None
                    &&& r.1@.len() == 0
                },
            },
    {
        let mut changed: bool = false;
        let mut gone: Vec<String> = Vec::new();
        if let (Some(s), Some(u)) = (stored, report.verdict.upgrade()) {
            let dimensions: Option<(u32, u32)> = match s.dimensions {
                Some(d) => Some(d),
                None => Some(u.dimensions),
            };
            gone = self.store.store(s.path.as_str());
            changed = self.machine.set_artwork(
                s.sha256,
                s.path,
                s.bytes,
                dimensions,
                u.source,
                true,
            );
        }
        hub.set_counters(self.machine.counters());
        if changed {
            let (_, m) = hub.publish(ts, self.machine.state().clone());
            return (Some(m), gone);
        }
        (None, gone)
    }

    /// Act on a command.
    ///
    /// A display override is visible in the log of whoever runs the core. An
    /// amplifier override holds until the next session or idle transition. A
    /// new configuration replaces the running one; one whose timeouts do not
    /// fit the clock is left alone.
    pub fn handle_command(&mut self, cmd: Command, now_ms: u64) -> (r: Commanded)
        requires
            old(self).valid(),
        ensures
            final(self).valid(),
            match cmd {
                Command::SetDisplay(_) => r is Nothing && final(self)@ == old(self)@,
                Command::InjectArtwork(path) => r == Commanded::Read(path) && final(self)@ == old(
                    self,
                )@,
                Command::Reload(cfg) => {
                    &&& r is Nothing
                    &&& final(self)@ == (CoreView {
                        settings: if old(self)@.model.fits(rules(*cfg)) {
                            *cfg
                        } else {
                            old(self)@.settings
                        },
                        ..old(self)@
                    })
                },
                Command::SetAmp(on) => {
                    let turn = old(self)@.model.overridden(
                        rules(old(self)@.settings),
                        on,
                        now_ms,
                    );
                    &&& final(self)@ == (CoreView { model: turn.m, ..old(self)@ })
                    &&& r matches Commanded::Turn(t, effects) && t.label@ == "set_amp"@ && texts(
                        t.notes@,
                    ) == turn.notes && t.changed == !turn.m.state.equals(old(self)@.model.state)
                        && effects_view(effects@) == turn.effects
                },
            },
    {
        match cmd {
            Command::SetDisplay(_) => Commanded::Nothing,
            Command::InjectArtwork(path) => Commanded::Read(path),
            Command::Reload(cfg) => {
                if self.machine.accepts(&cfg) {
                    self.machine.set_config(*cfg);
                }
                Commanded::Nothing
            },
            Command::SetAmp(on) => {
                let outcome = self.machine.override_amp(on, now_ms);
                let Outcome { changed, effects, notes } = outcome;
                Commanded::Turn(Turn { label: "set_amp".to_owned(), notes, changed }, effects)
            },
        }
    }

    /// The orderly end: the amplifier is left off, whatever it was.
    pub fn shutdown<A: AmpBackend>(&self, amp: &mut A) -> (r: Result<(), String>)
        ensures
            final(amp).asked() == old(amp).asked().push(false),
    {
        amp.set(false)
    }

    /// How long until a timer could next change something.
    pub fn next_deadline_ms(&self) -> (r: Option<u64>)
        requires
            self.valid(),
        ensures
            r == self@.model.next_deadline(rules(self@.settings)),
    {
        self.machine.next_deadline_ms()
    }

    /// How long to sleep: exactly until the next timer could change something,
    /// rather than polling; an hour if there is none.
    pub fn sleep_ms(&self, now_ms: u64) -> (r: u64)
        requires
            self.valid(),
        ensures
            r == match self@.model.next_deadline(rules(self@.settings)) {
                Some(d) => if d > now_ms {
                    (d - now_ms) as u64
                } else {
                    0
                },
                None => 3_600_000,
            },
    {
        match self.next_deadline_ms() {
            Some(d) => if d > now_ms {
                d - now_ms
            } else {
                0
            },
            None => 3_600_000,
        }
    }
}

// --- laws -----------------------------------------------------------------

/// A picture that a report brings never lands on another album: a report that
/// does not concern the playing album leaves the picture alone, and one that
/// does was made for the very key that is playing.
pub proof fn swaps_land_on_their_own_album(c: CoreView, r: Report)
    requires
        c.concerns(r),
    ensures
        c.model.state.track matches Some(t) && t.artist matches Some(artist) && t.album matches Some(
            album,
        ) && r.key@ == key_of(artist, album),
{
}

/// A swapped picture is marked as an upgrade and gets the next revision; the
/// same picture again does not.
pub proof fn swaps_are_marked(c: CoreView, s: Stored, d: Option<(u32, u32)>, source: ArtworkSource)
    requires
        c.is_new(s),
        c.model.last_revision < u64::MAX,
    ensures
        c.with_picture(s, d, source, true).model.state.artwork matches Some(a) && a.is_upgrade
            && a.source == source && a.path == s.path@ && a.revision
            == c.model.last_revision + 1,
{
}

/// An enriched picture is not offered for enrichment again.
pub proof fn enriched_pictures_are_not_offered(s: StateView)
    requires
        s.artwork matches Some(a) ==> a.source != ArtworkSource::Airplay,
    ensures
        offer(s) is None,
{
}

/// Every attempt counts once as an attempt, and once as what came of it: a hit
/// or a known miss of the cache, a refusal by the text, the size or the picture,
/// an upgrade, or a network that was not there. Nothing else is counted but that
/// it had to wait.
pub proof fn attempts_are_counted_once(
    c: crate::machine::EnrichmentCounters,
    v: VerdictView,
    limited: bool,
)
    requires
        c.has_room(),
    ensures
        ({
            let n = c.recorded(counted_as(v), limited);
            let one = |b: bool|
                if b {
                    1int
                } else {
                    0int
                };
            &&& n.attempted == c.attempted + 1
            &&& n.rate_limited == c.rate_limited + one(limited)
            &&& n.cache_hits == c.cache_hits + one(v is Cached)
            &&& n.negative_cache_hits == c.negative_cache_hits + one(v is NegativeCacheHit)
            &&& n.text_rejections == c.text_rejections + one(v is TextRejected)
            &&& n.size_rejections == c.size_rejections + one(v is SizeRejected)
            &&& n.perceptual_rejections == c.perceptual_rejections + one(v is PerceptualRejected)
            &&& n.upgrades == c.upgrades + one(v is Upgraded)
            &&& n.network_errors == c.network_errors + one(v is Unreachable)
        }),
{
}

/// A picture is offered for an upgrade if and only if it came from the sender
/// and its track has both an artist and an album, and then under these.
pub proof fn only_the_senders_pictures_are_offered(s: StateView)
    ensures
        offer(s) is Some <==> {
            &&& s.artwork matches Some(a) && a.source == ArtworkSource::Airplay
            &&& s.track matches Some(t) && t.artist is Some && t.album is Some
        },
        offer(s) matches Some(o) ==> s.track->0.artist == Some(o.0) && s.track->0.album == Some(o.1)
            && s.artwork->0.revision == o.2,
{
}

} // verus!
