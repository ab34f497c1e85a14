//! The metadata state machine.
//!
//! Deliberately pure: no IO, no clock of its own. Time arrives as a
//! millisecond parameter and side effects leave as [`Effect`] values. That is
//! what lets a whole AirPlay session replay through it deterministically,
//! timers included.

use vstd::prelude::*;
use vstd::utf8::encode_utf8;

use crate::config::{AmpTrigger, Config};
use crate::digest::{digest_text, short_digest};
use crate::meta::{CoreField, CoreView, MetaEvent, MetaView};
use crate::proto::{
    boot_state, Artwork, ArtworkSource, ArtworkView, DisplayPower, Playback, Power, Progress,
    SessionView, State, StateView, Track, TrackView, Volume,
};
use crate::strings::{
    concat, lowercase, opt_text, padded_hex, texts, to_lowercase, to_padded_hex, trim, trimmed,
};

verus! {

broadcast use vstd::seq::group_seq_axioms;

// --- inputs and outcomes --------------------------------------------------

/// Everything the machine can be told.
#[derive(Debug)]
pub enum Input {
    Meta(MetaEvent),
    /// The pipe's writer closed: the sender's end is gone.
    PipeEof,
    /// A parse error. Counted, but does not disturb state.
    ParseError,
    /// Nothing happened; evaluate timers.
    Tick,
}

/// An [`Input`] as values.
pub enum InputView {
    Meta(MetaView),
    PipeEof,
    ParseError,
    Tick,
}

impl View for Input {
    type V = InputView;

    open spec fn view(&self) -> InputView {
        match *self {
            Input::Meta(e) => InputView::Meta(e@),
            Input::PipeEof => InputView::PipeEof,
            Input::ParseError => InputView::ParseError,
            Input::Tick => InputView::Tick,
        }
    }
}

impl InputView {
    /// The name of the kind of input.
    pub open spec fn name(self) -> Seq<char> {
        match self {
            InputView::Meta(e) => e.name(),
            InputView::PipeEof => "pipe_eof"@,
            InputView::ParseError => "parse_error"@,
            InputView::Tick => "tick"@,
        }
    }
}

impl Input {
    pub fn label(&self) -> (r: String)
        ensures
            r@ == self@.name(),
    {
        match self {
            Input::Meta(e) => e.label().to_owned(),
            Input::PipeEof => "pipe_eof".to_owned(),
            Input::ParseError => "parse_error".to_owned(),
            Input::Tick => "tick".to_owned(),
        }
    }
}

/// Work the runtime must perform. The machine never does IO itself.
#[derive(Debug)]
pub enum Effect {
    /// Persist these bytes and call [`Machine::set_artwork`] with the result.
    StoreArtwork(Vec<u8>),
    /// The sender says this track has no art.
    ClearArtwork,
    SetAmp(bool),
    SetDisplay(DisplayPower),
}

/// An [`Effect`] as values.
pub enum EffectView {
    StoreArtwork(Seq<u8>),
    ClearArtwork,
    SetAmp(bool),
    SetDisplay(DisplayPower),
}

impl View for Effect {
    type V = EffectView;

    open spec fn view(&self) -> EffectView {
        match *self {
            Effect::StoreArtwork(b) => EffectView::StoreArtwork(b@),
            Effect::ClearArtwork => EffectView::ClearArtwork,
            Effect::SetAmp(on) => EffectView::SetAmp(on),
            Effect::SetDisplay(d) => EffectView::SetDisplay(d),
        }
    }
}

/// The values behind a list of effects.
pub open spec fn effects_view(s: Seq<Effect>) -> Seq<EffectView> {
    s.map_values(|e: Effect| e@)
}

/// What one input led to.
#[derive(Debug)]
pub struct Outcome {
    /// The published state changed and must be broadcast.
    pub changed: bool,
    pub effects: Vec<Effect>,
    /// Notable transitions, for the diagnostics page and the log.
    pub notes: Vec<String>,
}

impl Default for Outcome {
    fn default() -> (r: Outcome)
        ensures
            !r.changed,
            effects_view(r.effects@) == Seq::<EffectView>::empty(),
            texts(r.notes@) == Seq::<Seq<char>>::empty(),
    {
        let r = Outcome { changed: false, effects: Vec::new(), notes: Vec::new() };
        assert(effects_view(r.effects@) == Seq::<EffectView>::empty());
        assert(texts(r.notes@) == Seq::<Seq<char>>::empty());
        r
    }
}

impl Outcome {
    fn note(&mut self, s: String)
        ensures
            texts(final(self).notes@) == texts(old(self).notes@).push(s@),
            final(self).effects == old(self).effects,
            final(self).changed == old(self).changed,
    {
        self.notes.push(s);
        assert(texts(self.notes@) == texts(old(self).notes@).push(s@));
    }

    fn effect(&mut self, e: Effect)
        ensures
            effects_view(final(self).effects@) == effects_view(old(self).effects@).push(e@),
            final(self).notes == old(self).notes,
            final(self).changed == old(self).changed,
    {
        self.effects.push(e);
        assert(effects_view(self.effects@) == effects_view(old(self).effects@).push(e@));
    }
}

/// How enrichment attempts went.
#[derive(Debug, Clone, Copy, PartialEq, Eq, Structural)]
pub struct EnrichmentCounters {
    pub attempted: u64,
    pub cache_hits: u64,
    pub negative_cache_hits: u64,
    pub text_rejections: u64,
    pub size_rejections: u64,
    pub perceptual_rejections: u64,
    pub upgrades: u64,
    pub network_errors: u64,
    pub rate_limited: u64,
}

/// How one enrichment attempt went.
#[derive(Debug, Clone, Copy, PartialEq, Eq, Structural)]
pub enum EnrichmentOutcome {
    CacheHit,
    NegativeCacheHit,
    TextRejected,
    SizeRejected,
    PerceptualRejected,
    Upgraded,
    NetworkError,
    NoMatch,
}

/// Counters for the diagnostics page.
#[derive(Debug, Clone, Copy, PartialEq, Eq, Structural)]
pub struct Counters {
    pub tracks: u64,
    pub sessions: u64,
    pub artwork_updates: u64,
    pub artwork_duplicates: u64,
    pub parse_errors: u64,
    pub pipe_eofs: u64,
    pub stall_timeouts: u64,
    pub session_timeouts: u64,
    pub enrichment: EnrichmentCounters,
}

/// Nothing counted yet.
pub open spec fn no_counts() -> Counters {
    Counters {
        tracks: 0,
        sessions: 0,
        artwork_updates: 0,
        artwork_duplicates: 0,
        parse_errors: 0,
        pipe_eofs: 0,
        stall_timeouts: 0,
        session_timeouts: 0,
        enrichment: EnrichmentCounters {
            attempted: 0,
            cache_hits: 0,
            negative_cache_hits: 0,
            text_rejections: 0,
            size_rejections: 0,
            perceptual_rejections: 0,
            upgrades: 0,
            network_errors: 0,
            rate_limited: 0,
        },
    }
}

impl Default for Counters {
    fn default() -> (r: Counters)
        ensures
            r == no_counts(),
    {
        Counters {
            tracks: 0,
            sessions: 0,
            artwork_updates: 0,
            artwork_duplicates: 0,
            parse_errors: 0,
            pipe_eofs: 0,
            stall_timeouts: 0,
            session_timeouts: 0,
            enrichment: EnrichmentCounters {
                attempted: 0,
                cache_hits: 0,
                negative_cache_hits: 0,
                text_rejections: 0,
                size_rejections: 0,
                perceptual_rejections: 0,
                upgrades: 0,
                network_errors: 0,
                rate_limited: 0,
            },
        }
    }
}

impl Counters {
    /// Whether every session counter can still count one more.
    pub open spec fn has_room(self) -> bool {
        &&& self.tracks < u64::MAX
        &&& self.sessions < u64::MAX
        &&& self.parse_errors < u64::MAX
        &&& self.pipe_eofs < u64::MAX
        &&& self.stall_timeouts < u64::MAX
        &&& self.session_timeouts < u64::MAX
    }

    /// Whether every artwork counter can still count one more.
    pub open spec fn has_art_room(self) -> bool {
        self.artwork_updates < u64::MAX && self.artwork_duplicates < u64::MAX
    }
}

impl EnrichmentCounters {
    /// Whether every counter can still count one more.
    pub open spec fn has_room(self) -> bool {
        &&& self.attempted < u64::MAX
        &&& self.cache_hits < u64::MAX
        &&& self.negative_cache_hits < u64::MAX
        &&& self.text_rejections < u64::MAX
        &&& self.size_rejections < u64::MAX
        &&& self.perceptual_rejections < u64::MAX
        &&& self.upgrades < u64::MAX
        &&& self.network_errors < u64::MAX
        &&& self.rate_limited < u64::MAX
    }

    /// The counters after one more attempt.
    pub open spec fn recorded(self, outcome: EnrichmentOutcome, limited: bool) -> EnrichmentCounters {
        let base = EnrichmentCounters {
            attempted: (self.attempted + 1) as u64,
            rate_limited: if limited {
                (self.rate_limited + 1) as u64
            } else {
                self.rate_limited
            },
            ..self
        };
        match outcome {
            EnrichmentOutcome::CacheHit => EnrichmentCounters {
                cache_hits: (self.cache_hits + 1) as u64,
                ..base
            },
            EnrichmentOutcome::NegativeCacheHit => EnrichmentCounters {
                negative_cache_hits: (self.negative_cache_hits + 1) as u64,
                ..base
            },
            EnrichmentOutcome::TextRejected => EnrichmentCounters {
                text_rejections: (self.text_rejections + 1) as u64,
                ..base
            },
            EnrichmentOutcome::SizeRejected => EnrichmentCounters {
                size_rejections: (self.size_rejections + 1) as u64,
                ..base
            },
            EnrichmentOutcome::PerceptualRejected => EnrichmentCounters {
                perceptual_rejections: (self.perceptual_rejections + 1) as u64,
                ..base
            },
            EnrichmentOutcome::Upgraded => EnrichmentCounters {
                upgrades: (self.upgrades + 1) as u64,
                ..base
            },
            EnrichmentOutcome::NetworkError => EnrichmentCounters {
                network_errors: (self.network_errors + 1) as u64,
                ..base
            },
            EnrichmentOutcome::NoMatch => base,
        }
    }
}

// --- bundles --------------------------------------------------------------

/// The track fields gathered between the start and the end of a bundle. A
/// field that is sent twice counts as it was sent last.
#[derive(Debug)]
pub struct Bundle {
    /// Whether any field came at all.
    pub any: bool,
    pub title: Option<String>,
    pub artist: Option<String>,
    pub album: Option<String>,
    pub album_artist: Option<String>,
    pub genre: Option<String>,
    pub composer: Option<String>,
    pub duration_ms: Option<u64>,
    pub track_number: Option<u64>,
    pub persistent_id: Option<u64>,
}

/// A [`Bundle`] as values.
pub struct BundleView {
    pub any: bool,
    pub title: Option<Seq<char>>,
    pub artist: Option<Seq<char>>,
    pub album: Option<Seq<char>>,
    pub album_artist: Option<Seq<char>>,
    pub genre: Option<Seq<char>>,
    pub composer: Option<Seq<char>>,
    pub duration_ms: Option<u64>,
    pub track_number: Option<u64>,
    pub persistent_id: Option<u64>,
}

impl View for Bundle {
    type V = BundleView;

    open spec fn view(&self) -> BundleView {
        BundleView {
            any: self.any,
            title: opt_text(self.title),
            artist: opt_text(self.artist),
            album: opt_text(self.album),
            album_artist: opt_text(self.album_artist),
            genre: opt_text(self.genre),
            composer: opt_text(self.composer),
            duration_ms: self.duration_ms,
            track_number: self.track_number,
            persistent_id: self.persistent_id,
        }
    }
}

/// A text without white space around it, unless nothing is left then.
pub open spec fn some_text(s: Seq<char>) -> Option<Seq<char>> {
    if trimmed(s).len() == 0 {
        None
    } else {
        Some(trimmed(s))
    }
}

/// A text without white space around it, unless nothing is left then.
pub fn non_empty(s: &str) -> (r: Option<String>)
    ensures
        opt_text(r) == some_text(s@),
{
    let t = trim(s);
    if t.as_str().is_empty() {
        None
    } else {
        Some(t)
    }
}

impl BundleView {
    /// A bundle in which nothing came yet.
    pub open spec fn fresh() -> BundleView {
        BundleView {
            any: false,
            title: None,
            artist: None,
            album: None,
            album_artist: None,
            genre: None,
            composer: None,
            duration_ms: None,
            track_number: None,
            persistent_id: None,
        }
    }

    /// The bundle after one more field.
    pub open spec fn with(self, f: CoreView) -> BundleView {
        let b = BundleView { any: true, ..self };
        match f {
            CoreView::Title(s) => BundleView { title: some_text(s), ..b },
            CoreView::Artist(s) => BundleView { artist: some_text(s), ..b },
            CoreView::Album(s) => BundleView { album: some_text(s), ..b },
            CoreView::AlbumArtist(s) => BundleView { album_artist: some_text(s), ..b },
            CoreView::Genre(s) => BundleView { genre: some_text(s), ..b },
            CoreView::Composer(s) => BundleView { composer: some_text(s), ..b },
            CoreView::DurationMs(n) => BundleView { duration_ms: Some(n), ..b },
            CoreView::TrackNumber(n) => BundleView { track_number: Some(n), ..b },
            CoreView::PersistentId(n) => BundleView { persistent_id: Some(n), ..b },
            _ => b,
        }
    }

    /// The track that the bundle describes.
    pub open spec fn track(self) -> TrackView {
        TrackView {
            id: identity(self.persistent_id, self.artist, self.album, self.title),
            title: self.title,
            artist: self.artist,
            album: self.album,
            album_artist: self.album_artist,
            genre: self.genre,
            composer: self.composer,
            duration_ms: self.duration_ms,
            track_number: self.track_number,
        }
    }
}

impl Bundle {
    fn fresh() -> (r: Bundle)
        ensures
            r@ == BundleView::fresh(),
    {
        Bundle {
            any: false,
            title: None,
            artist: None,
            album: None,
            album_artist: None,
            genre: None,
            composer: None,
            duration_ms: None,
            track_number: None,
            persistent_id: None,
        }
    }

    fn insert(&mut self, f: CoreField)
        ensures
            final(self)@ == old(self)@.with(f@),
    {
        self.any = true;
        match f {
            CoreField::Title(s) => {
                self.title = non_empty(s.as_str());
            },
            CoreField::Artist(s) => {
                self.artist = non_empty(s.as_str());
            },
            CoreField::Album(s) => {
                self.album = non_empty(s.as_str());
            },
            CoreField::AlbumArtist(s) => {
                self.album_artist = non_empty(s.as_str());
            },
            CoreField::Genre(s) => {
                self.genre = non_empty(s.as_str());
            },
            CoreField::Composer(s) => {
                self.composer = non_empty(s.as_str());
            },
            CoreField::DurationMs(n) => {
                self.duration_ms = Some(n);
            },
            CoreField::TrackNumber(n) => {
                self.track_number = Some(n);
            },
            CoreField::PersistentId(n) => {
                self.persistent_id = Some(n);
            },
            _ => {},
        }
    }
}

// --- identity -------------------------------------------------------------

/// An optional text, or the empty one.
pub open spec fn or_empty(s: Option<Seq<char>>) -> Seq<char> {
    match s {
        Some(x) => x,
        None => Seq::empty(),
    }
}

/// What the identity of a track without a persistent ID is hashed from: its
/// artist, album and title in lower case, each followed by a zero byte.
pub open spec fn identity_bytes(
    artist: Option<Seq<char>>,
    album: Option<Seq<char>>,
    title: Option<Seq<char>>,
) -> Seq<u8> {
    encode_utf8(lowercase(or_empty(artist))).push(0) + encode_utf8(
        lowercase(or_empty(album)),
    ).push(0) + encode_utf8(lowercase(or_empty(title))).push(0)
}

/// Stable identity for a track.
///
/// The sender's persistent ID when there is one; otherwise a hash of the
/// normalised text fields. Identity is what distinguishes a genuinely new
/// track from the same bundle resent, which senders do routinely.
pub open spec fn identity(
    persistent_id: Option<u64>,
    artist: Option<Seq<char>>,
    album: Option<Seq<char>>,
    title: Option<Seq<char>>,
) -> Seq<char> {
    match persistent_id {
        Some(id) if id != 0 => "mper:"@ + padded_hex(id as nat, 16),
        _ => "h:"@ + digest_text(identity_bytes(artist, album, title)).take(16),
    }
}

fn push_part(out: &mut Vec<u8>, part: &Option<String>)
    ensures
        final(out)@ == old(out)@ + encode_utf8(lowercase(or_empty(opt_text(*part)))).push(0),
{
    proof {
        reveal_strlit("");
        assert(""@ == Seq::<char>::empty());
    }
    let lower: String = match part {
        Some(s) => to_lowercase(s.as_str()),
        None => to_lowercase(""),
    };
    out.extend_from_slice(lower.as_str().as_bytes());
    let ghost mid = out@;
    out.push(0);
    assert(out@ == old(out)@ + encode_utf8(lower@).push(0));
}

fn track_identity(
    persistent_id: Option<u64>,
    artist: &Option<String>,
    album: &Option<String>,
    title: &Option<String>,
) -> (r: String)
    ensures
        r@ == identity(persistent_id, opt_text(*artist), opt_text(*album), opt_text(*title)),
{
    if let Some(id) = persistent_id {
        if id != 0 {
            return concat("mper:", to_padded_hex(id, 16).as_str());
        }
    }
    let mut data: Vec<u8> = Vec::new();
    push_part(&mut data, artist);
    push_part(&mut data, album);
    push_part(&mut data, title);
    assert(data@ == identity_bytes(opt_text(*artist), opt_text(*album), opt_text(*title)));
    concat("h:", short_digest(&data, 16).as_str())
}

// --- the model ------------------------------------------------------------

/// What the configuration says about time and power.
pub struct Rules {
    pub stall: u64,
    pub session: u64,
    pub amp_enabled: bool,
    pub on_event: AmpTrigger,
    pub off_delay: u64,
    pub ambient_after: Option<u64>,
    pub blank_after: u64,
}

/// The rules of a configuration.
pub open spec fn rules(c: Config) -> Rules {
    Rules {
        stall: c.timeouts.stall.ms(),
        session: c.timeouts.session.ms(),
        amp_enabled: c.power.amp.enabled,
        on_event: c.power.amp.on_event,
        off_delay: c.power.amp.off_delay.ms(),
        ambient_after: c.power.display.ambient_after.ms(),
        blank_after: c.power.display.blank_after.ms(),
    }
}

impl Rules {
    /// Whether every deadline counted from `now` fits in 64 bits.
    pub open spec fn fit(self, now: u64) -> bool {
        &&& now + self.stall <= u64::MAX
        &&& now + self.session <= u64::MAX
        &&& now + self.off_delay <= u64::MAX
        &&& now + self.blank_after <= u64::MAX
        &&& self.ambient_after matches Some(a) ==> now + a <= u64::MAX
    }
}

/// A [`Machine`] as values.
pub struct Model {
    pub state: StateView,
    pub counters: Counters,
    pub pending: Option<BundleView>,
    pub picture_open: bool,
    pub last_activity: u64,
    pub idle_since: Option<u64>,
    pub amp_off_at: Option<u64>,
    pub ambient_at: Option<u64>,
    pub blank_at: Option<u64>,
    pub amp_override: Option<bool>,
    /// The last revision that a picture was given; zero before the first.
    pub last_revision: u64,
}

/// A machine in the middle of handling an input, with what it has led to.
pub struct Turn {
    pub m: Model,
    pub effects: Seq<EffectView>,
    pub notes: Seq<Seq<char>>,
}

/// Whether a moment has come.
pub open spec fn due(at: Option<u64>, now: u64) -> bool {
    at matches Some(t) && now >= t
}

/// A moment, until it has come.
pub open spec fn pending_until(at: Option<u64>, now: u64) -> Option<u64> {
    if due(at, now) {
        None
    } else {
        at
    }
}

/// How long ago something was.
pub open spec fn since(now: u64, then: u64) -> int {
    if now > then {
        now - then
    } else {
        0
    }
}

impl Model {
    pub open spec fn with_state(self, state: StateView) -> Model {
        Model { state, ..self }
    }

    /// Whether the amplifier should be on.
    pub open spec fn wants_amp(self, r: Rules, now: u64) -> bool {
        match self.amp_override {
            Some(on) => on,
            None => if !r.amp_enabled {
                false
            } else if self.state.playback.in_session() {
                match r.on_event {
                    AmpTrigger::SessionBegin => true,
                    AmpTrigger::PlayBegin => self.state.playback == Playback::Starting
                        || self.state.playback == Playback::Playing || self.state.power.amp,
                }
            } else {
                // Idle: hold until the off delay expires.
                self.amp_off_at is Some && !due(self.amp_off_at, now) && self.state.power.amp
            },
        }
    }

    /// What the display should show.
    pub open spec fn wants_display(self, now: u64) -> DisplayPower {
        if self.state.playback.in_session() {
            DisplayPower::On
        } else if due(self.blank_at, now) {
            DisplayPower::Off
        } else if due(self.ambient_at, now) {
            DisplayPower::Ambient
        } else {
            // Idle but still inside the blank delay: hold what we have.
            self.state.power.display
        }
    }

    /// The next moment at which a timer could change something.
    pub open spec fn next_deadline(self, r: Rules) -> Option<u64> {
        let stall = if self.state.playback == Playback::Playing {
            Some((self.last_activity + r.stall) as u64)
        } else {
            None
        };
        let session = if self.state.playback.in_session() {
            Some((self.last_activity + r.session) as u64)
        } else {
            None
        };
        earlier(
            earlier(earlier(earlier(self.amp_off_at, self.ambient_at), self.blank_at), stall),
            session,
        )
    }
}

/// The earlier of two moments.
pub open spec fn earlier(a: Option<u64>, b: Option<u64>) -> Option<u64> {
    match (a, b) {
        (Some(x), Some(y)) => if y < x {
            b
        } else {
            a
        },
        (None, _) => b,
        (_, None) => a,
    }
}

impl Turn {
    pub open spec fn note(self, s: Seq<char>) -> Turn {
        Turn { notes: self.notes.push(s), ..self }
    }

    pub open spec fn effect(self, e: EffectView) -> Turn {
        Turn { effects: self.effects.push(e), ..self }
    }

    pub open spec fn with_state(self, state: StateView) -> Turn {
        Turn { m: self.m.with_state(state), ..self }
    }

    pub open spec fn with_session(self, session: SessionView) -> Turn {
        self.with_state(StateView { session, ..self.m.state })
    }

    /// Change the playback state, noting it if it is a change.
    #[verifier::opaque]
    pub open spec fn set_playback(self, next: Playback) -> Turn {
        if self.m.state.playback == next {
            self
        } else {
            self.note(self.m.state.playback.name() + " -> "@ + next.name()).with_state(
                StateView { playback: next, ..self.m.state },
            )
        }
    }

    /// A sender attached. Leaving idle cancels every pending power-down.
    #[verifier::opaque]
    pub open spec fn enter_active(self, now: u64) -> Turn {
        let t = if self.m.state.playback.in_session() {
            self
        } else {
            Turn {
                m: Model {
                    counters: Counters {
                        sessions: (self.m.counters.sessions + 1) as u64,
                        ..self.m.counters
                    },
                    idle_since: None,
                    amp_off_at: None,
                    ambient_at: None,
                    blank_at: None,
                    amp_override: None,
                    ..self.m
                },
                ..self
            }
        };
        let t = Turn { m: Model { last_activity: now, ..t.m }, ..t };
        let t = t.set_playback(Playback::Active);
        t.with_session(SessionView { active: true, ..t.m.state.session })
    }

    /// The sender is gone. The power-down timers start.
    #[verifier::opaque]
    pub open spec fn enter_idle(self, r: Rules, now: u64) -> Turn {
        if !self.m.state.playback.in_session() {
            self
        } else {
            let t = self.set_playback(Playback::Idle);
            Turn {
                m: Model {
                    state: StateView {
                        session: SessionView { active: false, ..t.m.state.session },
                        progress: None,
                        ..t.m.state
                    },
                    pending: None,
                    picture_open: false,
                    idle_since: Some(now),
                    amp_off_at: Some((now + r.off_delay) as u64),
                    ambient_at: match r.ambient_after {
                        Some(ms) => Some((now + ms) as u64),
                        None => None,
                    },
                    blank_at: Some((now + r.blank_after) as u64),
                    amp_override: None,
                    ..t.m
                },
                ..t
            }
        }
    }

    /// The end of a bundle: the track it describes becomes the current one,
    /// whole. It is a new track unless its identity is that of the current
    /// one.
    #[verifier::opaque]
    pub open spec fn commit_bundle(self) -> Turn {
        match self.m.pending {
            None => self,
            Some(b) => {
                let t = Turn { m: Model { pending: None, ..self.m }, ..self };
                if !b.any {
                    t
                } else {
                    let track = b.track();
                    let known = self.m.state.track matches Some(old) && old.id == track.id;
                    let t = if known {
                        t
                    } else {
                        Turn {
                            m: Model {
                                counters: Counters {
                                    tracks: (t.m.counters.tracks + 1) as u64,
                                    ..t.m.counters
                                },
                                ..t.m
                            },
                            ..t
                        }.note(
                            "track: "@ + or_unknown(track.artist) + " — "@ + or_unknown(
                                track.title,
                            ),
                        )
                    };
                    t.with_state(StateView { track: Some(track), ..t.m.state })
                }
            },
        }
    }

    /// One metadata event.
    #[verifier::opaque]
    pub open spec fn on_meta(self, r: Rules, ev: MetaView, now: u64) -> Turn {
        let state = self.m.state;
        let session = state.session;
        let in_session = state.playback.in_session();
        match ev {
            MetaView::ActiveBegin => self.enter_active(now),
            MetaView::ActiveEnd => self.enter_idle(r, now),
            MetaView::PlayBegin => {
                // Older senders never announce a session, so this has to
                // imply one.
                let t = if in_session {
                    self
                } else {
                    self.enter_active(now)
                };
                t.set_playback(Playback::Starting)
            },
            MetaView::FirstFrame => if in_session {
                self.set_playback(Playback::Playing)
            } else {
                self
            },
            MetaView::PlayEnd => if in_session {
                // Back to Active, not Idle: gaps between tracks live here.
                let t = self.set_playback(Playback::Active);
                t.with_state(StateView { progress: None, ..t.m.state })
            } else {
                self
            },
            MetaView::PlayFlush => if state.playback == Playback::Playing {
                self.set_playback(Playback::Paused)
            } else {
                self
            },
            MetaView::PlayResume => if in_session {
                self.set_playback(Playback::Playing)
            } else {
                self
            },
            MetaView::Stall => if state.playback == Playback::Playing {
                self.set_playback(Playback::Paused).note("metadata stalled"@)
            } else {
                self
            },
            MetaView::BundleStart => Turn {
                m: Model { pending: Some(BundleView::fresh()), ..self.m },
                ..self
            },
            MetaView::BundleEnd => self.commit_bundle(),
            // A field outside a bundle is dropped: without the framing there
            // is no way to know it belongs to the current track rather than
            // the next one.
            MetaView::Core(f) => match self.m.pending {
                Some(b) => Turn { m: Model { pending: Some(b.with(f)), ..self.m }, ..self },
                None => self,
            },
            MetaView::PictureStart => Turn { m: Model { picture_open: true, ..self.m }, ..self },
            MetaView::PictureEnd => Turn { m: Model { picture_open: false, ..self.m }, ..self },
            MetaView::Picture(bytes) => self.effect(EffectView::StoreArtwork(bytes)),
            MetaView::PictureCleared => if state.artwork is Some {
                self.with_state(StateView { artwork: None, ..state }).effect(
                    EffectView::ClearArtwork,
                )
            } else {
                self
            },
            // Progress advancing is evidence audio is flowing, which is how a
            // paused-by-timeout session recovers.
            MetaView::Progress { position_ms, duration_ms } => {
                let t = if state.playback == Playback::Paused {
                    self.set_playback(Playback::Playing)
                } else {
                    self
                };
                t.with_state(
                    StateView {
                        progress: Some(Progress { position_ms, duration_ms }),
                        ..t.m.state
                    },
                )
            },
            MetaView::Volume { airplay_db, muted } => self.with_state(
                StateView { volume: Some(Volume { airplay_db, muted }), ..state },
            ),
            MetaView::ClientName(s) => self.with_session(
                SessionView { client_name: Some(s), ..session },
            ),
            MetaView::UserAgent(s) => self.with_session(
                SessionView { user_agent: Some(s), ..session },
            ),
            MetaView::ClientIp(s) => self.with_session(
                SessionView { client_ip: Some(s), ..session },
            ),
            MetaView::ClientConnected(s) => if s.len() > 0 {
                self.with_session(SessionView { client_ip: Some(s), ..session })
            } else {
                self
            },
            MetaView::ServerName(_) | MetaView::ServerIp(_) | MetaView::ClientDisconnected(_)
            | MetaView::Unknown { .. } => self,
        }
    }

    /// The session timeout, and else the stall timeout.
    #[verifier::opaque]
    pub open spec fn evaluate_timers(self, r: Rules, now: u64) -> Turn {
        let quiet = since(now, self.m.last_activity);
        if self.m.state.playback.in_session() && quiet >= r.session {
            Turn {
                m: Model {
                    counters: Counters {
                        session_timeouts: (self.m.counters.session_timeouts + 1) as u64,
                        ..self.m.counters
                    },
                    ..self.m
                },
                ..self
            }.note("session timed out"@).enter_idle(r, now)
        } else if self.m.state.playback == Playback::Playing && quiet >= r.stall {
            Turn {
                m: Model {
                    counters: Counters {
                        stall_timeouts: (self.m.counters.stall_timeouts + 1) as u64,
                        ..self.m.counters
                    },
                    ..self.m
                },
                ..self
            }.note("stalled; assuming paused"@).set_playback(Playback::Paused)
        } else {
            self
        }
    }

    /// Move the amplifier and the display to where they should be, and retire
    /// the timers that have fired.
    #[verifier::opaque]
    pub open spec fn apply_power(self, r: Rules, now: u64) -> Turn {
        let amp = self.m.wants_amp(r, now);
        let display = self.m.wants_display(now);
        let power = self.m.state.power;
        let t = self.with_state(StateView { power: Power { amp, display }, ..self.m.state });
        let t = if amp != power.amp {
            t.effect(EffectView::SetAmp(amp)).note(
                if amp {
                    "amp on"@
                } else {
                    "amp off"@
                },
            )
        } else {
            t
        };
        let t = if display != power.display {
            t.effect(EffectView::SetDisplay(display)).note("display "@ + display.name())
        } else {
            t
        };
        Turn {
            m: Model {
                amp_off_at: pending_until(t.m.amp_off_at, now),
                ambient_at: pending_until(t.m.ambient_at, now),
                blank_at: pending_until(t.m.blank_at, now),
                ..t.m
            },
            ..t
        }
    }

    /// The input itself, before the timers and the power are looked at.
    pub open spec fn take_in(self, r: Rules, input: InputView, now: u64) -> Turn {
        match input {
            InputView::Tick => self,
            InputView::ParseError => Turn {
                m: Model {
                    counters: Counters {
                        parse_errors: (self.m.counters.parse_errors + 1) as u64,
                        ..self.m.counters
                    },
                    ..self.m
                },
                ..self
            },
            // The pipe's end is not "activity": it must not postpone the
            // session timeout it is about to make irrelevant anyway.
            InputView::PipeEof => {
                let t = Turn {
                    m: Model {
                        counters: Counters {
                            pipe_eofs: (self.m.counters.pipe_eofs + 1) as u64,
                            ..self.m.counters
                        },
                        ..self.m
                    },
                    ..self
                };
                let t = if self.m.state.playback.in_session() {
                    t.note("pipe writer closed; forcing idle"@)
                } else {
                    t
                };
                t.enter_idle(r, now)
            },
            InputView::Meta(ev) => Turn {
                m: Model { last_activity: now, ..self.m },
                ..self
            }.on_meta(r, ev, now),
        }
    }
}

/// A name, or a question mark.
pub open spec fn or_unknown(s: Option<Seq<char>>) -> Seq<char> {
    match s {
        Some(x) => x,
        None => "?"@,
    }
}

impl Model {
    /// What one input at one moment makes of the machine, and what it leads
    /// to.
    pub open spec fn step(self, r: Rules, input: InputView, now: u64) -> Turn {
        Turn { m: self, effects: Seq::empty(), notes: Seq::empty() }.take_in(
            r,
            input,
            now,
        ).evaluate_timers(r, now).apply_power(r, now)
    }

    /// Whether the deadlines of the running session fit in 64 bits.
    pub open spec fn fits(self, r: Rules) -> bool {
        self.last_activity + r.stall <= u64::MAX && self.last_activity + r.session <= u64::MAX
    }
}

// --- the machine ----------------------------------------------------------

/// The state machine.
pub struct Machine {
    cfg: Config,
    state: State,
    counters: Counters,
    /// Track fields accumulated since the start of a bundle. A bundle is
    /// committed atomically at its end, so the renderer never sees a track
    /// with the new artist and the old title.
    pending: Option<Bundle>,
    /// Whether a picture block is open.
    picture_open: bool,
    last_activity_ms: u64,
    /// When the machine last left a session, for the idle-driven power timers.
    idle_since_ms: Option<u64>,
    amp_off_at_ms: Option<u64>,
    display_ambient_at_ms: Option<u64>,
    display_off_at_ms: Option<u64>,
    /// A manual setting of the amplifier, until a session begins or ends.
    amp_override: Option<bool>,
    /// The last revision that a picture was given. It outlives the picture, so
    /// that no two pictures ever share one.
    last_revision: u64,
}

/// The values behind an optional bundle.
pub open spec fn opt_bundle(o: Option<Bundle>) -> Option<BundleView> {
    match o {
        Some(b) => Some(b@),
        None => None,
    }
}

/// The machine at boot: idle, with everything off.
pub open spec fn booted(now_ms: u64) -> Model {
    Model {
        state: boot_state(),
        counters: no_counts(),
        pending: None,
        picture_open: false,
        last_activity: now_ms,
        idle_since: Some(now_ms),
        amp_off_at: None,
        ambient_at: None,
        blank_at: None,
        amp_override: None,
        last_revision: 0,
    }
}

impl Machine {
    /// The machine as values.
    pub closed spec fn model(self) -> Model {
        Model {
            state: self.state@,
            counters: self.counters,
            pending: opt_bundle(self.pending),
            picture_open: self.picture_open,
            last_activity: self.last_activity_ms,
            idle_since: self.idle_since_ms,
            amp_off_at: self.amp_off_at_ms,
            ambient_at: self.display_ambient_at_ms,
            blank_at: self.display_off_at_ms,
            amp_override: self.amp_override,
            last_revision: self.last_revision,
        }
    }

    /// The configuration it runs on.
    pub closed spec fn settings(self) -> Config {
        self.cfg
    }

    /// The rules it runs on.
    pub open spec fn rules(self) -> Rules {
        rules(self.settings())
    }

    /// Whether its deadlines fit in 64 bits.
    pub open spec fn valid(self) -> bool {
        self.model().fits(self.rules())
    }

    /// The machine and what the current input has led to so far.
    spec fn turn(self, out: Outcome) -> Turn {
        Turn { m: self.model(), effects: effects_view(out.effects@), notes: texts(out.notes@) }
    }

    /// Boot: idle, with everything off. No delay applies because we were never
    /// on.
    pub fn new(cfg: Config, now_ms: u64) -> (r: Machine)
        requires
            rules(cfg).fit(now_ms),
        ensures
            r.valid(),
            r.settings() == cfg,
            r.model() == booted(now_ms),
    {
        Machine {
            cfg,
            state: State::default(),
            counters: Counters::default(),
            pending: None,
            picture_open: false,
            last_activity_ms: now_ms,
            idle_since_ms: Some(now_ms),
            amp_off_at_ms: None,
            display_ambient_at_ms: None,
            display_off_at_ms: None,
            amp_override: None,
            last_revision: 0,
        }
    }

    pub fn state(&self) -> (r: &State)
        ensures
            r@ == self.model().state,
    {
        &self.state
    }

    pub fn counters(&self) -> (r: Counters)
        ensures
            r == self.model().counters,
    {
        self.counters
    }

    pub fn config(&self) -> (r: &Config)
        ensures
            *r == self.settings(),
    {
        &self.cfg
    }

    /// Whether deadlines counted from `now_ms` fit in 64 bits under this
    /// configuration.
    pub fn fits(cfg: &Config, now_ms: u64) -> (r: bool)
        ensures
            r == rules(*cfg).fit(now_ms),
    {
        let room: u64 = u64::MAX - now_ms;
        let ambient: bool = match cfg.power.display.ambient_after.as_millis() {
            Some(ms) => ms <= room,
            None => true,
        };
        cfg.timeouts.stall.as_millis() <= room && cfg.timeouts.session.as_millis() <= room
            && cfg.power.amp.off_delay.as_millis() <= room
            && cfg.power.display.blank_after.as_millis() <= room && ambient
    }

    /// Whether an input can be taken in at this moment: the counters can
    /// still count, and the deadlines fit.
    pub open spec fn ready(self, now_ms: u64) -> bool {
        self.rules().fit(now_ms) && self.model().counters.has_room()
    }

    /// Whether an input can be taken in at this moment.
    pub fn can_apply(&self, now_ms: u64) -> (r: bool)
        ensures
            r == self.ready(now_ms),
    {
        let c = self.counters;
        Machine::fits(&self.cfg, now_ms) && c.tracks < u64::MAX && c.sessions < u64::MAX
            && c.parse_errors < u64::MAX && c.pipe_eofs < u64::MAX && c.stall_timeouts < u64::MAX
            && c.session_timeouts < u64::MAX
    }

    /// Whether another picture can be recorded: the counters and the revision
    /// can still count.
    pub open spec fn art_ready(self) -> bool {
        self.model().counters.has_art_room() && self.model().last_revision < u64::MAX
    }

    /// Whether another picture can be recorded.
    pub fn can_set_artwork(&self) -> (r: bool)
        ensures
            r == self.art_ready(),
    {
        self.counters.artwork_updates < u64::MAX && self.counters.artwork_duplicates < u64::MAX
            && self.last_revision < u64::MAX
    }

    /// The machine after a picture was recorded: a duplicate is only counted,
    /// a new one gets the next revision, also where no picture is shown.
    pub open spec fn art_recorded(
        m: Model,
        sha256: Seq<char>,
        path: Seq<char>,
        bytes: u64,
        dimensions: Option<(u32, u32)>,
        source: ArtworkSource,
        is_upgrade: bool,
    ) -> Model {
        let c = m.counters;
        if m.state.artwork matches Some(a) && a.sha256 == sha256 {
            Model {
                counters: Counters {
                    artwork_duplicates: (c.artwork_duplicates + 1) as u64,
                    ..c
                },
                ..m
            }
        } else {
            let revision = (m.last_revision + 1) as u64;
            Model {
                last_revision: revision,
                counters: Counters { artwork_updates: (c.artwork_updates + 1) as u64, ..c },
                state: StateView {
                    artwork: Some(
                        ArtworkView {
                            revision,
                            path,
                            sha256,
                            bytes,
                            width: match dimensions {
                                Some(d) => Some(d.0),
                                None => None,
                            },
                            height: match dimensions {
                                Some(d) => Some(d.1),
                                None => None,
                            },
                            source,
                            is_upgrade,
                        },
                    ),
                    ..m.state
                },
                ..m
            }
        }
    }

    /// Record artwork the runtime has stored. Returns true if this is a new
    /// image; identical bytes resent by the sender do not bump the revision,
    /// because the revision is the renderer's crossfade trigger.
    pub fn set_artwork(
        &mut self,
        sha256: String,
        path: String,
        bytes: u64,
        dimensions: Option<(u32, u32)>,
        source: ArtworkSource,
        is_upgrade: bool,
    ) -> (r: bool)
        requires
            old(self).art_ready(),
        ensures
            final(self).model() == Machine::art_recorded(
                old(self).model(),
                sha256@,
                path@,
                bytes,
                dimensions,
                source,
                is_upgrade,
            ),
            final(self).settings() == old(self).settings(),
            r == !(old(self).model().state.artwork matches Some(a) && a.sha256 == sha256@),
    {
        if let Some(existing) = &self.state.artwork {
            if existing.sha256 == sha256 {
                self.counters.artwork_duplicates = self.counters.artwork_duplicates + 1;
                return false;
            }
        }
        let revision: u64 = self.last_revision + 1;
        let width: Option<u32> = match dimensions {
            Some(d) => Some(d.0),
            None => None,
        };
        let height: Option<u32> = match dimensions {
            Some(d) => Some(d.1),
            None => None,
        };
        self.state.artwork = Some(
            Artwork { revision, path, sha256, bytes, width, height, source, is_upgrade },
        );
        self.last_revision = revision;
        self.counters.artwork_updates = self.counters.artwork_updates + 1;
        true
    }

    /// Whether another enrichment attempt can be counted.
    pub fn can_record(&self) -> (r: bool)
        ensures
            r == self.model().counters.enrichment.has_room(),
    {
        let c = self.counters.enrichment;
        c.attempted < u64::MAX && c.cache_hits < u64::MAX && c.negative_cache_hits < u64::MAX
            && c.text_rejections < u64::MAX && c.size_rejections < u64::MAX
            && c.perceptual_rejections < u64::MAX && c.upgrades < u64::MAX && c.network_errors
            < u64::MAX && c.rate_limited < u64::MAX
    }

    /// Count how an enrichment attempt went.
    pub fn record_enrichment(&mut self, outcome: EnrichmentOutcome, rate_limited: bool)
        requires
            old(self).model().counters.enrichment.has_room(),
        ensures
            final(self).model() == (Model {
                counters: Counters {
                    enrichment: old(self).model().counters.enrichment.recorded(
                        outcome,
                        rate_limited,
                    ),
                    ..old(self).model().counters
                },
                ..old(self).model()
            }),
            final(self).settings() == old(self).settings(),
    {
        let mut c: EnrichmentCounters = self.counters.enrichment;
        c.attempted = c.attempted + 1;
        if rate_limited {
            c.rate_limited = c.rate_limited + 1;
        }
        match outcome {
            EnrichmentOutcome::CacheHit => {
                c.cache_hits = c.cache_hits + 1;
            },
            EnrichmentOutcome::NegativeCacheHit => {
                c.negative_cache_hits = c.negative_cache_hits + 1;
            },
            EnrichmentOutcome::TextRejected => {
                c.text_rejections = c.text_rejections + 1;
            },
            EnrichmentOutcome::SizeRejected => {
                c.size_rejections = c.size_rejections + 1;
            },
            EnrichmentOutcome::PerceptualRejected => {
                c.perceptual_rejections = c.perceptual_rejections + 1;
            },
            EnrichmentOutcome::Upgraded => {
                c.upgrades = c.upgrades + 1;
            },
            EnrichmentOutcome::NetworkError => {
                c.network_errors = c.network_errors + 1;
            },
            EnrichmentOutcome::NoMatch => {},
        }
        self.counters.enrichment = c;
    }

    /// The next moment a timer could change something, so the runtime can
    /// sleep exactly rather than polling.
    pub fn next_deadline_ms(&self) -> (r: Option<u64>)
        requires
            self.valid(),
        ensures
            r == self.model().next_deadline(self.rules()),
    {
        let mut out: Option<u64> = sooner(self.amp_off_at_ms, self.display_ambient_at_ms);
        out = sooner(out, self.display_off_at_ms);
        if self.state.playback == Playback::Playing {
            out = sooner(out, Some(self.last_activity_ms + self.cfg.timeouts.stall.as_millis()));
        }
        if self.state.playback.is_session() {
            out = sooner(out, Some(self.last_activity_ms + self.cfg.timeouts.session.as_millis()));
        }
        out
    }

    /// Take in one input at one moment.
    pub fn apply(&mut self, input: Input, now_ms: u64) -> (r: Outcome)
        requires
            old(self).valid(),
            old(self).ready(now_ms),
        ensures
            final(self).valid(),
            final(self).settings() == old(self).settings(),
            ({
                let turn = old(self).model().step(old(self).rules(), input@, now_ms);
                &&& final(self).model() == turn.m
                &&& effects_view(r.effects@) == turn.effects
                &&& texts(r.notes@) == turn.notes
                &&& r.changed == !turn.m.state.equals(old(self).model().state)
            }),
    {
        let before = self.state.clone();
        let mut out = Outcome::default();
        match input {
            Input::Tick => {},
            Input::ParseError => {
                self.counters.parse_errors = self.counters.parse_errors + 1;
            },
            Input::PipeEof => {
                self.counters.pipe_eofs = self.counters.pipe_eofs + 1;
                if self.state.playback.is_session() {
                    out.note("pipe writer closed; forcing idle".to_owned());
                }
                self.enter_idle(now_ms, &mut out);
            },
            Input::Meta(ev) => {
                self.last_activity_ms = now_ms;
                self.on_meta(ev, now_ms, &mut out);
            },
        }
        self.evaluate_timers(now_ms, &mut out);
        self.apply_power(now_ms, &mut out);
        out.changed = !self.state.same(&before);
        out
    }

    fn on_meta(&mut self, ev: MetaEvent, now_ms: u64, out: &mut Outcome)
        requires
            old(self).ready(now_ms),
            old(self).model().last_activity == now_ms,
        ensures
            final(self).turn(*final(out)) == old(self).turn(*old(out)).on_meta(
                old(self).rules(),
                ev@,
                now_ms,
            ),
            final(self).settings() == old(self).settings(),
            final(self).model().last_activity == now_ms,
            final(self).model().counters.stall_timeouts
                == old(self).model().counters.stall_timeouts,
            final(self).model().counters.session_timeouts
                == old(self).model().counters.session_timeouts,
    {
        match ev {
            MetaEvent::ActiveBegin => {
                self.on_transport(ev, now_ms, out);
            },
            MetaEvent::ActiveEnd => {
                self.on_transport(ev, now_ms, out);
            },
            MetaEvent::PlayBegin => {
                self.on_transport(ev, now_ms, out);
            },
            MetaEvent::FirstFrame => {
                self.on_transport(ev, now_ms, out);
            },
            MetaEvent::PlayEnd => {
                self.on_transport(ev, now_ms, out);
            },
            MetaEvent::PlayFlush => {
                self.on_transport(ev, now_ms, out);
            },
            MetaEvent::PlayResume => {
                self.on_transport(ev, now_ms, out);
            },
            MetaEvent::Stall => {
                self.on_transport(ev, now_ms, out);
            },
            MetaEvent::BundleStart => {
                self.on_content(ev, now_ms, out);
            },
            MetaEvent::BundleEnd => {
                self.on_content(ev, now_ms, out);
            },
            MetaEvent::Core(_) => {
                self.on_content(ev, now_ms, out);
            },
            MetaEvent::PictureStart => {
                self.on_content(ev, now_ms, out);
            },
            MetaEvent::PictureEnd => {
                self.on_content(ev, now_ms, out);
            },
            MetaEvent::Picture(_) => {
                self.on_content(ev, now_ms, out);
            },
            MetaEvent::PictureCleared => {
                self.on_content(ev, now_ms, out);
            },
            MetaEvent::Progress { .. } => {
                self.on_condition(ev, now_ms, out);
            },
            MetaEvent::Volume { .. } => {
                self.on_condition(ev, now_ms, out);
            },
            MetaEvent::ClientName(_) => {
                self.on_condition(ev, now_ms, out);
            },
            MetaEvent::UserAgent(_) => {
                self.on_condition(ev, now_ms, out);
            },
            MetaEvent::ClientIp(_) => {
                self.on_condition(ev, now_ms, out);
            },
            MetaEvent::ClientConnected(_) => {
                self.on_condition(ev, now_ms, out);
            },
            MetaEvent::ServerName(_) | MetaEvent::ServerIp(_) | MetaEvent::ClientDisconnected(_)
            | MetaEvent::Unknown { .. } => {
                reveal(Turn::on_meta);
            },
        }
    }

    /// The events that move playback.
    fn on_transport(&mut self, ev: MetaEvent, now_ms: u64, out: &mut Outcome)
        requires
            old(self).ready(now_ms),
            old(self).model().last_activity == now_ms,
            ev@ is ActiveBegin || ev@ is ActiveEnd || ev@ is PlayBegin || ev@ is FirstFrame || ev@ is PlayEnd || ev@ is PlayFlush || ev@ is PlayResume || ev@ is Stall,
        ensures
            final(self).turn(*final(out)) == old(self).turn(*old(out)).on_meta(
                old(self).rules(),
                ev@,
                now_ms,
            ),
            final(self).settings() == old(self).settings(),
            final(self).model().last_activity == now_ms,
            final(self).model().counters.stall_timeouts
                == old(self).model().counters.stall_timeouts,
            final(self).model().counters.session_timeouts
                == old(self).model().counters.session_timeouts,
    {
        reveal(Turn::on_meta);
        match ev {
            MetaEvent::ActiveBegin => {
                self.enter_active(now_ms, out);
            },
            MetaEvent::ActiveEnd => {
                self.enter_idle(now_ms, out);
            },
            MetaEvent::PlayBegin => {
                if !self.state.playback.is_session() {
                    self.enter_active(now_ms, out);
                }
                self.set_playback(Playback::Starting, out);
            },
            MetaEvent::FirstFrame => {
                if self.state.playback.is_session() {
                    self.set_playback(Playback::Playing, out);
                }
            },
            MetaEvent::PlayEnd => {
                if self.state.playback.is_session() {
                    self.set_playback(Playback::Active, out);
                    self.state.progress = None;
                }
            },
            MetaEvent::PlayFlush => {
                if self.state.playback == Playback::Playing {
                    self.set_playback(Playback::Paused, out);
                }
            },
            MetaEvent::PlayResume => {
                if self.state.playback.is_session() {
                    self.set_playback(Playback::Playing, out);
                }
            },
            MetaEvent::Stall => {
                if self.state.playback == Playback::Playing {
                    self.set_playback(Playback::Paused, out);
                    out.note("metadata stalled".to_owned());
                }
            },
            _ => {},
        }
    }

    /// The events about the track and its picture.
    fn on_content(&mut self, ev: MetaEvent, now_ms: u64, out: &mut Outcome)
        requires
            old(self).ready(now_ms),
            old(self).model().last_activity == now_ms,
            ev@ is BundleStart || ev@ is BundleEnd || ev@ is Core || ev@ is PictureStart || ev@ is PictureEnd || ev@ is Picture || ev@ is PictureCleared,
        ensures
            final(self).turn(*final(out)) == old(self).turn(*old(out)).on_meta(
                old(self).rules(),
                ev@,
                now_ms,
            ),
            final(self).settings() == old(self).settings(),
            final(self).model().last_activity == now_ms,
            final(self).model().counters.stall_timeouts
                == old(self).model().counters.stall_timeouts,
            final(self).model().counters.session_timeouts
                == old(self).model().counters.session_timeouts,
    {
        reveal(Turn::on_meta);
        match ev {
            MetaEvent::BundleStart => {
                self.pending = Some(Bundle::fresh());
            },
            MetaEvent::BundleEnd => {
                self.commit_bundle(out);
            },
            MetaEvent::Core(field) => {
                let mut pending: Option<Bundle> = None;
                std::mem::swap(&mut pending, &mut self.pending);
                if let Some(mut bundle) = pending {
                    bundle.insert(field);
                    self.pending = Some(bundle);
                }
            },
            MetaEvent::PictureStart => {
                self.picture_open = true;
            },
            MetaEvent::PictureEnd => {
                self.picture_open = false;
            },
            MetaEvent::Picture(bytes) => {
                out.effect(Effect::StoreArtwork(bytes));
            },
            MetaEvent::PictureCleared => {
                if self.state.artwork.is_some() {
                    self.state.artwork = None;
                    out.effect(Effect::ClearArtwork);
                }
            },
            _ => {},
        }
    }

    /// The events about progress, volume and the sender.
    fn on_condition(&mut self, ev: MetaEvent, now_ms: u64, out: &mut Outcome)
        requires
            old(self).ready(now_ms),
            old(self).model().last_activity == now_ms,
            ev@ is Progress || ev@ is Volume || ev@ is ClientName || ev@ is UserAgent || ev@ is ClientIp || ev@ is ClientConnected,
        ensures
            final(self).turn(*final(out)) == old(self).turn(*old(out)).on_meta(
                old(self).rules(),
                ev@,
                now_ms,
            ),
            final(self).settings() == old(self).settings(),
            final(self).model().last_activity == now_ms,
            final(self).model().counters.stall_timeouts
                == old(self).model().counters.stall_timeouts,
            final(self).model().counters.session_timeouts
                == old(self).model().counters.session_timeouts,
    {
        reveal(Turn::on_meta);
        match ev {
            MetaEvent::Progress { position_ms, duration_ms } => {
                if self.state.playback == Playback::Paused {
                    self.set_playback(Playback::Playing, out);
                }
                self.state.progress = Some(Progress { position_ms, duration_ms });
            },
            MetaEvent::Volume { airplay_db, muted } => {
                self.state.volume = Some(Volume { airplay_db, muted });
            },
            MetaEvent::ClientName(s) => {
                self.state.session.client_name = Some(s);
            },
            MetaEvent::UserAgent(s) => {
                self.state.session.user_agent = Some(s);
            },
            MetaEvent::ClientIp(s) => {
                self.state.session.client_ip = Some(s);
            },
            MetaEvent::ClientConnected(s) => {
                if !s.as_str().is_empty() {
                    self.state.session.client_ip = Some(s);
                }
            },
            _ => {},
        }
    }

    fn commit_bundle(&mut self, out: &mut Outcome)
        requires
            old(self).model().counters.tracks < u64::MAX,
        ensures
            final(self).turn(*final(out)) == old(self).turn(*old(out)).commit_bundle(),
            final(self).settings() == old(self).settings(),
            final(self).model().last_activity == old(self).model().last_activity,
            final(self).model().counters.stall_timeouts
                == old(self).model().counters.stall_timeouts,
            final(self).model().counters.session_timeouts
                == old(self).model().counters.session_timeouts,
    {
        reveal(Turn::commit_bundle);
        let mut pending: Option<Bundle> = None;
        std::mem::swap(&mut pending, &mut self.pending);
        let bundle = match pending {
            Some(b) => b,
            None => {
                return;
            },
        };
        if !bundle.any {
            return;
        }
        let id = track_identity(
            bundle.persistent_id,
            &bundle.artist,
            &bundle.album,
            &bundle.title,
        );
        let track = Track {
            id,
            title: bundle.title,
            artist: bundle.artist,
            album: bundle.album,
            album_artist: bundle.album_artist,
            genre: bundle.genre,
            composer: bundle.composer,
            duration_ms: bundle.duration_ms,
            track_number: bundle.track_number,
        };
        let known: bool = match &self.state.track {
            Some(t) => t.id == track.id,
            None => false,
        };
        if !known {
            self.counters.tracks = self.counters.tracks + 1;
            let mut note: String = "track: ".to_owned();
            match &track.artist {
                Some(a) => {
                    note.append(a.as_str());
                },
                None => {
                    note.append("?");
                },
            }
            note.append(" — ");
            match &track.title {
                Some(t) => {
                    note.append(t.as_str());
                },
                None => {
                    note.append("?");
                },
            }
            out.note(note);
        }
        self.state.track = Some(track);
    }

    fn set_playback(&mut self, next: Playback, out: &mut Outcome)
        ensures
            final(self).turn(*final(out)) == old(self).turn(*old(out)).set_playback(next),
            final(self).settings() == old(self).settings(),
            final(self).model().last_activity == old(self).model().last_activity,
            final(self).model().counters == old(self).model().counters,
    {
        reveal(Turn::set_playback);
        if self.state.playback == next {
            return;
        }
        let mut note: String = self.state.playback.as_str().to_owned();
        note.append(" -> ");
        note.append(next.as_str());
        out.note(note);
        self.state.playback = next;
    }

    fn enter_active(&mut self, now_ms: u64, out: &mut Outcome)
        requires
            old(self).model().counters.sessions < u64::MAX,
        ensures
            final(self).turn(*final(out)) == old(self).turn(*old(out)).enter_active(now_ms),
            final(self).settings() == old(self).settings(),
            final(self).model().last_activity == now_ms,
            final(self).model().counters.stall_timeouts
                == old(self).model().counters.stall_timeouts,
            final(self).model().counters.session_timeouts
                == old(self).model().counters.session_timeouts,
    {
        reveal(Turn::enter_active);
        if !self.state.playback.is_session() {
            self.counters.sessions = self.counters.sessions + 1;
            self.idle_since_ms = None;
            self.amp_off_at_ms = None;
            self.display_ambient_at_ms = None;
            self.display_off_at_ms = None;
            self.amp_override = None;
        }
        self.last_activity_ms = now_ms;
        self.set_playback(Playback::Active, out);
        self.state.session.active = true;
    }

    fn enter_idle(&mut self, now_ms: u64, out: &mut Outcome)
        requires
            old(self).rules().fit(now_ms),
        ensures
            final(self).turn(*final(out)) == old(self).turn(*old(out)).enter_idle(
                old(self).rules(),
                now_ms,
            ),
            final(self).settings() == old(self).settings(),
            final(self).model().last_activity == old(self).model().last_activity,
            final(self).model().counters == old(self).model().counters,
    {
        reveal(Turn::enter_idle);
        if !self.state.playback.is_session() {
            return;
        }
        self.set_playback(Playback::Idle, out);
        self.state.session.active = false;
        self.state.progress = None;
        self.pending = None;
        self.picture_open = false;
        self.idle_since_ms = Some(now_ms);
        self.amp_override = None;
        self.amp_off_at_ms = Some(now_ms + self.cfg.power.amp.off_delay.as_millis());
        self.display_ambient_at_ms = match self.cfg.power.display.ambient_after.as_millis() {
            Some(ms) => Some(now_ms + ms),
            None => None,
        };
        self.display_off_at_ms = Some(now_ms + self.cfg.power.display.blank_after.as_millis());
    }

    fn evaluate_timers(&mut self, now_ms: u64, out: &mut Outcome)
        requires
            old(self).rules().fit(now_ms),
            old(self).model().counters.session_timeouts < u64::MAX,
            old(self).model().counters.stall_timeouts < u64::MAX,
        ensures
            final(self).turn(*final(out)) == old(self).turn(*old(out)).evaluate_timers(
                old(self).rules(),
                now_ms,
            ),
            final(self).settings() == old(self).settings(),
            final(self).model().last_activity == old(self).model().last_activity,
    {
        reveal(Turn::evaluate_timers);
        let quiet: u64 = now_ms.saturating_sub(self.last_activity_ms);
        // Session timeout first: it subsumes the stall timeout.
        if self.state.playback.is_session() && quiet >= self.cfg.timeouts.session.as_millis() {
            self.counters.session_timeouts = self.counters.session_timeouts + 1;
            out.note("session timed out".to_owned());
            self.enter_idle(now_ms, out);
        } else if self.state.playback == Playback::Playing && quiet
            >= self.cfg.timeouts.stall.as_millis() {
            self.counters.stall_timeouts = self.counters.stall_timeouts + 1;
            out.note("stalled; assuming paused".to_owned());
            self.set_playback(Playback::Paused, out);
        }
    }

    fn apply_power(&mut self, now_ms: u64, out: &mut Outcome)
        ensures
            final(self).turn(*final(out)) == old(self).turn(*old(out)).apply_power(
                old(self).rules(),
                now_ms,
            ),
            final(self).settings() == old(self).settings(),
            final(self).model().last_activity == old(self).model().last_activity,
    {
        reveal(Turn::apply_power);
        let in_session: bool = self.state.playback.is_session();
        let want_amp: bool = match self.amp_override {
            Some(on) => on,
            None => if !self.cfg.power.amp.enabled {
                false
            } else if in_session {
                match self.cfg.power.amp.on_event {
                    AmpTrigger::SessionBegin => true,
                    AmpTrigger::PlayBegin => self.state.playback == Playback::Starting
                        || self.state.playback == Playback::Playing || self.state.power.amp,
                }
            } else {
                self.amp_off_at_ms.is_some() && !is_due(self.amp_off_at_ms, now_ms)
                    && self.state.power.amp
            },
        };
        let want_display: DisplayPower = if in_session {
            DisplayPower::On
        } else if is_due(self.display_off_at_ms, now_ms) {
            DisplayPower::Off
        } else if is_due(self.display_ambient_at_ms, now_ms) {
            DisplayPower::Ambient
        } else {
            self.state.power.display
        };
        if want_amp != self.state.power.amp {
            self.state.power.amp = want_amp;
            out.effect(Effect::SetAmp(want_amp));
            out.note(
                if want_amp {
                    "amp on".to_owned()
                } else {
                    "amp off".to_owned()
                },
            );
        }
        if want_display != self.state.power.display {
            self.state.power.display = want_display;
            out.effect(Effect::SetDisplay(want_display));
            out.note(concat("display ", want_display.as_str()));
        }
        // Retire timers that have fired.
        //
        // Not housekeeping: `next_deadline_ms` is what the main loop sleeps
        // on, so a deadline left in the past means it computes a zero-length
        // sleep and spins at full CPU for as long as the device stays idle.
        if is_due(self.amp_off_at_ms, now_ms) {
            self.amp_off_at_ms = None;
        }
        if is_due(self.display_ambient_at_ms, now_ms) {
            self.display_ambient_at_ms = None;
        }
        if is_due(self.display_off_at_ms, now_ms) {
            self.display_off_at_ms = None;
        }
    }

    /// Switch the amplifier by hand. The setting holds until a session begins
    /// or ends.
    pub fn override_amp(&mut self, on: bool, now_ms: u64) -> (r: Outcome)
        requires
            old(self).valid(),
        ensures
            final(self).valid(),
            final(self).settings() == old(self).settings(),
            ({
                let turn = old(self).model().overridden(old(self).rules(), on, now_ms);
                &&& final(self).model() == turn.m
                &&& effects_view(r.effects@) == turn.effects
                &&& texts(r.notes@) == turn.notes
                &&& r.changed == !turn.m.state.equals(old(self).model().state)
            }),
    {
        let before = self.state.clone();
        let mut out = Outcome::default();
        self.amp_override = Some(on);
        self.apply_power(now_ms, &mut out);
        out.changed = !self.state.same(&before);
        out
    }

    /// Whether the running session's deadlines still fit under this
    /// configuration.
    pub fn accepts(&self, cfg: &Config) -> (r: bool)
        ensures
            r == self.model().fits(rules(*cfg)),
    {
        let room: u64 = u64::MAX - self.last_activity_ms;
        cfg.timeouts.stall.as_millis() <= room && cfg.timeouts.session.as_millis() <= room
    }

    /// Replace the running configuration. Timers that are already running keep
    /// their moment.
    pub fn set_config(&mut self, cfg: Config)
        requires
            old(self).model().fits(rules(cfg)),
        ensures
            final(self).valid(),
            final(self).settings() == cfg,
            final(self).model() == old(self).model(),
    {
        self.cfg = cfg;
    }
}

impl Model {
    /// The machine after the amplifier was switched by hand.
    pub open spec fn overridden(self, r: Rules, on: bool, now: u64) -> Turn {
        Turn {
            m: Model { amp_override: Some(on), ..self },
            effects: Seq::empty(),
            notes: Seq::empty(),
        }.apply_power(r, now)
    }
}

fn is_due(at: Option<u64>, now_ms: u64) -> (r: bool)
    ensures
        r == due(at, now_ms),
{
    match at {
        Some(t) => now_ms >= t,
        None => false,
    }
}

fn sooner(a: Option<u64>, b: Option<u64>) -> (r: Option<u64>)
    ensures
        r == earlier(a, b),
{
    match (a, b) {
        (Some(x), Some(y)) => if y < x {
            Some(y)
        } else {
            Some(x)
        },
        (None, _) => b,
        (_, None) => a,
    }
}

} // verus!
