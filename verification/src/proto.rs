//! What the daemon and its clients tell each other.
//!
//! Every change publishes a full snapshot, never a delta: a client that
//! connects late, reconnects, or misses a message is immediately correct.

use vstd::prelude::*;

use crate::single::Single;
use crate::strings::{opt_text, same_opt};

verus! {

/// Envelope version. Bumped only for an incompatible reshaping.
pub const ENVELOPE_VERSION: u32 = 1;

/// Highest client protocol this build speaks.
pub const PROTOCOL_VERSION: u32 = 1;

/// Default socket path.
pub const DEFAULT_SOCKET: &'static str = "/run/lpframe/artd.sock";

/// The version that the daemon announces.
pub const SERVER_VERSION: &'static str = "0.1.0";

// --- playback -------------------------------------------------------------

/// What the sender is doing.
#[derive(Debug, Clone, Copy, PartialEq, Eq, Structural)]
pub enum Playback {
    /// No session. Nothing is connected.
    Idle,
    /// A sender is connected but no audio is flowing, including the gaps
    /// between tracks.
    Active,
    /// A play stream has begun but audio has not been confirmed yet.
    Starting,
    Playing,
    Paused,
}

impl Default for Playback {
    fn default() -> (r: Playback)
        ensures
            r == Playback::Idle,
    {
        Playback::Idle
    }
}

impl Playback {
    /// A sender is attached.
    pub open spec fn in_session(self) -> bool {
        self != Playback::Idle
    }

    /// The name of a playback state on the wire.
    pub open spec fn name(self) -> Seq<char> {
        match self {
            Playback::Idle => "idle"@,
            Playback::Active => "active"@,
            Playback::Starting => "starting"@,
            Playback::Playing => "playing"@,
            Playback::Paused => "paused"@,
        }
    }

    /// Whether a sender is attached at all.
    pub fn is_session(self) -> (r: bool)
        ensures
            r == self.in_session(),
    {
        !matches!(self, Playback::Idle)
    }

    pub fn as_str(self) -> (r: &'static str)
        ensures
            r@ == self.name(),
    {
        match self {
            Playback::Idle => "idle",
            Playback::Active => "active",
            Playback::Starting => "starting",
            Playback::Playing => "playing",
            Playback::Paused => "paused",
        }
    }
}

/// What the panel shows.
#[derive(Debug, Clone, Copy, PartialEq, Eq, Structural)]
pub enum DisplayPower {
    On,
    /// Blurred, dimmed last artwork.
    Ambient,
    Off,
}

impl Default for DisplayPower {
    fn default() -> (r: DisplayPower)
        ensures
            r == DisplayPower::Off,
    {
        DisplayPower::Off
    }
}

impl DisplayPower {
    /// The name of a display state on the wire.
    pub open spec fn name(self) -> Seq<char> {
        match self {
            DisplayPower::On => "on"@,
            DisplayPower::Ambient => "ambient"@,
            DisplayPower::Off => "off"@,
        }
    }

    pub fn as_str(self) -> (r: &'static str)
        ensures
            r@ == self.name(),
    {
        match self {
            DisplayPower::On => "on",
            DisplayPower::Ambient => "ambient",
            DisplayPower::Off => "off",
        }
    }
}

/// Where an artwork image came from.
#[derive(Debug, Clone, Copy, PartialEq, Eq, Structural)]
pub enum ArtworkSource {
    /// Delivered over AirPlay. Always shown immediately.
    Airplay,
    Itunes,
    CoverArtArchive,
    Cache,
    Placeholder,
}

// --- state ----------------------------------------------------------------

/// Who is playing.
#[derive(Debug, PartialEq, Eq)]
pub struct Session {
    pub active: bool,
    pub client_name: Option<String>,
    pub user_agent: Option<String>,
    pub client_ip: Option<String>,
}

/// A [`Session`] as values.
pub struct SessionView {
    pub active: bool,
    pub client_name: Option<Seq<char>>,
    pub user_agent: Option<Seq<char>>,
    pub client_ip: Option<Seq<char>>,
}

impl View for Session {
    type V = SessionView;

    open spec fn view(&self) -> SessionView {
        SessionView {
            active: self.active,
            client_name: opt_text(self.client_name),
            user_agent: opt_text(self.user_agent),
            client_ip: opt_text(self.client_ip),
        }
    }
}

impl Clone for Session {
    fn clone(&self) -> (r: Session)
        ensures
            r@ == self@,
    {
        Session {
            active: self.active,
            client_name: self.client_name.clone(),
            user_agent: self.user_agent.clone(),
            client_ip: self.client_ip.clone(),
        }
    }
}

impl Default for Session {
    fn default() -> (r: Session)
        ensures
            r@ == no_session(),
    {
        Session { active: false, client_name: None, user_agent: None, client_ip: None }
    }
}

/// Nobody is connected and nobody was.
pub open spec fn no_session() -> SessionView {
    SessionView { active: false, client_name: None, user_agent: None, client_ip: None }
}

impl Session {
    /// Whether two sessions hold the same values.
    pub fn same(&self, other: &Session) -> (r: bool)
        ensures
            r == (self@ == other@),
    {
        self.active == other.active && same_opt(&self.client_name, &other.client_name)
            && same_opt(&self.user_agent, &other.user_agent) && same_opt(
            &self.client_ip,
            &other.client_ip,
        )
    }
}

/// The track that is playing.
#[derive(Debug, PartialEq, Eq)]
pub struct Track {
    /// Stable identity for this track: the sender's persistent ID when it
    /// gives one, otherwise a hash of artist/album/title. Used to tell a
    /// genuinely new track from a resent identical bundle.
    pub id: String,
    pub title: Option<String>,
    pub artist: Option<String>,
    pub album: Option<String>,
    pub album_artist: Option<String>,
    pub genre: Option<String>,
    pub composer: Option<String>,
    pub duration_ms: Option<u64>,
    pub track_number: Option<u64>,
}

/// A [`Track`] as values.
pub struct TrackView {
    pub id: Seq<char>,
    pub title: Option<Seq<char>>,
    pub artist: Option<Seq<char>>,
    pub album: Option<Seq<char>>,
    pub album_artist: Option<Seq<char>>,
    pub genre: Option<Seq<char>>,
    pub composer: Option<Seq<char>>,
    pub duration_ms: Option<u64>,
    pub track_number: Option<u64>,
}

impl View for Track {
    type V = TrackView;

    open spec fn view(&self) -> TrackView {
        TrackView {
            id: self.id@,
            title: opt_text(self.title),
            artist: opt_text(self.artist),
            album: opt_text(self.album),
            album_artist: opt_text(self.album_artist),
            genre: opt_text(self.genre),
            composer: opt_text(self.composer),
            duration_ms: self.duration_ms,
            track_number: self.track_number,
        }
    }
}

impl Clone for Track {
    fn clone(&self) -> (r: Track)
        ensures
            r@ == self@,
    {
        Track {
            id: self.id.clone(),
            title: self.title.clone(),
            artist: self.artist.clone(),
            album: self.album.clone(),
            album_artist: self.album_artist.clone(),
            genre: self.genre.clone(),
            composer: self.composer.clone(),
            duration_ms: self.duration_ms,
            track_number: self.track_number,
        }
    }
}

/// A track of which nothing is known.
pub open spec fn blank_track() -> TrackView {
    TrackView {
        id: Seq::empty(),
        title: None,
        artist: None,
        album: None,
        album_artist: None,
        genre: None,
        composer: None,
        duration_ms: None,
        track_number: None,
    }
}

impl Default for Track {
    fn default() -> (r: Track)
        ensures
            r@ == blank_track(),
    {
        Track {
            id: String::new(),
            title: None,
            artist: None,
            album: None,
            album_artist: None,
            genre: None,
            composer: None,
            duration_ms: None,
            track_number: None,
        }
    }
}

impl Track {
    /// Whether two tracks hold the same values.
    pub fn same(&self, other: &Track) -> (r: bool)
        ensures
            r == (self@ == other@),
    {
        self.id == other.id && same_opt(&self.title, &other.title) && same_opt(
            &self.artist,
            &other.artist,
        ) && same_opt(&self.album, &other.album) && same_opt(
            &self.album_artist,
            &other.album_artist,
        ) && same_opt(&self.genre, &other.genre) && same_opt(&self.composer, &other.composer)
            && self.duration_ms == other.duration_ms && self.track_number == other.track_number
    }
}

/// The picture that is shown.
#[derive(Debug, PartialEq, Eq)]
pub struct Artwork {
    /// Monotonic. The renderer's sole trigger for a crossfade. Identical
    /// artwork resent by the sender does not bump this.
    pub revision: u64,
    /// File on tmpfs. Image bytes never traverse the socket.
    pub path: String,
    pub sha256: String,
    pub bytes: u64,
    pub width: Option<u32>,
    pub height: Option<u32>,
    pub source: ArtworkSource,
    /// True when this replaces the same album's art with a higher-resolution
    /// copy, so the renderer can use a shorter crossfade.
    pub is_upgrade: bool,
}

/// An [`Artwork`] as values.
pub struct ArtworkView {
    pub revision: u64,
    pub path: Seq<char>,
    pub sha256: Seq<char>,
    pub bytes: u64,
    pub width: Option<u32>,
    pub height: Option<u32>,
    pub source: ArtworkSource,
    pub is_upgrade: bool,
}

impl View for Artwork {
    type V = ArtworkView;

    open spec fn view(&self) -> ArtworkView {
        ArtworkView {
            revision: self.revision,
            path: self.path@,
            sha256: self.sha256@,
            bytes: self.bytes,
            width: self.width,
            height: self.height,
            source: self.source,
            is_upgrade: self.is_upgrade,
        }
    }
}

impl Clone for Artwork {
    fn clone(&self) -> (r: Artwork)
        ensures
            r@ == self@,
    {
        Artwork {
            revision: self.revision,
            path: self.path.clone(),
            sha256: self.sha256.clone(),
            bytes: self.bytes,
            width: self.width,
            height: self.height,
            source: self.source,
            is_upgrade: self.is_upgrade,
        }
    }
}

impl Artwork {
    /// Whether two artworks hold the same values.
    pub fn same(&self, other: &Artwork) -> (r: bool)
        ensures
            r == (self@ == other@),
    {
        self.revision == other.revision && self.path == other.path && self.sha256 == other.sha256
            && self.bytes == other.bytes && self.width == other.width && self.height
            == other.height && self.source == other.source && self.is_upgrade == other.is_upgrade
    }
}

/// How far into the track playback is.
#[derive(Debug, Clone, Copy, PartialEq, Eq, Structural)]
pub struct Progress {
    pub position_ms: u64,
    pub duration_ms: u64,
}

/// The sender's volume.
#[derive(Debug, Clone, Copy, PartialEq, Eq, Structural)]
pub struct Volume {
    pub airplay_db: Single,
    pub muted: bool,
}

impl Volume {
    /// The same level, by number, and the same muting.
    pub open spec fn equals(self, other: Volume) -> bool {
        self.airplay_db.equals(other.airplay_db) && self.muted == other.muted
    }
}

/// What is switched on.
#[derive(Debug, Clone, Copy, PartialEq, Eq, Structural)]
pub struct Power {
    pub amp: bool,
    pub display: DisplayPower,
}

impl Default for Power {
    fn default() -> (r: Power)
        ensures
            r == (Power { amp: false, display: DisplayPower::Off }),
    {
        Power { amp: false, display: DisplayPower::Off }
    }
}

/// The complete published state. Sent in full on every change.
#[derive(Debug, PartialEq, Eq)]
pub struct State {
    pub playback: Playback,
    pub session: Session,
    pub track: Option<Track>,
    pub artwork: Option<Artwork>,
    pub progress: Option<Progress>,
    pub volume: Option<Volume>,
    pub power: Power,
}

/// A [`State`] as values.
pub struct StateView {
    pub playback: Playback,
    pub session: SessionView,
    pub track: Option<TrackView>,
    pub artwork: Option<ArtworkView>,
    pub progress: Option<Progress>,
    pub volume: Option<Volume>,
    pub power: Power,
}

/// The values behind an optional track.
pub open spec fn opt_track(o: Option<Track>) -> Option<TrackView> {
    match o {
        Some(t) => Some(t@),
        None => None,
    }
}

/// The values behind an optional artwork.
pub open spec fn opt_artwork(o: Option<Artwork>) -> Option<ArtworkView> {
    match o {
        Some(t) => Some(t@),
        None => None,
    }
}

impl View for State {
    type V = StateView;

    open spec fn view(&self) -> StateView {
        StateView {
            playback: self.playback,
            session: self.session@,
            track: opt_track(self.track),
            artwork: opt_artwork(self.artwork),
            progress: self.progress,
            volume: self.volume,
            power: self.power,
        }
    }
}

/// The state at boot: idle, and everything off.
pub open spec fn boot_state() -> StateView {
    StateView {
        playback: Playback::Idle,
        session: no_session(),
        track: None,
        artwork: None,
        progress: None,
        volume: None,
        power: Power { amp: false, display: DisplayPower::Off },
    }
}

impl Default for State {
    fn default() -> (r: State)
        ensures
            r@ == boot_state(),
    {
        State {
            playback: Playback::Idle,
            session: Session::default(),
            track: None,
            artwork: None,
            progress: None,
            volume: None,
            power: Power { amp: false, display: DisplayPower::Off },
        }
    }
}

impl Clone for State {
    fn clone(&self) -> (r: State)
        ensures
            r@ == self@,
    {
        State {
            playback: self.playback,
            session: self.session.clone(),
            track: match &self.track {
                Some(t) => Some(t.clone()),
                None => None,
            },
            artwork: match &self.artwork {
                Some(a) => Some(a.clone()),
                None => None,
            },
            progress: self.progress,
            volume: self.volume,
            power: self.power,
        }
    }
}

impl StateView {
    /// Whether two volumes are equal, as numbers are.
    pub open spec fn same_volume(a: Option<Volume>, b: Option<Volume>) -> bool {
        match (a, b) {
            (Some(x), Some(y)) => x.equals(y),
            (None, None) => true,
            _ => false,
        }
    }

    /// Whether two states compare equal. They hold the same values, with the
    /// volume compared as a number: a level that is not a number makes a
    /// state unequal even to itself.
    pub open spec fn equals(self, other: StateView) -> bool {
        &&& self.playback == other.playback
        &&& self.session == other.session
        &&& self.track == other.track
        &&& self.artwork == other.artwork
        &&& self.progress == other.progress
        &&& StateView::same_volume(self.volume, other.volume)
        &&& self.power == other.power
    }
}

impl State {
    /// Whether two states compare equal.
    pub fn same(&self, other: &State) -> (r: bool)
        ensures
            r == self@.equals(other@),
    {
        let track: bool = match (&self.track, &other.track) {
            (Some(a), Some(b)) => a.same(b),
            (None, None) => true,
            _ => false,
        };
        let artwork: bool = match (&self.artwork, &other.artwork) {
            (Some(a), Some(b)) => a.same(b),
            (None, None) => true,
            _ => false,
        };
        let volume: bool = match (&self.volume, &other.volume) {
            (Some(a), Some(b)) => a.airplay_db.same(b.airplay_db) && a.muted == b.muted,
            (None, None) => true,
            _ => false,
        };
        let progress: bool = match (&self.progress, &other.progress) {
            (Some(a), Some(b)) => *a == *b,
            (None, None) => true,
            _ => false,
        };
        self.playback == other.playback && self.session.same(&other.session) && track && artwork
            && progress && volume && self.power == other.power
    }
}

// --- messages -------------------------------------------------------------

/// What the daemon sends.
#[derive(Debug)]
pub enum ServerMessage {
    Hello {
        v: u32,
        server: String,
        version: String,
        /// Highest protocol this server speaks.
        proto: u32,
    },
    State { v: u32, seq: u64, ts: String, state: State },
    Pong { v: u32 },
    /// Surfaced to the diagnostics page; not an error channel for the socket.
    Log { v: u32, level: String, msg: String },
}

impl ServerMessage {
    /// Whether it says who the server is.
    pub open spec fn is_hello(self) -> bool {
        match self {
            ServerMessage::Hello { v, server, version, proto } => {
                &&& v == ENVELOPE_VERSION
                &&& server@ == "artd"@
                &&& version@ == SERVER_VERSION@
                &&& proto == PROTOCOL_VERSION
            },
            _ => false,
        }
    }

    pub fn hello() -> (r: ServerMessage)
        ensures
            r.is_hello(),
    {
        ServerMessage::Hello {
            v: ENVELOPE_VERSION,
            server: "artd".to_owned(),
            version: SERVER_VERSION.to_owned(),
            proto: PROTOCOL_VERSION,
        }
    }

    pub fn state(seq: u64, ts: String, state: State) -> (r: ServerMessage)
        ensures
            r == (ServerMessage::State { v: ENVELOPE_VERSION, seq, ts, state }),
    {
        ServerMessage::State { v: ENVELOPE_VERSION, seq, ts, state }
    }
}

/// What a client sends.
#[allow(inconsistent_fields)]
#[derive(Debug)]
pub enum ClientMessage {
    Hello { client: String, proto: u32 },
    GetState,
    Ping,
    SetDisplay { value: DisplayPower },
    /// Override the amplifier trigger.
    ///
    /// An override, not a mode: the next session or idle transition moves the
    /// line again.
    SetAmp { value: bool },
    /// Debug builds only; rejected otherwise.
    InjectArtwork { path: String },
    /// Anything this build does not recognise. Ignored, never fatal.
    Unknown,
}

} // verus!
