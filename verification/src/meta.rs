//! What the sender tells about a session, as events.

use vstd::prelude::*;

use crate::single::Single;

verus! {

/// One field of a track's metadata.
#[allow(inconsistent_fields)]
#[derive(Debug)]
pub enum CoreField {
    Title(String),
    Artist(String),
    Album(String),
    AlbumArtist(String),
    Genre(String),
    Composer(String),
    Comment(String),
    Description(String),
    SortName(String),
    Url(String),
    DurationMs(u64),
    TrackNumber(u64),
    PersistentId(u64),
    /// A field this build has no name for.
    Other { code: String, raw: Vec<u8> },
}

/// A [`CoreField`] as values.
pub enum CoreView {
    Title(Seq<char>),
    Artist(Seq<char>),
    Album(Seq<char>),
    AlbumArtist(Seq<char>),
    Genre(Seq<char>),
    Composer(Seq<char>),
    Comment(Seq<char>),
    Description(Seq<char>),
    SortName(Seq<char>),
    Url(Seq<char>),
    DurationMs(u64),
    TrackNumber(u64),
    PersistentId(u64),
    Other { code: Seq<char>, raw: Seq<u8> },
}

impl View for CoreField {
    type V = CoreView;

    open spec fn view(&self) -> CoreView {
        match *self {
            CoreField::Title(s) => CoreView::Title(s@),
            CoreField::Artist(s) => CoreView::Artist(s@),
            CoreField::Album(s) => CoreView::Album(s@),
            CoreField::AlbumArtist(s) => CoreView::AlbumArtist(s@),
            CoreField::Genre(s) => CoreView::Genre(s@),
            CoreField::Composer(s) => CoreView::Composer(s@),
            CoreField::Comment(s) => CoreView::Comment(s@),
            CoreField::Description(s) => CoreView::Description(s@),
            CoreField::SortName(s) => CoreView::SortName(s@),
            CoreField::Url(s) => CoreView::Url(s@),
            CoreField::DurationMs(n) => CoreView::DurationMs(n),
            CoreField::TrackNumber(n) => CoreView::TrackNumber(n),
            CoreField::PersistentId(n) => CoreView::PersistentId(n),
            CoreField::Other { code, raw } => CoreView::Other { code: code@, raw: raw@ },
        }
    }
}

/// One event of the metadata stream.
#[derive(Debug)]
pub enum MetaEvent {
    /// A listening session began.
    ActiveBegin,
    /// The listening session ended.
    ActiveEnd,
    /// A play stream began; fires per track.
    PlayBegin,
    /// The first frame of audio was played.
    FirstFrame,
    /// The play stream ended; fires per track.
    PlayEnd,
    PlayFlush,
    PlayResume,
    Stall,
    /// A bundle of track fields begins.
    BundleStart,
    /// The bundle is complete.
    BundleEnd,
    Core(CoreField),
    PictureStart,
    PictureEnd,
    Picture(Vec<u8>),
    /// The sender says this track has no picture.
    PictureCleared,
    Progress { position_ms: u64, duration_ms: u64 },
    Volume { airplay_db: Single, muted: bool },
    ClientName(String),
    UserAgent(String),
    ClientIp(String),
    ClientConnected(String),
    ServerName(String),
    ServerIp(String),
    ClientDisconnected(String),
    Unknown { kind: String, code: String, len: usize },
}

/// A [`MetaEvent`] as values.
pub enum MetaView {
    ActiveBegin,
    ActiveEnd,
    PlayBegin,
    FirstFrame,
    PlayEnd,
    PlayFlush,
    PlayResume,
    Stall,
    BundleStart,
    BundleEnd,
    Core(CoreView),
    PictureStart,
    PictureEnd,
    Picture(Seq<u8>),
    PictureCleared,
    Progress { position_ms: u64, duration_ms: u64 },
    Volume { airplay_db: Single, muted: bool },
    ClientName(Seq<char>),
    UserAgent(Seq<char>),
    ClientIp(Seq<char>),
    ClientConnected(Seq<char>),
    ServerName(Seq<char>),
    ServerIp(Seq<char>),
    ClientDisconnected(Seq<char>),
    Unknown { kind: Seq<char>, code: Seq<char>, len: usize },
}

impl View for MetaEvent {
    type V = MetaView;

    open spec fn view(&self) -> MetaView {
        match *self {
            MetaEvent::ActiveBegin => MetaView::ActiveBegin,
            MetaEvent::ActiveEnd => MetaView::ActiveEnd,
            MetaEvent::PlayBegin => MetaView::PlayBegin,
            MetaEvent::FirstFrame => MetaView::FirstFrame,
            MetaEvent::PlayEnd => MetaView::PlayEnd,
            MetaEvent::PlayFlush => MetaView::PlayFlush,
            MetaEvent::PlayResume => MetaView::PlayResume,
            MetaEvent::Stall => MetaView::Stall,
            MetaEvent::BundleStart => MetaView::BundleStart,
            MetaEvent::BundleEnd => MetaView::BundleEnd,
            MetaEvent::Core(f) => MetaView::Core(f@),
            MetaEvent::PictureStart => MetaView::PictureStart,
            MetaEvent::PictureEnd => MetaView::PictureEnd,
            MetaEvent::Picture(b) => MetaView::Picture(b@),
            MetaEvent::PictureCleared => MetaView::PictureCleared,
            MetaEvent::Progress { position_ms, duration_ms } => MetaView::Progress {
                position_ms,
                duration_ms,
            },
            MetaEvent::Volume { airplay_db, muted } => MetaView::Volume { airplay_db, muted },
            MetaEvent::ClientName(s) => MetaView::ClientName(s@),
            MetaEvent::UserAgent(s) => MetaView::UserAgent(s@),
            MetaEvent::ClientIp(s) => MetaView::ClientIp(s@),
            MetaEvent::ClientConnected(s) => MetaView::ClientConnected(s@),
            MetaEvent::ServerName(s) => MetaView::ServerName(s@),
            MetaEvent::ServerIp(s) => MetaView::ServerIp(s@),
            MetaEvent::ClientDisconnected(s) => MetaView::ClientDisconnected(s@),
            MetaEvent::Unknown { kind, code, len } => MetaView::Unknown {
                kind: kind@,
                code: code@,
                len,
            },
        }
    }
}

impl MetaView {
    /// The name of the kind of event.
    pub open spec fn name(self) -> Seq<char> {
        match self {
            MetaView::ActiveBegin => "active_begin"@,
            MetaView::ActiveEnd => "active_end"@,
            MetaView::PlayBegin => "play_begin"@,
            MetaView::FirstFrame => "first_frame"@,
            MetaView::PlayEnd => "play_end"@,
            MetaView::PlayFlush => "play_flush"@,
            MetaView::PlayResume => "play_resume"@,
            MetaView::Stall => "stall"@,
            MetaView::BundleStart => "bundle_start"@,
            MetaView::BundleEnd => "bundle_end"@,
            MetaView::Core(_) => "core"@,
            MetaView::PictureStart => "picture_start"@,
            MetaView::PictureEnd => "picture_end"@,
            MetaView::Picture(_) => "picture"@,
            MetaView::PictureCleared => "picture_cleared"@,
            MetaView::Progress { .. } => "progress"@,
            MetaView::Volume { .. } => "volume"@,
            MetaView::ClientName(_) => "client_name"@,
            MetaView::UserAgent(_) => "user_agent"@,
            MetaView::ClientIp(_) => "client_ip"@,
            MetaView::ClientConnected(_) => "client_connected"@,
            MetaView::ServerName(_) => "server_name"@,
            MetaView::ServerIp(_) => "server_ip"@,
            MetaView::ClientDisconnected(_) => "client_disconnected"@,
            MetaView::Unknown { .. } => "unknown"@,
        }
    }
}

impl MetaEvent {
    /// The name of the kind of event.
    pub fn label(&self) -> (r: &'static str)
        ensures
            r@ == self@.name(),
    {
        match self {
            MetaEvent::ActiveBegin => "active_begin",
            MetaEvent::ActiveEnd => "active_end",
            MetaEvent::PlayBegin => "play_begin",
            MetaEvent::FirstFrame => "first_frame",
            MetaEvent::PlayEnd => "play_end",
            MetaEvent::PlayFlush => "play_flush",
            MetaEvent::PlayResume => "play_resume",
            MetaEvent::Stall => "stall",
            MetaEvent::BundleStart => "bundle_start",
            MetaEvent::BundleEnd => "bundle_end",
            MetaEvent::Core(_) => "core",
            MetaEvent::PictureStart => "picture_start",
            MetaEvent::PictureEnd => "picture_end",
            MetaEvent::Picture(_) => "picture",
            MetaEvent::PictureCleared => "picture_cleared",
            MetaEvent::Progress { .. } => "progress",
            MetaEvent::Volume { .. } => "volume",
            MetaEvent::ClientName(_) => "client_name",
            MetaEvent::UserAgent(_) => "user_agent",
            MetaEvent::ClientIp(_) => "client_ip",
            MetaEvent::ClientConnected(_) => "client_connected",
            MetaEvent::ServerName(_) => "server_name",
            MetaEvent::ServerIp(_) => "server_ip",
            MetaEvent::ClientDisconnected(_) => "client_disconnected",
            MetaEvent::Unknown { .. } => "unknown",
        }
    }
}

} // verus!
