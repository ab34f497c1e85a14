//! Artwork enrichment: replacing AirPlay's small art with a catalogue's
//! original.
//!
//! The AirPlay art is the source of truth and is already on the wall before
//! anything here runs. Nothing in this module can delay it, and every path out
//! of here either produces a strictly better image or leaves the display
//! alone. A device with no network, a blocked API, or an album nobody has
//! heard of behaves identically minus sharpness.

pub mod cache;
pub mod catalogue;
pub mod gate;
pub mod hunt;
pub mod limit;
pub mod text;

use vstd::prelude::*;
use vstd::utf8::encode_utf8;

use crate::config::{Config, Strictness};
use crate::digest::{digest_text, hex_digest};
use crate::enrich::gate::{Visual, SIMILARITY_FULL};
use crate::enrich::hunt::{Action, Hunt};
use crate::enrich::limit::{Flight, SingleFlight};
use crate::enrich::text::{normalise, normalised, Scores};
use crate::proto::ArtworkSource;
use crate::single::Single;
use crate::strings::{
    concat, debug_quoted, decimal, opt_text, quote, same, texts, to_decimal, trim, trimmed,
};

verus! {

broadcast use vstd::seq::group_seq_axioms;

/// Concurrent enrichment jobs.
pub const WORKERS: usize = 2;

/// Attempts per track before giving up until the next track.
pub const MAX_ATTEMPTS: u32 = 3;

/// First retry delay in milliseconds; doubled per attempt.
pub const RETRY_BACKOFF_MS: u64 = 2000;

// --- albums ---------------------------------------------------------------

/// What an album's key is hashed from: the normalised names, with a zero byte
/// between them.
pub open spec fn album_bytes(artist: Seq<char>, album: Seq<char>) -> Seq<u8> {
    encode_utf8(normalised(artist)).push(0) + encode_utf8(normalised(album))
}

/// The key of an album.
pub open spec fn key_of(artist: Seq<char>, album: Seq<char>) -> Seq<char> {
    digest_text(album_bytes(artist, album))
}

/// The cache key for an album.
///
/// Normalised text rather than raw, so "Sigur Rós" and "Sigur Ros", which
/// different senders genuinely produce for the same record, share one entry
/// and one negative entry.
pub fn album_key(artist: &str, album: &str) -> (r: String)
    ensures
        r@ == key_of(artist@, album@),
        r@.len() == 64,
{
    let a = normalise(artist);
    let b = normalise(album);
    let mut data: Vec<u8> = Vec::new();
    data.extend_from_slice(a.as_str().as_bytes());
    data.push(0);
    data.extend_from_slice(b.as_str().as_bytes());
    assert(data@ == album_bytes(artist@, album@));
    hex_digest(&data)
}

/// What is known when an album is to be enriched.
#[derive(Debug)]
pub struct Request {
    pub artist: String,
    pub album: String,
    /// The AirPlay image currently on the wall.
    pub current_path: String,
    /// Its revision. Part of the deduplication key rather than its digest,
    /// because the same bytes genuinely do reappear: the next track off the
    /// same record carries identical art, and that reappearance is a fresh
    /// opportunity to apply the cached upgrade, not a duplicate.
    pub current_revision: u64,
    pub current_dimensions: Option<(u32, u32)>,
}

/// An image good enough to swap in.
#[derive(Debug)]
pub struct Upgrade {
    pub bytes: Vec<u8>,
    pub dimensions: (u32, u32),
    pub source: ArtworkSource,
}

/// An [`Upgrade`] as values.
pub struct UpgradeView {
    pub bytes: Seq<u8>,
    pub dimensions: (u32, u32),
    pub source: ArtworkSource,
}

impl View for Upgrade {
    type V = UpgradeView;

    open spec fn view(&self) -> UpgradeView {
        UpgradeView { bytes: self.bytes@, dimensions: self.dimensions, source: self.source }
    }
}

// --- verdicts -------------------------------------------------------------

/// How one attempt ended, carrying the numbers behind the decision.
///
/// Every rejection keeps its scores: the diagnostics page shows why a
/// candidate was refused, and without the numbers that is guesswork in
/// somebody else's living room.
#[allow(inconsistent_fields)]
#[derive(Debug)]
pub enum Verdict {
    /// The cache had this album. `None` when what it had is no sharper than
    /// what is already displayed.
    Cached(Option<Upgrade>),
    /// Fetched and passed every gate that applies.
    Upgraded(Upgrade),
    /// Missed recently; no request was made.
    NegativeCacheHit,
    TextRejected { best: Scores, candidate: String },
    SizeRejected { current: u32, candidate: u32 },
    PerceptualRejected { visual: Visual, scores: Scores },
    /// No catalogue offered a match. A negative entry is written.
    NoMatch,
    /// Offline, refused, timed out. Not an error state: it is the normal
    /// state of a device on flaky Wi-Fi.
    Unreachable(String),
    /// A candidate arrived but could not be used.
    Undecodable(String),
}

/// A [`Verdict`] as values.
#[allow(inconsistent_fields)]
pub enum VerdictView {
    Cached(Option<UpgradeView>),
    Upgraded(UpgradeView),
    NegativeCacheHit,
    TextRejected { best: Scores, candidate: Seq<char> },
    SizeRejected { current: u32, candidate: u32 },
    PerceptualRejected { visual: Visual, scores: Scores },
    NoMatch,
    Unreachable(Seq<char>),
    Undecodable(Seq<char>),
}

impl View for Verdict {
    type V = VerdictView;

    open spec fn view(&self) -> VerdictView {
        match *self {
            Verdict::Cached(Some(u)) => VerdictView::Cached(Some(u@)),
            Verdict::Cached(None) => VerdictView::Cached(None),
            Verdict::Upgraded(u) => VerdictView::Upgraded(u@),
            Verdict::NegativeCacheHit => VerdictView::NegativeCacheHit,
            Verdict::TextRejected { best, candidate } => VerdictView::TextRejected {
                best,
                candidate: candidate@,
            },
            Verdict::SizeRejected { current, candidate } => VerdictView::SizeRejected {
                current,
                candidate,
            },
            Verdict::PerceptualRejected { visual, scores } => VerdictView::PerceptualRejected {
                visual,
                scores,
            },
            Verdict::NoMatch => VerdictView::NoMatch,
            Verdict::Unreachable(e) => VerdictView::Unreachable(e@),
            Verdict::Undecodable(e) => VerdictView::Undecodable(e@),
        }
    }
}

/// The name of a source, for the diagnostics page.
pub open spec fn name_of_source(s: ArtworkSource) -> Seq<char> {
    match s {
        ArtworkSource::Airplay => "airplay"@,
        ArtworkSource::Itunes => "itunes"@,
        ArtworkSource::CoverArtArchive => "coverartarchive"@,
        ArtworkSource::Cache => "cache"@,
        ArtworkSource::Placeholder => "placeholder"@,
    }
}

/// The name of a source, for the diagnostics page.
pub fn source_name(s: ArtworkSource) -> (r: &'static str)
    ensures
        r@ == name_of_source(s),
{
    match s {
        ArtworkSource::Airplay => "airplay",
        ArtworkSource::Itunes => "itunes",
        ArtworkSource::CoverArtArchive => "coverartarchive",
        ArtworkSource::Cache => "cache",
        ArtworkSource::Placeholder => "placeholder",
    }
}

/// A size in pixels.
pub open spec fn size_text(d: (u32, u32)) -> Seq<char> {
    decimal(d.0 as nat) + "×"@ + decimal(d.1 as nat)
}

fn write_size(d: (u32, u32)) -> (r: String)
    ensures
        r@ == size_text(d),
{
    let mut out = to_decimal(d.0 as u64);
    out.append("×");
    out.append(to_decimal(d.1 as u64).as_str());
    out
}

impl VerdictView {
    /// Whether the scores in it are scores: similarities between zero and one.
    pub open spec fn valid(self) -> bool {
        match self {
            VerdictView::TextRejected { best, candidate } => best.valid(),
            VerdictView::PerceptualRejected { visual, scores } => scores.valid()
                && visual.similarity.in_zero_to(Single { bits: SIMILARITY_FULL }),
            _ => true,
        }
    }

    /// A one-line explanation, with the numbers.
    pub open spec fn text(self) -> Seq<char> {
        match self {
            VerdictView::Cached(Some(u)) => "cache hit, "@ + size_text(u.dimensions),
            VerdictView::Cached(None) => "cache hit, no sharper than the AirPlay art"@,
            VerdictView::Upgraded(u) => "upgraded to "@ + size_text(u.dimensions) + " from "@
                + name_of_source(u.source),
            VerdictView::NegativeCacheHit => "recently missed; skipped the network"@,
            VerdictView::TextRejected { best, candidate } => "text gate rejected "@ + debug_quoted(
                candidate,
            ) + " — "@ + best.text() + " (need artist 0.90 album 0.85)"@,
            VerdictView::SizeRejected { current, candidate } => "size gate rejected "@ + decimal(
                candidate as nat,
            ) + "px against "@ + decimal(current as nat) + "px (need 1.5×)"@,
            VerdictView::PerceptualRejected { visual, scores } => "perceptual gate rejected "@
                + visual.text() + " with "@ + scores.text()
                + " (need hamming <= 12 similarity >= 0.85)"@,
            VerdictView::NoMatch => "no catalogue had this album"@,
            VerdictView::Unreachable(e) => "catalogue unreachable: "@ + e,
            VerdictView::Undecodable(e) => "candidate unusable: "@ + e,
        }
    }

    /// The image to display, if there is one.
    pub open spec fn image(self) -> Option<UpgradeView> {
        match self {
            VerdictView::Cached(u) => u,
            VerdictView::Upgraded(u) => Some(u),
            _ => None,
        }
    }
}

impl Verdict {
    /// A one-line explanation, with the numbers, for the diagnostics page.
    pub fn describe(&self) -> (r: String)
        requires
            self@.valid(),
        ensures
            r@ == self@.text(),
    {
        match self {
            Verdict::Cached(Some(u)) => concat("cache hit, ", write_size(u.dimensions).as_str()),
            Verdict::Cached(None) => "cache hit, no sharper than the AirPlay art".to_owned(),
            Verdict::Upgraded(u) => {
                let mut m = concat("upgraded to ", write_size(u.dimensions).as_str());
                m.append(" from ");
                m.append(source_name(u.source));
                m
            },
            Verdict::NegativeCacheHit => "recently missed; skipped the network".to_owned(),
            Verdict::TextRejected { best, candidate } => {
                let mut m = concat("text gate rejected ", quote(candidate.as_str()).as_str());
                m.append(" — ");
                m.append(best.to_string().as_str());
                m.append(" (need artist 0.90 album 0.85)");
                m
            },
            Verdict::SizeRejected { current, candidate } => {
                let mut m = concat("size gate rejected ", to_decimal(*candidate as u64).as_str());
                m.append("px against ");
                m.append(to_decimal(*current as u64).as_str());
                m.append("px (need 1.5×)");
                m
            },
            Verdict::PerceptualRejected { visual, scores } => {
                let mut m = concat("perceptual gate rejected ", visual.to_string().as_str());
                m.append(" with ");
                m.append(scores.to_string().as_str());
                m.append(" (need hamming <= 12 similarity >= 0.85)");
                m
            },
            Verdict::NoMatch => "no catalogue had this album".to_owned(),
            Verdict::Unreachable(e) => concat("catalogue unreachable: ", e.as_str()),
            Verdict::Undecodable(e) => concat("candidate unusable: ", e.as_str()),
        }
    }

    /// The image to display, if this verdict produced one.
    pub fn upgrade(&self) -> (r: Option<&Upgrade>)
        ensures
            match r {
                Some(u) => self@.image() == Some(u@),
                None => self@.image() is None,
            },
    {
        match self {
            Verdict::Cached(Some(u)) => Some(u),
            Verdict::Upgraded(u) => Some(u),
            _ => None,
        }
    }
}

/// One completed attempt.
#[derive(Debug)]
pub struct Report {
    /// The album this is about. A report whose key is not the album currently
    /// playing is not applied.
    pub key: String,
    pub label: String,
    pub verdict: Verdict,
    /// Whether the rate limiter made this attempt wait.
    pub rate_limited: bool,
}

// --- the enricher ---------------------------------------------------------

/// Which catalogues to ask, in order.
#[derive(Debug, Clone, Copy, PartialEq, Eq, Structural)]
pub enum Source {
    Itunes,
    MusicBrainz,
}

/// The catalogue of a name.
pub open spec fn source_of(name: Seq<char>) -> Option<Source> {
    if name == "itunes"@ {
        Some(Source::Itunes)
    } else if name == "musicbrainz"@ {
        Some(Source::MusicBrainz)
    } else {
        None
    }
}

/// The catalogues of a list of names, unknown names left out.
pub open spec fn sources_of(names: Seq<Seq<char>>) -> Seq<Source>
    decreases names.len(),
{
    if names.len() == 0 {
        Seq::empty()
    } else {
        let before = sources_of(names.drop_last());
        match source_of(names.last()) {
            Some(s) => before.push(s),
            None => before,
        }
    }
}

fn pick_sources(names: &Vec<String>) -> (r: Vec<Source>)
    ensures
        r@ == sources_of(texts(names@)),
{
    let ghost all = texts(names@);
    let mut out: Vec<Source> = Vec::new();
    let mut i: usize = 0;
    assert(all.take(0) == Seq::<Seq<char>>::empty());
    while i < names.len()
        invariant
            i <= names.len(),
            all == texts(names@),
            out@ == sources_of(all.take(i as int)),
        decreases names.len() - i,
    {
        assert(all.take(i + 1).drop_last() == all.take(i as int));
        assert(all.take(i + 1).last() == names@[i as int]@);
        if same(names[i].as_str(), "itunes") {
            out.push(Source::Itunes);
        } else if same(names[i].as_str(), "musicbrainz") {
            out.push(Source::MusicBrainz);
        }
        i = i + 1;
    }
    assert(all.take(all.len() as int) == all);
    out
}

/// Decides which albums to enrich, and whose results still count.
pub struct Enricher {
    strictness: Strictness,
    sources: Vec<Source>,
    /// Milliseconds before the first retry.
    retry_backoff_ms: u64,
    /// The album currently playing. A job whose key no longer matches has
    /// been overtaken by a track change.
    current_key: Option<String>,
    /// The last album and artwork revision considered, so the progress
    /// updates that arrive every second do not each re-enter the pipeline.
    last_considered: Option<(String, u64)>,
    flights: SingleFlight,
}

/// An [`Enricher`] as values.
pub struct EnricherView {
    pub strictness: Strictness,
    pub sources: Seq<Source>,
    pub retry_backoff_ms: u64,
    pub current: Option<Seq<char>>,
    pub last: Option<(Seq<char>, u64)>,
    pub in_flight: Set<Seq<char>>,
}

/// Whether a configuration asks for enrichment at all.
pub open spec fn enrichment_wanted(c: Config) -> bool {
    &&& c.enrichment.enabled
    &&& c.enrichment.strictness != Strictness::Off
    &&& sources_of(texts(c.enrichment.sources@)).len() > 0
}

impl View for Enricher {
    type V = EnricherView;

    closed spec fn view(&self) -> EnricherView {
        EnricherView {
            strictness: self.strictness,
            sources: self.sources@,
            retry_backoff_ms: self.retry_backoff_ms,
            current: opt_text(self.current_key),
            last: match self.last_considered {
                Some(p) => Some((p.0@, p.1)),
                None => None,
            },
            in_flight: self.flights@,
        }
    }
}

impl EnricherView {
    /// Considering an album: the enricher afterwards, and whether a job is
    /// started for it.
    pub open spec fn considered(
        self,
        artist: Seq<char>,
        album: Seq<char>,
        revision: u64,
    ) -> (EnricherView, bool) {
        if trimmed(artist).len() == 0 || trimmed(album).len() == 0 {
            // Without both names there is nothing to search for, and a
            // one-sided query returns somebody else's record.
            (self, false)
        } else {
            let key = key_of(artist, album);
            let e = EnricherView { current: Some(key), ..self };
            if self.last == Some((key, revision)) {
                (e, false)
            } else {
                let e = EnricherView { last: Some((key, revision)), ..e };
                if self.in_flight.contains(key) {
                    (e, false)
                } else {
                    (EnricherView { in_flight: self.in_flight.insert(key), ..e }, true)
                }
            }
        }
    }
}

/// A job to be done for an album.
#[derive(Debug)]
pub struct Job {
    pub key: String,
    pub label: String,
    pub flight: Flight,
}

impl Enricher {
    /// The invariant: no album is in flight twice, and retry delays can be
    /// doubled.
    pub closed spec fn valid(self) -> bool {
        self.flights.valid() && self.retry_backoff_ms <= 0x1000_0000_0000_0000
    }

    /// An enricher, or nothing if the device is configured not to have one.
    ///
    /// With no object there is no code path that could issue a request.
    /// Enrichment sends the artist and album to third parties, and "off" has
    /// to mean off.
    pub fn new(cfg: &Config) -> (r: Option<Enricher>)
        ensures
            r is Some <==> enrichment_wanted(*cfg),
            r matches Some(e) ==> e.valid() && e@ == (EnricherView {
                strictness: cfg.enrichment.strictness,
                sources: sources_of(texts(cfg.enrichment.sources@)),
                retry_backoff_ms: RETRY_BACKOFF_MS,
                current: None,
                last: None,
                in_flight: Set::empty(),
            }),
    {
        if !cfg.enrichment.enabled || cfg.enrichment.strictness == Strictness::Off {
            return None;
        }
        let sources = pick_sources(&cfg.enrichment.sources);
        if sources.len() == 0 {
            return None;
        }
        Some(
            Enricher {
                strictness: cfg.enrichment.strictness,
                sources,
                retry_backoff_ms: RETRY_BACKOFF_MS,
                current_key: None,
                last_considered: None,
                flights: SingleFlight::default(),
            },
        )
    }

    /// Change the delay before the first retry.
    pub fn set_retry_backoff(&mut self, ms: u64)
        requires
            old(self).valid(),
            ms <= 0x1000_0000_0000_0000,
        ensures
            final(self).valid(),
            final(self)@ == (EnricherView { retry_backoff_ms: ms, ..old(self)@ }),
    {
        self.retry_backoff_ms = ms;
    }

    /// How strict the gates are.
    pub fn strictness(&self) -> (r: Strictness)
        ensures
            r == self@.strictness,
    {
        self.strictness
    }

    /// Begin the search for an album's picture: the configured catalogues, in
    /// order.
    pub fn hunt(&self, artist: &str, album: &str) -> (r: (Hunt, Action))
        requires
            self.valid(),
        ensures
            r.0@.valid(),
            r.0@.artist == artist@,
            r.0@.album == album@,
            r.0@.sources == self@.sources,
            r.0@.backoff_ms == self@.retry_backoff_ms,
            r.0@.at == 0,
            !r.0@.rate_limited,
            r.0@.best_text is None,
            (r.0@, r.1@) == r.0@.ask(),
    {
        let mut sources: Vec<Source> = Vec::new();
        let mut i: usize = 0;
        while i < self.sources.len()
            invariant
                i <= self.sources@.len(),
                sources@ == self.sources@.take(i as int),
            decreases self.sources.len() - i,
        {
            sources.push(self.sources[i]);
            assert(self.sources@.take(i + 1) == self.sources@.take(i as int).push(
                self.sources@[i as int],
            ));
            i = i + 1;
        }
        assert(self.sources@.take(self.sources@.len() as int) == self.sources@);
        Hunt::start(artist, album, sources, self.retry_backoff_ms)
    }

    /// Consider enriching this album.
    ///
    /// Called on every state change that carries both a track and AirPlay
    /// art, which is several times per track, so most of what happens here is
    /// deciding not to start a job.
    pub fn consider(&mut self, request: &Request) -> (r: Option<Job>)
        requires
            old(self).valid(),
        ensures
            final(self).valid(),
            (final(self)@, r is Some) == old(self)@.considered(
                request.artist@,
                request.album@,
                request.current_revision,
            ),
            r matches Some(job) ==> {
                &&& job.key@ == key_of(request.artist@, request.album@)
                &&& job.label@ == request.artist@ + " — "@ + request.album@
                &&& job.flight.held() == job.key@
            },
    {
        if trim(request.artist.as_str()).as_str().is_empty() || trim(
            request.album.as_str(),
        ).as_str().is_empty() {
            return None;
        }
        let key = album_key(request.artist.as_str(), request.album.as_str());
        // A track change abandons whatever is in flight, but only when the
        // album changed. The next track off the same record wants the same
        // image, and cancelling would throw away a fetch already half done.
        self.current_key = Some(key.clone());
        let seen: bool = match &self.last_considered {
            Some(p) => same(p.0.as_str(), key.as_str()) && p.1 == request.current_revision,
            None => false,
        };
        if seen {
            return None;
        }
        self.last_considered = Some((key.clone(), request.current_revision));
        // Claim the key here: a burst of resent bundles must not start a burst
        // of jobs that then all discover they are duplicates.
        match self.flights.enter(key.as_str()) {
            None => None,
            Some(flight) => {
                let mut label = concat(request.artist.as_str(), " — ");
                label.append(request.album.as_str());
                Some(Job { key, label, flight })
            },
        }
    }

    /// Whether an album is the one currently playing.
    pub fn still_current(&self, key: &str) -> (r: bool)
        ensures
            r == (self@.current == Some(key@)),
    {
        match &self.current_key {
            Some(k) => same(k.as_str(), key),
            None => false,
        }
    }

    /// A job is over. Its key is released, and its verdict is reported unless
    /// the album has ended meanwhile.
    pub fn conclude(&mut self, job: Job, verdict: Option<Verdict>, rate_limited: bool) -> (r: Option<
        Report,
    >)
        requires
            old(self).valid(),
        ensures
            final(self).valid(),
            final(self)@ == (EnricherView {
                in_flight: old(self)@.in_flight.remove(job.flight.held()),
                ..old(self)@
            }),
            r is Some <==> verdict is Some && old(self)@.current == Some(job.key@),
            r matches Some(report) ==> {
                &&& report.key == job.key
                &&& report.label == job.label
                &&& Some(report.verdict) == verdict
                &&& report.rate_limited == rate_limited
            },
    {
        self.flights.release(job.flight);
        let current: bool = self.still_current(job.key.as_str());
        match verdict {
            Some(v) => if current {
                Some(Report { key: job.key, label: job.label, verdict: v, rate_limited })
            } else {
                None
            },
            None => None,
        }
    }
}

// --- laws -----------------------------------------------------------------

/// One key per record: names that normalise alike share it.
pub proof fn spellings_share_a_key(
    artist: Seq<char>,
    album: Seq<char>,
    artist2: Seq<char>,
    album2: Seq<char>,
)
    requires
        normalised(artist) == normalised(artist2),
        normalised(album) == normalised(album2),
    ensures
        key_of(artist, album) == key_of(artist2, album2),
{
}

/// Off means off: a device that is configured not to enrich has no enricher.
pub proof fn off_means_off(c: Config)
    requires
        !c.enrichment.enabled || c.enrichment.strictness == Strictness::Off
            || c.enrichment.sources@.len() == 0,
    ensures
        !enrichment_wanted(c),
{
    if c.enrichment.sources@.len() == 0 {
        assert(texts(c.enrichment.sources@).len() == 0);
    }
}

/// An album and a revision that were just considered start nothing again, and
/// no album has two jobs at once.
pub proof fn no_album_is_considered_twice(
    e: EnricherView,
    artist: Seq<char>,
    album: Seq<char>,
    revision: u64,
)
    ensures
        ({
            let after = e.considered(artist, album, revision).0;
            after.considered(artist, album, revision) == (after, false)
        }),
        e.in_flight.contains(key_of(artist, album)) ==> !e.considered(artist, album, revision).1,
{
}

/// An album is looked for if and only if both its names say something, this
/// picture of it was not the last that was considered, and nobody is looking for
/// it already.
pub proof fn new_albums_are_looked_for(
    e: EnricherView,
    artist: Seq<char>,
    album: Seq<char>,
    revision: u64,
)
    ensures
        ({
            let (after, started) = e.considered(artist, album, revision);
            let key = key_of(artist, album);
            let named = trimmed(artist).len() > 0 && trimmed(album).len() > 0;
            &&& started <==> named && e.last != Some((key, revision)) && !e.in_flight.contains(key)
            &&& started ==> after.in_flight == e.in_flight.insert(key)
            &&& !started ==> after.in_flight == e.in_flight
            &&& named ==> after.current == Some(key) && after.last == Some((key, revision))
            &&& !named ==> after == e
        }),
{
}

/// The catalogues are asked in the order in which they are named, and names that
/// are not known are left out.
pub proof fn catalogues_keep_their_order(names: Seq<Seq<char>>, name: Seq<char>)
    ensures
        sources_of(names.push("itunes"@)) == sources_of(names).push(Source::Itunes),
        sources_of(names.push("musicbrainz"@)) == sources_of(names).push(Source::MusicBrainz),
        name != "itunes"@ && name != "musicbrainz"@ ==> sources_of(names.push(name)) == sources_of(
            names,
        ),
        sources_of(Seq::empty()) == Seq::<Source>::empty(),
{
    reveal_strlit("itunes");
    reveal_strlit("musicbrainz");
    assert("itunes"@.len() != "musicbrainz"@.len());
    assert(names.push("itunes"@).drop_last() == names);
    assert(names.push("musicbrainz"@).drop_last() == names);
    assert(names.push(name).drop_last() == names);
}

} // verus!
