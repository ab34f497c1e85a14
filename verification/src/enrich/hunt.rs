//! The search for one album's picture, as decisions.
//!
//! Whoever runs a [`Hunt`] performs each [`Action`] it asks for and tells it
//! what came of it, until there is a verdict.

use vstd::prelude::*;

use crate::config::Strictness;
use crate::enrich::cache::Entry;
use crate::enrich::catalogue::{candidates_view, Candidate, CandidateView, CatalogueError};
use crate::enrich::gate::{
    compare, decoded_image, fingerprint, large_enough, no_fingerprint, size_gate, Fingerprint,
    Visual,
};
use crate::double::{nearest, ONE};
use crate::enrich::text::Scores;
use crate::enrich::{Source, Upgrade, UpgradeView, Verdict, VerdictView, MAX_ATTEMPTS};
use crate::pixels::differing;
use crate::proto::ArtworkSource;
use crate::single::Single;
use crate::strings::{concat, texts};

verus! {

broadcast use vstd::seq::group_seq_axioms;

// --- the cache ------------------------------------------------------------

/// The smaller side of a picture, zero if its size is not known.
pub open spec fn smaller_side(d: Option<(u32, u32)>) -> u32 {
    match d {
        Some(x) => if x.0 < x.1 {
            x.0
        } else {
            x.1
        },
        None => 0,
    }
}

/// The smaller side of a picture, zero if its size is not known.
pub fn min_side(d: Option<(u32, u32)>) -> (r: u32)
    ensures
        r == smaller_side(d),
{
    match d {
        Some(x) => if x.0 < x.1 {
            x.0
        } else {
            x.1
        },
        None => 0,
    }
}

/// What the cache settles: everything in it passed the gates when it was
/// stored, so it is shown if it really is sharper than what is up. An entry
/// of unknown size is not used.
pub open spec fn cache_verdict(
    entry: Option<(Entry, Vec<u8>)>,
    negative: bool,
    current_side: u32,
) -> Option<VerdictView> {
    match entry {
        Some((e, bytes)) => Some(
            VerdictView::Cached(
                match (e.width, e.height) {
                    (Some(w), Some(h)) => if smaller_side(Some((w, h))) > current_side {
                        Some(
                            UpgradeView {
                                bytes: bytes@,
                                dimensions: (w, h),
                                source: ArtworkSource::Cache,
                            },
                        )
                    } else {
                        None
                    },
                    _ => None,
                },
            ),
        ),
        None => if negative {
            Some(VerdictView::NegativeCacheHit)
        } else {
            None
        },
    }
}

/// What the cache settles, if anything.
pub fn from_cache(entry: Option<(Entry, Vec<u8>)>, negative: bool, current_side: u32) -> (r: Option<
    Verdict,
>)
    ensures
        match r {
            Some(v) => cache_verdict(entry, negative, current_side) == Some(v@),
            None => cache_verdict(entry, negative, current_side) is None,
        },
{
    match entry {
        Some((e, bytes)) => {
            let dims: Option<(u32, u32)> = match (e.width, e.height) {
                (Some(w), Some(h)) => Some((w, h)),
                _ => None,
            };
            match dims {
                // An entry stored before its header could be read: treat it as
                // unusable rather than swapping in an unknown size.
                None => Some(Verdict::Cached(None)),
                Some(d) => {
                    // The same album can arrive with larger AirPlay art from a
                    // different sender, and swapping down is a visible
                    // downgrade.
                    if min_side(Some(d)) <= current_side {
                        Some(Verdict::Cached(None))
                    } else {
                        Some(
                            Verdict::Cached(
                                Some(
                                    Upgrade { bytes, dimensions: d, source: ArtworkSource::Cache },
                                ),
                            ),
                        )
                    }
                },
            }
        },
        None => if negative {
            Some(Verdict::NegativeCacheHit)
        } else {
            None
        },
    }
}

// --- picking a candidate --------------------------------------------------

/// The best of some candidates: the one with the highest scores together, and
/// of equals the first. Scores are added up as doubles.
pub open spec fn best_of(
    artist: Seq<char>,
    album: Seq<char>,
    found: Seq<CandidateView>,
) -> Option<(Scores, CandidateView)>
    decreases found.len(),
{
    if found.len() == 0 {
        None
    } else {
        let before = best_of(artist, album, found.drop_last());
        let c = found.last();
        let s = Scores::compared(artist, album, c.artist, c.album);
        match before {
            Some((b, _)) if s.sum() <= b.sum() => before,
            _ => Some((s, c)),
        }
    }
}

/// How well a candidate matches what is playing.
#[verifier::opaque]
pub open spec fn of_candidate(artist: Seq<char>, album: Seq<char>, c: CandidateView) -> Scores {
    Scores::compared(artist, album, c.artist, c.album)
}

/// The scores of the artist and the album together, added up as doubles.
#[verifier::opaque]
pub open spec fn together(s: Scores) -> nat {
    nearest((s.artist + s.album) as nat, ONE as nat)
}

/// Whether a candidate is the best: none matches better with artist and album
/// together, and none that comes before it matches as well.
pub open spec fn is_best(
    artist: Seq<char>,
    album: Seq<char>,
    found: Seq<CandidateView>,
    i: int,
    s: Scores,
) -> bool {
    &&& 0 <= i < found.len()
    &&& s == of_candidate(artist, album, found[i])
    &&& forall|k: int|
        0 <= k < found.len() ==> together(of_candidate(artist, album, #[trigger] found[k]))
            <= together(s)
    &&& forall|k: int|
        0 <= k < i ==> together(of_candidate(artist, album, #[trigger] found[k])) < together(s)
}

/// The place of the best of some candidates.
///
/// The best rather than the first that passes: a catalogue routinely returns
/// the single, the deluxe edition and the original in one response, and the
/// original is the one we want.
pub fn best_candidate(artist: &str, album: &str, found: &Vec<Candidate>) -> (r: Option<
    (Scores, usize),
>)
    ensures
        match r {
            Some(p) => p.1 < found@.len() && p.0.valid() && best_of(
                artist@,
                album@,
                candidates_view(found@),
            ) == Some((p.0, found@[p.1 as int]@)),
            None => best_of(artist@, album@, candidates_view(found@)) is None,
        },
        r is None <==> found@.len() == 0,
        r matches Some(p) ==> is_best(
            artist@,
            album@,
            candidates_view(found@),
            p.1 as int,
            p.0,
        ),
{
    let ghost all = candidates_view(found@);
    let mut best: Option<(Scores, usize)> = None;
    let mut i: usize = 0;
    assert(all.take(0).len() == 0);
    while i < found.len()
        invariant
            i <= found.len(),
            all == candidates_view(found@),
            match best {
                Some(p) => p.1 < i && p.0.valid() && best_of(artist@, album@, all.take(i as int))
                    == Some((p.0, found@[p.1 as int]@)),
                None => best_of(artist@, album@, all.take(i as int)) is None,
            },
            best is None <==> i == 0,
            best matches Some(p) ==> is_best(artist@, album@, all.take(i as int), p.1 as int, p.0),
        decreases found.len() - i,
    {
        assert(all.take(i + 1).drop_last() == all.take(i as int));
        assert(all.take(i + 1).last() == found@[i as int]@);
        let c = &found[i];
        let s = Scores::compare(artist, album, c.artist.as_str(), c.album.as_str());
        let better: bool = match best {
            Some(p) => s.total() > p.0.total(),
            None => true,
        };
        let ghost earlier = best;
        if better {
            best = Some((s, i));
        }
        proof {
            matches_as(artist@, album@, found@[i as int]@);
            match earlier {
                Some(p) => {
                    sums_compare(s, p.0);
                    one_more_candidate(artist@, album@, all.take(i + 1), p.1 as int, p.0);
                },
                None => {},
            }
        }
        i = i + 1;
    }
    assert(all.take(all.len() as int) == all);
    best
}

// --- the hunt -------------------------------------------------------------

/// The search for one album's picture.
#[derive(Debug)]
pub struct Hunt {
    artist: String,
    album: String,
    sources: Vec<Source>,
    backoff_ms: u64,
    /// The source that is being asked.
    at: usize,
    /// The attempt at it that is under way, counted from one.
    attempt: u32,
    delay_ms: u64,
    rate_limited: bool,
    /// The best candidate that did not pass the text gate.
    best_text: Option<(Scores, String)>,
    /// The candidate that did, with the addresses of its picture.
    scores: Scores,
    source: ArtworkSource,
    urls: Vec<String>,
    url_at: usize,
}

/// What is to be done next.
#[derive(Debug)]
pub enum Action {
    /// Ask a catalogue, once its rate limiter allows, if the album is still
    /// the current one.
    Search(Source),
    /// The same, after a while in milliseconds.
    WaitAndSearch(u64, Source),
    /// Fetch a picture.
    Fetch(String),
    /// Put a picture before the gates.
    Judge { scores: Scores, source: ArtworkSource, bytes: Vec<u8> },
    /// It is over.
    Finish(Verdict),
    /// It is over, and the miss is to be remembered: asking again in four
    /// minutes gives the same answer and spends the same request budget.
    FinishAndRemember(Verdict),
}

/// A [`Hunt`] as values.
pub struct HuntView {
    pub artist: Seq<char>,
    pub album: Seq<char>,
    pub sources: Seq<Source>,
    pub backoff_ms: nat,
    pub at: nat,
    pub attempt: nat,
    pub delay_ms: nat,
    pub rate_limited: bool,
    pub best_text: Option<(Scores, Seq<char>)>,
    pub scores: Scores,
    pub source: ArtworkSource,
    pub urls: Seq<Seq<char>>,
    pub url_at: nat,
}

/// An [`Action`] as values.
pub enum ActionView {
    Search(Source),
    WaitAndSearch(nat, Source),
    Fetch(Seq<char>),
    Judge { scores: Scores, source: ArtworkSource, bytes: Seq<u8> },
    Finish(VerdictView),
    FinishAndRemember(VerdictView),
}

impl View for Action {
    type V = ActionView;

    open spec fn view(&self) -> ActionView {
        match *self {
            Action::Search(s) => ActionView::Search(s),
            Action::WaitAndSearch(ms, s) => ActionView::WaitAndSearch(ms as nat, s),
            Action::Fetch(url) => ActionView::Fetch(url@),
            Action::Judge { scores, source, bytes } => ActionView::Judge {
                scores,
                source,
                bytes: bytes@,
            },
            Action::Finish(v) => ActionView::Finish(v@),
            Action::FinishAndRemember(v) => ActionView::FinishAndRemember(v@),
        }
    }
}

impl View for Hunt {
    type V = HuntView;

    closed spec fn view(&self) -> HuntView {
        HuntView {
            artist: self.artist@,
            album: self.album@,
            sources: self.sources@,
            backoff_ms: self.backoff_ms as nat,
            at: self.at as nat,
            attempt: self.attempt as nat,
            delay_ms: self.delay_ms as nat,
            rate_limited: self.rate_limited,
            best_text: match self.best_text {
                Some(p) => Some((p.0, p.1@)),
                None => None,
            },
            scores: self.scores,
            source: self.source,
            urls: texts(self.urls@),
            url_at: self.url_at as nat,
        }
    }
}

/// The answer of a catalogue, as values.
pub enum AnswerView {
    Found(Seq<CandidateView>),
    Refused(CatalogueError),
}

/// The answer of a catalogue, as values.
pub open spec fn answer_view(r: Result<Vec<Candidate>, CatalogueError>) -> AnswerView {
    match r {
        Ok(found) => AnswerView::Found(candidates_view(found@)),
        Err(e) => AnswerView::Refused(e),
    }
}

impl HuntView {
    /// What holds of a hunt between actions.
    pub open spec fn valid(self) -> bool {
        &&& self.at <= self.sources.len()
        &&& 1 <= self.attempt <= MAX_ATTEMPTS
        &&& self.backoff_ms <= 0x1000_0000_0000_0000
        &&& self.attempt == 1 ==> self.delay_ms <= self.backoff_ms
        &&& self.attempt == 2 ==> self.delay_ms <= 2 * self.backoff_ms
        &&& self.attempt == 3 ==> self.delay_ms <= 4 * self.backoff_ms
        &&& self.best_text matches Some(p) ==> p.0.valid()
        &&& self.scores.valid()
        &&& self.url_at <= self.urls.len()
    }

    /// Whether a source is being asked.
    pub open spec fn asking(self) -> bool {
        self.at < self.sources.len()
    }

    /// Ask the source it is at for the first time; or, if there is none left,
    /// end with what the text gate refused, or with nothing.
    pub open spec fn ask(self) -> (HuntView, ActionView) {
        if self.asking() {
            (
                HuntView { attempt: 1, delay_ms: self.backoff_ms, ..self },
                ActionView::Search(self.sources[self.at as int]),
            )
        } else {
            (
                self,
                ActionView::FinishAndRemember(
                    match self.best_text {
                        Some((best, candidate)) => VerdictView::TextRejected { best, candidate },
                        None => VerdictView::NoMatch,
                    },
                ),
            )
        }
    }

    /// This source has nothing: on to the next.
    pub open spec fn nothing(self) -> (HuntView, ActionView) {
        HuntView { at: self.at + 1, ..self }.ask()
    }

    /// Try the address it is at; if there is none left, the source has
    /// nothing.
    pub open spec fn fetch(self) -> (HuntView, ActionView) {
        if self.url_at < self.urls.len() {
            (self, ActionView::Fetch(self.urls[self.url_at as int]))
        } else {
            self.nothing()
        }
    }

    /// A catalogue offered candidates. The best one goes before the text gate.
    pub open spec fn offered(self, found: Seq<CandidateView>) -> (HuntView, ActionView) {
        match best_of(self.artist, self.album, found) {
            None => self.nothing(),
            Some((s, c)) => if s.pass() {
                HuntView {
                    scores: s,
                    source: c.source,
                    urls: c.art_urls,
                    url_at: 0,
                    ..self
                }.fetch()
            } else {
                let better = match self.best_text {
                    Some((b, _)) => s.album > b.album,
                    None => true,
                };
                HuntView {
                    best_text: if better {
                        Some((s, c.artist + " — "@ + c.album))
                    } else {
                        self.best_text
                    },
                    ..self
                }.nothing()
            },
        }
    }

    /// A catalogue answered, after the rate limiter made us wait or not.
    pub open spec fn searched(self, waited: bool, answer: AnswerView) -> (HuntView, ActionView) {
        let h = HuntView { rate_limited: self.rate_limited || waited, ..self };
        let again = HuntView { attempt: self.attempt + 1, ..h };
        let here = self.sources[self.at as int];
        match answer {
            AnswerView::Found(found) => h.offered(found),
            AnswerView::Refused(CatalogueError::NotFound) => h.nothing(),
            AnswerView::Refused(CatalogueError::RateLimited(_)) => if self.attempt < MAX_ATTEMPTS {
                (HuntView { rate_limited: true, ..again }, ActionView::Search(here))
            } else {
                (
                    HuntView { rate_limited: true, ..h },
                    ActionView::Finish(
                        VerdictView::Unreachable("no answer after 3 attempts"@),
                    ),
                )
            },
            AnswerView::Refused(e) => if e.transient() && self.attempt < MAX_ATTEMPTS {
                (
                    HuntView { delay_ms: 2 * self.delay_ms, ..again },
                    ActionView::WaitAndSearch(self.delay_ms, here),
                )
            } else if e.transient() {
                (h, ActionView::Finish(VerdictView::Unreachable(e.text())))
            } else {
                (h, ActionView::Finish(VerdictView::Undecodable(e.text())))
            },
        }
    }

    /// A fetch came to something.
    pub open spec fn fetched(self, r: Result<Vec<u8>, CatalogueError>) -> (HuntView, ActionView) {
        match r {
            Ok(bytes) => (
                self,
                ActionView::Judge { scores: self.scores, source: self.source, bytes: bytes@ },
            ),
            // This size does not exist for this record: try a smaller one.
            Err(CatalogueError::NotFound) => HuntView { url_at: self.url_at + 1, ..self }.fetch(),
            Err(e) => (self, ActionView::Finish(VerdictView::Unreachable(e.text()))),
        }
    }
}

impl Hunt {
    /// Begin with the first source.
    pub fn start(artist: &str, album: &str, sources: Vec<Source>, backoff_ms: u64) -> (r: (
        Hunt,
        Action,
    ))
        requires
            backoff_ms <= 0x1000_0000_0000_0000,
        ensures
            r.0@.valid(),
            r.0@.artist == artist@,
            r.0@.album == album@,
            r.0@.sources == sources@,
            r.0@.backoff_ms == backoff_ms,
            r.0@.at == 0,
            !r.0@.rate_limited,
            r.0@.best_text is None,
            r.1@ == r.0@.ask().1,
            r.0@ == r.0@.ask().0,
    {
        let mut h = Hunt {
            artist: artist.to_owned(),
            album: album.to_owned(),
            sources,
            backoff_ms,
            at: 0,
            attempt: 1,
            delay_ms: backoff_ms,
            rate_limited: false,
            best_text: None,
            scores: Scores { artist: 0, album: 0 },
            source: ArtworkSource::Airplay,
            urls: Vec::new(),
            url_at: 0,
        };
        let a = h.ask();
        (h, a)
    }

    /// Whether the rate limiter made this hunt wait.
    pub fn was_rate_limited(&self) -> (r: bool)
        ensures
            r == self@.rate_limited,
    {
        self.rate_limited
    }

    fn ask(&mut self) -> (r: Action)
        requires
            old(self)@.valid(),
        ensures
            final(self)@.valid(),
            (final(self)@, r@) == old(self)@.ask(),
    {
        if self.at < self.sources.len() {
            self.attempt = 1;
            self.delay_ms = self.backoff_ms;
            return Action::Search(self.sources[self.at]);
        }
        Action::FinishAndRemember(
            match &self.best_text {
                Some(p) => Verdict::TextRejected { best: p.0, candidate: p.1.clone() },
                None => Verdict::NoMatch,
            },
        )
    }

    fn nothing(&mut self) -> (r: Action)
        requires
            old(self)@.valid(),
            old(self)@.asking(),
        ensures
            final(self)@.valid(),
            (final(self)@, r@) == old(self)@.nothing(),
    {
        if self.at < self.sources.len() {
            self.at = self.at + 1;
        }
        self.ask()
    }

    fn fetch(&mut self) -> (r: Action)
        requires
            old(self)@.valid(),
            old(self)@.asking(),
        ensures
            final(self)@.valid(),
            (final(self)@, r@) == old(self)@.fetch(),
    {
        if self.url_at < self.urls.len() {
            assert(texts(self.urls@)[self.url_at as int] == self.urls@[self.url_at as int]@);
            return Action::Fetch(self.urls[self.url_at].clone());
        }
        self.nothing()
    }

    fn offered(&mut self, found: Vec<Candidate>) -> (r: Action)
        requires
            old(self)@.valid(),
            old(self)@.asking(),
        ensures
            final(self)@.valid(),
            (final(self)@, r@) == old(self)@.offered(candidates_view(found@)),
    {
        match best_candidate(self.artist.as_str(), self.album.as_str(), &found) {
            None => self.nothing(),
            Some((s, i)) => {
                let mut rest = found;
                let c = rest.swap_remove(i);
                if s.passes() {
                    self.scores = s;
                    self.source = c.source;
                    self.urls = c.art_urls;
                    self.url_at = 0;
                    return self.fetch();
                }
                let better: bool = match &self.best_text {
                    Some(p) => s.album > p.0.album,
                    None => true,
                };
                if better {
                    let mut name = concat(c.artist.as_str(), " — ");
                    name.append(c.album.as_str());
                    self.best_text = Some((s, name));
                }
                self.nothing()
            },
        }
    }

    /// The album is no longer the current one: the source it is at is not
    /// asked.
    pub fn lapsed(&mut self) -> (r: Action)
        requires
            old(self)@.valid(),
            old(self)@.asking(),
        ensures
            final(self)@.valid(),
            (final(self)@, r@) == old(self)@.nothing(),
    {
        self.nothing()
    }

    /// A catalogue answered, after the rate limiter made us wait or not.
    pub fn searched(
        &mut self,
        waited: bool,
        answer: Result<Vec<Candidate>, CatalogueError>,
    ) -> (r: Action)
        requires
            old(self)@.valid(),
            old(self)@.asking(),
        ensures
            final(self)@.valid(),
            (final(self)@, r@) == old(self)@.searched(waited, answer_view(answer)),
    {
        if waited {
            self.rate_limited = true;
        }
        match answer {
            Ok(found) => self.offered(found),
            Err(CatalogueError::NotFound) => self.nothing(),
            Err(CatalogueError::RateLimited(_)) => {
                self.rate_limited = true;
                if self.attempt < MAX_ATTEMPTS {
                    self.attempt = self.attempt + 1;
                    Action::Search(self.sources[self.at])
                } else {
                    Action::Finish(Verdict::Unreachable("no answer after 3 attempts".to_owned()))
                }
            },
            Err(e) => {
                let text = e.to_string();
                if e.is_transient() && self.attempt < MAX_ATTEMPTS {
                    let delay: u64 = self.delay_ms;
                    self.delay_ms = 2 * delay;
                    self.attempt = self.attempt + 1;
                    Action::WaitAndSearch(delay, self.sources[self.at])
                } else if e.is_transient() {
                    Action::Finish(Verdict::Unreachable(text))
                } else {
                    Action::Finish(Verdict::Undecodable(text))
                }
            },
        }
    }

    /// A fetch came to something.
    ///
    /// Anything but a missing size is about the connection or our standing
    /// with the server, and the next size would hit it too.
    pub fn fetched(&mut self, answer: Result<Vec<u8>, CatalogueError>) -> (r: Action)
        requires
            old(self)@.valid(),
            old(self)@.asking(),
            old(self)@.url_at < old(self)@.urls.len(),
        ensures
            final(self)@.valid(),
            (final(self)@, r@) == old(self)@.fetched(answer),
    {
        match answer {
            Ok(bytes) => Action::Judge { scores: self.scores, source: self.source, bytes },
            Err(CatalogueError::NotFound) => {
                if self.url_at < self.urls.len() {
                    self.url_at = self.url_at + 1;
                }
                self.fetch()
            },
            Err(e) => Action::Finish(Verdict::Unreachable(e.to_string())),
        }
    }
}

/// How long the rate limiter is to be paused after an answer, in seconds. The
/// server is talking about our address, not about one request.
pub fn pause_after(answer: &Result<Vec<Candidate>, CatalogueError>) -> (r: Option<u64>)
    ensures
        r == match *answer {
            Err(CatalogueError::RateLimited(secs)) => Some(secs),
            _ => None,
        },
{
    match answer {
        Err(CatalogueError::RateLimited(secs)) => Some(*secs),
        _ => None,
    }
}

// --- the gates ------------------------------------------------------------

/// What the gates say before the colours have been compared.
#[derive(Debug)]
pub enum Ruling {
    /// It is settled.
    Settled(Verdict),
    /// The candidate is good, whatever its picture shows.
    Accepted,
    /// It depends on how alike the two pictures are.
    Compare { current: Fingerprint, candidate: Fingerprint },
}

/// The side of what is shown: as it was announced, or else as it decodes.
pub open spec fn shown_side(current_side: u32, displayed: Option<Fingerprint>) -> u32 {
    if current_side > 0 {
        current_side
    } else {
        match displayed {
            Some(f) => f.side(),
            None => 0,
        }
    }
}

/// Whether the text alone is enough to swap.
///
/// The bypass exists because legitimate regional cover variants are exactly
/// the albums where a high-resolution upgrade matters, and a colour histogram
/// cannot tell one from a different record. `strict` removes it.
pub open spec fn text_is_enough(strictness: Strictness, scores: Scores) -> bool {
    strictness == Strictness::TextOnly || scores.unambiguous() && strictness != Strictness::Strict
}

/// The ruling on a candidate: the size gate first, then the text, then the
/// pictures.
///
/// A size that is not known is taken from the displayed image: a size gate
/// against an unknown size would otherwise let anything through. Where the
/// displayed image cannot be seen, a swap cannot be authorised: keeping what
/// is up is always the safe answer.
pub open spec fn rules(
    strictness: Strictness,
    scores: Scores,
    current_side: u32,
    candidate: Fingerprint,
    displayed: Option<Fingerprint>,
    r: Ruling,
) -> bool {
    let shown = shown_side(current_side, displayed);
    if !large_enough(shown, candidate.side()) {
        r matches Ruling::Settled(v) && v@ == (VerdictView::SizeRejected {
            current: shown,
            candidate: candidate.side(),
        })
    } else if text_is_enough(strictness, scores) {
        r is Accepted
    } else {
        match displayed {
            None => r matches Ruling::Settled(v) && v@ == VerdictView::Undecodable(
                "the displayed artwork could not be re-read"@,
            ),
            Some(d) => r == (Ruling::Compare { current: d, candidate }),
        }
    }
}

/// The size gate, and whether the perceptual gate has to be asked.
pub fn judge_fingerprints(
    strictness: Strictness,
    scores: Scores,
    current_side: u32,
    candidate: Fingerprint,
    displayed: Option<Fingerprint>,
) -> (r: Ruling)
    ensures
        rules(strictness, scores, current_side, candidate, displayed, r),
{
    let shown: u32 = if current_side > 0 {
        current_side
    } else {
        match &displayed {
            Some(f) => f.min_side(),
            None => 0,
        }
    };
    if !size_gate(shown, candidate.min_side()) {
        return Ruling::Settled(
            Verdict::SizeRejected { current: shown, candidate: candidate.min_side() },
        );
    }
    if strictness == Strictness::TextOnly {
        return Ruling::Accepted;
    }
    if scores.near_exact() && strictness != Strictness::Strict {
        return Ruling::Accepted;
    }
    match displayed {
        None => Ruling::Settled(
            Verdict::Undecodable("the displayed artwork could not be re-read".to_owned()),
        ),
        Some(current) => Ruling::Compare { current, candidate },
    }
}

/// The perceptual gate, given how similar the colours are.
pub fn judge_visual(
    scores: Scores,
    current: &Fingerprint,
    candidate: &Fingerprint,
    similarity: Single,
) -> (r: Option<Verdict>)
    ensures
        ({
            let visual = Visual {
                hamming: differing(current.dhash, candidate.dhash, 64) as u32,
                similarity,
            };
            match r {
                Some(v) => !visual.pass() && v@ == (VerdictView::PerceptualRejected {
                    visual,
                    scores,
                }),
                None => visual.pass(),
            }
        }),
{
    let visual = compare(current, candidate, similarity);
    if visual.passes() {
        None
    } else {
        Some(Verdict::PerceptualRejected { visual, scores })
    }
}

/// Put a fetched picture before the gates: decode it and what is displayed,
/// and rule on them.
pub fn judge(
    strictness: Strictness,
    scores: Scores,
    current_side: u32,
    bytes: &[u8],
    displayed: Option<&[u8]>,
) -> (r: (Ruling, (u32, u32)))
    ensures
        match no_fingerprint(decoded_image(bytes@, crate::enrich::gate::MAX_SIDE)) {
            Some(e) => r.0 matches Ruling::Settled(v) && v@ == VerdictView::Undecodable(e),
            None => exists|c: Fingerprint, d: Option<Fingerprint>| #[trigger]
                is_shown(d, displayed) && {
                    let x = decoded_image(bytes@, crate::enrich::gate::MAX_SIDE)->0;
                    &&& c.is_of(x.0, x.1, x.2)
                    &&& r.1 == (x.0, x.1)
                    &&& #[trigger] rules(strictness, scores, current_side, c, d, r.0)
                },
        },
{
    let candidate = match fingerprint(bytes) {
        Ok(f) => f,
        Err(e) => {
            return (Ruling::Settled(Verdict::Undecodable(e)), (0, 0));
        },
    };
    let current: Option<Fingerprint> = match displayed {
        Some(b) => match fingerprint(b) {
            Ok(f) => Some(f),
            Err(_) => None,
        },
        None => None,
    };
    let size: (u32, u32) = (candidate.width, candidate.height);
    assert(is_shown(current, displayed));
    (judge_fingerprints(strictness, scores, current_side, candidate, current), size)
}

/// Whether a fingerprint is that of what is displayed, if it can be read and
/// decoded.
pub open spec fn is_shown(f: Option<Fingerprint>, displayed: Option<&[u8]>) -> bool {
    match (f, displayed) {
        (Some(g), Some(b)) => decoded_image(b@, crate::enrich::gate::MAX_SIDE) matches Some(x) && x.0
            > 0 && x.1 > 0 && g.is_of(x.0, x.1, x.2),
        (None, Some(b)) => no_fingerprint(
            decoded_image(b@, crate::enrich::gate::MAX_SIDE),
        ) is Some,
        (None, None) => true,
        (Some(_), None) => false,
    }
}

/// The verdict on a picture that passed.
pub fn accepted(bytes: Vec<u8>, dimensions: (u32, u32), source: ArtworkSource) -> (r: Verdict)
    ensures
        r@ == VerdictView::Upgraded(UpgradeView { bytes: bytes@, dimensions, source }),
{
    Verdict::Upgraded(Upgrade { bytes, dimensions, source })
}

// --- laws -----------------------------------------------------------------

impl HuntView {
    /// How much can still happen: sources, then attempts at the one it is at,
    /// then addresses.
    pub open spec fn sources_left(self) -> int {
        self.sources.len() - self.at
    }

    pub open spec fn attempts_left(self) -> int {
        MAX_ATTEMPTS - self.attempt
    }

    pub open spec fn urls_left(self) -> int {
        self.urls.len() - self.url_at
    }
}

/// Whether an action asks a catalogue.
pub open spec fn asks(a: ActionView) -> bool {
    a is Search || a is WaitAndSearch
}

/// A hunt comes to an end: every answer of a catalogue either leads to no
/// further question, or uses up an attempt, or uses up a source. So a source
/// is asked at most three times.
pub proof fn searches_run_out(h: HuntView, waited: bool, answer: AnswerView)
    requires
        h.valid(),
        h.asking(),
    ensures
        ({
            let (n, a) = h.searched(waited, answer);
            asks(a) ==> {
                ||| n.sources_left() < h.sources_left()
                ||| n.at == h.at && n.attempts_left() < h.attempts_left()
            }
        }),
{
}

/// Fetching comes to an end too: every missing size uses up an address or a
/// source.
pub proof fn fetches_run_out(h: HuntView, r: Result<Vec<u8>, CatalogueError>)
    requires
        h.valid(),
        h.asking(),
        h.url_at < h.urls.len(),
    ensures
        ({
            let (n, a) = h.fetched(r);
            &&& a is Fetch ==> n.at == h.at && n.urls_left() < h.urls_left()
            &&& asks(a) ==> n.sources_left() < h.sources_left()
        }),
{
}

/// Nothing is fetched that has not passed the text gate.
pub proof fn only_matches_are_fetched(h: HuntView, waited: bool, answer: AnswerView)
    requires
        h.valid(),
        h.asking(),
    ensures
        h.searched(waited, answer).1 is Fetch ==> h.searched(waited, answer).0.scores.pass(),
{
}

/// Strict mode never skips the look at the picture.
pub proof fn strict_always_looks(scores: Scores)
    ensures
        !text_is_enough(Strictness::Strict, scores),
{
}

/// Whatever the strictness, nothing replaces a picture unless it is half as
/// large again: a swap is never a downgrade.
pub proof fn swaps_are_upgrades(current: u32, candidate: u32)
    requires
        large_enough(current, candidate),
        candidate > 0,
    ensures
        candidate > current,
{
}

proof fn matches_as(artist: Seq<char>, album: Seq<char>, c: CandidateView)
    ensures
        of_candidate(artist, album, c) == Scores::compared(artist, album, c.artist, c.album),
{
    reveal(of_candidate);
}

proof fn sums_compare(s: Scores, t: Scores)
    ensures
        s.sum() > t.sum() <==> together(s) > together(t),
{
    reveal(together);
}

/// With one more candidate, the best is the one from before, or the new one if
/// it matches better.
proof fn one_more_candidate(
    artist: Seq<char>,
    album: Seq<char>,
    found: Seq<CandidateView>,
    i: int,
    b: Scores,
)
    requires
        found.len() > 0,
        is_best(artist, album, found.drop_last(), i, b),
    ensures
        ({
            let s = of_candidate(artist, album, found.last());
            if together(s) > together(b) {
                is_best(artist, album, found, found.len() - 1, s)
            } else {
                is_best(artist, album, found, i, b)
            }
        }),
{
    let n = found.len() - 1;
    let before = found.drop_last();
    assert forall|k: int| 0 <= k < n implies together(
        of_candidate(artist, album, #[trigger] found[k]),
    ) <= together(b) by {
        assert(found[k] == before[k]);
    }
    assert forall|k: int| 0 <= k < i implies together(
        of_candidate(artist, album, #[trigger] found[k]),
    ) < together(b) by {
        assert(found[k] == before[k]);
    }
    assert(found[i] == before[i]);
}

proof fn best_is_somewhere(
    artist: Seq<char>,
    album: Seq<char>,
    found: Seq<CandidateView>,
) -> (i: int)
    requires
        found.len() > 0,
    ensures
        best_of(artist, album, found) matches Some(b) && b.1 == found[i] && is_best(
            artist,
            album,
            found,
            i,
            b.0,
        ),
    decreases found.len(),
{
    let n = found.len() - 1;
    let before = found.drop_last();
    let s = of_candidate(artist, album, found[n]);
    matches_as(artist, album, found[n]);
    if before.len() == 0 {
        n
    } else {
        let j = best_is_somewhere(artist, album, before);
        let (b, _) = best_of(artist, album, before)->0;
        sums_compare(s, b);
        one_more_candidate(artist, album, found, j, b);
        if s.sum() <= b.sum() {
            j
        } else {
            n
        }
    }
}

/// Of what a catalogue offers, the candidate is taken whose artist and album
/// together match best, and of equals the first: none of the others has a
/// greater sum of scores, and one that has the same does not come before it.
/// Sums are those of doubles.
pub proof fn the_best_match_is_taken(
    artist: Seq<char>,
    album: Seq<char>,
    found: Seq<CandidateView>,
    k: int,
)
    requires
        0 <= k < found.len(),
    ensures
        best_of(artist, album, found) matches Some(best) && {
            let other = Scores::compared(artist, album, found[k].artist, found[k].album);
            let sum = nearest((best.0.artist + best.0.album) as nat, ONE as nat);
            let others = nearest((other.artist + other.album) as nat, ONE as nat);
            &&& best.0 == Scores::compared(artist, album, best.1.artist, best.1.album)
            &&& found.contains(best.1)
            &&& others <= sum
            &&& others == sum ==> found.take(k + 1).contains(best.1)
        },
{
    let i = best_is_somewhere(artist, album, found);
    let (s, c) = best_of(artist, album, found)->0;
    let other = of_candidate(artist, album, found[k]);
    matches_as(artist, album, found[k]);
    matches_as(artist, album, c);
    assert(c == found[i]);
    assert(together(other) <= together(s));
    reveal(together);
    if together(other) == together(s) {
        assert(i <= k);
        assert(found.take(k + 1)[i] == c);
    }
}

/// What an answer of a catalogue leads to. A refusal to be asked so often, or a
/// failure that may pass, is asked again, three times in all: the first at the
/// limiter's pace, the second after a delay that doubles each time. A source
/// that has nothing hands over to the next. Only when every source was asked
/// and had nothing is the failure worth remembering.
pub proof fn answers_lead_on(h: HuntView, waited: bool, answer: AnswerView)
    requires
        h.valid(),
        h.asking(),
    ensures
        ({
            let (n, a) = h.searched(waited, answer);
            let here = h.sources[h.at as int];
            match answer {
                AnswerView::Refused(CatalogueError::RateLimited(_)) => if h.attempt < 3 {
                    a == ActionView::Search(here) && n.attempt == h.attempt + 1 && n.at == h.at
                        && n.rate_limited
                } else {
                    a is Finish && n.rate_limited
                },
                AnswerView::Refused(CatalogueError::Network(_)) => if h.attempt < 3 {
                    a == ActionView::WaitAndSearch(h.delay_ms, here) && n.attempt == h.attempt + 1
                        && n.at == h.at && n.delay_ms == 2 * h.delay_ms
                } else {
                    a is Finish
                },
                AnswerView::Refused(CatalogueError::Status(code)) => if code >= 500 && h.attempt
                    < 3 {
                    a == ActionView::WaitAndSearch(h.delay_ms, here) && n.attempt == h.attempt + 1
                        && n.at == h.at && n.delay_ms == 2 * h.delay_ms
                } else {
                    a is Finish
                },
                AnswerView::Refused(CatalogueError::Malformed(_)) => a is Finish,
                AnswerView::Refused(CatalogueError::NotFound) => if h.at + 1 < h.sources.len() {
                    a == ActionView::Search(h.sources[(h.at + 1) as int]) && n.attempt == 1 && n.delay_ms
                        == h.backoff_ms
                } else {
                    a is FinishAndRemember
                },
                AnswerView::Found(found) => found.len() == 0 ==> if h.at + 1 < h.sources.len() {
                    a == ActionView::Search(h.sources[(h.at + 1) as int]) && n.attempt == 1 && n.delay_ms
                        == h.backoff_ms
                } else {
                    a is FinishAndRemember
                },
            }
        }),
        h.searched(waited, answer).0.rate_limited <==> h.rate_limited || waited || answer matches AnswerView::Refused(
            CatalogueError::RateLimited(_),
        ),
        h.searched(waited, answer).1 is FinishAndRemember ==> h.at + 1 == h.sources.len(),
{
}

/// What is fetched is the best candidate's picture, the first of its addresses
/// at first, and the next where there is none; and what is judged is what was
/// fetched, with that candidate's scores and source.
pub proof fn sizes_are_walked_down(
    h: HuntView,
    waited: bool,
    found: Seq<CandidateView>,
    i: int,
    s: Scores,
    got: Result<Vec<u8>, CatalogueError>,
)
    requires
        h.valid(),
        h.asking(),
        best_of(h.artist, h.album, found) == Some((s, found[i])),
        1000 * s.artist >= 901 * ONE,
        1000 * s.album >= 851 * ONE,
        found[i].art_urls.len() > 0,
    ensures
        ({
            let (n, a) = h.searched(waited, AnswerView::Found(found));
            let (m, b) = n.fetched(got);
            &&& a == ActionView::Fetch(found[i].art_urls[0])
            &&& got matches Ok(bytes) ==> b == (ActionView::Judge {
                scores: s,
                source: found[i].source,
                bytes: bytes@,
            })
            &&& got == Err::<Vec<u8>, CatalogueError>(CatalogueError::NotFound)
                && found[i].art_urls.len() > 1 ==> b == ActionView::Fetch(found[i].art_urls[1])
            &&& got is Err && got != Err::<Vec<u8>, CatalogueError>(CatalogueError::NotFound) ==> b is Finish
        }),
{
    crate::enrich::text::both_names_have_to_match(s);
}

/// What does not pass the text gate is not fetched, whatever it looks like: the
/// next source is asked instead.
pub proof fn other_records_are_passed_over(
    h: HuntView,
    waited: bool,
    found: Seq<CandidateView>,
    c: CandidateView,
    s: Scores,
)
    requires
        h.valid(),
        h.asking(),
        best_of(h.artist, h.album, found) == Some((s, c)),
        1000 * s.artist < 899 * ONE || 1000 * s.album < 849 * ONE,
    ensures
        ({
            let (n, a) = h.searched(waited, AnswerView::Found(found));
            if h.at + 1 < h.sources.len() {
                a == ActionView::Search(h.sources[(h.at + 1) as int])
            } else {
                a matches ActionView::FinishAndRemember(v) && v is TextRejected
            }
        }),
{
    reveal_strlit(" — ");
}

/// The cache is trusted for a picture that is sharper than what is up, by its
/// smaller side, and for having found nothing before. Nothing in it downgrades
/// what is shown.
pub proof fn the_cache_never_downgrades(
    entry: Option<(Entry, Vec<u8>)>,
    negative: bool,
    current: u32,
)
    ensures
        match entry {
            None => cache_verdict(entry, negative, current) == if negative {
                Some(VerdictView::NegativeCacheHit)
            } else {
                None
            },
            Some((e, bytes)) => cache_verdict(entry, negative, current) matches Some(v) && {
                let sharper = e.width matches Some(w) && e.height matches Some(h) && w > current && h
                    > current;
                v == VerdictView::Cached(
                    if sharper {
                        Some(
                            UpgradeView {
                                bytes: bytes@,
                                dimensions: (e.width->0, e.height->0),
                                source: ArtworkSource::Cache,
                            },
                        )
                    } else {
                        None
                    },
                )
            },
        },
{
}

/// The gates on a fetched picture. One that is not half as large again on its
/// smaller side is refused for its size. Of the others the text alone decides if
/// it was asked to, or if it is near exact and nobody asked to be strict. What
/// is left is compared with what is shown, if that can be seen.
pub proof fn swaps_pass_the_gates(
    strictness: Strictness,
    s: Scores,
    current: u32,
    candidate: Fingerprint,
    displayed: Option<Fingerprint>,
    r: Ruling,
)
    requires
        rules(strictness, s, current, candidate, displayed, r),
    ensures
        ({
            let shown: int = if current > 0 {
                current as int
            } else {
                match displayed {
                    Some(d) => if d.width < d.height {
                        d.width as int
                    } else {
                        d.height as int
                    },
                    None => 0,
                }
            };
            let sharp = 2 * candidate.width >= 3 * shown && 2 * candidate.height >= 3 * shown;
            let trusted = strictness == Strictness::TextOnly || s.unambiguous() && strictness
                != Strictness::Strict;
            &&& r is Accepted <==> sharp && trusted
            &&& r is Compare <==> sharp && !trusted && displayed is Some
            &&& r matches Ruling::Compare { current: c, candidate: n } ==> displayed == Some(c) && n
                == candidate
            &&& !sharp ==> (r matches Ruling::Settled(v) && v@ is SizeRejected)
            &&& sharp && !trusted && displayed is None ==> (r matches Ruling::Settled(v)
                && v@ is Undecodable)
        }),
{
}

/// Two pictures are taken for the same if and only if at most twelve of the
/// sixty-four comparisons of neighbouring parts come out differently, and their
/// colours are alike by 0.85 at least, as a single-precision number.
pub proof fn likeness_is_layout_and_colour(v: Visual)
    ensures
        v.pass() <==> v.hamming <= 12 && 0x3f59_999a <= v.similarity.bits <= 0x7f80_0000,
{
}

} // verus!
