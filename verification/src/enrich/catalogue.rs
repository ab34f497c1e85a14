//! Asking iTunes Search, MusicBrainz and the Cover Art Archive: what is asked,
//! what an answer means, and which images to try.

use vstd::prelude::*;
use vstd::utf8::encode_utf8;

use crate::proto::{ArtworkSource, SERVER_VERSION};
use crate::strings::{
    all_digits, concat, decimal, decimal_round_trip, decimal_value, find_char, from_chars,
    is_digit, parse_digits,
    slice_chars, texts, to_chars, to_decimal, trim, trim_chars, trimmed,
};

verus! {

broadcast use vstd::seq::group_seq_axioms;

/// Where the catalogues live.
#[derive(Debug)]
pub struct Endpoints {
    pub itunes_search: String,
    pub musicbrainz: String,
    pub cover_art_archive: String,
}

impl Default for Endpoints {
    fn default() -> (r: Endpoints)
        ensures
            r.itunes_search@ == "https://itunes.apple.com/search"@,
            r.musicbrainz@ == "https://musicbrainz.org/ws/2"@,
            r.cover_art_archive@ == "https://coverartarchive.org"@,
    {
        Endpoints {
            itunes_search: "https://itunes.apple.com/search".to_owned(),
            musicbrainz: "https://musicbrainz.org/ws/2".to_owned(),
            cover_art_archive: "https://coverartarchive.org".to_owned(),
        }
    }
}

/// One album a catalogue offered, before any gate has looked at it.
#[derive(Debug, PartialEq, Eq)]
pub struct Candidate {
    pub artist: String,
    pub album: String,
    /// Image URLs to try in order, largest first.
    pub art_urls: Vec<String>,
    pub source: ArtworkSource,
}

/// A [`Candidate`] as values.
pub struct CandidateView {
    pub artist: Seq<char>,
    pub album: Seq<char>,
    pub art_urls: Seq<Seq<char>>,
    pub source: ArtworkSource,
}

impl View for Candidate {
    type V = CandidateView;

    open spec fn view(&self) -> CandidateView {
        CandidateView {
            artist: self.artist@,
            album: self.album@,
            art_urls: texts(self.art_urls@),
            source: self.source,
        }
    }
}

/// The values behind a list of candidates.
pub open spec fn candidates_view(s: Seq<Candidate>) -> Seq<CandidateView> {
    s.map_values(|c: Candidate| c@)
}

/// Why a catalogue did not answer.
#[derive(Debug)]
pub enum CatalogueError {
    /// Unreachable, refused, timed out, TLS failed. The normal state of a
    /// device on flaky Wi-Fi.
    Network(String),
    /// Refused for asking too much, with the seconds to wait.
    RateLimited(u64),
    NotFound,
    Status(u16),
    Malformed(String),
}

impl CatalogueError {
    /// Whether retrying the identical request could plausibly work.
    pub open spec fn transient(self) -> bool {
        match self {
            CatalogueError::Network(_) | CatalogueError::RateLimited(_) => true,
            // 5xx is the server's problem and may pass; 4xx is ours and will
            // not.
            CatalogueError::Status(code) => code >= 500,
            CatalogueError::NotFound | CatalogueError::Malformed(_) => false,
        }
    }

    /// Whether retrying the identical request could plausibly work.
    pub fn is_transient(&self) -> (r: bool)
        ensures
            r == self.transient(),
    {
        match self {
            CatalogueError::Network(_) => true,
            CatalogueError::RateLimited(_) => true,
            CatalogueError::Status(code) => *code >= 500,
            CatalogueError::NotFound => false,
            CatalogueError::Malformed(_) => false,
        }
    }

    /// How the error reads.
    pub open spec fn text(self) -> Seq<char> {
        match self {
            CatalogueError::Network(e) => "network: "@ + e@,
            CatalogueError::RateLimited(secs) => "rate limited; retry after "@ + decimal(
                secs as nat,
            ) + "s"@,
            CatalogueError::NotFound => "nothing found"@,
            CatalogueError::Status(code) => "HTTP "@ + decimal(code as nat),
            CatalogueError::Malformed(e) => "unreadable response: "@ + e@,
        }
    }

    /// How the error reads.
    pub fn to_string(&self) -> (r: String)
        ensures
            r@ == self.text(),
    {
        match self {
            CatalogueError::Network(e) => concat("network: ", e.as_str()),
            CatalogueError::RateLimited(secs) => {
                let mut m = concat("rate limited; retry after ", to_decimal(*secs).as_str());
                m.append("s");
                m
            },
            CatalogueError::NotFound => "nothing found".to_owned(),
            CatalogueError::Status(code) => concat("HTTP ", to_decimal(*code as u64).as_str()),
            CatalogueError::Malformed(e) => concat("unreadable response: ", e.as_str()),
        }
    }
}

// --- requests -------------------------------------------------------------

/// A character that stands for itself in a query.
pub open spec fn unreserved(c: char) -> bool {
    ||| 'A' <= c <= 'Z'
    ||| 'a' <= c <= 'z'
    ||| '0' <= c <= '9'
    ||| c == '-'
    ||| c == '_'
    ||| c == '.'
    ||| c == '~'
}

/// An upper-case hexadecimal digit.
pub open spec fn upper_nibble(d: int) -> char {
    if d < 10 {
        ((48 + d) as u8) as char
    } else {
        ((55 + d) as u8) as char
    }
}

/// One byte of a query parameter: itself, a plus for a space, or an escape.
pub open spec fn escaped(b: u8) -> Seq<char> {
    if unreserved(b as char) {
        seq![b as char]
    } else if b as char == ' ' {
        seq!['+']
    } else {
        seq!['%', upper_nibble(b as int / 16), upper_nibble(b as int % 16)]
    }
}

/// Bytes of a query parameter.
pub open spec fn escaped_bytes(b: Seq<u8>) -> Seq<char>
    decreases b.len(),
{
    if b.len() == 0 {
        Seq::empty()
    } else {
        escaped_bytes(b.drop_last()) + escaped(b.last())
    }
}

/// A query parameter.
pub open spec fn url_encoded(s: Seq<char>) -> Seq<char> {
    escaped_bytes(encode_utf8(s))
}

fn upper_nibble_char(d: u8) -> (c: char)
    requires
        d < 16,
    ensures
        c == upper_nibble(d as int),
{
    if d < 10 {
        (48 + d) as char
    } else {
        (55 + d) as char
    }
}

/// Percent-encode a query parameter value: keep unreserved characters, escape
/// the rest.
pub fn urlencode(s: &str) -> (r: String)
    ensures
        r@ == url_encoded(s@),
{
    let b = s.as_bytes();
    let mut out = String::new();
    let mut i: usize = 0;
    assert(b@.take(0) == Seq::<u8>::empty());
    while i < b.len()
        invariant
            i <= b.len(),
            out@ == escaped_bytes(b@.take(i as int)),
        decreases b.len() - i,
    {
        let x: u8 = b[i];
        let ghost before = out@;
        assert(b@.take(i + 1).drop_last() == b@.take(i as int));
        let c: char = x as char;
        if ('A' <= c && c <= 'Z') || ('a' <= c && c <= 'z') || ('0' <= c && c <= '9') || c == '-'
            || c == '_' || c == '.' || c == '~' {
            out.push(c);
        } else if c == ' ' {
            out.push('+');
        } else {
            out.push('%');
            out.push(upper_nibble_char(x / 16));
            out.push(upper_nibble_char(x % 16));
        }
        assert(out@ == before + escaped(x));
        i = i + 1;
    }
    assert(b@.take(b.len() as int) == b@);
    out
}

/// What iTunes is asked: ten albums for the artist and the album together.
pub fn itunes_url(endpoints: &Endpoints, country: &str, artist: &str, album: &str) -> (r: String)
    ensures
        r@ == endpoints.itunes_search@ + "?term="@ + url_encoded(artist@ + " "@ + album@)
            + "&entity=album&limit=10&country="@ + url_encoded(country@),
{
    let mut term = concat(artist, " ");
    term.append(album);
    let mut out: String = endpoints.itunes_search.clone();
    out.append("?term=");
    out.append(urlencode(term.as_str()).as_str());
    out.append("&entity=album&limit=10&country=");
    out.append(urlencode(country).as_str());
    out
}

/// What MusicBrainz is asked: five release groups by the artist's and the
/// album's name.
pub fn musicbrainz_url(endpoints: &Endpoints, artist: &str, album: &str) -> (r: String)
    ensures
        r@ == endpoints.musicbrainz@ + "/release-group/?query="@ + url_encoded(
            "artist:\""@ + artist@ + "\" AND releasegroup:\""@ + album@ + "\""@,
        ) + "&fmt=json&limit=5"@,
{
    let mut query = concat("artist:\"", artist);
    query.append("\" AND releasegroup:\"");
    query.append(album);
    query.append("\"");
    let mut out: String = endpoints.musicbrainz.clone();
    out.append("/release-group/?query=");
    out.append(urlencode(query.as_str()).as_str());
    out.append("&fmt=json&limit=5");
    out
}

/// How we present ourselves. MusicBrainz requires a contactable client and
/// blocks those without one.
pub fn user_agent(contact: &str) -> (r: String)
    ensures
        r@ == (if trimmed(contact@).len() == 0 {
            "lpframe/"@ + SERVER_VERSION@
        } else {
            "lpframe/"@ + SERVER_VERSION@ + " ( "@ + trimmed(contact@) + " )"@
        }),
{
    let who = trim(contact);
    let mut out = concat("lpframe/", SERVER_VERSION);
    if !who.as_str().is_empty() {
        out.append(" ( ");
        out.append(who.as_str());
        out.append(" )");
    }
    out
}

// --- answers --------------------------------------------------------------

/// The seconds to wait after a refusal: what the server said, or a minute,
/// and an hour at most.
pub open spec fn wait_seconds(header: Option<Seq<char>>) -> nat {
    let asked = match header {
        Some(h) => {
            let t = trimmed(h);
            let d = if t.len() > 0 && t[0] == '+' {
                t.skip(1)
            } else {
                t
            };
            if d.len() > 0 && all_digits(d) && decimal_value(d) <= u64::MAX {
                decimal_value(d)
            } else {
                60
            }
        },
        None => 60,
    };
    if asked < 3600 {
        asked
    } else {
        3600
    }
}

/// The seconds to wait after a refusal.
///
/// A date-formatted header is legal and rare; treating it as absent costs one
/// conservative minute rather than a parser.
pub fn retry_after(header: Option<&str>) -> (r: u64)
    ensures
        r == wait_seconds(
            match header {
                Some(h) => Some(h@),
                None => None,
            },
        ),
        r <= 3600,
{
    let asked: u64 = match header {
        Some(h) => {
            let all = to_chars(h);
            let t = trim_chars(&all);
            let d = if t.len() > 0 && t[0] == '+' {
                let rest = slice_chars(&t, 1, t.len());
                assert(rest@ == t@.skip(1));
                rest
            } else {
                t
            };
            match parse_digits(&d) {
                Some(n) => n,
                None => 60,
            }
        },
        None => 60,
    };
    if asked < 3600 {
        asked
    } else {
        3600
    }
}

/// What a response's status means.
pub fn check_status(status: u16, header: Option<&str>) -> (r: Result<(), CatalogueError>)
    ensures
        match r {
            Ok(()) => 200 <= status < 300,
            Err(CatalogueError::RateLimited(secs)) => status == 429 && secs == wait_seconds(
                match header {
                    Some(h) => Some(h@),
                    None => None,
                },
            ),
            Err(CatalogueError::NotFound) => status == 404,
            Err(CatalogueError::Status(code)) => code == status && status != 429 && status != 404
                && !(200 <= status < 300),
            Err(_) => false,
        },
{
    if status == 429 {
        return Err(CatalogueError::RateLimited(retry_after(header)));
    }
    if status == 404 {
        return Err(CatalogueError::NotFound);
    }
    if status < 200 || status >= 300 {
        return Err(CatalogueError::Status(status));
    }
    Ok(())
}

// --- images ---------------------------------------------------------------

/// Whether two texts are both numbers.
pub open spec fn both_numeric(w: Seq<char>, h: Seq<char>) -> bool {
    w.len() > 0 && h.len() > 0 && all_digits(w) && all_digits(h)
}

fn all_numeric(s: &[char]) -> (r: bool)
    ensures
        r == all_digits(s@),
{
    let mut i: usize = 0;
    while i < s.len()
        invariant
            i <= s.len(),
            forall|j: int| 0 <= j < i ==> is_digit(s@[j]),
        decreases s.len() - i,
    {
        if !('0' <= s[i] && s[i] <= '9') {
            assert(!is_digit(s@[i as int]));
            return false;
        }
        i = i + 1;
    }
    true
}

/// Whether two texts are both numbers.
pub fn numeric(w: &str, h: &str) -> (r: bool)
    ensures
        r == both_numeric(w@, h@),
{
    let a = to_chars(w);
    let b = to_chars(h);
    a.len() > 0 && b.len() > 0 && all_numeric(&a) && all_numeric(&b)
}

/// Whether a text is two numbers with an `x` between them, and `bb` behind:
/// the shape in which Apple names a size.
pub open spec fn is_size(s: Seq<char>) -> bool {
    exists|x: int| is_size_at(s, x)
}

/// The same, with the place of the first `x`.
pub open spec fn is_size_at(s: Seq<char>, x: int) -> bool {
    &&& 0 <= x < s.len() - 2
    &&& s[x] == 'x'
    &&& forall|k: int| 0 <= k < x ==> s[k] != 'x'
    &&& s[s.len() - 2] == 'b'
    &&& s[s.len() - 1] == 'b'
    &&& both_numeric(s.subrange(0, x), s.subrange(x + 1, s.len() - 2))
}

/// Whether a URL ends in a size that can be replaced, with the last slash and
/// the last dot behind it.
pub open spec fn has_size(url: Seq<char>, slash: int, dot: int) -> bool {
    &&& 0 <= slash < dot < url.len()
    &&& url[slash] == '/'
    &&& forall|k: int| slash < k < url.len() ==> url[k] != '/'
    &&& url[dot] == '.'
    &&& forall|k: int| dot < k < url.len() ==> url[k] != '.'
    &&& is_size(url.subrange(slash + 1, dot))
}

/// The largest size that is asked for.
pub open spec fn largest(max_dimension: u32) -> u32 {
    if max_dimension < 1 {
        1
    } else if max_dimension > 3000 {
        3000
    } else {
        max_dimension
    }
}

/// The sizes to try: the largest, and then those of Apple's ladder that are
/// not above it.
pub open spec fn size_ladder(max_dimension: u32) -> Seq<u32> {
    let m = largest(max_dimension);
    if m > 1500 {
        seq![m, 1500, 1000, 600]
    } else if m == 1500 {
        seq![1500, 1000, 600]
    } else if m >= 1000 {
        seq![m, 1000, 600]
    } else if m >= 600 {
        seq![m, 600]
    } else {
        seq![m]
    }
}

/// A URL with another size in it.
pub open spec fn with_size(url: Seq<char>, slash: int, dot: int, size: u32) -> Seq<char> {
    url.take(slash + 1) + decimal(size as nat) + "x"@ + decimal(size as nat) + "bb"@ + url.skip(dot)
}

/// The URLs to try for an image, given that of its thumbnail.
pub open spec fn image_urls(url: Seq<char>, max_dimension: u32) -> Seq<Seq<char>> {
    if exists|slash: int, dot: int| has_size(url, slash, dot) {
        let (slash, dot) = choose|slash: int, dot: int| has_size(url, slash, dot);
        size_ladder(max_dimension).map_values(|size: u32| with_size(url, slash, dot, size))
    } else {
        seq![url]
    }
}

/// Rewrite Apple's 100×100 thumbnail URL into the size ladder to try.
///
/// The URL ends in a `<w>x<h>bb.<ext>` segment which is simply substituted;
/// there is no separate API for the full-size image. Only a segment that
/// really is a size is rewritten: Apple has changed this shape before, and
/// mangling an unrecognised one guarantees a miss.
pub fn apple_art_urls(url100: &str, max_dimension: u32) -> (r: Vec<String>)
    ensures
        texts(r@) == image_urls(url100@, max_dimension),
{
    let c = to_chars(url100);
    match size_segment(&c) {
        None => {
            let mut out: Vec<String> = Vec::new();
            out.push(url100.to_owned());
            assert(texts(out@) == seq![url100@]);
            out
        },
        Some((slash, dot)) => {
            let ghost ladder = size_ladder(max_dimension);
            let m: u32 = if max_dimension < 1 {
                1
            } else if max_dimension > 3000 {
                3000
            } else {
                max_dimension
            };
            let mut out: Vec<String> = Vec::new();
            out.push(sized_url(&c, slash, dot, m));
            if m > 1500 {
                out.push(sized_url(&c, slash, dot, 1500));
            }
            if m >= 1000 {
                out.push(sized_url(&c, slash, dot, 1000));
            }
            if m >= 600 {
                out.push(sized_url(&c, slash, dot, 600));
            }
            proof {
                let want = ladder.map_values(
                    |size: u32| with_size(url100@, slash as int, dot as int, size),
                );
                assert(texts(out@) =~= want);
                let (s2, d2) = choose|s2: int, d2: int| has_size(url100@, s2, d2);
                assert(has_size(url100@, slash as int, dot as int));
                size_place_is_unique(url100@, s2, d2, slash as int, dot as int);
            }
            out
        },
    }
}

proof fn size_place_is_unique(url: Seq<char>, s1: int, d1: int, s2: int, d2: int)
    requires
        has_size(url, s1, d1),
        has_size(url, s2, d2),
    ensures
        s1 == s2,
        d1 == d2,
{
    if s1 < s2 {
        assert(url[s2] != '/');
    } else if s2 < s1 {
        assert(url[s1] != '/');
    }
    if d1 < d2 {
        assert(url[d2] != '.');
    } else if d2 < d1 {
        assert(url[d1] != '.');
    }
}

fn sized_url(c: &Vec<char>, slash: usize, dot: usize, size: u32) -> (r: String)
    requires
        slash < dot < c.len(),
    ensures
        r@ == with_size(c@, slash as int, dot as int, size),
{
    let head = slice_chars(c, 0, slash + 1);
    assert(head@ == c@.take(slash + 1));
    let tail = slice_chars(c, dot, c.len());
    assert(tail@ == c@.skip(dot as int));
    let n = to_decimal(size as u64);
    let mut out = from_chars(&head);
    out.append(n.as_str());
    out.append("x");
    out.append(n.as_str());
    out.append("bb");
    out.append(from_chars(&tail).as_str());
    out
}

/// The last place where a character stands, at or after `from`.
fn last_char(c: &Vec<char>, x: char, from: usize) -> (r: Option<usize>)
    requires
        from <= c.len(),
    ensures
        match r {
            Some(at) => from <= at < c.len() && c@[at as int] == x && forall|k: int|
                at < k < c.len() ==> c@[k] != x,
            None => forall|k: int| from <= k < c.len() ==> c@[k] != x,
        },
{
    let mut n: usize = c.len();
    while n > from
        invariant
            from <= n <= c.len(),
            forall|k: int| n <= k < c.len() ==> c@[k] != x,
        decreases n,
    {
        n = n - 1;
        if c[n] == x {
            return Some(n);
        }
    }
    None
}

/// Where a URL names a size, if it does.
fn size_segment(c: &Vec<char>) -> (r: Option<(usize, usize)>)
    ensures
        match r {
            Some(p) => has_size(c@, p.0 as int, p.1 as int),
            None => forall|slash: int, dot: int| !#[trigger] has_size(c@, slash, dot),
        },
{
    let slash: usize = match last_char(c, '/', 0) {
        Some(s) => s,
        None => {
            return None;
        },
    };
    assert forall|s2: int, d2: int| #[trigger] has_size(c@, s2, d2) implies s2 == slash by {
        if s2 < slash {
            assert(c@[slash as int] != '/');
        } else if slash < s2 {
            assert(c@[s2] != '/');
        }
    }
    let dot: usize = match last_char(c, '.', slash + 1) {
        Some(d) => d,
        None => {
            return None;
        },
    };
    assert forall|s2: int, d2: int| #[trigger] has_size(c@, s2, d2) implies d2 == dot by {
        if d2 < dot {
            assert(c@[dot as int] != '.');
        } else if dot < d2 {
            assert(c@[d2] != '.');
        }
    }
    let seg = slice_chars(c, slash + 1, dot);
    let n: usize = seg.len();
    if n < 3 || seg[n - 2] != 'b' || seg[n - 1] != 'b' {
        return None;
    }
    let body = slice_chars(&seg, 0, n - 2);
    match find_char(&body, 'x', 0) {
        None => {
            assert forall|x: int| !#[trigger] is_size_at(seg@, x) by {
                if is_size_at(seg@, x) {
                    assert(body@[x] == 'x');
                }
            }
            None
        },
        Some(x) => {
            let w = from_chars(&slice_chars(&seg, 0, x));
            let h = from_chars(&slice_chars(&seg, x + 1, n - 2));
            assert forall|k: int| 0 <= k < x implies seg@[k] != 'x' by {
                assert(body@[k] == seg@[k]);
            }
            assert(seg@[x as int] == body@[x as int]);
            if numeric(w.as_str(), h.as_str()) {
                assert(is_size_at(seg@, x as int));
                Some((slash, dot))
            } else {
                assert forall|y: int| !#[trigger] is_size_at(seg@, y) by {
                    if is_size_at(seg@, y) {
                        if y < x {
                            assert(seg@[y] != 'x');
                        } else if x < y {
                            assert(seg@[x as int] != 'x');
                        }
                    }
                }
                None
            }
        },
    }
}

// --- candidates -----------------------------------------------------------

/// One album of an iTunes answer.
#[derive(Debug)]
pub struct ITunesResult {
    pub artist_name: String,
    pub collection_name: String,
    pub artwork_url100: Option<String>,
}

/// What iTunes offers: the albums that have a picture.
pub open spec fn itunes_offers(rows: Seq<ITunesResult>, max_dimension: u32) -> Seq<CandidateView>
    decreases rows.len(),
{
    if rows.len() == 0 {
        Seq::empty()
    } else {
        let before = itunes_offers(rows.drop_last(), max_dimension);
        let r = rows.last();
        match r.artwork_url100 {
            Some(url) => before.push(
                CandidateView {
                    artist: r.artist_name@,
                    album: r.collection_name@,
                    art_urls: image_urls(url@, max_dimension),
                    source: ArtworkSource::Itunes,
                },
            ),
            None => before,
        }
    }
}

/// What iTunes offers, or that it offers nothing.
pub fn itunes_candidates(rows: &Vec<ITunesResult>, max_dimension: u32) -> (r: Result<
    Vec<Candidate>,
    CatalogueError,
>)
    ensures
        match r {
            Ok(found) => found@.len() > 0 && candidates_view(found@) == itunes_offers(
                rows@,
                max_dimension,
            ),
            Err(e) => e is NotFound && itunes_offers(rows@, max_dimension).len() == 0,
        },
{
    let mut out: Vec<Candidate> = Vec::new();
    let mut i: usize = 0;
    assert(candidates_view(out@) == itunes_offers(rows@.take(0), max_dimension));
    while i < rows.len()
        invariant
            i <= rows.len(),
            candidates_view(out@) == itunes_offers(rows@.take(i as int), max_dimension),
        decreases rows.len() - i,
    {
        assert(rows@.take(i + 1).drop_last() == rows@.take(i as int));
        let row = &rows[i];
        if let Some(url) = &row.artwork_url100 {
            let ghost before = out@;
            let c = Candidate {
                artist: row.artist_name.clone(),
                album: row.collection_name.clone(),
                art_urls: apple_art_urls(url.as_str(), max_dimension),
                source: ArtworkSource::Itunes,
            };
            out.push(c);
            assert(candidates_view(out@) == candidates_view(before).push(c@));
        }
        i = i + 1;
    }
    assert(rows@.take(rows.len() as int) == rows@);
    if out.len() == 0 {
        return Err(CatalogueError::NotFound);
    }
    Ok(out)
}

/// One release group of a MusicBrainz answer.
#[derive(Debug)]
pub struct ReleaseGroup {
    pub id: String,
    pub title: String,
    /// The first artist that is credited, if any.
    pub artist: Option<String>,
}

/// What a release group offers: the front cover in the archive's largest
/// thumbnail. The unsized one is the submitter's original and is occasionally
/// enormous.
pub open spec fn group_offer(g: ReleaseGroup, archive: Seq<char>) -> CandidateView {
    CandidateView {
        artist: match g.artist {
            Some(a) => a@,
            None => Seq::empty(),
        },
        album: g.title@,
        art_urls: seq![archive + "/release-group/"@ + g.id@ + "/front-1200"@],
        source: ArtworkSource::CoverArtArchive,
    }
}

/// What MusicBrainz offers, or that it offers nothing.
pub fn musicbrainz_candidates(groups: &Vec<ReleaseGroup>, archive: &str) -> (r: Result<
    Vec<Candidate>,
    CatalogueError,
>)
    ensures
        match r {
            Ok(found) => groups@.len() > 0 && candidates_view(found@) == groups@.map_values(
                |g: ReleaseGroup| group_offer(g, archive@),
            ),
            Err(e) => e is NotFound && groups@.len() == 0,
        },
{
    if groups.len() == 0 {
        return Err(CatalogueError::NotFound);
    }
    let mut out: Vec<Candidate> = Vec::new();
    let mut i: usize = 0;
    while i < groups.len()
        invariant
            i <= groups.len(),
            out@.len() == i,
            forall|k: int| 0 <= k < i ==> (#[trigger] out@[k])@ == group_offer(groups@[k], archive@),
        decreases groups.len() - i,
    {
        let g = &groups[i];
        let mut url: String = archive.to_owned();
        url.append("/release-group/");
        url.append(g.id.as_str());
        url.append("/front-1200");
        let mut urls: Vec<String> = Vec::new();
        urls.push(url);
        assert(texts(urls@) == seq![archive@ + "/release-group/"@ + g.id@ + "/front-1200"@]);
        let artist: String = match &g.artist {
            Some(a) => a.clone(),
            None => String::new(),
        };
        out.push(
            Candidate {
                artist,
                album: g.title.clone(),
                art_urls: urls,
                source: ArtworkSource::CoverArtArchive,
            },
        );
        i = i + 1;
    }
    assert(candidates_view(out@) =~= groups@.map_values(
        |g: ReleaseGroup| group_offer(g, archive@),
    ));
    Ok(out)
}

// --- laws -----------------------------------------------------------------

/// An upper-case hexadecimal digit.
pub open spec fn is_upper_hex(c: char) -> bool {
    '0' <= c <= '9' || 'A' <= c <= 'F'
}

/// What such a digit counts.
pub open spec fn upper_value(c: char) -> int {
    if c <= '9' {
        c as int - 48
    } else {
        c as int - 55
    }
}

/// The bytes that a query parameter stands for: a plus for a space, an escape
/// for the byte that its two digits give, and any other character for itself.
pub open spec fn url_decoded(s: Seq<char>) -> Seq<u8>
    decreases s.len(),
{
    if s.len() == 0 {
        Seq::empty()
    } else if s[0] == '+' {
        seq![32u8] + url_decoded(s.skip(1))
    } else if s[0] == '%' && s.len() >= 3 {
        seq![(16 * upper_value(s[1]) + upper_value(s[2])) as u8] + url_decoded(s.skip(3))
    } else {
        seq![s[0] as u8] + url_decoded(s.skip(1))
    }
}

/// Whether a text can stand in a query: of letters, digits and a few signs,
/// pluses, and escapes of two digits each.
pub open spec fn is_query_text(s: Seq<char>) -> bool {
    &&& forall|i: int|
        0 <= i < s.len() ==> unreserved(#[trigger] s[i]) || s[i] == '+' || s[i] == '%'
    &&& forall|i: int|
        0 <= i < s.len() && #[trigger] s[i] == '%' ==> i + 2 < s.len() && is_upper_hex(s[i + 1])
            && is_upper_hex(s[i + 2])
}

proof fn digits_count(d: int)
    requires
        0 <= d < 16,
    ensures
        is_upper_hex(upper_nibble(d)),
        unreserved(upper_nibble(d)),
        upper_nibble(d) != '%',
        upper_value(upper_nibble(d)) == d,
{
}

proof fn escaped_front(b: Seq<u8>)
    requires
        b.len() > 0,
    ensures
        escaped_bytes(b) == escaped(b[0]) + escaped_bytes(b.drop_first()),
    decreases b.len(),
{
    let f = b.drop_first();
    if b.len() == 1 {
        assert(b.drop_last() == Seq::<u8>::empty());
        assert(f == Seq::<u8>::empty());
        assert(escaped_bytes(b) == escaped(b[0]) + escaped_bytes(f));
    } else {
        escaped_front(b.drop_last());
        assert(b.drop_last().drop_first() == f.drop_last());
        assert(f.last() == b.last());
        assert(escaped(b[0]) + escaped_bytes(f.drop_last()) + escaped(f.last()) == escaped(b[0]) + (
        escaped_bytes(f.drop_last()) + escaped(f.last())));
    }
}

proof fn escapes_read_back(b: Seq<u8>)
    ensures
        url_decoded(escaped_bytes(b)) == b,
        is_query_text(escaped_bytes(b)),
    decreases b.len(),
{
    if b.len() > 0 {
        let x = b[0];
        let rest = escaped_bytes(b.drop_first());
        let s = escaped_bytes(b);
        let e = escaped(x);
        escaped_front(b);
        escapes_read_back(b.drop_first());
        digits_count(x as int / 16);
        digits_count(x as int % 16);
        assert(s.skip(e.len() as int) == rest);
        assert(b == seq![x] + b.drop_first());
        assert forall|i: int| 0 <= i < s.len() implies unreserved(#[trigger] s[i]) || s[i] == '+'
            || s[i] == '%' by {
            if i >= e.len() {
                assert(s[i] == rest[i - e.len()]);
            } else {
                assert(s[i] == e[i]);
            }
        }
        assert forall|i: int| 0 <= i < s.len() && #[trigger] s[i] == '%' implies i + 2 < s.len()
            && is_upper_hex(s[i + 1]) && is_upper_hex(s[i + 2]) by {
            if i >= e.len() {
                let k = i - e.len();
                assert(s[i] == rest[k]);
                assert(s[i + 1] == rest[k + 1] && s[i + 2] == rest[k + 2]);
            } else {
                assert(s[i] == e[i]);
                assert(i == 0 && e.len() == 3);
                assert(s[1] == e[1] && s[2] == e[2]);
            }
        }
    } else {
        assert(url_decoded(escaped_bytes(b)) == b);
    }
}

/// A query parameter gives back the very bytes of its text, and holds nothing
/// that means something else in a query: no `&`, `=`, `/`, `#` or space.
pub proof fn parameters_read_back(s: Seq<char>)
    ensures
        url_decoded(url_encoded(s)) == encode_utf8(s),
        is_query_text(url_encoded(s)),
        forall|i: int|
            0 <= i < url_encoded(s).len() ==> !("&=/# "@.contains(#[trigger] url_encoded(s)[i])),
{
    escapes_read_back(encode_utf8(s));
    let r = url_encoded(s);
    assert forall|i: int| 0 <= i < r.len() implies !("&=/# "@.contains(#[trigger] r[i])) by {
        reveal_strlit("&=/# ");
        let t = "&=/# "@;
        assert(unreserved(r[i]) || r[i] == '+' || r[i] == '%');
        if t.contains(r[i]) {
            let k = choose|k: int| 0 <= k < t.len() && t[k] == r[i];
            assert(k == 0 || k == 1 || k == 2 || k == 3 || k == 4);
        }
    }
}

/// No size is asked for above the configured maximum or above 3000, and the
/// first is the largest.
pub proof fn ladders_go_down(max_dimension: u32)
    ensures
        size_ladder(max_dimension).len() > 0,
        size_ladder(max_dimension)[0] == largest(max_dimension),
        forall|i: int|
            0 <= i < size_ladder(max_dimension).len() ==> #[trigger] size_ladder(max_dimension)[i]
                <= largest(max_dimension) <= 3000,
        forall|i: int, j: int|
            0 <= i < j < size_ladder(max_dimension).len() ==> #[trigger] size_ladder(
                max_dimension,
            )[i] >= #[trigger] size_ladder(max_dimension)[j],
{
}

/// The sizes that are tried: the configured maximum first, but no more than 3000
/// and at least one, and of 1500, 1000 and 600 those that are not above it.
pub proof fn sizes_stay_within_the_limit(max_dimension: u32, size: u32)
    ensures
        ({
            let ladder = size_ladder(max_dimension);
            let top: u32 = if max_dimension > 3000 {
                3000
            } else if max_dimension == 0 {
                1
            } else {
                max_dimension
            };
            &&& ladder.len() > 0 && ladder[0] == top
            &&& ladder.contains(size) <==> size == top || size <= top && (size == 1500 || size
                == 1000 || size == 600)
            &&& forall|i: int, j: int|
                0 <= i < j < ladder.len() ==> #[trigger] ladder[i] >= #[trigger] ladder[j]
        }),
{
    let ladder = size_ladder(max_dimension);
    assert(ladder[0] == largest(max_dimension));
    if ladder.len() > 1 {
        assert(ladder[1] <= 1500);
    }
    if ladder.len() > 2 {
        assert(ladder[2] <= 1000);
    }
    if ladder.len() > 3 {
        assert(ladder[3] == 600);
    }
}

/// In Apple's URLs only the size is replaced: what stands before the last slash
/// and behind the last dot stays.
pub proof fn only_the_size_is_replaced(
    head: Seq<char>,
    w: nat,
    h: nat,
    ext: Seq<char>,
    max_dimension: u32,
    i: int,
)
    requires
        forall|k: int| 0 <= k < ext.len() ==> #[trigger] ext[k] != '/' && ext[k] != '.',
        0 <= i < size_ladder(max_dimension).len(),
    ensures
        ({
            let url = head + "/"@ + (decimal(w) + "x"@ + decimal(h) + "bb"@) + "."@ + ext;
            let size = size_ladder(max_dimension)[i] as nat;
            &&& image_urls(url, max_dimension).len() == size_ladder(max_dimension).len()
            &&& image_urls(url, max_dimension)[i] == head + "/"@ + (decimal(size) + "x"@ + decimal(
                size,
            ) + "bb"@) + "."@ + ext
        }),
{
    reveal_strlit("/");
    reveal_strlit(".");
    reveal_strlit("x");
    reveal_strlit("bb");
    let mid = decimal(w) + "x"@ + decimal(h) + "bb"@;
    let url = head + "/"@ + mid + "."@ + ext;
    let slash = head.len() as int;
    let dot = slash + 1 + mid.len();
    decimal_round_trip(w);
    decimal_round_trip(h);
    let x = decimal(w).len() as int;
    assert forall|k: int| 0 <= k < mid.len() implies #[trigger] mid[k] != '/' && mid[k] != '.' by {
        if k < x {
            assert(mid[k] == decimal(w)[k]);
            assert(is_digit(decimal(w)[k]));
        } else if x < k < x + 1 + decimal(h).len() {
            assert(mid[k] == decimal(h)[k - x - 1]);
            assert(is_digit(decimal(h)[k - x - 1]));
        }
    }
    assert forall|k: int| 0 <= k < x implies mid[k] != 'x' by {
        assert(mid[k] == decimal(w)[k]);
        assert(is_digit(decimal(w)[k]));
    }
    assert(mid.subrange(0, x) == decimal(w));
    assert(mid.subrange(x + 1, mid.len() - 2) == decimal(h));
    assert(is_size_at(mid, x));
    assert(url.subrange(slash + 1, dot) == mid);
    assert(url[slash] == '/');
    assert(url[dot] == '.');
    assert forall|k: int| slash < k < url.len() implies url[k] != '/' by {
        if k < dot {
            assert(url[k] == mid[k - slash - 1]);
        } else if k > dot {
            assert(url[k] == ext[k - dot - 1]);
        }
    }
    assert forall|k: int| dot < k < url.len() implies url[k] != '.' by {
        assert(url[k] == ext[k - dot - 1]);
    }
    assert(has_size(url, slash, dot));
    let (s, d) = choose|s: int, d: int| has_size(url, s, d);
    assert(has_size(url, s, d));
    assert(s == slash && d == dot) by {
        if s < slash {
            assert(url[slash] != '/');
        } else if s > slash {
            assert(url[s] != '/');
        }
        if d < dot {
            assert(url[dot] != '.');
        } else if d > dot {
            assert(url[d] != '.');
        }
    }
    let size = size_ladder(max_dimension)[i];
    let want = head + "/"@ + (decimal(size as nat) + "x"@ + decimal(size as nat) + "bb"@) + "."@
        + ext;
    assert(url.take(slash + 1) == head + "/"@);
    assert(url.skip(dot) == "."@ + ext);
    assert(with_size(url, slash, dot, size) == want);
}

/// A server that refuses is left alone for as many seconds as it says, for a
/// minute if it does not say, and never for more than an hour.
pub proof fn refusals_are_waited_out(n: nat)
    requires
        n <= u64::MAX,
    ensures
        wait_seconds(Some(decimal(n))) == if n < 3600 {
            n
        } else {
            3600
        },
        wait_seconds(None) == 60,
{
    decimal_round_trip(n);
    let d = decimal(n);
    assert(is_digit(d[0]));
    assert(is_digit(d[d.len() - 1]));
    assert(crate::strings::trimmed_start(d) == d);
    assert(crate::strings::trimmed_end(d) == d);
}

/// Every album of an answer that has a picture is offered, under its own names.
pub proof fn albums_with_pictures_are_offered(
    rows: Seq<ITunesResult>,
    max_dimension: u32,
    i: int,
)
    requires
        0 <= i < rows.len(),
        rows[i].artwork_url100 is Some,
    ensures
        itunes_offers(rows, max_dimension).contains(
            (CandidateView {
                artist: rows[i].artist_name@,
                album: rows[i].collection_name@,
                art_urls: image_urls(rows[i].artwork_url100->0@, max_dimension),
                source: ArtworkSource::Itunes,
            }),
        ),
    decreases rows.len(),
{
    let all = itunes_offers(rows, max_dimension);
    let before = itunes_offers(rows.drop_last(), max_dimension);
    if i == rows.len() - 1 {
        assert(all[all.len() - 1] == all.last());
    } else {
        albums_with_pictures_are_offered(rows.drop_last(), max_dimension, i);
        let c = CandidateView {
            artist: rows[i].artist_name@,
            album: rows[i].collection_name@,
            art_urls: image_urls(rows[i].artwork_url100->0@, max_dimension),
            source: ArtworkSource::Itunes,
        };
        let k = choose|k: int| 0 <= k < before.len() && before[k] == c;
        assert(all[k] == c);
    }
}

} // verus!
