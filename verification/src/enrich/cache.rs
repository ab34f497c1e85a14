//! The rules of the artwork cache: what its index says, what is still good,
//! and what a sweep removes.
//!
//! The index is kept apart from the files. A row whose file is missing or
//! corrupt is dropped, and a file that no row names is removed: a cache that
//! lies is worse than one that forgets.

use vstd::prelude::*;

use crate::digest::{digest_text, hex_digest};
use crate::proto::ArtworkSource;
use crate::strings::{list_contains, prefix, same, texts};

verus! {

broadcast use vstd::seq::group_seq_axioms;

/// What the index knows about a cached image.
#[derive(Debug, PartialEq, Eq)]
pub struct Entry {
    pub sha256: String,
    pub bytes: u64,
    pub width: Option<u32>,
    pub height: Option<u32>,
    pub source: ArtworkSource,
}

/// What a sweep removed, for the log and the diagnostics page.
#[derive(Debug, Clone, Copy, PartialEq, Eq, Structural)]
pub struct Swept {
    pub evicted: u64,
    pub expired_negatives: u64,
    pub orphan_files: u64,
}

impl Default for Swept {
    fn default() -> (r: Swept)
        ensures
            r == (Swept { evicted: 0, expired_negatives: 0, orphan_files: 0 }),
    {
        Swept { evicted: 0, expired_negatives: 0, orphan_files: 0 }
    }
}

impl Swept {
    /// Whether nothing was removed.
    pub fn is_empty(&self) -> (r: bool)
        ensures
            r == (self.evicted == 0 && self.expired_negatives == 0 && self.orphan_files == 0),
    {
        *self == Swept::default()
    }
}

/// How a source is written in the index.
pub open spec fn source_text(s: ArtworkSource) -> Seq<char> {
    match s {
        ArtworkSource::Airplay => "airplay"@,
        ArtworkSource::Itunes => "itunes"@,
        ArtworkSource::CoverArtArchive => "coverartarchive"@,
        ArtworkSource::Cache => "cache"@,
        ArtworkSource::Placeholder => "placeholder"@,
    }
}

/// How a source is written in the index.
pub fn source_to_str(s: ArtworkSource) -> (r: &'static str)
    ensures
        r@ == source_text(s),
{
    match s {
        ArtworkSource::Airplay => "airplay",
        ArtworkSource::Itunes => "itunes",
        ArtworkSource::CoverArtArchive => "coverartarchive",
        ArtworkSource::Cache => "cache",
        ArtworkSource::Placeholder => "placeholder",
    }
}

/// The source that the index names. What the image came from is recorded, so
/// an unrecognised value degrades to `cache` rather than to a guess.
pub open spec fn source_named(s: Seq<char>) -> ArtworkSource {
    if s == "itunes"@ {
        ArtworkSource::Itunes
    } else if s == "coverartarchive"@ {
        ArtworkSource::CoverArtArchive
    } else if s == "airplay"@ {
        ArtworkSource::Airplay
    } else {
        ArtworkSource::Cache
    }
}

/// The source that the index names.
pub fn source_from_str(s: &str) -> (r: ArtworkSource)
    ensures
        r == source_named(s@),
{
    if same(s, "itunes") {
        ArtworkSource::Itunes
    } else if same(s, "coverartarchive") {
        ArtworkSource::CoverArtArchive
    } else if same(s, "airplay") {
        ArtworkSource::Airplay
    } else {
        ArtworkSource::Cache
    }
}

/// Where an image is kept below the cache directory.
pub open spec fn place(sha256: Seq<char>) -> Seq<char> {
    sha256.take(2) + "/"@ + sha256 + ".jpg"@
}

/// Where an image is kept below the cache directory.
pub fn path_for(sha256: &str) -> (r: String)
    requires
        sha256@.len() >= 2,
    ensures
        r@ == place(sha256@),
{
    let mut out = prefix(sha256, 2);
    out.append("/");
    out.append(sha256);
    out.append(".jpg");
    out
}

impl Entry {
    /// Whether bytes are the ones that the index describes.
    pub open spec fn describes(self, bytes: Seq<u8>) -> bool {
        bytes.len() == self.bytes && digest_text(bytes) == self.sha256@
    }

    /// Whether bytes are the ones that the index describes.
    ///
    /// A row whose file is missing or corrupt is dropped rather than returned:
    /// the cost is one re-fetch, and the alternative is putting a truncated
    /// image on the wall.
    pub fn intact(&self, bytes: &[u8]) -> (r: bool)
        ensures
            r == self.describes(bytes@),
    {
        bytes.len() as u64 == self.bytes && same(hex_digest(bytes).as_str(), self.sha256.as_str())
    }

    /// The row for an image that is being stored.
    pub fn for_image(
        bytes: &[u8],
        dimensions: Option<(u32, u32)>,
        source: ArtworkSource,
    ) -> (r: Entry)
        ensures
            r.describes(bytes@),
            r.sha256@ == digest_text(bytes@),
            r.sha256@.len() == 64,
            r.bytes == bytes@.len(),
            dimensions matches Some(d) ==> r.width == Some(d.0) && r.height == Some(d.1),
            dimensions is None ==> r.width is None && r.height is None,
            r.source == source,
    {
        let n: usize = bytes.len();
        Entry {
            sha256: hex_digest(bytes),
            bytes: n as u64,
            width: match dimensions {
                Some(d) => Some(d.0),
                None => None,
            },
            height: match dimensions {
                Some(d) => Some(d.1),
                None => None,
            },
            source,
        }
    }
}

// --- misses ---------------------------------------------------------------

/// The difference of two moments, as far as 64 bits hold it.
pub open spec fn clamped_difference(a: i64, b: i64) -> int {
    let d = a - b;
    if d > i64::MAX {
        i64::MAX as int
    } else if d < i64::MIN {
        i64::MIN as int
    } else {
        d
    }
}

/// Whether a miss at `created` still holds at `now`.
pub open spec fn miss_holds(created: Option<i64>, now: i64, ttl: i64) -> bool {
    created matches Some(at) && clamped_difference(now, at) < ttl
}

/// Whether this album was missed recently enough to skip the network.
pub fn is_negative(created: Option<i64>, now: i64, ttl: i64) -> (r: bool)
    ensures
        r == miss_holds(created, now, ttl),
{
    match created {
        Some(at) => {
            let d: i128 = (now as i128) - (at as i128);
            if d > i64::MAX as i128 {
                false
            } else if d < i64::MIN as i128 {
                i64::MIN < ttl
            } else {
                d < ttl as i128
            }
        },
        None => false,
    }
}

/// The moment up to which misses are expired.
pub fn expiry_cutoff(now: i64, ttl: i64) -> (r: i64)
    requires
        i64::MIN <= now - ttl <= i64::MAX,
    ensures
        r == now - ttl,
{
    now - ttl
}

// --- sweeping -------------------------------------------------------------

/// What the first `n` rows take up. A negative size counts as nothing.
pub open spec fn size_of(sizes: Seq<i64>, n: nat) -> nat
    decreases n,
{
    if n == 0 {
        0
    } else {
        size_of(sizes, (n - 1) as nat) + if sizes[n - 1] > 0 {
            sizes[n - 1] as nat
        } else {
            0
        }
    }
}

/// What is left of `total` without the first `n` rows.
pub open spec fn left(total: u64, sizes: Seq<i64>, n: nat) -> nat {
    if size_of(sizes, n) < total {
        (total - size_of(sizes, n)) as nat
    } else {
        0
    }
}

/// How many rows to evict, least recently used first, to get within the
/// budget. `sizes` are the sizes of all rows in that order.
pub fn victims(sizes: &Vec<i64>, total: u64, max_bytes: u64) -> (n: usize)
    ensures
        n <= sizes@.len(),
        // Within the budget, unless everything is gone.
        left(total, sizes@, n as nat) <= max_bytes || n == sizes@.len(),
        // And nothing was evicted that could have stayed.
        forall|k: nat| k < n ==> #[trigger] left(total, sizes@, k) > max_bytes,
{
    let mut rest: u64 = total;
    let mut i: usize = 0;
    while i < sizes.len() && rest > max_bytes
        invariant
            i <= sizes.len(),
            rest == left(total, sizes@, i as nat),
            forall|k: nat| k < i ==> #[trigger] left(total, sizes@, k) > max_bytes,
        decreases sizes.len() - i,
    {
        let size: i64 = sizes[i];
        let positive: u64 = if size > 0 {
            size as u64
        } else {
            0
        };
        rest = rest.saturating_sub(positive);
        i = i + 1;
    }
    i
}

/// Whether a file in the cache directory is to be removed: a half-written
/// one, or one that no row names.
pub open spec fn unwanted(stem: Option<Seq<char>>, is_part: bool, known: Seq<Seq<char>>) -> bool {
    is_part || match stem {
        Some(s) => !known.contains(s),
        None => true,
    }
}

/// Whether a file in the cache directory is to be removed.
pub fn is_orphan(stem: Option<&str>, is_part: bool, known: &Vec<String>) -> (r: bool)
    ensures
        r == unwanted(
            match stem {
                Some(s) => Some(s@),
                None => None,
            },
            is_part,
            texts(known@),
        ),
{
    if is_part {
        return true;
    }
    match stem {
        Some(s) => !list_contains(known, s),
        None => true,
    }
}

// --- laws -----------------------------------------------------------------

/// An image that was stored is recognised when it is read back; and what is
/// recognised has the digest that it was stored under.
pub proof fn stored_images_come_back(e: Entry, stored: Seq<u8>, read: Seq<u8>)
    requires
        e.describes(stored),
    ensures
        read == stored ==> e.describes(read),
        e.describes(read) ==> read.len() == stored.len() && digest_text(read) == digest_text(stored),
{
}

/// A sweep forgets a miss exactly when it no longer holds.
pub proof fn misses_expire_once(at: i64, now: i64, ttl: i64)
    requires
        i64::MIN <= now - ttl <= i64::MAX,
        i64::MIN <= now - at <= i64::MAX,
    ensures
        at <= now - ttl <==> !miss_holds(Some(at), now, ttl),
{
}

/// The sources that images are fetched from keep their names.
pub proof fn fetched_sources_round_trip(s: ArtworkSource)
    requires
        s != ArtworkSource::Placeholder,
    ensures
        source_named(source_text(s)) == s,
{
    reveal_strlit("airplay");
    reveal_strlit("itunes");
    reveal_strlit("coverartarchive");
    reveal_strlit("cache");
    assert("airplay"@.len() == 7);
    assert("itunes"@.len() == 6);
    assert("coverartarchive"@.len() == 15);
    assert("cache"@.len() == 5);
}

} // verus!
