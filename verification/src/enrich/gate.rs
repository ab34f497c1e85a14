//! The size and perceptual gates.
//!
//! The text gate picks a candidate; these two decide whether it is worth
//! swapping and whether it is actually the same picture. Both produce a
//! score, and every score reaches the diagnostics page.

use vstd::prelude::*;

use crate::enrich::text::{cents_text, write_cents};
use crate::pixels::{bit, dhash, differing, hamming, lighter, resize_box, resized};
use crate::single::{Single, INFINITY_BITS};
use crate::strings::{concat, decimal, to_decimal};

verus! {

broadcast use vstd::seq::group_seq_axioms;

/// Working resolution for the comparison.
pub const GRID: u32 = 32;

/// Largest hash distance still considered the same picture, out of 64.
pub const HAMMING_MAX: u32 = 12;

/// Smallest dominant-colour similarity still considered the same picture: the
/// bits of 0.85.
pub const SIMILARITY_MIN: u32 = 0x3f59_999a;

/// The bits of one.
pub const SIMILARITY_FULL: u32 = 0x3f80_0000;

/// Ceiling on decoded dimensions. These bytes came off the internet: anything
/// past this on a side is either a mistake or an attempt to make us allocate a
/// gigabyte.
pub const MAX_SIDE: u32 = 8192;

/// What an encoded image decodes to, as width, height and RGBA pixels, if
/// neither side is above a limit.
pub uninterp spec fn decoded_image(bytes: Seq<u8>, max_side: u32) -> Option<(u32, u32, Seq<u8>)>;

/// Decodes an image with `image::ImageReader`: the format is guessed from the
/// bytes, and an image with a side above `max_side` is refused. The result is
/// a function of the bytes and the limit alone, named by [`decoded_image`];
/// there are four bytes or more for every pixel.
#[verifier::external_body]
fn decode_image(bytes: &[u8], max_side: u32) -> (r: Option<(u32, u32, Vec<u8>)>)
    ensures
        match r {
            Some(d) => decoded_image(bytes@, max_side) == Some((d.0, d.1, d.2@)) && d.2@.len()
                >= d.0 * d.1 * 4,
            None => decoded_image(bytes@, max_side) is None,
        },
{
    let mut reader = image::ImageReader::new(std::io::Cursor::new(bytes)).with_guessed_format().ok()?;
    let mut limits = image::Limits::default();
    limits.max_image_width = Some(max_side);
    limits.max_image_height = Some(max_side);
    reader.limits(limits);
    let rgba = reader.decode().ok()?.to_rgba8();
    let (width, height) = rgba.dimensions();
    Some((width, height, rgba.into_raw()))
}

/// What the comparison needs to know about an image, without keeping all its pixels.
#[derive(Debug)]
pub struct Fingerprint {
    pub width: u32,
    pub height: u32,
    pub dhash: u64,
    /// The image reduced to the working resolution.
    pub small: Vec<u8>,
}

impl Fingerprint {
    /// The smaller side. Cover art is nominally square but not always, and an
    /// upgrade that is only wider is not sharper.
    pub open spec fn side(self) -> u32 {
        if self.width < self.height {
            self.width
        } else {
            self.height
        }
    }

    pub fn min_side(&self) -> (r: u32)
        ensures
            r == self.side(),
    {
        if self.width < self.height {
            self.width
        } else {
            self.height
        }
    }

    /// Whether this is the fingerprint of decoded pixels.
    pub open spec fn is_of(self, width: u32, height: u32, rgba: Seq<u8>) -> bool {
        &&& self.width == width
        &&& self.height == height
        &&& self.small@ == resized(rgba, width as nat, height as nat, GRID as nat, GRID as nat)
        // Both halves of the comparison are computed from that same reduction, so
        // the two scores can never disagree about which pixels they were
        // looking at.
        &&& forall|n: u64|
            n < 64 ==> #[trigger] bit(self.dhash, n) == lighter(
                resized(self.small@, GRID as nat, GRID as nat, 9, 8),
                n as int,
            )
    }
}

/// Reduce decoded pixels to a fingerprint.
pub fn fingerprint_of(width: u32, height: u32, rgba: &[u8]) -> (r: Option<Fingerprint>)
    requires
        rgba@.len() >= width * height * 4,
    ensures
        match r {
            Some(f) => width > 0 && height > 0 && f.is_of(width, height, rgba@),
            None => width == 0 || height == 0,
        },
{
    if width == 0 || height == 0 {
        return None;
    }
    let small = resize_box(rgba, width, height, GRID, GRID);
    assert(small@.len() == 4096);
    let hash = dhash(&small, GRID, GRID);
    Some(Fingerprint { width, height, dhash: hash, small })
}

/// Why an image has no fingerprint.
pub open spec fn no_fingerprint(d: Option<(u32, u32, Seq<u8>)>) -> Option<Seq<char>> {
    match d {
        None => Some("decoding image"@),
        Some(x) => if x.0 == 0 || x.1 == 0 {
            Some("image has a zero dimension"@)
        } else {
            None
        },
    }
}

/// Decode an image and reduce it to a fingerprint.
pub fn fingerprint(bytes: &[u8]) -> (r: Result<Fingerprint, String>)
    ensures
        match r {
            Ok(f) => decoded_image(bytes@, MAX_SIDE) matches Some(d) && d.0 > 0 && d.1 > 0 && f.is_of(
                d.0,
                d.1,
                d.2,
            ),
            Err(e) => no_fingerprint(decoded_image(bytes@, MAX_SIDE)) == Some(e@),
        },
{
    match decode_image(bytes, MAX_SIDE) {
        None => Err("decoding image".to_owned()),
        Some((width, height, rgba)) => match fingerprint_of(width, height, &rgba) {
            Some(f) => Ok(f),
            None => Err("image has a zero dimension".to_owned()),
        },
    }
}

/// The result of comparing two fingerprints.
#[derive(Debug, Clone, Copy, PartialEq, Eq, Structural)]
pub struct Visual {
    pub hamming: u32,
    /// Dominant-colour similarity.
    pub similarity: Single,
}

impl Visual {
    /// Whether two pictures are taken for the same: the layout by the hash,
    /// and the colours by their similarity.
    pub open spec fn pass(self) -> bool {
        self.hamming <= HAMMING_MAX && SIMILARITY_MIN <= self.similarity.bits <= INFINITY_BITS
    }

    /// Whether two pictures are taken for the same.
    pub fn passes(&self) -> (r: bool)
        ensures
            r == self.pass(),
    {
        self.hamming <= HAMMING_MAX && SIMILARITY_MIN <= self.similarity.bits
            && self.similarity.bits <= INFINITY_BITS
    }

    /// How the scores read. The similarity lies between zero and one.
    pub open spec fn text(self) -> Seq<char> {
        "hamming "@ + decimal(self.hamming as nat) + "/64 similarity "@ + cents_text(
            self.similarity.cents(),
        )
    }

    /// How the scores read. The similarity lies between zero and one.
    pub fn to_string(&self) -> (r: String)
        requires
            self.similarity.in_zero_to(Single { bits: SIMILARITY_FULL }),
        ensures
            r@ == self.text(),
    {
        let mut m = concat("hamming ", to_decimal(self.hamming as u64).as_str());
        m.append("/64 similarity ");
        m.append(write_cents(self.similarity.to_cents()).as_str());
        m
    }
}

/// Compare two fingerprints, given how similar their colours are.
pub fn compare(current: &Fingerprint, candidate: &Fingerprint, similarity: Single) -> (r: Visual)
    ensures
        r.hamming == differing(current.dhash, candidate.dhash, 64),
        r.hamming <= 64,
        r.similarity == similarity,
{
    Visual { hamming: hamming(current.dhash, candidate.dhash), similarity }
}

/// Whether a candidate is half as large again as what is shown.
pub open spec fn large_enough(current: u32, candidate: u32) -> bool {
    2 * candidate >= 3 * current
}

/// Whether a candidate is enough sharper to justify swapping.
pub fn size_gate(current_min_side: u32, candidate_min_side: u32) -> (r: bool)
    ensures
        r == large_enough(current_min_side, candidate_min_side),
{
    2 * (candidate_min_side as u64) >= 3 * (current_min_side as u64)
}

} // verus!
