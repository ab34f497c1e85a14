//! Artwork staging: what a picture is, and which files hold it.
//!
//! Image bytes never traverse the socket. Each image is written to a
//! directory and its path is published; the renderer opens it directly.

use vstd::prelude::*;

use crate::digest::{digest_text, hex_digest};
use crate::strings::{
    all_digits, concat, decimal, decimal_round_trip, decimal_value, is_digit, prefix, same, texts,
    to_chars, to_decimal,
};

verus! {

broadcast use vstd::seq::group_seq_axioms;

// --- what a picture is ----------------------------------------------------

#[derive(Debug, Clone, Copy, PartialEq, Eq, Structural)]
pub enum ImageKind {
    Jpeg,
    Png,
    Unknown,
}

/// Whether some bytes begin with others.
pub open spec fn starts(b: Seq<u8>, p: Seq<u8>) -> bool {
    p.len() <= b.len() && b.take(p.len() as int) == p
}

/// The first bytes of a JPEG file.
pub open spec fn jpeg_signature() -> Seq<u8> {
    seq![0xFF, 0xD8, 0xFF]
}

/// The first bytes of a PNG file.
pub open spec fn png_signature() -> Seq<u8> {
    seq![0x89, 0x50, 0x4E, 0x47, 0x0D, 0x0A, 0x1A, 0x0A]
}

/// The number that two bytes stand for, the high one first.
pub open spec fn be16(b: Seq<u8>, at: int) -> int {
    b[at] * 256 + b[at + 1]
}

/// The number that four bytes stand for, the high one first.
pub open spec fn be32(b: Seq<u8>, at: int) -> int {
    be16(b, at) * 65536 + be16(b, at + 2)
}

/// A size, if neither side is zero.
pub open spec fn sized(w: int, h: int) -> Option<(u32, u32)> {
    if w > 0 && h > 0 {
        Some((w as u32, h as u32))
    } else {
        None
    }
}

/// The size in the header of a PNG file: an eight-byte signature, a four-byte
/// length, `IHDR`, then width and height.
pub open spec fn png_size(b: Seq<u8>) -> Option<(u32, u32)> {
    if b.len() >= 24 && b.subrange(12, 16) == seq![0x49u8, 0x48, 0x44, 0x52] {
        sized(be32(b, 16), be32(b, 20))
    } else {
        None
    }
}

/// Whether a JPEG marker stands alone, with no length after it.
pub open spec fn standalone(marker: u8) -> bool {
    marker == 0xD8 || marker == 0xD9 || marker == 0x01 || 0xD0 <= marker <= 0xD7
}

/// Whether a JPEG marker starts a frame, and so gives the picture's size.
pub open spec fn starts_frame(marker: u8) -> bool {
    0xC0 <= marker <= 0xCF && marker != 0xC4 && marker != 0xC8 && marker != 0xCC
}

/// The size in the first frame header at or after a place in a JPEG file,
/// segment by segment.
pub open spec fn jpeg_size_from(b: Seq<u8>, i: int) -> Option<(u32, u32)>
    decreases
            if i < b.len() {
                b.len() - i
            } else {
                0
            },
{
    if i < 0 || i + 9 >= b.len() {
        None
    } else if b[i] != 0xFF {
        jpeg_size_from(b, i + 1)
    } else if standalone(b[i + 1]) {
        jpeg_size_from(b, i + 2)
    } else if starts_frame(b[i + 1]) {
        sized(be16(b, i + 7), be16(b, i + 5))
    } else if be16(b, i + 2) < 2 {
        None
    } else {
        jpeg_size_from(b, i + 2 + be16(b, i + 2))
    }
}

impl ImageKind {
    /// What some bytes are, by their first few.
    pub open spec fn of(b: Seq<u8>) -> ImageKind {
        if starts(b, jpeg_signature()) {
            ImageKind::Jpeg
        } else if starts(b, png_signature()) {
            ImageKind::Png
        } else {
            ImageKind::Unknown
        }
    }

    /// The ending of a file of this kind.
    pub open spec fn ending(self) -> Seq<char> {
        match self {
            ImageKind::Jpeg | ImageKind::Unknown => "jpg"@,
            ImageKind::Png => "png"@,
        }
    }

    /// The size in the header of a file of this kind.
    pub open spec fn size(self, b: Seq<u8>) -> Option<(u32, u32)> {
        match self {
            ImageKind::Png => png_size(b),
            ImageKind::Jpeg => jpeg_size_from(b, 2),
            ImageKind::Unknown => None,
        }
    }

    /// Tell what some bytes are, by their first few.
    pub fn sniff(b: &[u8]) -> (r: ImageKind)
        ensures
            r == ImageKind::of(b@),
    {
        if b.len() >= 3 && b[0] == 0xFF && b[1] == 0xD8 && b[2] == 0xFF {
            assert(b@.take(3) == jpeg_signature());
            return ImageKind::Jpeg;
        }
        proof {
            if starts(b@, jpeg_signature()) {
                assert(b@.take(3)[0] == 0xFF && b@.take(3)[1] == 0xD8 && b@.take(3)[2] == 0xFF);
            }
        }
        if b.len() >= 8 && b[0] == 0x89 && b[1] == 0x50 && b[2] == 0x4E && b[3] == 0x47 && b[4]
            == 0x0D && b[5] == 0x0A && b[6] == 0x1A && b[7] == 0x0A {
            assert(b@.take(8) == png_signature());
            return ImageKind::Png;
        }
        proof {
            if starts(b@, png_signature()) {
                assert forall|i: int| 0 <= i < 8 implies b@[i] == #[trigger] png_signature()[i] by {
                    assert(b@.take(8)[i] == png_signature()[i]);
                }
                assert(b@[0] == png_signature()[0]);
                assert(b@[1] == png_signature()[1]);
                assert(b@[2] == png_signature()[2]);
                assert(b@[3] == png_signature()[3]);
                assert(b@[4] == png_signature()[4]);
                assert(b@[5] == png_signature()[5]);
                assert(b@[6] == png_signature()[6]);
                assert(b@[7] == png_signature()[7]);
            }
        }
        ImageKind::Unknown
    }

    /// The ending of a file of this kind.
    pub fn extension(self) -> (r: &'static str)
        ensures
            r@ == self.ending(),
    {
        match self {
            ImageKind::Jpeg | ImageKind::Unknown => "jpg",
            ImageKind::Png => "png",
        }
    }

    /// The media type of a file of this kind.
    pub fn mime(self) -> (r: &'static str)
        ensures
            r@ == match self {
                ImageKind::Jpeg | ImageKind::Unknown => "image/jpeg"@,
                ImageKind::Png => "image/png"@,
            },
    {
        match self {
            ImageKind::Jpeg | ImageKind::Unknown => "image/jpeg",
            ImageKind::Png => "image/png",
        }
    }

    /// Read dimensions from the header only.
    ///
    /// Full decoding belongs in the renderer, off the hot path; here we only
    /// want enough to report size and to gate an upgrade on the candidate
    /// actually being bigger.
    pub fn dimensions(self, b: &[u8]) -> (r: Option<(u32, u32)>)
        ensures
            r == self.size(b@),
    {
        match self {
            ImageKind::Png => png_dimensions(b),
            ImageKind::Jpeg => jpeg_dimensions(b),
            ImageKind::Unknown => None,
        }
    }
}

fn read16(b: &[u8], at: usize) -> (r: u32)
    requires
        at + 1 < b@.len(),
    ensures
        r == be16(b@, at as int),
        r < 65536,
{
    b[at] as u32 * 256 + b[at + 1] as u32
}

fn size_of_sides(w: u32, h: u32) -> (r: Option<(u32, u32)>)
    ensures
        r == sized(w as int, h as int),
{
    if w > 0 && h > 0 {
        Some((w, h))
    } else {
        None
    }
}

/// Read the size in the header of a PNG file.
pub fn png_dimensions(b: &[u8]) -> (r: Option<(u32, u32)>)
    ensures
        r == png_size(b@),
{
    if b.len() < 24 {
        return None;
    }
    let ghost name = b@.subrange(12, 16);
    assert(name[0] == b@[12] && name[1] == b@[13] && name[2] == b@[14] && name[3] == b@[15]);
    if b[12] != 0x49 || b[13] != 0x48 || b[14] != 0x44 || b[15] != 0x52 {
        return None;
    }
    assert(name == seq![0x49u8, 0x48, 0x44, 0x52]);
    let w: u32 = read16(b, 16) * 65536 + read16(b, 18);
    let h: u32 = read16(b, 20) * 65536 + read16(b, 22);
    size_of_sides(w, h)
}

/// Read the size in the first frame header of a JPEG file.
pub fn jpeg_dimensions(b: &[u8]) -> (r: Option<(u32, u32)>)
    ensures
        r == jpeg_size_from(b@, 2),
{
    if b.len() < 2 {
        return None;
    }
    let mut i: usize = 2;
    while b.len() - i > 9
        invariant
            2 <= i <= b.len(),
            jpeg_size_from(b@, 2) == jpeg_size_from(b@, i as int),
        decreases b.len() - i,
    {
        let marker: u8 = b[i + 1];
        if b[i] != 0xFF {
            i = i + 1;
        } else if marker == 0xD8 || marker == 0xD9 || marker == 0x01 || (0xD0 <= marker && marker
            <= 0xD7) {
            i = i + 2;
        } else if 0xC0 <= marker && marker <= 0xCF && marker != 0xC4 && marker != 0xC8 && marker
            != 0xCC {
            return size_of_sides(read16(b, i + 7), read16(b, i + 5));
        } else {
            let len: usize = read16(b, i + 2) as usize;
            if len < 2 {
                return None;
            }
            if len > b.len() - i - 2 {
                assert(jpeg_size_from(b@, i + 2 + len) is None);
                return None;
            }
            i = i + 2 + len;
        }
    }
    None
}

// --- which files hold it --------------------------------------------------

/// Where a file of a directory is. The name is taken to be relative.
pub open spec fn joined(dir: Seq<char>, name: Seq<char>) -> Seq<char> {
    if dir.len() == 0 || dir.last() == '/' {
        dir + name
    } else {
        dir.push('/') + name
    }
}

/// Where a file of a directory is. The name is taken to be relative.
pub fn join_path(dir: &str, name: &str) -> (r: String)
    ensures
        r@ == joined(dir@, name@),
{
    let c = to_chars(dir);
    let n: usize = c.len();
    let mut out = dir.to_owned();
    if n != 0 && c[n - 1] != '/' {
        out.push('/');
    }
    out.append(name);
    out
}

/// A number in at least four digits.
pub open spec fn four_digits(n: nat) -> Seq<char> {
    if n < 10 {
        "000"@ + decimal(n)
    } else if n < 100 {
        "00"@ + decimal(n)
    } else if n < 1000 {
        "0"@ + decimal(n)
    } else {
        decimal(n)
    }
}

fn to_four_digits(n: u64) -> (r: String)
    ensures
        r@ == four_digits(n as nat),
{
    let text = to_decimal(n);
    if n < 10 {
        concat("000", text.as_str())
    } else if n < 100 {
        concat("00", text.as_str())
    } else if n < 1000 {
        concat("0", text.as_str())
    } else {
        text
    }
}

/// The name of the file that holds a picture: its number, the start of its
/// digest, and its kind's ending.
pub open spec fn file_name(seq: nat, bytes: Seq<u8>) -> Seq<char> {
    four_digits(seq) + "-"@ + digest_text(bytes).take(8) + "."@ + ImageKind::of(bytes).ending()
}

/// A picture that was written out.
#[derive(Debug)]
pub struct Stored {
    pub path: String,
    pub sha256: String,
    pub bytes: u64,
    pub dimensions: Option<(u32, u32)>,
}

/// A picture that is about to be: write it to `temporary`, then rename that
/// to the stored path, so a reader never sees a partial image.
#[derive(Debug)]
pub struct Staged {
    pub temporary: String,
    pub stored: Stored,
}

/// The files that hold the latest pictures.
#[derive(Debug)]
pub struct ArtStore {
    dir: String,
    retain: usize,
    /// Files written, oldest first. Kept so we can unlink behind the reader.
    written: Vec<String>,
    next_seq: u64,
}

/// An [`ArtStore`] as values.
pub struct ArtStoreView {
    pub dir: Seq<char>,
    pub retain: nat,
    pub written: Seq<Seq<char>>,
    pub next_seq: nat,
}

impl View for ArtStore {
    type V = ArtStoreView;

    closed spec fn view(&self) -> ArtStoreView {
        ArtStoreView {
            dir: self.dir@,
            retain: self.retain as nat,
            written: texts(self.written@),
            next_seq: self.next_seq as nat,
        }
    }
}

impl ArtStoreView {
    /// What holds of every store: the window has room for the picture on the
    /// screen and the one before it, and is never exceeded.
    pub open spec fn valid(self) -> bool {
        self.retain >= 2 && self.written.len() <= self.retain
    }

    /// How many of the oldest files go once one more has been written.
    pub open spec fn excess(self) -> int {
        if self.written.len() + 1 > self.retain {
            self.written.len() + 1 - self.retain
        } else {
            0
        }
    }

    /// Whether a picture is staged here: under its name once it is written, and
    /// beside it under a hidden one until then.
    pub open spec fn stages(self, bytes: Seq<u8>, staged: Staged) -> bool {
        let name = file_name(self.next_seq, bytes);
        &&& staged.temporary@ == joined(self.dir, "."@ + name + ".tmp"@)
        &&& staged.stored.path@ == joined(self.dir, name)
        &&& staged.stored.sha256@ == digest_text(bytes)
        &&& staged.stored.bytes == bytes.len()
        &&& staged.stored.dimensions == ImageKind::of(bytes).size(bytes)
    }

    /// The store after a file was written: the latest few stay.
    pub open spec fn kept(self, path: Seq<char>) -> ArtStoreView {
        ArtStoreView { written: self.written.push(path).skip(self.excess()), ..self }
    }
}

/// Whether a file that an earlier run left behind is cleared at the start,
/// given the ending of its name.
///
/// The renderer will be told a fresh path immediately, so nothing there is
/// still referenced.
pub fn is_stale(extension: Option<&str>) -> (r: bool)
    ensures
        r == (extension matches Some(x) && (x@ == "jpg"@ || x@ == "png"@)),
{
    match extension {
        Some(x) => same(x, "jpg") || same(x, "png"),
        None => false,
    }
}

impl ArtStore {
    /// A store that holds nothing yet. At least two files are kept.
    pub fn new(dir: &str, retain: usize) -> (r: ArtStore)
        ensures
            r@.valid(),
            r@ == (ArtStoreView {
                dir: dir@,
                retain: if retain >= 2 {
                    retain as nat
                } else {
                    2
                },
                written: Seq::empty(),
                next_seq: 1,
            }),
    {
        let r = ArtStore {
            dir: dir.to_owned(),
            retain: if retain >= 2 {
                retain
            } else {
                2
            },
            written: Vec::new(),
            next_seq: 1,
        };
        assert(r@.written == Seq::<Seq<char>>::empty());
        r
    }

    /// Whether another picture can be numbered.
    pub fn can_stage(&self) -> (r: bool)
        ensures
            r == (self@.next_seq < u64::MAX),
    {
        self.next_seq < u64::MAX
    }

    /// Number a picture and name the files that it goes to.
    pub fn stage(&mut self, bytes: &[u8]) -> (r: Staged)
        requires
            old(self)@.next_seq < u64::MAX,
        ensures
            final(self)@ == (ArtStoreView { next_seq: old(self)@.next_seq + 1, ..old(self)@ }),
            old(self)@.stages(bytes@, r),
    {
        let sha256 = hex_digest(bytes);
        let kind = ImageKind::sniff(bytes);
        let seq: u64 = self.next_seq;
        self.next_seq = seq + 1;
        let mut name = to_four_digits(seq);
        name.append("-");
        name.append(prefix(sha256.as_str(), 8).as_str());
        name.append(".");
        name.append(kind.extension());
        let mut hidden = concat(".", name.as_str());
        hidden.append(".tmp");
        Staged {
            temporary: join_path(self.dir.as_str(), hidden.as_str()),
            stored: Stored {
                path: join_path(self.dir.as_str(), name.as_str()),
                sha256,
                bytes: bytes.len() as u64,
                dimensions: kind.dimensions(bytes),
            },
        }
    }

    /// A staged picture is in place. Returns the files to unlink.
    ///
    /// The renderer may still be decoding the previous image when the next
    /// arrives, so the retained window is what stops a path being pulled out
    /// from under it mid-read.
    pub fn store(&mut self, path: &str) -> (r: Vec<String>)
        requires
            old(self)@.valid(),
        ensures
            final(self)@.valid(),
            final(self)@ == old(self)@.kept(path@),
            texts(r@) == old(self)@.written.push(path@).take(old(self)@.excess()),
    {
        let ghost all = self@.written.push(path@);
        let ghost n = self@.excess();
        self.written.push(path.to_owned());
        assert(texts(self.written@) == all);
        let mut gone: Vec<String> = Vec::new();
        while self.written.len() > self.retain
            invariant
                self@.retain == old(self)@.retain,
                self.retain == self@.retain,
                self@.retain >= 2,
                self@.dir == old(self)@.dir,
                self@.next_seq == old(self)@.next_seq,
                old(self)@.valid(),
                n == old(self)@.excess(),
                all == old(self)@.written.push(path@),
                gone@.len() <= n,
                texts(gone@) == all.take(gone@.len() as int),
                texts(self.written@) == all.skip(gone@.len() as int),
            decreases self.written@.len(),
        {
            let ghost before = texts(self.written@);
            let ghost k = gone@.len() as int;
            let first = self.written.remove(0);
            assert(first@ == before[0]);
            assert(texts(self.written@) == before.skip(1));
            gone.push(first);
            assert(texts(gone@) == all.take(k).push(all[k]));
            assert(all.take(k).push(all[k]) == all.take(k + 1));
            assert(all.skip(k).skip(1) == all.skip(k + 1));
        }
        assert(texts(self.written@).len() == all.len() - gone@.len());
        gone
    }

    /// Forget every file. Returns them, to be unlinked.
    pub fn clear(&mut self) -> (r: Vec<String>)
        ensures
            final(self)@ == (ArtStoreView { written: Seq::empty(), ..old(self)@ }),
            texts(r@) == old(self)@.written,
    {
        let mut gone: Vec<String> = Vec::new();
        std::mem::swap(&mut gone, &mut self.written);
        assert(texts(self.written@) == Seq::<Seq<char>>::empty());
        gone
    }
}

// --- laws -----------------------------------------------------------------

/// The picture that was just written and the one before it stay: a reader that
/// still decodes the previous image does not lose it.
pub proof fn the_previous_picture_stays(s: ArtStoreView, path: Seq<char>)
    requires
        s.valid(),
    ensures
        s.kept(path).written.last() == path,
        s.written.len() > 0 ==> {
            let w = s.kept(path).written;
            w.len() >= 2 && w[w.len() - 2] == s.written.last()
        },
{
}

proof fn leading_zero(s: Seq<char>)
    requires
        s.len() > 0,
        s[0] == '0',
    ensures
        decimal_value(s) == decimal_value(s.skip(1)),
    decreases s.len(),
{
    if s.len() == 1 {
        assert(s.drop_last() == Seq::<char>::empty());
        assert(decimal_value(s.drop_last()) == 0);
        assert(s.skip(1) == Seq::<char>::empty());
        assert(decimal_value(s.skip(1)) == 0);
    } else {
        leading_zero(s.drop_last());
        assert(s.drop_last().skip(1) == s.skip(1).drop_last());
        assert(s.skip(1).last() == s.last());
    }
}

proof fn four_digits_value(n: nat)
    ensures
        decimal_value(four_digits(n)) == n,
        all_digits(four_digits(n)),
{
    decimal_round_trip(n);
    reveal_strlit("000");
    reveal_strlit("00");
    reveal_strlit("0");
    let d = decimal(n);
    let one = "0"@ + d;
    let two = "00"@ + d;
    let three = "000"@ + d;
    assert(is_digit('0'));
    leading_zero(one);
    assert(one.skip(1) == d);
    leading_zero(two);
    assert(two.skip(1) == one);
    leading_zero(three);
    assert(three.skip(1) == two);
    assert forall|i: int| 0 <= i < four_digits(n).len() implies is_digit(
        #[trigger] four_digits(n)[i],
    ) by {
        let k = four_digits(n).len() - d.len();
        if i >= k {
            assert(four_digits(n)[i] == d[i - k]);
        }
    }
}

/// No two pictures go to the same file, so unlinking an old one never takes
/// the current one away.
pub proof fn pictures_have_files_of_their_own(a: nat, x: Seq<u8>, b: nat, y: Seq<u8>)
    requires
        a != b,
    ensures
        file_name(a, x) != file_name(b, y),
{
    four_digits_value(a);
    four_digits_value(b);
    reveal_strlit("-");
    let p = four_digits(a);
    let q = four_digits(b);
    let f = file_name(a, x);
    let g = file_name(b, y);
    assert(f[p.len() as int] == '-');
    assert(g[q.len() as int] == '-');
    if f == g {
        if p.len() < q.len() {
            assert(g[p.len() as int] == q[p.len() as int]);
            assert(is_digit(q[p.len() as int]));
        } else if q.len() < p.len() {
            assert(f[q.len() as int] == p[q.len() as int]);
            assert(is_digit(p[q.len() as int]));
        } else {
            assert(p == f.take(p.len() as int));
            assert(q == g.take(q.len() as int));
        }
    }
}

/// The two bytes of a number, the high one first.
pub open spec fn two_bytes(n: u16) -> Seq<u8> {
    seq![(n / 256) as u8, (n % 256) as u8]
}

/// A segment of a JPEG file: a marker, its length, and what it holds.
pub open spec fn jpeg_segment(marker: u8, body: Seq<u8>) -> Seq<u8> {
    seq![0xFFu8, marker] + two_bytes((body.len() + 2) as u16) + body
}

/// The size in a JPEG file is that of its first frame, which gives the height
/// before the width; and what stands in other segments before it, be it tables
/// or comments or a thumbnail, does not matter.
pub proof fn frames_give_the_size(
    w: u16,
    h: u16,
    marker: u8,
    depth: u8,
    rest: Seq<u8>,
    other: u8,
    body: Seq<u8>,
)
    requires
        w > 0,
        h > 0,
        0xC0 <= marker <= 0xCF && marker != 0xC4 && marker != 0xC8 && marker != 0xCC,
        rest.len() > 0,
        other == 0xC4 || other == 0xC8 || other == 0xCC || 0xDA <= other <= 0xFE,
        body.len() + 2 <= 0xffff,
    ensures
        ({
            let soi = seq![0xFFu8, 0xD8u8];
            let frame = seq![0xFFu8, marker, 0u8, 17u8, depth] + two_bytes(h) + two_bytes(w) + rest;
            &&& ImageKind::of(soi + frame) == ImageKind::Jpeg
            &&& ImageKind::Jpeg.size(soi + frame) == Some((w as u32, h as u32))
            &&& ImageKind::Jpeg.size(soi + jpeg_segment(other, body) + frame) == Some(
                (w as u32, h as u32),
            )
        }),
{
    let soi = seq![0xFFu8, 0xD8u8];
    let frame = seq![0xFFu8, marker, 0u8, 17u8, depth] + two_bytes(h) + two_bytes(w) + rest;
    let b = soi + frame;
    assert(b.len() >= 12);
    assert(b[0] == 0xFF && b[1] == 0xD8 && b[2] == 0xFF && b[3] == marker);
    assert(b.take(3) == jpeg_signature());
    assert(b[7] == (h / 256) as u8 && b[8] == (h % 256) as u8);
    assert(b[9] == (w / 256) as u8 && b[10] == (w % 256) as u8);
    let seg = jpeg_segment(other, body);
    let n = (body.len() + 2) as u16;
    let c = soi + seg + frame;
    assert(seg.len() == 4 + body.len());
    assert(c[2] == 0xFF && c[3] == other);
    assert(c[4] == (n / 256) as u8 && c[5] == (n % 256) as u8);
    assert(be16(c, 4) == n);
    let at = 4 + n;
    assert(at == 2 + seg.len());
    assert forall|k: int| 0 <= k < frame.len() implies #[trigger] frame[k] == c[at + k] by {}
    assert(frame[0] == c[at] && frame[1] == c[at + 1]);
    assert(frame[5] == c[at + 5] && frame[6] == c[at + 6] && frame[7] == c[at + 7] && frame[8]
        == c[at + 8]);
    assert(jpeg_size_from(c, at) == Some((w as u32, h as u32)));
    assert(jpeg_size_from(c, 2) == jpeg_size_from(c, at));
}

} // verus!
