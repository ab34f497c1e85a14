//! A minimal PNG writer, used to give synthetic sessions real decodable
//! artwork rather than random bytes.
//!
//! Deliberately uncompressed (deflate "stored" blocks): the pictures are
//! small, and an encoder with no image library behind it keeps the tool
//! buildable anywhere.

use vstd::prelude::*;

use crate::artwork::{be16, be32, png_signature, png_size, starts, ImageKind};

verus! {

broadcast use vstd::seq::group_seq_axioms;

// --- checksums ------------------------------------------------------------

/// One bit of a CRC-32, from the low end.
pub open spec fn crc_bit(c: u32) -> u32 {
    if c & 1 != 0 {
        0xEDB8_8320u32 ^ (c >> 1)
    } else {
        c >> 1
    }
}

/// Several bits of a CRC-32.
pub open spec fn crc_bits(c: u32, n: nat) -> u32
    decreases n,
{
    if n == 0 {
        c
    } else {
        crc_bit(crc_bits(c, (n - 1) as nat))
    }
}

/// The register of a CRC-32 after some bytes.
pub open spec fn crc_register(data: Seq<u8>) -> u32
    decreases data.len(),
{
    if data.len() == 0 {
        0xFFFF_FFFF
    } else {
        crc_bits(crc_register(data.drop_last()) ^ (data.last() as u32), 8)
    }
}

/// The CRC-32 of some bytes.
pub open spec fn crc(data: Seq<u8>) -> u32 {
    crc_register(data) ^ 0xFFFF_FFFF
}

/// The CRC-32 of some bytes.
pub fn crc32(data: &[u8]) -> (r: u32)
    ensures
        r == crc(data@),
{
    let mut c: u32 = 0xFFFF_FFFF;
    let mut i: usize = 0;
    assert(data@.take(0).len() == 0);
    while i < data.len()
        invariant
            i <= data@.len(),
            c == crc_register(data@.take(i as int)),
        decreases data.len() - i,
    {
        assert(data@.take(i + 1).drop_last() == data@.take(i as int));
        assert(data@.take(i + 1).last() == data@[i as int]);
        let start: u32 = c ^ (data[i] as u32);
        c = start;
        let mut k: u8 = 0;
        while k < 8
            invariant
                k <= 8,
                c == crc_bits(start, k as nat),
            decreases 8 - k,
        {
            c =
            if c & 1 != 0 {
                0xEDB8_8320u32 ^ (c >> 1)
            } else {
                c >> 1
            };
            k = k + 1;
        }
        i = i + 1;
    }
    assert(data@.take(data.len() as int) == data@);
    c ^ 0xFFFF_FFFF
}

/// The two sums of an Adler-32: the first counts from one, the second adds up
/// the first, both modulo 65521.
pub open spec fn adler_sums(data: Seq<u8>) -> (nat, nat)
    decreases data.len(),
{
    if data.len() == 0 {
        (1, 0)
    } else {
        let (a, b) = adler_sums(data.drop_last());
        let a2 = (a + data.last() as nat) % 65521;
        (a2, (b + a2) % 65521)
    }
}

/// The Adler-32 of some bytes.
pub open spec fn adler(data: Seq<u8>) -> nat {
    adler_sums(data).1 * 65536 + adler_sums(data).0
}

/// The Adler-32 of some bytes.
pub fn adler32(data: &[u8]) -> (r: u32)
    ensures
        r == adler(data@),
{
    let mut a: u32 = 1;
    let mut b: u32 = 0;
    let mut i: usize = 0;
    assert(data@.take(0).len() == 0);
    while i < data.len()
        invariant
            i <= data@.len(),
            a < 65521,
            b < 65521,
            adler_sums(data@.take(i as int)) == (a as nat, b as nat),
        decreases data.len() - i,
    {
        assert(data@.take(i + 1).drop_last() == data@.take(i as int));
        assert(data@.take(i + 1).last() == data@[i as int]);
        a = (a + data[i] as u32) % 65521;
        b = (b + a) % 65521;
        i = i + 1;
    }
    assert(data@.take(data.len() as int) == data@);
    b * 65536 + a
}

// --- chunks ---------------------------------------------------------------

/// A number in four bytes, the high one first.
pub open spec fn to_be(n: nat) -> Seq<u8> {
    seq![
        (n / 0x100_0000 % 256) as u8,
        (n / 0x1_0000 % 256) as u8,
        (n / 0x100 % 256) as u8,
        (n % 256) as u8,
    ]
}

/// Append a number in four bytes, the high one first.
pub fn push_be(out: &mut Vec<u8>, n: u32)
    ensures
        final(out)@ == old(out)@ + to_be(n as nat),
{
    out.push((n / 0x100_0000 % 256) as u8);
    out.push((n / 0x1_0000 % 256) as u8);
    out.push((n / 0x100 % 256) as u8);
    out.push((n % 256) as u8);
    assert(out@ == old(out)@ + to_be(n as nat));
}

/// What was written as four bytes reads back.
proof fn be_round_trip(s: Seq<u8>, at: int, n: nat)
    requires
        0 <= at,
        at + 4 <= s.len(),
        n <= u32::MAX,
        s.subrange(at, at + 4) == to_be(n),
    ensures
        be32(s, at) == n,
{
    let t = s.subrange(at, at + 4);
    assert(t[0] == s[at] && t[1] == s[at + 1] && t[2] == s[at + 2] && t[3] == s[at + 3]);
    assert(be16(s, at) == s[at] * 256 + s[at + 1]);
    assert(be16(s, at + 2) == s[at + 2] * 256 + s[at + 3]);
}

/// A chunk: its length, its name, its body, and the CRC of the last two.
pub open spec fn chunk_of(tag: Seq<u8>, body: Seq<u8>) -> Seq<u8> {
    to_be(body.len()) + (tag + body) + to_be(crc(tag + body) as nat)
}

/// Append a chunk.
pub fn chunk(out: &mut Vec<u8>, tag: &[u8; 4], body: &[u8])
    requires
        body@.len() <= u32::MAX,
    ensures
        final(out)@ == old(out)@ + chunk_of(tag@, body@),
{
    push_be(out, body.len() as u32);
    let mut named: Vec<u8> = Vec::new();
    named.push(tag[0]);
    named.push(tag[1]);
    named.push(tag[2]);
    named.push(tag[3]);
    assert(named@ == tag@);
    named.extend_from_slice(body);
    assert(named@ == tag@ + body@);
    out.extend_from_slice(&named);
    push_be(out, crc32(&named));
    assert(out@ == old(out)@ + chunk_of(tag@, body@));
}

// --- the stream -----------------------------------------------------------

/// How many bytes fit in one block.
pub const BLOCK: usize = 65535;

/// One block: whether it is the last, its length twice, and its bytes.
pub open spec fn block_of(last: bool, bytes: Seq<u8>) -> Seq<u8> {
    let n = bytes.len();
    seq![
        if last {
            1u8
        } else {
            0u8
        },
        (n % 256) as u8,
        (n / 256) as u8,
        ((BLOCK - n) % 256) as u8,
        ((BLOCK - n) / 256) as u8,
    ] + bytes
}

/// The blocks of some bytes. There is at least one.
pub open spec fn blocks_of(raw: Seq<u8>) -> Seq<u8>
    decreases raw.len(),
{
    if raw.len() <= BLOCK {
        block_of(true, raw)
    } else {
        block_of(false, raw.take(BLOCK as int)) + blocks_of(raw.skip(BLOCK as int))
    }
}

/// A stream of uncompressed blocks: a header, the blocks, and a checksum.
pub open spec fn stream_of(raw: Seq<u8>) -> Seq<u8> {
    seq![0x78u8, 0x01u8] + blocks_of(raw) + to_be(adler(raw))
}

proof fn adler_fits(data: Seq<u8>)
    ensures
        adler_sums(data).0 < 65521,
        adler_sums(data).1 < 65521,
    decreases data.len(),
{
    if data.len() > 0 {
        adler_fits(data.drop_last());
    }
}

fn push_block(out: &mut Vec<u8>, last: bool, bytes: &[u8])
    requires
        bytes@.len() <= BLOCK,
    ensures
        final(out)@ == old(out)@ + block_of(last, bytes@),
{
    let n: usize = bytes.len();
    out.push(
        if last {
            1
        } else {
            0
        },
    );
    out.push((n % 256) as u8);
    out.push((n / 256) as u8);
    out.push(((BLOCK - n) % 256) as u8);
    out.push(((BLOCK - n) / 256) as u8);
    out.extend_from_slice(bytes);
    assert(out@ == old(out)@ + block_of(last, bytes@));
}

fn copy_part(raw: &[u8], from: usize, to: usize) -> (r: Vec<u8>)
    requires
        from <= to <= raw@.len(),
    ensures
        r@ == raw@.subrange(from as int, to as int),
{
    let mut out: Vec<u8> = Vec::new();
    let mut i: usize = from;
    while i < to
        invariant
            from <= i <= to <= raw@.len(),
            out@ == raw@.subrange(from as int, i as int),
        decreases to - i,
    {
        out.push(raw[i]);
        i = i + 1;
        assert(out@ == raw@.subrange(from as int, i as int));
    }
    out
}

/// A stream of uncompressed blocks.
pub fn zlib_stored(raw: &[u8]) -> (r: Vec<u8>)
    ensures
        r@ == stream_of(raw@),
{
    let mut out: Vec<u8> = Vec::new();
    out.push(0x78);
    out.push(0x01);
    let ghost head = seq![0x78u8, 0x01u8];
    assert(out@ == head);
    let mut from: usize = 0;
    assert(raw@.skip(0) == raw@);
    while raw.len() - from > BLOCK
        invariant
            from <= raw@.len(),
            head + blocks_of(raw@) == out@ + blocks_of(raw@.skip(from as int)),
        decreases raw.len() - from,
    {
        let part = copy_part(raw, from, from + BLOCK);
        let ghost rest = raw@.skip(from as int);
        assert(part@ == rest.take(BLOCK as int));
        assert(rest.skip(BLOCK as int) == raw@.skip(from + BLOCK));
        let ghost before = out@;
        push_block(&mut out, false, &part);
        assert(before + (block_of(false, part@) + blocks_of(raw@.skip(from + BLOCK))) == out@
            + blocks_of(raw@.skip(from + BLOCK)));
        from = from + BLOCK;
    }
    let part = copy_part(raw, from, raw.len());
    assert(part@ == raw@.skip(from as int));
    push_block(&mut out, true, &part);
    assert(out@ == head + blocks_of(raw@));
    proof {
        adler_fits(raw@);
    }
    push_be(&mut out, adler32(raw));
    out
}

// --- the picture ----------------------------------------------------------

/// Rows one after the other.
pub open spec fn flat(rows: Seq<Seq<u8>>) -> Seq<u8>
    decreases rows.len(),
{
    if rows.len() == 0 {
        Seq::empty()
    } else {
        flat(rows.drop_last()) + rows.last()
    }
}

/// The header: width, height, eight bits per channel, true colour, and
/// nothing unusual.
pub open spec fn header_of(w: u32, h: u32) -> Seq<u8> {
    to_be(w as nat) + to_be(h as nat) + seq![8u8, 2u8, 0u8, 0u8, 0u8]
}

/// The bytes `IHDR`.
pub open spec fn ihdr() -> Seq<u8> {
    seq![0x49u8, 0x48, 0x44, 0x52]
}

/// The bytes `IDAT`.
pub open spec fn idat() -> Seq<u8> {
    seq![0x49u8, 0x44, 0x41, 0x54]
}

/// The bytes `IEND`.
pub open spec fn iend() -> Seq<u8> {
    seq![0x49u8, 0x45, 0x4E, 0x44]
}

/// A PNG file of some rows.
pub open spec fn file_of(w: u32, h: u32, rows: Seq<Seq<u8>>) -> Seq<u8> {
    png_signature() + chunk_of(ihdr(), header_of(w, h)) + chunk_of(idat(), stream_of(flat(rows)))
        + chunk_of(iend(), Seq::empty())
}

/// Whether a row is what a painter paints: no filter, then three bytes per
/// pixel.
pub open spec fn is_row<P: Fn(u32, u32) -> [u8; 3]>(row: Seq<u8>, px: P, w: u32, y: u32) -> bool {
    &&& row.len() == 1 + 3 * w
    &&& row[0] == 0
    &&& forall|x: u32| x < w ==> #[trigger] is_pixel(row, px, x, y)
}

/// Whether a pixel of a row is what a painter paints.
pub open spec fn is_pixel<P: Fn(u32, u32) -> [u8; 3]>(row: Seq<u8>, px: P, x: u32, y: u32) -> bool {
    exists|p: [u8; 3]| #[trigger]
        call_ensures(px, (x, y), p) && row[1 + 3 * x] == p@[0] && row[2 + 3 * x] == p@[1] && row[3
            + 3 * x] == p@[2]
}

/// Whether rows are what a painter paints.
pub open spec fn is_picture<P: Fn(u32, u32) -> [u8; 3]>(
    rows: Seq<Seq<u8>>,
    px: P,
    w: u32,
    h: u32,
) -> bool {
    rows.len() == h && forall|y: u32| y < h ==> is_row(#[trigger] rows[y as int], px, w, y)
}

/// The length of a stream.
proof fn blocks_length(raw: Seq<u8>)
    ensures
        blocks_of(raw).len() <= raw.len() + 5 * (raw.len() / BLOCK as nat + 1),
    decreases raw.len(),
{
    if raw.len() > BLOCK {
        blocks_length(raw.skip(BLOCK as int));
    }
}

proof fn flat_length(rows: Seq<Seq<u8>>, n: int)
    requires
        forall|i: int| 0 <= i < rows.len() ==> (#[trigger] rows[i]).len() == n,
    ensures
        flat(rows).len() == rows.len() * n,
    decreases rows.len(),
{
    if rows.len() > 0 {
        let rest = rows.drop_last();
        assert forall|i: int| 0 <= i < rest.len() implies (#[trigger] rest[i]).len() == n by {
            assert(rest[i] == rows[i]);
        }
        flat_length(rest, n);
        assert(rows.len() * n == (rows.len() - 1) * n + n) by (nonlinear_arith);
    } else {
        assert(rows.len() * n == 0) by (nonlinear_arith)
            requires
                rows.len() == 0,
        ;
    }
}

fn paint_row<P: Fn(u32, u32) -> [u8; 3]>(raw: &mut Vec<u8>, px: &P, w: u32, y: u32) -> (r: Ghost<
    Seq<u8>,
>)
    requires
        forall|x: u32| x < w ==> call_requires(*px, (x, y)),
    ensures
        is_row(r@, *px, w, y),
        final(raw)@ == old(raw)@ + r@,
{
    let ghost mut row: Seq<u8> = seq![0u8];
    raw.push(0);
    assert(raw@ == old(raw)@ + row);
    let mut x: u32 = 0;
    while x < w
        invariant
            x <= w,
            raw@ == old(raw)@ + row,
            row.len() == 1 + 3 * x,
            row[0] == 0,
            forall|k: u32| k < w ==> call_requires(*px, (k, y)),
            forall|k: u32| k < x ==> #[trigger] is_pixel(row, *px, k, y),
        decreases w - x,
    {
        let p: [u8; 3] = px(x, y);
        raw.push(p[0]);
        raw.push(p[1]);
        raw.push(p[2]);
        proof {
            let before = row;
            row = before + seq![p@[0], p@[1], p@[2]];
            assert(raw@ == old(raw)@ + row);
            assert forall|k: u32| k < x + 1 implies #[trigger] is_pixel(row, *px, k, y) by {
                if k < x {
                    assert(is_pixel(before, *px, k, y));
                    let q = choose|q: [u8; 3]| #[trigger]
                        call_ensures(*px, (k, y), q) && before[1 + 3 * k] == q@[0] && before[2 + 3
                            * k] == q@[1] && before[3 + 3 * k] == q@[2];
                    assert(row[1 + 3 * k] == before[1 + 3 * k]);
                    assert(row[2 + 3 * k] == before[2 + 3 * k]);
                    assert(row[3 + 3 * k] == before[3 + 3 * k]);
                } else {
                    assert(call_ensures(*px, (k, y), p));
                }
            }
        }
        x = x + 1;
    }
    Ghost(row)
}

/// Whether a picture's stream fits in a chunk.
pub open spec fn fits(w: u32, h: u32) -> bool {
    let raw = h * (1 + 3 * w);
    raw + 5 * (raw / BLOCK as int + 1) + 6 <= u32::MAX
}

/// An RGB picture of `w`×`h`, eight bits per channel, painted by
/// `px(x, y) -> [r, g, b]`.
pub fn rgb<P: Fn(u32, u32) -> [u8; 3]>(w: u32, h: u32, px: P) -> (r: Vec<u8>)
    requires
        forall|x: u32, y: u32| x < w && y < h ==> call_requires(px, (x, y)),
        fits(w, h),
    ensures
        exists|rows: Seq<Seq<u8>>| #[trigger]
            is_picture(rows, px, w, h) && r@ == file_of(w, h, rows),
{
    let mut raw: Vec<u8> = Vec::new();
    let ghost mut rows: Seq<Seq<u8>> = Seq::empty();
    let mut y: u32 = 0;
    assert(raw@ == flat(rows));
    while y < h
        invariant
            y <= h,
            raw@ == flat(rows),
            is_picture(rows, px, w, y),
            forall|a: u32, b: u32| a < w && b < h ==> call_requires(px, (a, b)),
        decreases h - y,
    {
        let row = paint_row(&mut raw, &px, w, y);
        proof {
            let before = rows;
            rows = before.push(row@);
            assert(rows.drop_last() == before);
            assert forall|k: u32| k < y + 1 implies is_row(#[trigger] rows[k as int], px, w, k) by {
                if k < y {
                    assert(rows[k as int] == before[k as int]);
                }
            }
        }
        y = y + 1;
    }
    proof {
        assert forall|i: int| 0 <= i < rows.len() implies (#[trigger] rows[i]).len() == 1 + 3
            * w by {
            assert(is_row(rows[(i as u32) as int], px, w, i as u32));
        }
        flat_length(rows, 1 + 3 * w);
        blocks_length(raw@);
    }
    let mut out: Vec<u8> = Vec::new();
    out.push(0x89);
    out.push(0x50);
    out.push(0x4E);
    out.push(0x47);
    out.push(0x0D);
    out.push(0x0A);
    out.push(0x1A);
    out.push(0x0A);
    assert(out@ == png_signature());
    let mut header: Vec<u8> = Vec::new();
    push_be(&mut header, w);
    push_be(&mut header, h);
    header.push(8);
    header.push(2);
    header.push(0);
    header.push(0);
    header.push(0);
    assert(header@ == header_of(w, h));
    chunk(&mut out, &[0x49u8, 0x48, 0x44, 0x52], &header);
    let stream = zlib_stored(&raw);
    chunk(&mut out, &[0x49u8, 0x44, 0x41, 0x54], &stream);
    let nothing: Vec<u8> = Vec::new();
    chunk(&mut out, &[0x49u8, 0x45, 0x4E, 0x44], &nothing);
    proof {
        assert([0x49u8, 0x48, 0x44, 0x52]@ == ihdr());
        assert([0x49u8, 0x44, 0x41, 0x54]@ == idat());
        assert([0x49u8, 0x45, 0x4E, 0x44]@ == iend());
        assert(nothing@ == Seq::<u8>::empty());
        assert(out@ == file_of(w, h, rows));
    }
    out
}

/// One pixel of the made-up cover: a white corner, and two colours on the two
/// sides of a diagonal.
pub open spec fn cover_pixel(size: u32, hue: u8, x: u32, y: u32) -> Seq<u8> {
    if x < size / 5 && y < size / 5 {
        seq![255u8, 255u8, 255u8]
    } else if x + y < size {
        seq![hue, (hue * 3 % 256) as u8, (255 - hue) as u8]
    } else {
        seq![(255 - hue) as u8, (hue * 7 % 256) as u8, ((hue + 64) % 256) as u8]
    }
}

/// The rows of the made-up cover.
pub open spec fn cover_rows(size: u32, hue: u8) -> Seq<Seq<u8>> {
    Seq::new(size as nat, |y: int| cover_row(size, hue, size as nat, y as u32))
}

/// One row of the made-up cover, as far as some pixels.
pub open spec fn cover_row(size: u32, hue: u8, n: nat, y: u32) -> Seq<u8>
    decreases n,
{
    if n == 0 {
        seq![0u8]
    } else {
        cover_row(size, hue, (n - 1) as nat, y) + cover_pixel(size, hue, (n - 1) as u32, y)
    }
}

proof fn cover_row_index(size: u32, hue: u8, n: nat, y: u32)
    requires
        n <= size,
    ensures
        cover_row(size, hue, n, y).len() == 1 + 3 * n,
        cover_row(size, hue, n, y)[0] == 0,
        forall|x: u32| #![trigger cover_pixel(size, hue, x, y)]
            x < n ==> {
                let row = cover_row(size, hue, n, y);
                let p = cover_pixel(size, hue, x, y);
                row[1 + 3 * x] == p[0] && row[2 + 3 * x] == p[1] && row[3 + 3 * x] == p[2]
            },
    decreases n,
{
    if n > 0 {
        cover_row_index(size, hue, (n - 1) as nat, y);
        let before = cover_row(size, hue, (n - 1) as nat, y);
        let row = cover_row(size, hue, n, y);
        assert forall|x: u32| #![trigger cover_pixel(size, hue, x, y)] x < n implies {
            let p = cover_pixel(size, hue, x, y);
            row[1 + 3 * x] == p[0] && row[2 + 3 * x] == p[1] && row[3 + 3 * x] == p[2]
        } by {
            let p = cover_pixel(size, hue, x, y);
            if x < n - 1 {
                assert(row[1 + 3 * x] == before[1 + 3 * x]);
                assert(row[2 + 3 * x] == before[2 + 3 * x]);
                assert(row[3 + 3 * x] == before[3 + 3 * x]);
            }
        }
    }
}

/// Fake cover art: a two-tone diagonal split with a corner block, so that
/// different tracks produce visibly and perceptually distinct images.
pub fn fake_cover(size: u32, hue: u8) -> (r: Vec<u8>)
    requires
        fits(size, size),
    ensures
        r@ == file_of(size, size, cover_rows(size, hue)),
{
    let h: u32 = hue as u32;
    let a1: u8 = (h * 3 % 256) as u8;
    let a2: u8 = 255 - hue;
    let b1: u8 = (h * 7 % 256) as u8;
    let b2: u8 = ((h + 64) % 256) as u8;
    let corner: u32 = size / 5;
    let px = |x: u32, y: u32| -> (p: [u8; 3])
        requires
            x < size,
            y < size,
        ensures
            p@ == cover_pixel(size, hue, x, y),
        {
            let p: [u8; 3] = if x < corner && y < corner {
                [255, 255, 255]
            } else if x < size - y {
                [hue, a1, a2]
            } else {
                [a2, b1, b2]
            };
            assert(p@ == cover_pixel(size, hue, x, y));
            p
        };
    let r = rgb(size, size, px);
    proof {
        let rows = choose|rows: Seq<Seq<u8>>| #[trigger]
            is_picture(rows, px, size, size) && r@ == file_of(size, size, rows);
        let want = cover_rows(size, hue);
        assert forall|i: int| 0 <= i < size implies rows[i] == want[i] by {
            let y = i as u32;
            assert(is_row(rows[y as int], px, size, y));
            cover_row_index(size, hue, size as nat, y);
            let row = rows[i];
            assert forall|k: int| 0 <= k < row.len() implies row[k] == want[i][k] by {
                if k > 0 {
                    let x = ((k - 1) / 3) as u32;
                    assert(is_pixel(row, px, x, y));
                    let p = choose|p: [u8; 3]| #[trigger]
                        call_ensures(px, (x, y), p) && row[1 + 3 * x] == p@[0] && row[2 + 3 * x]
                            == p@[1] && row[3 + 3 * x] == p@[2];
                    let q = cover_pixel(size, hue, x, y);
                    assert(p@ == q);
                }
            }
            assert(row == want[i]);
        }
        assert(rows == want);
    }
    r
}

// --- laws -----------------------------------------------------------------

/// The size of a written picture reads back from its header.
pub proof fn the_size_reads_back(w: u32, h: u32, rows: Seq<Seq<u8>>)
    requires
        w > 0,
        h > 0,
    ensures
        ImageKind::of(file_of(w, h, rows)) == ImageKind::Png,
        png_size(file_of(w, h, rows)) == Some((w, h)),
{
    let f = file_of(w, h, rows);
    let c = chunk_of(ihdr(), header_of(w, h));
    let head = png_signature() + c;
    assert(c.len() == 25);
    assert(f.len() >= 33);
    assert forall|i: int| 0 <= i < 33 implies f[i] == head[i] by {}
    assert(f.take(8) == png_signature());
    assert(f[0] == 0x89);
    if starts(f, crate::artwork::jpeg_signature()) {
        assert(f.take(3)[0] == crate::artwork::jpeg_signature()[0]);
    }
    assert(f.subrange(12, 16) == ihdr()) by {
        assert(c.subrange(4, 8) == ihdr());
    }
    assert(f.subrange(16, 20) == to_be(w as nat)) by {
        assert(c.subrange(8, 12) == to_be(w as nat));
    }
    assert(f.subrange(20, 24) == to_be(h as nat)) by {
        assert(c.subrange(12, 16) == to_be(h as nat));
    }
    be_round_trip(f, 16, w as nat);
    be_round_trip(f, 20, h as nat);
}

/// The bytes that a run of blocks from a place on holds: a reader that
/// understands nothing but uncompressed blocks.
pub open spec fn held(z: Seq<u8>, at: int) -> Seq<u8>
    decreases z.len() - at,
{
    if at < 0 || at + 5 > z.len() {
        Seq::empty()
    } else {
        let n = z[at + 1] + z[at + 2] * 256;
        if at + 5 + n > z.len() {
            Seq::empty()
        } else if z[at] == 1 {
            z.subrange(at + 5, at + 5 + n)
        } else {
            z.subrange(at + 5, at + 5 + n) + held(z, at + 5 + n)
        }
    }
}

/// A stream holds what was put into it, however many blocks that takes.
pub proof fn streams_hold_their_bytes(raw: Seq<u8>)
    ensures
        held(stream_of(raw), 2) == raw,
{
    let z = stream_of(raw);
    assert(z.subrange(2, blocks_of(raw).len() + 2int) == blocks_of(raw));
    blocks_hold(z, 2, raw);
}

/// The body of the chunk after the header of a PNG file.
pub open spec fn second_body(f: Seq<u8>) -> Seq<u8> {
    f.subrange(41, 41 + be32(f, 33))
}

/// A painted picture reads back: its file is a PNG of the size that was asked
/// for, in true colour at eight bits per channel and not interlaced, and the
/// stream in its `IDAT` chunk holds the rows that were painted, in order.
pub proof fn a_picture_reads_back<P: Fn(u32, u32) -> [u8; 3]>(
    w: u32,
    h: u32,
    px: P,
    rows: Seq<Seq<u8>>,
)
    requires
        w > 0,
        h > 0,
        fits(w, h),
        is_picture(rows, px, w, h),
    ensures
        ImageKind::of(file_of(w, h, rows)) == ImageKind::Png,
        png_size(file_of(w, h, rows)) == Some((w, h)),
        file_of(w, h, rows).subrange(24, 29) == seq![8u8, 2u8, 0u8, 0u8, 0u8],
        file_of(w, h, rows).subrange(37, 41) == idat(),
        held(second_body(file_of(w, h, rows)), 2) == flat(rows),
{
    the_size_reads_back(w, h, rows);
    streams_hold_their_bytes(flat(rows));
    pictures_fit(w, h, px, rows);
    chunks_stand_in_order(header_of(w, h), stream_of(flat(rows)));
    assert(header_of(w, h).subrange(8, 13) == seq![8u8, 2u8, 0u8, 0u8, 0u8]);
}

/// The stream of a picture fits in a chunk.
proof fn pictures_fit<P: Fn(u32, u32) -> [u8; 3]>(w: u32, h: u32, px: P, rows: Seq<Seq<u8>>)
    requires
        fits(w, h),
        is_picture(rows, px, w, h),
    ensures
        stream_of(flat(rows)).len() <= u32::MAX,
{
    assert forall|i: int| 0 <= i < rows.len() implies (#[trigger] rows[i]).len() == 1 + 3 * w by {
        assert(is_row(rows[(i as u32) as int], px, w, i as u32));
    }
    flat_length(rows, 1 + 3 * w);
    blocks_length(flat(rows));
}

/// Where the parts of a file lie.
proof fn chunks_stand_in_order(header: Seq<u8>, z: Seq<u8>)
    requires
        header.len() == 13,
        z.len() <= u32::MAX,
    ensures
        ({
            let f = png_signature() + chunk_of(ihdr(), header) + chunk_of(idat(), z) + chunk_of(
                iend(),
                Seq::empty(),
            );
            &&& f.subrange(24, 29) == header.subrange(8, 13)
            &&& f.subrange(37, 41) == idat()
            &&& second_body(f) == z
        }),
{
    let first = chunk_of(ihdr(), header);
    let data = chunk_of(idat(), z);
    let end = chunk_of(iend(), Seq::empty());
    let head = png_signature() + first;
    let f = head + data + end;
    assert(first.len() == 25);
    assert(data.len() == 12 + z.len());
    assert(head.len() == 33);
    assert(first.subrange(16, 21) == header.subrange(8, 13));
    assert(f.subrange(24, 29) == first.subrange(16, 21));
    assert(f.subrange(33, 33 + data.len() as int) == data);
    assert(data.subrange(0, 4) == to_be(z.len()));
    assert(data.subrange(4, 8) == idat());
    assert(data.subrange(8, 8 + z.len() as int) == z);
    assert(f.subrange(33, 37) == data.subrange(0, 4));
    assert(f.subrange(37, 41) == data.subrange(4, 8));
    be_round_trip(f, 33, z.len());
    assert(f.subrange(41, 41 + z.len() as int) == data.subrange(8, 8 + z.len() as int));
}

proof fn blocks_hold(z: Seq<u8>, at: int, raw: Seq<u8>)
    requires
        0 <= at,
        at + blocks_of(raw).len() <= z.len(),
        z.subrange(at, at + blocks_of(raw).len()) == blocks_of(raw),
    ensures
        held(z, at) == raw,
    decreases raw.len(),
{
    let all = blocks_of(raw);
    let part = if raw.len() <= BLOCK {
        raw
    } else {
        raw.take(BLOCK as int)
    };
    let b = block_of(raw.len() <= BLOCK, part);
    let n = part.len() as int;
    assert(b.len() == 5 + n);
    assert forall|i: int| 0 <= i < b.len() implies z[at + i] == b[i] by {
        assert(z.subrange(at, at + all.len())[i] == all[i]);
        assert(all[i] == b[i]);
    }
    assert(z[at] == b[0] && z[at + 1] == b[1] && z[at + 2] == b[2]);
    assert(z[at + 1] + z[at + 2] * 256 == n);
    assert(z.subrange(at + 5, at + 5 + n) == part) by {
        assert forall|i: int| 0 <= i < n implies z[at + 5 + i] == part[i] by {
            assert(z[at + (5 + i)] == b[5 + i]);
        }
    }
    if raw.len() > BLOCK {
        let rest = raw.skip(BLOCK as int);
        assert(z.subrange(at + 5 + n, at + 5 + n + blocks_of(rest).len()) == blocks_of(rest)) by {
            assert forall|i: int| 0 <= i < blocks_of(rest).len() implies z[at + 5 + n + i]
                == blocks_of(rest)[i] by {
                assert(z.subrange(at, at + all.len())[5 + n + i] == all[5 + n + i]);
                assert(all[5 + n + i] == blocks_of(rest)[i]);
            }
        }
        blocks_hold(z, at + 5 + n, rest);
        assert(part + rest == raw);
    }
}

} // verus!
