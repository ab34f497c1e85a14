//! Image maths for the perceptual gate: box downscaling, difference hashing,
//! and the distance of two hashes.
//!
//! Everything here is deterministic. Accept and reject decisions
//! depend on identical output for identical input, on every platform, so the
//! arithmetic is on whole numbers throughout.

use vstd::prelude::*;

verus! {

broadcast use vstd::seq::group_seq_axioms;

/// The light of each sRGB value, in parts of 2^24.
pub const LINEAR: [u32; 256] = [
    0x0, 0x13e4, 0x27c9, 0x3bad, 0x4f91, 0x6376, 0x775a, 0x8b3e,
    0x9f23, 0xb307, 0xc6eb, 0xdb52, 0xf0f2, 0x107c4, 0x11fcc, 0x13910,
    0x15393, 0x16f5b, 0x18c6b, 0x1aac7, 0x1ca74, 0x1eb75, 0x20dcf, 0x23185,
    0x2569c, 0x27d17, 0x2a4fa, 0x2ce48, 0x2f905, 0x32535, 0x352db, 0x381fb,
    0x3b297, 0x3e4b5, 0x41855, 0x44d7d, 0x4842f, 0x4bc6e, 0x4f63e, 0x531a2,
    0x56e9c, 0x5ad30, 0x5ed61, 0x62f32, 0x672a5, 0x6b7bf, 0x6fe81, 0x746ee,
    0x79109, 0x7dcd6, 0x82a57, 0x8798e, 0x8ca7e, 0x91d2b, 0x97196, 0x9c7c3,
    0xa1fb4, 0xa796b, 0xad4ec, 0xb3238, 0xb9153, 0xbf23e, 0xc54fd, 0xcb992,
    0xd1fff, 0xd8846, 0xdf26b, 0xe5e70, 0xecc56, 0xf3c21, 0xfadd2, 0x10216d,
    0x1096f2, 0x110e66, 0x1187c9, 0x12031f, 0x128068, 0x12ffa9, 0x1380e3, 0x140417,
    0x148949, 0x15107b, 0x1599ae, 0x1624e5, 0x16b222, 0x174167, 0x17d2b6, 0x186612,
    0x18fb7c, 0x1992f7, 0x1a2c84, 0x1ac825, 0x1b65de, 0x1c05af, 0x1ca79b, 0x1d4ba3,
    0x1df1ca, 0x1e9a12, 0x1f447d, 0x1ff10c, 0x209fc1, 0x2150a0, 0x2203a9, 0x22b8de,
    0x237041, 0x2429d5, 0x24e59a, 0x25a394, 0x2663c4, 0x27262b, 0x27eacc, 0x28b1a8,
    0x297ac2, 0x2a461a, 0x2b13b4, 0x2be390, 0x2cb5b1, 0x2d8a18, 0x2e60c8, 0x2f39c1,
    0x301506, 0x30f298, 0x31d279, 0x32b4ac, 0x339931, 0x34800a, 0x35693a, 0x3654c1,
    0x3742a2, 0x3832de, 0x392578, 0x3a1a6f, 0x3b11c8, 0x3c0b82, 0x3d07a0, 0x3e0623,
    0x3f070d, 0x400a60, 0x41101d, 0x421845, 0x4322dc, 0x442fe2, 0x453f58, 0x465141,
    0x47659d, 0x487c70, 0x4995b9, 0x4ab17b, 0x4bcfb8, 0x4cf070, 0x4e13a6, 0x4f395b,
    0x506190, 0x518c48, 0x52b983, 0x53e944, 0x551b8b, 0x56505b, 0x5787b4, 0x58c199,
    0x59fe0a, 0x5b3d0a, 0x5c7e9a, 0x5dc2bb, 0x5f096f, 0x6052b7, 0x619e95, 0x62ed0a,
    0x643e18, 0x6591c0, 0x66e804, 0x6840e5, 0x699c65, 0x6afa84, 0x6c5b45, 0x6dbea9,
    0x6f24b1, 0x708d5f, 0x71f8b5, 0x7366b2, 0x74d75a, 0x764aae, 0x77c0ae, 0x79395c,
    0x7ab4ba, 0x7c32c9, 0x7db38b, 0x7f3700, 0x80bd2b, 0x82460c, 0x83d1a5, 0x855ff7,
    0x86f104, 0x8884cd, 0x8a1b54, 0x8bb499, 0x8d509f, 0x8eef65, 0x9090ef, 0x92353d,
    0x93dc50, 0x95862a, 0x9732cc, 0x98e237, 0x9a946e, 0x9c4970, 0x9e0140, 0x9fbbde,
    0xa1794d, 0xa3398c, 0xa4fc9f, 0xa6c285, 0xa88b41, 0xaa56d2, 0xac253c, 0xadf67f,
    0xafca9c, 0xb1a194, 0xb37b6a, 0xb5581d, 0xb737b0, 0xb91a24, 0xbaff7a, 0xbce7b2,
    0xbed2cf, 0xc0c0d2, 0xc2b1bc, 0xc4a58e, 0xc69c49, 0xc895ef, 0xca9280, 0xcc91ff,
    0xce946c, 0xd099c9, 0xd2a216, 0xd4ad56, 0xd6bb88, 0xd8ccaf, 0xdae0cc, 0xdcf7df,
    0xdf11ea, 0xe12eef, 0xe34eee, 0xe571e9, 0xe797e0, 0xe9c0d5, 0xebecca, 0xee1bbf,
    0xf04db5, 0xf282ae, 0xf4baab, 0xf6f5ae, 0xf933b6, 0xfb74c6, 0xfdb8de, 0x1000000,
];

/// The least light, in parts of 2^24, that is nearer to an sRGB value than to
/// the one below it.
pub const NEAREST: [u32; 256] = [
    0x0, 0x9f3, 0x1dd7, 0x31bb, 0x45a0, 0x5984, 0x6d68, 0x814d,
    0x9531, 0xa915, 0xbcfa, 0xd0f3, 0xe5fc, 0xfc35, 0x113a1, 0x12c47,
    0x1462a, 0x1614f, 0x17dba, 0x19b6f, 0x1ba73, 0x1daca, 0x1fc77, 0x21f7f,
    0x243e5, 0x269ad, 0x290dc, 0x2b974, 0x2e379, 0x30eef, 0x33bda, 0x36a3c,
    0x39a1a, 0x3cb76, 0x3fe55, 0x432b9, 0x468a5, 0x4a01d, 0x4d924, 0x513be,
    0x54fec, 0x58db3, 0x5cd15, 0x60e16, 0x650b8, 0x694fe, 0x6daeb, 0x72282,
    0x76bc6, 0x7b6ba, 0x80360, 0x851bc, 0x8a1cf, 0x8f39d, 0x94729, 0x99c75,
    0x9f383, 0xa4c57, 0xaa6f3, 0xb0359, 0xb618c, 0xbc18f, 0xc2364, 0xc870d,
    0xcec8e, 0xd53e8, 0xdbd1e, 0xe2832, 0xe9527, 0xf03ff, 0xf74bd, 0xfe763,
    0x105bf2, 0x10d26f, 0x114ada, 0x11c536, 0x124185, 0x12bfca, 0x134007, 0x13c23e,
    0x144671, 0x14cca2, 0x1554d4, 0x15df09, 0x166b43, 0x16f984, 0x1789ce, 0x181c23,
    0x18b086, 0x1946f8, 0x19df7b, 0x1a7a12, 0x1b16bf, 0x1bb584, 0x1c5662, 0x1cf95c,
    0x1d9e73, 0x1e45aa, 0x1eef03, 0x1f9a80, 0x204822, 0x20f7ec, 0x21a9df, 0x225dfe,
    0x23144a, 0x23ccc5, 0x248772, 0x254451, 0x260366, 0x26c4b1, 0x278835, 0x284df3,
    0x2915ee, 0x29e027, 0x2aaca0, 0x2b7b5a, 0x2c4c59, 0x2d1f9c, 0x2df527, 0x2eccfb,
    0x2fa71a, 0x308386, 0x31623f, 0x324349, 0x3326a4, 0x340c53, 0x34f458, 0x35deb3,
    0x36cb67, 0x37ba75, 0x38abe0, 0x399fa8, 0x3a95d0, 0x3b8e59, 0x3c8945, 0x3d8695,
    0x3e864b, 0x3f886a, 0x408cf1, 0x4193e4, 0x429d43, 0x43a911, 0x44b74f, 0x45c7fe,
    0x46db21, 0x47f0b8, 0x4908c6, 0x4a234b, 0x4b404b, 0x4c5fc5, 0x4d81bc, 0x4ea631,
    0x4fcd26, 0x50f69c, 0x522296, 0x535113, 0x548217, 0x55b5a2, 0x56ebb7, 0x582455,
    0x595f80, 0x5a9d39, 0x5bdd80, 0x5d2059, 0x5e65c3, 0x5fadc1, 0x60f854, 0x62457d,
    0x63953e, 0x64e799, 0x663c8f, 0x679421, 0x68ee51, 0x6a4b21, 0x6baa91, 0x6d0ca3,
    0x6e7159, 0x6fd8b4, 0x7142b5, 0x72af5f, 0x741eb2, 0x7590af, 0x770559, 0x787cb0,
    0x79f6b6, 0x7b736c, 0x7cf2d4, 0x7e74ef, 0x7ff9bf, 0x818145, 0x830b82, 0x849877,
    0x862827, 0x87ba92, 0x894fb9, 0x8ae79f, 0x8c8244, 0x8e1faa, 0x8fbfd2, 0x9162be,
    0x93086e, 0x94b0e4, 0x965c22, 0x980a29, 0x99bafa, 0x9b6e96, 0x9d24ff, 0x9ede36,
    0xa09a3c, 0xa25913, 0xa41abc, 0xa5df38, 0xa7a689, 0xa970af, 0xab3dad, 0xad0d83,
    0xaee032, 0xb0b5bd, 0xb28e24, 0xb46968, 0xb6478b, 0xb8288f, 0xba0c73, 0xbbf33a,
    0xbddce5, 0xbfc975, 0xc1b8eb, 0xc3ab48, 0xc5a08f, 0xc798bf, 0xc993db, 0xcb91e3,
    0xcd92d8, 0xcf96bd, 0xd19d92, 0xd3a758, 0xd5b411, 0xd7c3be, 0xd9d65f, 0xdbebf7,
    0xde0486, 0xe0200e, 0xe23e90, 0xe4600c, 0xe68485, 0xe8abfb, 0xead670, 0xed03e5,
    0xef345a, 0xf167d2, 0xf39e4d, 0xf5d7cc, 0xf81451, 0xfa53dd, 0xfc9671, 0xfedc0e,
];

// --- downscaling ----------------------------------------------------------

/// The light of an sRGB value.
pub open spec fn light(v: u8) -> nat {
    LINEAR@[v as int] as nat
}

/// The sRGB value nearest to the mean of `n` amounts of light that add up to
/// `sum`, sought from `from` upwards.
pub open spec fn nearest_from(sum: nat, n: nat, from: nat) -> nat
    decreases 255 - from,
{
    if from >= 255 || sum < NEAREST@[from as int + 1] as nat * n {
        from
    } else {
        nearest_from(sum, n, from + 1)
    }
}

/// The sRGB value nearest to a mean amount of light.
pub open spec fn encoded(sum: nat, n: nat) -> nat {
    nearest_from(sum, n, 0)
}

/// The mean rounded to the nearest whole number, halves upwards.
pub open spec fn rounded_mean(sum: nat, n: nat) -> nat {
    (2 * sum + n) / (2 * n)
}

/// Where the source span of a destination place begins.
pub open spec fn span_start(o: nat, size: nat, out: nat) -> nat {
    (o * size) / out
}

/// Where it ends. It is at least one pixel wide, so every destination pixel
/// has something to average.
pub open spec fn span_end(o: nat, size: nat, out: nat) -> nat {
    let ceil = ((o + 1) * size + out - 1) as nat / out;
    let wide = if ceil > span_start(o, size, out) + 1 {
        ceil
    } else {
        span_start(o, size, out) + 1
    };
    if wide < size {
        wide
    } else {
        size
    }
}

/// One channel of one pixel.
pub open spec fn sample(rgba: Seq<u8>, w: nat, x: nat, y: nat, ch: nat) -> u8 {
    rgba[((y * w + x) * 4 + ch) as int]
}

/// What a sample contributes: its light, or itself if it is the alpha.
pub open spec fn weight(v: u8, ch: nat) -> nat {
    if ch == 3 {
        v as nat
    } else {
        light(v)
    }
}

/// What a piece of a row contributes.
pub open spec fn row_sum(rgba: Seq<u8>, w: nat, y: nat, x0: nat, x1: nat, ch: nat) -> nat
    decreases x1,
{
    if x1 <= x0 {
        0
    } else {
        row_sum(rgba, w, y, x0, (x1 - 1) as nat, ch) + weight(
            sample(rgba, w, (x1 - 1) as nat, y, ch),
            ch,
        )
    }
}

/// What a rectangle contributes.
pub open spec fn area_sum(
    rgba: Seq<u8>,
    w: nat,
    x0: nat,
    x1: nat,
    y0: nat,
    y1: nat,
    ch: nat,
) -> nat
    decreases y1,
{
    if y1 <= y0 {
        0
    } else {
        area_sum(rgba, w, x0, x1, y0, (y1 - 1) as nat, ch) + row_sum(
            rgba,
            w,
            (y1 - 1) as nat,
            x0,
            x1,
            ch,
        )
    }
}

/// One channel of one destination pixel: the mean over its source span, in
/// linear light for the colours.
pub open spec fn box_mean(
    rgba: Seq<u8>,
    w: nat,
    h: nat,
    ow: nat,
    oh: nat,
    ox: nat,
    oy: nat,
    ch: nat,
) -> nat {
    let x0 = span_start(ox, w, ow);
    let x1 = span_end(ox, w, ow);
    let y0 = span_start(oy, h, oh);
    let y1 = span_end(oy, h, oh);
    let sum = area_sum(rgba, w, x0, x1, y0, y1, ch);
    let n = ((x1 - x0) * (y1 - y0)) as nat;
    if ch == 3 {
        rounded_mean(sum, n)
    } else {
        encoded(sum, n)
    }
}

/// Whether there is something to downscale, and to downscale to.
pub open spec fn resizable(rgba: Seq<u8>, w: nat, h: nat, ow: nat, oh: nat) -> bool {
    w > 0 && h > 0 && ow > 0 && oh > 0 && rgba.len() >= w * h * 4
}

/// A picture downscaled.
pub open spec fn resized(rgba: Seq<u8>, w: nat, h: nat, ow: nat, oh: nat) -> Seq<u8> {
    if !resizable(rgba, w, h, ow, oh) {
        Seq::empty()
    } else {
        Seq::new(
            ow * oh * 4,
            |i: int|
                box_mean(
                    rgba,
                    w,
                    h,
                    ow,
                    oh,
                    ((i / 4) % ow as int) as nat,
                    ((i / 4) / ow as int) as nat,
                    (i % 4) as nat,
                ) as u8,
        )
    }
}

fn light_table() -> (r: Vec<u32>)
    ensures
        r@ == LINEAR@,
{
    let mut out: Vec<u32> = Vec::new();
    let mut i: usize = 0;
    while i < 256
        invariant
            i <= 256,
            out@ == LINEAR@.take(i as int),
        decreases 256 - i,
    {
        out.push(LINEAR[i]);
        i = i + 1;
        assert(LINEAR@.take(i as int) == LINEAR@.take(i - 1).push(LINEAR@[i - 1]));
    }
    assert(LINEAR@.take(256) == LINEAR@);
    out
}

fn encode(sum: u128, n: u128) -> (r: u8)
    requires
        n <= 0xffff_ffff_ffff_ffff,
    ensures
        r == encoded(sum as nat, n as nat),
{
    let mut k: u8 = 0;
    while k < 255
        invariant
            k <= 255,
            n <= 0xffff_ffff_ffff_ffff,
            nearest_from(sum as nat, n as nat, k as nat) == encoded(sum as nat, n as nat),
        decreases 255 - k,
    {
        let t: u128 = NEAREST[k as usize + 1] as u128;
        assert(t * n <= 0xffff_ffff * 0xffff_ffff_ffff_ffff) by (nonlinear_arith)
            requires
                0 <= t <= 0xffff_ffff,
                0 <= n <= 0xffff_ffff_ffff_ffff,
        ;
        if sum < t * n {
            return k;
        }
        k = k + 1;
    }
    k
}

/// Spans lie inside the picture and are not empty.
proof fn span_bounds(o: nat, size: nat, out: nat)
    requires
        size > 0,
        o < out,
    ensures
        span_start(o, size, out) < span_end(o, size, out) <= size,
{
    let start = span_start(o, size, out);
    assert(start < size) by {
        assert((o * size) / out < size) by (nonlinear_arith)
            requires
                o < out,
                size > 0,
        ;
    }
}

fn span(o: u32, size: u32, out: u32) -> (r: (u32, u32))
    requires
        size > 0,
        o < out,
    ensures
        r.0 == span_start(o as nat, size as nat, out as nat),
        r.1 == span_end(o as nat, size as nat, out as nat),
        r.0 < r.1 <= size,
{
    proof {
        span_bounds(o as nat, size as nat, out as nat);
        assert(o * size <= 0xffff_ffff * 0xffff_ffff) by (nonlinear_arith)
            requires
                0 <= o <= 0xffff_ffff,
                0 <= size <= 0xffff_ffff,
        ;
        assert((o + 1) * size <= 0xffff_ffff * 0xffff_ffff) by (nonlinear_arith)
            requires
                0 <= o < 0xffff_ffff,
                0 <= size <= 0xffff_ffff,
        ;
    }
    let start: u64 = (o as u64) * (size as u64) / (out as u64);
    let up: u64 = (o as u64 + 1) * (size as u64) + (out as u64 - 1);
    let ceil: u64 = up / (out as u64);
    let wide: u64 = if ceil > start + 1 {
        ceil
    } else {
        start + 1
    };
    let end: u64 = if wide < size as u64 {
        wide
    } else {
        size as u64
    };
    (start as u32, end as u32)
}

proof fn index_fits(w: int, h: int, x: int, y: int, ch: int)
    requires
        0 <= x < w,
        0 <= y < h,
        0 <= ch < 4,
    ensures
        0 <= y * w + x < w * h,
        0 <= (y * w + x) * 4 + ch < w * h * 4,
{
    assert(0 <= y * w + x < w * h) by (nonlinear_arith)
        requires
            0 <= x < w,
            0 <= y < h,
    ;
}

/// What a rectangle contributes to one channel.
fn sum_area(
    rgba: &[u8],
    table: &Vec<u32>,
    w: u32,
    h: u32,
    xs: (u32, u32),
    ys: (u32, u32),
    ch: u8,
) -> (r: u128)
    requires
        table@ == LINEAR@,
        rgba@.len() >= w * h * 4,
        xs.0 < xs.1 <= w,
        ys.0 < ys.1 <= h,
        ch < 4,
    ensures
        r == area_sum(
            rgba@,
            w as nat,
            xs.0 as nat,
            xs.1 as nat,
            ys.0 as nat,
            ys.1 as nat,
            ch as nat,
        ),
{
    let mut sum: u128 = 0;
    let mut y: u32 = ys.0;
    while y < ys.1
        invariant
            table@ == LINEAR@,
            rgba@.len() >= w * h * 4,
            xs.0 < xs.1 <= w,
            ys.0 <= y <= ys.1 <= h,
            ch < 4,
            sum == area_sum(
                rgba@,
                w as nat,
                xs.0 as nat,
                xs.1 as nat,
                ys.0 as nat,
                y as nat,
                ch as nat,
            ),
            sum <= (y - ys.0) * 0xffff_fffe_0000_0001,
        decreases ys.1 - y,
    {
        let mut row: u128 = 0;
        let mut x: u32 = xs.0;
        while x < xs.1
            invariant
                table@ == LINEAR@,
                rgba@.len() >= w * h * 4,
                xs.0 <= x <= xs.1 <= w,
                y < h,
                ch < 4,
                row == row_sum(rgba@, w as nat, y as nat, xs.0 as nat, x as nat, ch as nat),
                row <= (x - xs.0) * 0xffff_ffff,
            decreases xs.1 - x,
        {
            proof {
                index_fits(w as int, h as int, x as int, y as int, ch as int);
            }
            let len: usize = rgba.len();
            assert((y * w + x) * 4 + ch < len);
            assert(0 <= y * w);
            let at: usize = ((y as usize) * (w as usize) + (x as usize)) * 4 + (ch as usize);
            let v: u8 = rgba[at];
            assert(v == sample(rgba@, w as nat, x as nat, y as nat, ch as nat));
            let add: u32 = if ch == 3 {
                v as u32
            } else {
                table[v as usize]
            };
            row = row + add as u128;
            x = x + 1;
        }
        assert(row <= 0xffff_fffe_0000_0001);
        sum = sum + row;
        y = y + 1;
    }
    sum
}

/// Where a destination place stands in the output.
proof fn place_of(ow: int, ox: int, oy: int, ch: int)
    requires
        0 <= ox < ow,
        0 <= oy,
        0 <= ch < 4,
    ensures
        ({
            let i = (oy * ow + ox) * 4 + ch;
            &&& i % 4 == ch
            &&& (i / 4) % ow == ox
            &&& (i / 4) / ow == oy
        }),
{
    let p = oy * ow + ox;
    let i = p * 4 + ch;
    assert(i % 4 == ch && i / 4 == p);
    vstd::arithmetic::div_mod::lemma_fundamental_div_mod_converse(p, ow, oy, ox);
}

/// Downscale RGBA8 to `out_w` × `out_h` by averaging source pixels.
///
/// Averaging happens in linear light, not on gamma-encoded bytes: averaging
/// sRGB values darkens edges, and on a cover with fine white text on black
/// that is enough to shift the difference hash.
///
/// Returns an empty vector for degenerate input rather than panicking:
/// enrichment runs against bytes fetched from the internet, and a truncated
/// or lying image header must not be able to take the daemon down.
pub fn resize_box(rgba: &[u8], width: u32, height: u32, out_w: u32, out_h: u32) -> (r: Vec<u8>)
    requires
        resizable(rgba@, width as nat, height as nat, out_w as nat, out_h as nat) ==> out_w * out_h
            * 4 <= usize::MAX,
    ensures
        r@ == resized(rgba@, width as nat, height as nat, out_w as nat, out_h as nat),
{
    let mut out: Vec<u8> = Vec::new();
    assert(0 <= width * height <= 0xffff_ffff * 0xffff_ffff) by (nonlinear_arith)
        requires
            0 <= width <= 0xffff_ffff,
            0 <= height <= 0xffff_ffff,
    ;
    let need: u128 = (width as u128) * (height as u128) * 4;
    if width == 0 || height == 0 || out_w == 0 || out_h == 0 || (rgba.len() as u128) < need {
        return out;
    }
    let table = light_table();
    let ghost want = resized(rgba@, width as nat, height as nat, out_w as nat, out_h as nat);
    let mut oy: u32 = 0;
    while oy < out_h
        invariant
            table@ == LINEAR@,
            resizable(rgba@, width as nat, height as nat, out_w as nat, out_h as nat),
            want == resized(rgba@, width as nat, height as nat, out_w as nat, out_h as nat),
            oy <= out_h,
            out@.len() == oy * out_w * 4,
            forall|i: int| 0 <= i < out@.len() ==> out@[i] == want[i],
            out_w * out_h * 4 <= usize::MAX,
        decreases out_h - oy,
    {
        let ys = span(oy, height, out_h);
        let mut ox: u32 = 0;
        while ox < out_w
            invariant
                table@ == LINEAR@,
                resizable(rgba@, width as nat, height as nat, out_w as nat, out_h as nat),
                want == resized(rgba@, width as nat, height as nat, out_w as nat, out_h as nat),
                oy < out_h,
                ox <= out_w,
                ys.0 == span_start(oy as nat, height as nat, out_h as nat),
                ys.1 == span_end(oy as nat, height as nat, out_h as nat),
                ys.0 < ys.1 <= height,
                out@.len() == (oy * out_w + ox) * 4,
                forall|i: int| 0 <= i < out@.len() ==> out@[i] == want[i],
                out_w * out_h * 4 <= usize::MAX,
            decreases out_w - ox,
        {
            let xs = span(ox, width, out_w);
            assert(0 <= (xs.1 - xs.0) * (ys.1 - ys.0) <= 0xffff_ffff * 0xffff_ffff)
                by (nonlinear_arith)
                requires
                    0 < xs.1 - xs.0 <= 0xffff_ffff,
                    0 < ys.1 - ys.0 <= 0xffff_ffff,
            ;
            let n: u128 = ((xs.1 - xs.0) as u128) * ((ys.1 - ys.0) as u128);
            assert(0 < n <= 0xffff_ffff * 0xffff_ffff) by (nonlinear_arith)
                requires
                    n == (xs.1 - xs.0) * (ys.1 - ys.0),
                    0 < xs.1 - xs.0 <= 0xffff_ffff,
                    0 < ys.1 - ys.0 <= 0xffff_ffff,
            ;
            let mut ch: u8 = 0;
            while ch < 4
                invariant
                    table@ == LINEAR@,
                    resizable(rgba@, width as nat, height as nat, out_w as nat, out_h as nat),
                    want == resized(
                        rgba@,
                        width as nat,
                        height as nat,
                        out_w as nat,
                        out_h as nat,
                    ),
                    oy < out_h,
                    ox < out_w,
                    ch <= 4,
                    xs.0 == span_start(ox as nat, width as nat, out_w as nat),
                    xs.1 == span_end(ox as nat, width as nat, out_w as nat),
                    ys.0 == span_start(oy as nat, height as nat, out_h as nat),
                    ys.1 == span_end(oy as nat, height as nat, out_h as nat),
                    xs.0 < xs.1 <= width,
                    ys.0 < ys.1 <= height,
                    n == (xs.1 - xs.0) * (ys.1 - ys.0),
                    0 < n <= 0xffff_ffff * 0xffff_ffff,
                    out@.len() == (oy * out_w + ox) * 4 + ch,
                    forall|i: int| 0 <= i < out@.len() ==> out@[i] == want[i],
                    out_w * out_h * 4 <= usize::MAX,
                decreases 4 - ch,
            {
                let sum = sum_area(rgba, &table, width, height, xs, ys, ch);
                proof {
                    area_bound(
                        rgba@,
                        width as nat,
                        xs.0 as nat,
                        xs.1 as nat,
                        ys.0 as nat,
                        ys.1 as nat,
                        ch as nat,
                    );
                    assert((ys.1 - ys.0) * (xs.1 - xs.0) == n) by (nonlinear_arith)
                        requires
                            n == (xs.1 - xs.0) * (ys.1 - ys.0),
                    ;
                    assert(n * 0xffff_ffff <= 0xffff_ffff * 0xffff_ffff * 0xffff_ffff);
                }
                let v: u8 = if ch == 3 {
                    let up: u128 = 2 * sum + n;
                    let mean: u128 = up / (2 * n);
                    proof {
                        assert(mean <= 255) by (nonlinear_arith)
                            requires
                                mean == (2 * sum + n) / (2 * n),
                                sum <= n * 255,
                                n > 0,
                        ;
                    }
                    mean as u8
                } else {
                    encode(sum, n)
                };
                proof {
                    place_of(out_w as int, ox as int, oy as int, ch as int);
                    index_fits(out_w as int, out_h as int, ox as int, oy as int, ch as int);
                    let i = (oy * out_w + ox) * 4 + ch;
                    assert(out_w * out_h * 4 == (out_w as nat) * (out_h as nat) * 4);
                    assert(want[i] == v);
                }
                out.push(v);
                ch = ch + 1;
            }
            assert((oy * out_w + ox) * 4 + 4 == (oy * out_w + (ox + 1)) * 4) by (nonlinear_arith);
            ox = ox + 1;
        }
        assert((oy * out_w + out_w) * 4 == (oy + 1) * out_w * 4) by (nonlinear_arith);
        oy = oy + 1;
    }
    assert(out_h * out_w * 4 == out_w * out_h * 4) by (nonlinear_arith);
    assert(out@ == want);
    out
}

/// A rectangle contributes at most so much per pixel.
proof fn area_bound(rgba: Seq<u8>, w: nat, x0: nat, x1: nat, y0: nat, y1: nat, ch: nat)
    requires
        x0 <= x1,
        y0 <= y1,
    ensures
        area_sum(rgba, w, x0, x1, y0, y1, ch) <= (y1 - y0) * (x1 - x0) * 0xffff_ffff,
        ch == 3 ==> area_sum(rgba, w, x0, x1, y0, y1, ch) <= (y1 - y0) * (x1 - x0) * 255,
    decreases y1,
{
    if y0 < y1 {
        area_bound(rgba, w, x0, x1, y0, (y1 - 1) as nat, ch);
        row_bound(rgba, w, (y1 - 1) as nat, x0, x1, ch);
        let a = y1 - y0;
        let b = x1 - x0;
        assert(a * b * 0xffff_ffff == (a - 1) * b * 0xffff_ffff + b * 0xffff_ffff)
            by (nonlinear_arith);
        assert(a * b * 255 == (a - 1) * b * 255 + b * 255) by (nonlinear_arith);
    } else {
        assert((y1 - y0) * (x1 - x0) * 255 == 0) by (nonlinear_arith)
            requires
                y1 == y0,
        ;
        assert((y1 - y0) * (x1 - x0) * 0xffff_ffff == 0) by (nonlinear_arith)
            requires
                y1 == y0,
        ;
    }
}

proof fn row_bound(rgba: Seq<u8>, w: nat, y: nat, x0: nat, x1: nat, ch: nat)
    requires
        x0 <= x1,
    ensures
        row_sum(rgba, w, y, x0, x1, ch) <= (x1 - x0) * 0xffff_ffff,
        ch == 3 ==> row_sum(rgba, w, y, x0, x1, ch) <= (x1 - x0) * 255,
    decreases x1,
{
    if x0 < x1 {
        row_bound(rgba, w, y, x0, (x1 - 1) as nat, ch);
    }
}

// --- lightness ------------------------------------------------------------

/// Whether `c` is the cube root of `x`, rounded down.
pub open spec fn is_cube_root(c: nat, x: nat) -> bool {
    c * c * c <= x < (c + 1) * (c + 1) * (c + 1)
}

/// The cube root of a number, rounded down.
pub open spec fn cube_root(x: nat) -> nat {
    choose|c: nat| is_cube_root(c, x)
}

proof fn cubes_grow(a: int, b: int)
    requires
        0 <= a <= b,
    ensures
        a * a * a <= b * b * b,
{
    assert(a * a <= b * b) by (nonlinear_arith)
        requires
            0 <= a <= b,
    ;
    assert(a * a * a <= b * b * b) by (nonlinear_arith)
        requires
            0 <= a <= b,
            0 <= a * a <= b * b,
    ;
}

proof fn cube_root_is_unique(a: nat, b: nat, x: nat)
    requires
        is_cube_root(a, x),
        is_cube_root(b, x),
    ensures
        a == b,
{
    if a < b {
        cubes_grow(a as int + 1, b as int);
    } else if b < a {
        cubes_grow(b as int + 1, a as int);
    }
}

/// Compute a cube root by bisection.
fn cbrt(x: u128) -> (r: u64)
    requires
        x < 0x20_0000_0000_0000_0000_0000_0000_0000,
    ensures
        r == cube_root(x as nat),
        r < 0x80_0000_0000,
{
    // The cube of 2^40 is 2^120, above everything that is asked for.
    let mut lo: u64 = 0;
    let mut hi: u64 = 0x100_0000_0000;
    while hi - lo > 1
        invariant
            lo < hi <= 0x100_0000_0000,
            x < 0x20_0000_0000_0000_0000_0000_0000_0000,
            lo * lo * lo <= x,
            x < hi * hi * hi,
        decreases hi - lo,
    {
        let mid: u64 = lo + (hi - lo) / 2;
        assert(mid * mid <= 0x100_0000_0000 * 0x100_0000_0000) by (nonlinear_arith)
            requires
                0 <= mid <= 0x100_0000_0000,
        ;
        assert(mid * mid * mid <= 0x100_0000_0000 * 0x100_0000_0000 * 0x100_0000_0000)
            by (nonlinear_arith)
            requires
                0 <= mid <= 0x100_0000_0000,
                0 <= mid * mid <= 0x100_0000_0000 * 0x100_0000_0000,
        ;
        let m: u128 = mid as u128;
        if m * m * m <= x {
            lo = mid;
        } else {
            hi = mid;
        }
    }
    proof {
        assert(is_cube_root(lo as nat, x as nat));
        cube_root_is_unique(lo as nat, cube_root(x as nat), x as nat);
        if lo >= 0x80_0000_0000 {
            cubes_grow(0x80_0000_0000, lo as int);
            assert(0x80_0000_0000 * 0x80_0000_0000 * 0x80_0000_0000
                == 0x20_0000_0000_0000_0000_0000_0000_0000int) by (nonlinear_arith);
        }
    }
    lo
}

/// One of OKLab's three cone responses, before its cube root: a mixture of
/// the three lights in ten-thousand-millionths.
pub open spec fn cone(a: nat, b: nat, c: nat, red: u8, green: u8, blue: u8) -> nat {
    a * light(red) + b * light(green) + c * light(blue)
}

/// The cube root of a cone response, with some twelve digits.
pub open spec fn response(x: nat) -> nat {
    cube_root(x * 0x400_0000_0000_0000)
}

/// OKLab's lightness of an sRGB colour, as a number that grows with it.
///
/// Lightness means what a person would say it means: saturated red against
/// mid grey is the case where a luma approximation picks the wrong one.
pub open spec fn lightness(red: u8, green: u8, blue: u8) -> int {
    let l = response(cone(4_122_214_708, 5_363_325_363, 514_459_929, red, green, blue));
    let m = response(cone(2_119_034_982, 6_806_995_451, 1_073_969_566, red, green, blue));
    let s = response(cone(883_024_619, 2_817_188_376, 6_299_787_005, red, green, blue));
    2_104_542_553 * l + 7_936_177_850 * m - 40_720_468 * s
}

/// No light is more than full light.
proof fn light_is_at_most_full(v: u8)
    ensures
        light(v) <= 0x100_0000,
{
}

fn root_of(a: u64, b: u64, c: u64, red: u32, green: u32, blue: u32) -> (r: u64)
    requires
        a + b + c <= 10_100_000_000,
        red <= 0x100_0000,
        green <= 0x100_0000,
        blue <= 0x100_0000,
    ensures
        r == response((a * red + b * green + c * blue) as nat),
        r < 0x80_0000_0000,
{
    assert(0 <= a * red <= a * 0x100_0000) by (nonlinear_arith)
        requires
            0 <= red <= 0x100_0000,
            0 <= a,
    ;
    assert(0 <= b * green <= b * 0x100_0000) by (nonlinear_arith)
        requires
            0 <= green <= 0x100_0000,
            0 <= b,
    ;
    assert(0 <= c * blue <= c * 0x100_0000) by (nonlinear_arith)
        requires
            0 <= blue <= 0x100_0000,
            0 <= c,
    ;
    let x: u128 = (a as u128) * (red as u128) + (b as u128) * (green as u128) + (c as u128) * (
    blue as u128);
    cbrt(x * 0x400_0000_0000_0000)
}

fn lightness_of(table: &Vec<u32>, red: u8, green: u8, blue: u8) -> (r: i128)
    requires
        table@ == LINEAR@,
    ensures
        r == lightness(red, green, blue),
{
    proof {
        light_is_at_most_full(red);
        light_is_at_most_full(green);
        light_is_at_most_full(blue);
    }
    let r: u32 = table[red as usize];
    let g: u32 = table[green as usize];
    let b: u32 = table[blue as usize];
    let l: i128 = root_of(4_122_214_708, 5_363_325_363, 514_459_929, r, g, b) as i128;
    let m: i128 = root_of(2_119_034_982, 6_806_995_451, 1_073_969_566, r, g, b) as i128;
    let s: i128 = root_of(883_024_619, 2_817_188_376, 6_299_787_005, r, g, b) as i128;
    2_104_542_553 * l + 7_936_177_850 * m - 40_720_468 * s
}

// --- hashing --------------------------------------------------------------

/// Whether a bit is set.
pub open spec fn bit(x: u64, k: u64) -> bool {
    (x >> k) & 1 == 1
}

proof fn set_bit(x: u64, n: u64, k: u64)
    requires
        n < 64,
        k < 64,
    ensures
        bit(x | (1u64 << n), k) == (k == n || bit(x, k)),
{
    assert(((x | (1u64 << n)) >> k) & 1 == 1 <==> (k == n || (x >> k) & 1 == 1)) by (bit_vector)
        requires
            n < 64,
            k < 64,
    ;
}

/// The lightness of a pixel of the reduced picture.
pub open spec fn pixel_lightness(small: Seq<u8>, i: int) -> int {
    lightness(small[4 * i], small[4 * i + 1], small[4 * i + 2])
}

/// Whether a pixel of the reduced picture is lighter than its right-hand
/// neighbour. Comparison `n` is the `n % 8`th of row `n / 8`.
pub open spec fn lighter(small: Seq<u8>, n: int) -> bool {
    let i = (n / 8) * 9 + n % 8;
    pixel_lightness(small, i) > pixel_lightness(small, i + 1)
}

/// 64-bit difference hash of RGBA8 pixel data.
///
/// The image is reduced to a 9×8 grid and each row yields eight
/// lighter-than-its-neighbour comparisons. Bit 0 is the leftmost comparison
/// of the top row. Degenerate input hashes to zero, which the caller must
/// treat as "no information" rather than as a match.
pub fn dhash(rgba: &[u8], width: u32, height: u32) -> (r: u64)
    ensures
        resizable(rgba@, width as nat, height as nat, 9, 8) ==> forall|n: u64|
            n < 64 ==> #[trigger] bit(r, n) == lighter(
                resized(rgba@, width as nat, height as nat, 9, 8),
                n as int,
            ),
        !resizable(rgba@, width as nat, height as nat, 9, 8) ==> r == 0,
{
    let small = resize_box(rgba, width, height, 9, 8);
    if small.len() == 0 {
        return 0;
    }
    assert(small@.len() == 288);
    let table = light_table();
    let mut light_of: Vec<i128> = Vec::new();
    let mut i: usize = 0;
    while i < 72
        invariant
            i <= 72,
            small@.len() == 288,
            table@ == LINEAR@,
            light_of@.len() == i,
            forall|k: int| 0 <= k < i ==> light_of@[k] == pixel_lightness(small@, k),
        decreases 72 - i,
    {
        light_of.push(lightness_of(&table, small[4 * i], small[4 * i + 1], small[4 * i + 2]));
        i = i + 1;
    }
    let mut bits: u64 = 0;
    let mut n: u64 = 0;
    assert forall|k: u64| k < 64 implies !#[trigger] bit(0, k) by {
        assert((0u64 >> k) & 1 == 0) by (bit_vector);
    }
    while n < 64
        invariant
            n <= 64,
            light_of@.len() == 72,
            forall|k: int| 0 <= k < 72 ==> light_of@[k] == pixel_lightness(small@, k),
            forall|k: u64| k < n ==> #[trigger] bit(bits, k) == lighter(small@, k as int),
            forall|k: u64| n <= k < 64 ==> !#[trigger] bit(bits, k),
        decreases 64 - n,
    {
        let at: usize = ((n / 8) * 9 + n % 8) as usize;
        let ghost before = bits;
        assert(lighter(small@, n as int) == (light_of@[at as int] > light_of@[at + 1]));
        if light_of[at] > light_of[at + 1] {
            bits = bits | (1u64 << n);
            assert forall|k: u64| k < 64 implies #[trigger] bit(bits, k) == (k == n || bit(
                before,
                k,
            )) by {
                set_bit(before, n, k);
            }
        }
        n = n + 1;
    }
    bits
}

/// In how many of the lowest `n` bits two hashes differ.
pub open spec fn differing(a: u64, b: u64, n: nat) -> nat
    decreases n,
{
    if n == 0 {
        0
    } else {
        differing(a, b, (n - 1) as nat) + if bit(a, (n - 1) as u64) != bit(b, (n - 1) as u64) {
            1nat
        } else {
            0
        }
    }
}

proof fn xor_bit(a: u64, b: u64, k: u64)
    requires
        k < 64,
    ensures
        bit(a ^ b, k) == (bit(a, k) != bit(b, k)),
{
    assert(((a ^ b) >> k) & 1 == 1 <==> !((a >> k) & 1 == 1 <==> (b >> k) & 1 == 1))
        by (bit_vector)
        requires
            k < 64,
    ;
}

/// Number of differing bits between two hashes.
pub fn hamming(a: u64, b: u64) -> (r: u32)
    ensures
        r == differing(a, b, 64),
        r <= 64,
{
    let x: u64 = a ^ b;
    let mut n: u32 = 0;
    let mut k: u64 = 0;
    while k < 64
        invariant
            k <= 64,
            x == a ^ b,
            n <= k,
            n == differing(a, b, k as nat),
        decreases 64 - k,
    {
        proof {
            xor_bit(a, b, k);
        }
        if (x >> k) & 1 == 1 {
            n = n + 1;
        }
        k = k + 1;
    }
    n
}

// --- laws -----------------------------------------------------------------

/// The distance of two hashes is the same both ways, and zero of a hash to
/// itself.
pub proof fn distance_is_symmetric(a: u64, b: u64, n: nat)
    ensures
        differing(a, b, n) == differing(b, a, n),
        differing(a, a, n) == 0,
    decreases n,
{
    if n > 0 {
        distance_is_symmetric(a, b, (n - 1) as nat);
    }
}

proof fn no_difference_below(a: u64, b: u64, n: nat, k: u64)
    requires
        differing(a, b, n) == 0,
        k < n <= 64,
    ensures
        bit(a, k) == bit(b, k),
    decreases n,
{
    if k < n - 1 {
        no_difference_below(a, b, (n - 1) as nat, k);
    }
}

/// Only equal hashes are at distance zero.
pub proof fn distance_zero_means_equal(a: u64, b: u64)
    requires
        differing(a, b, 64) == 0,
    ensures
        a == b,
{
    if a != b {
        let x = a ^ b;
        assert(x >> 0u64 != 0) by (bit_vector)
            requires
                a != b,
                x == a ^ b,
        ;
        let k = lowest_set(x, 0);
        xor_bit(a, b, k);
        no_difference_below(a, b, 64, k);
    }
}

/// Some bit of a number that is not zero is set.
proof fn lowest_set(x: u64, from: u64) -> (k: u64)
    requires
        from < 64,
        x >> from != 0,
    ensures
        k < 64,
        bit(x, k),
    decreases 64 - from,
{
    if bit(x, from) {
        from
    } else {
        assert(from < 63 && x >> ((from + 1) as u64) != 0) by (bit_vector)
            requires
                from < 64,
                x >> from != 0,
                (x >> from) & 1 != 1,
        ;
        lowest_set(x, (from + 1) as u64)
    }
}

/// Every sRGB value is the one nearest to its own light.
proof fn tables_agree(v: u8)
    ensures
        NEAREST@[v as int] <= LINEAR@[v as int],
        v < 255 ==> LINEAR@[v as int] < NEAREST@[v as int + 1],
{
}

proof fn nearest_grows(k: u8, v: u8)
    requires
        k <= v,
    ensures
        NEAREST@[k as int] <= LINEAR@[v as int],
    decreases v - k,
{
    tables_agree(k);
    if k < v {
        tables_agree(v);
        nearest_grows(k, (v - 1) as u8);
        tables_agree((v - 1) as u8);
    }
}

proof fn own_light_encodes(v: u8, n: nat, from: nat)
    requires
        n > 0,
        from <= v,
    ensures
        nearest_from(n * light(v), n, from) == v,
    decreases v - from,
{
    let l = light(v);
    if from < v {
        nearest_grows((from + 1) as u8, v);
        let t = NEAREST@[from as int + 1] as nat;
        assert(t * n <= n * l) by (nonlinear_arith)
            requires
                t <= l,
        ;
        own_light_encodes(v, n, from + 1);
    } else if v < 255 {
        tables_agree(v);
        let t = NEAREST@[from as int + 1] as nat;
        assert(n * l < t * n) by (nonlinear_arith)
            requires
                l < t,
                n > 0,
        ;
    }
}

/// Whether every pixel of a picture has the same value in a channel.
pub open spec fn solid(rgba: Seq<u8>, w: nat, h: nat, ch: nat, v: u8) -> bool {
    forall|x: nat, y: nat| x < w && y < h ==> #[trigger] sample(rgba, w, x, y, ch) == v
}

proof fn solid_row(rgba: Seq<u8>, w: nat, h: nat, y: nat, x0: nat, x1: nat, ch: nat, v: u8)
    requires
        solid(rgba, w, h, ch, v),
        x0 <= x1 <= w,
        y < h,
    ensures
        row_sum(rgba, w, y, x0, x1, ch) == (x1 - x0) * weight(v, ch),
    decreases x1,
{
    if x0 < x1 {
        solid_row(rgba, w, h, y, x0, (x1 - 1) as nat, ch, v);
        let q = weight(v, ch);
        assert((x1 - x0) * q == (x1 - 1 - x0) * q + q) by (nonlinear_arith);
    } else {
        assert((x1 - x0) * weight(v, ch) == 0) by (nonlinear_arith)
            requires
                x1 == x0,
        ;
    }
}

proof fn solid_area(
    rgba: Seq<u8>,
    w: nat,
    h: nat,
    x0: nat,
    x1: nat,
    y0: nat,
    y1: nat,
    ch: nat,
    v: u8,
)
    requires
        solid(rgba, w, h, ch, v),
        x0 <= x1 <= w,
        y0 <= y1 <= h,
    ensures
        area_sum(rgba, w, x0, x1, y0, y1, ch) == ((x1 - x0) * (y1 - y0)) * weight(v, ch),
    decreases y1,
{
    let q = weight(v, ch);
    let a = x1 - x0;
    let b = y1 - y0;
    if y0 < y1 {
        solid_area(rgba, w, h, x0, x1, y0, (y1 - 1) as nat, ch, v);
        solid_row(rgba, w, h, (y1 - 1) as nat, x0, x1, ch, v);
        assert((a * b) * q == (a * (b - 1)) * q + a * q) by (nonlinear_arith);
    } else {
        assert((a * b) * q == 0) by (nonlinear_arith)
            requires
                b == 0,
        ;
    }
}

/// A channel that is the same everywhere survives downscaling unchanged.
pub proof fn solid_pictures_stay(
    rgba: Seq<u8>,
    w: nat,
    h: nat,
    ow: nat,
    oh: nat,
    ox: nat,
    oy: nat,
    ch: nat,
    v: u8,
)
    requires
        resizable(rgba, w, h, ow, oh),
        solid(rgba, w, h, ch, v),
        ox < ow,
        oy < oh,
        ch < 4,
    ensures
        box_mean(rgba, w, h, ow, oh, ox, oy, ch) == v,
{
    let x0 = span_start(ox, w, ow);
    let x1 = span_end(ox, w, ow);
    let y0 = span_start(oy, h, oh);
    let y1 = span_end(oy, h, oh);
    span_bounds(ox, w, ow);
    span_bounds(oy, h, oh);
    solid_area(rgba, w, h, x0, x1, y0, y1, ch, v);
    let n = ((x1 - x0) * (y1 - y0)) as nat;
    assert((x1 - x0) * (y1 - y0) > 0) by (nonlinear_arith)
        requires
            x1 > x0,
            y1 > y0,
    ;
    if ch == 3 {
        assert((2 * (n * v) + n) / (2 * n as int) == v) by (nonlinear_arith)
            requires
                n > 0,
                v >= 0,
        ;
    } else {
        own_light_encodes(v, n, 0);
    }
}

/// A picture of one colour has no lighter pixel: its hash is zero in every
/// bit.
pub proof fn flat_pictures_hash_to_nothing(
    rgba: Seq<u8>,
    w: nat,
    h: nat,
    red: u8,
    green: u8,
    blue: u8,
    n: int,
)
    requires
        resizable(rgba, w, h, 9, 8),
        solid(rgba, w, h, 0, red),
        solid(rgba, w, h, 1, green),
        solid(rgba, w, h, 2, blue),
        0 <= n < 64,
    ensures
        !lighter(resized(rgba, w, h, 9, 8), n),
{
    let small = resized(rgba, w, h, 9, 8);
    let i = (n / 8) * 9 + n % 8;
    flat_pixel(rgba, w, h, red, green, blue, i);
    flat_pixel(rgba, w, h, red, green, blue, i + 1);
}

proof fn flat_pixel(rgba: Seq<u8>, w: nat, h: nat, red: u8, green: u8, blue: u8, i: int)
    requires
        resizable(rgba, w, h, 9, 8),
        solid(rgba, w, h, 0, red),
        solid(rgba, w, h, 1, green),
        solid(rgba, w, h, 2, blue),
        0 <= i < 72,
    ensures
        pixel_lightness(resized(rgba, w, h, 9, 8), i) == lightness(red, green, blue),
{
    let ox = (i % 9) as nat;
    let oy = (i / 9) as nat;
    solid_pictures_stay(rgba, w, h, 9, 8, ox, oy, 0, red);
    solid_pictures_stay(rgba, w, h, 9, 8, ox, oy, 1, green);
    solid_pictures_stay(rgba, w, h, 9, 8, ox, oy, 2, blue);
    assert((4 * i) / 4 == i && (4 * i + 1) / 4 == i && (4 * i + 2) / 4 == i);
    assert((4 * i) % 4 == 0 && (4 * i + 1) % 4 == 1 && (4 * i + 2) % 4 == 2);
}

// --- laws of the lightness ------------------------------------------------

proof fn light_steps(v: u8)
    requires
        v < 255,
    ensures
        light(v) + 5000 <= light((v + 1) as u8),
{
}

/// A larger value is more light, by a good deal more than is ever rounded away.
proof fn light_grows(v: u8, w: u8)
    requires
        v < w,
    ensures
        light(v) + 5000 <= light(w),
    decreases w - v,
{
    light_steps(v);
    if v + 1 < w {
        light_grows((v + 1) as u8, w);
    }
}

proof fn root_exists(x: nat, from: nat) -> (c: nat)
    requires
        from * from * from <= x,
        from <= x,
    ensures
        is_cube_root(c, x),
    decreases x - from,
{
    if x < (from + 1) * (from + 1) * (from + 1) {
        from
    } else {
        assert((from + 1) * (from + 1) * (from + 1) >= from + 1) by (nonlinear_arith);
        root_exists(x, from + 1)
    }
}

proof fn root_is(x: nat)
    ensures
        is_cube_root(cube_root(x), x),
{
    let c = root_exists(x, 0);
    assert(is_cube_root(c, x));
}

proof fn roots_grow(x: nat, y: nat)
    requires
        x <= y,
    ensures
        cube_root(x) <= cube_root(y),
{
    root_is(x);
    root_is(y);
    let (a, b) = (cube_root(x) as int, cube_root(y) as int);
    if b + 1 <= a {
        cubes_grow(b + 1, a);
    }
}

/// How far a cube root moves, at least.
proof fn root_moves(a: int, b: int, x: int, y: int)
    requires
        0 <= a <= b < 0x100_0000_0000,
        a * a * a <= x,
        y < (b + 1) * (b + 1) * (b + 1),
        y - x >= 0x10_0000_0000_0000_0000_0000_0000,
    ensures
        b - a >= 1,
{
    let e = b + 1;
    if b == a {
        assert(e * e * e - a * a * a == 3 * a * a + 3 * a + 1) by (nonlinear_arith)
            requires
                e == a + 1,
        ;
        assert(3 * a * a + 3 * a + 1 < 0x10_0000_0000_0000_0000_0000_0000) by (nonlinear_arith)
            requires
                0 <= a < 0x100_0000_0000,
        ;
    }
}

/// The difference of two cubes, as a product.
proof fn cubes_differ(a: int, b: int)
    ensures
        b * b * b - a * a * a == (b - a) * (b * b + b * a + a * a),
{
    assert(b * b * b - a * a * a == (b - a) * (b * b + b * a + a * a)) by (nonlinear_arith);
}

/// Where two numbers grow, and the second is no more than six times as fast and
/// no smaller than two fifths of the first, the root of the first weighs more.
proof fn roots_weigh(x: nat, x1: nat, y: nat, y1: nat)
    requires
        x1 - x >= 0x10_0000_0000_0000_0000_0000_0000,
        x1 < 0x100_0000_0000_0000_0000_0000_0000_0000,
        y <= y1,
        y1 - y <= 6 * (x1 - x),
        10 * y >= 4 * x,
        10 * y1 >= 4 * x1,
    ensures
        7_936_177_850 * (cube_root(x1) - cube_root(x)) > 40_720_468 * (cube_root(y1) - cube_root(
            y,
        )),
{
    root_is(x);
    root_is(x1);
    root_is(y);
    root_is(y1);
    roots_grow(x, x1);
    roots_grow(y, y1);
    let (a, b) = (cube_root(x) as int, cube_root(x1) as int);
    let (p, q) = (cube_root(y) as int, cube_root(y1) as int);
    if b >= 0x100_0000_0000 {
        cubes_grow(0x100_0000_0000, b);
    }
    root_moves(a, b, x as int, x1 as int);
    let (e, f) = (b + 1, p + 1);
    if b <= 1000 {
        cubes_grow(e, 1001);
    }
    // Both roots of the second number are two thirds of those of the first.
    assert(3 * f >= 2 * a) by {
        if 3 * f < 2 * a {
            two_thirds(f, a, y as int, x as int);
        }
    }
    assert(3 * q >= 2 * e) by {
        if 3 * q < 2 * e {
            // A root above a thousand leaves room for the rounding.
            assert(10 * (q + 1) <= 7 * b);
            seven_tenths(q + 1, b, y1 as int, x1 as int);
        }
    }
    if q > f {
        let big = e * e + e * a + a * a;
        let small = q * q + q * f + f * f;
        cubes_differ(a, e);
        cubes_differ(f, q);
        let d = e - a;
        let g = q - f;
        assert(d * big > x1 - x);
        assert(g * small < y1 - y);
        assert(9 * small >= 4 * big) by (nonlinear_arith)
            requires
                3 * q >= 2 * e,
                3 * f >= 2 * a,
                e >= 0,
                a >= 0,
                big == e * e + e * a + a * a,
                small == q * q + q * f + f * f,
        ;
        assert(g * (4 * big) <= g * (9 * small)) by (nonlinear_arith)
            requires
                g > 0,
                4 * big <= 9 * small,
        ;
        assert(g * (4 * big) == 4 * (g * big)) by (nonlinear_arith);
        assert(g * (9 * small) == 9 * (g * small)) by (nonlinear_arith);
        assert(4 * (g * big) < 54 * (d * big));
        assert(4 * g < 54 * d) by (nonlinear_arith)
            requires
                4 * (g * big) < 54 * (d * big),
                big >= 0,
        ;
    }
}

proof fn two_thirds(f: int, a: int, y: int, x: int)
    requires
        0 <= f,
        3 * f < 2 * a,
        a * a * a <= x,
        10 * y >= 4 * x,
    ensures
        y >= f * f * f,
{
    assert(27 * (f * f * f) <= 8 * (a * a * a)) by (nonlinear_arith)
        requires
            0 <= 3 * f < 2 * a,
    ;
}

proof fn seven_tenths(f: int, a: int, y: int, x: int)
    requires
        0 <= f,
        10 * f <= 7 * a,
        a * a * a <= x,
        10 * y >= 4 * x,
    ensures
        y >= f * f * f,
{
    assert(1000 * (f * f * f) <= 343 * (a * a * a)) by (nonlinear_arith)
        requires
            0 <= 10 * f <= 7 * a,
    ;
}

/// More light in any one channel, and no less in the others, is lighter, however
/// small the difference. So each of the three counts.
pub proof fn more_light_is_lighter(r: u8, g: u8, b: u8, more: u8)
    ensures
        more > r ==> lightness(more, g, b) > lightness(r, g, b),
        more > g ==> lightness(r, more, b) > lightness(r, g, b),
        more > b ==> lightness(r, g, more) > lightness(r, g, b),
{
    lightness_is_lit(r, g, b);
    if more > r {
        colours_brighten(r, g, b, more, g, b);
    }
    if more > g {
        colours_brighten(r, g, b, r, more, b);
    }
    if more > b {
        colours_brighten(r, g, b, r, g, more);
    }
}

proof fn colours_brighten(r: u8, g: u8, b: u8, r1: u8, g1: u8, b1: u8)
    requires
        r <= r1,
        g <= g1,
        b <= b1,
        r < r1 || g < g1 || b < b1,
    ensures
        lightness(r1, g1, b1) > lightness(r, g, b),
{
    let (x, x1) = lights_grow(r, r1);
    let (y, y1) = lights_grow(g, g1);
    let (z, z1) = lights_grow(b, b1);
    lightness_is_lit(r, g, b);
    lightness_is_lit(r1, g1, b1);
    brighter(x, y, z, x1, y1, z1);
}

proof fn lights_grow(v: u8, w: u8) -> (r: (nat, nat))
    requires
        v <= w,
    ensures
        r.0 == light(v),
        r.1 == light(w),
        r.0 <= r.1 <= 0x100_0000,
        v < w ==> r.0 + 5000 <= r.1,
{
    if v < w {
        light_grows(v, w);
    }
    light_is_at_most_full(w);
    (light(v), light(w))
}

proof fn lightness_is_lit(r: u8, g: u8, b: u8)
    ensures
        lightness(r, g, b) == lit(light(r), light(g), light(b)),
{
    reveal(lit);
}

#[verifier::opaque]
spec fn lit(r: nat, g: nat, b: nat) -> int {
    let l = response(4_122_214_708 * r + 5_363_325_363 * g + 514_459_929 * b);
    let m = response(2_119_034_982 * r + 6_806_995_451 * g + 1_073_969_566 * b);
    let s = response(883_024_619 * r + 2_817_188_376 * g + 6_299_787_005 * b);
    2_104_542_553 * l + 7_936_177_850 * m - 40_720_468 * s
}

proof fn brighter(r: nat, g: nat, b: nat, r1: nat, g1: nat, b1: nat)
    requires
        r <= r1 <= 0x100_0000,
        g <= g1 <= 0x100_0000,
        b <= b1 <= 0x100_0000,
        r1 + g1 + b1 >= r + g + b + 5000,
    ensures
        lit(r1, g1, b1) > lit(r, g, b),
{
    reveal(lit);
    let k: nat = 0x400_0000_0000_0000;
    let l = 4_122_214_708 * r + 5_363_325_363 * g + 514_459_929 * b;
    let l1 = 4_122_214_708 * r1 + 5_363_325_363 * g1 + 514_459_929 * b1;
    let m = 2_119_034_982 * r + 6_806_995_451 * g + 1_073_969_566 * b;
    let m1 = 2_119_034_982 * r1 + 6_806_995_451 * g1 + 1_073_969_566 * b1;
    let s = 883_024_619 * r + 2_817_188_376 * g + 6_299_787_005 * b;
    let s1 = 883_024_619 * r1 + 2_817_188_376 * g1 + 6_299_787_005 * b1;
    roots_grow(l * k, l1 * k);
    roots_weigh(m * k, m1 * k, s * k, s1 * k);
}

/// Of three pure colours of one value, green is lighter than red, and red than
/// blue.
pub proof fn pure_colours_have_an_order(v: u8)
    requires
        v > 0,
    ensures
        lightness(0, v, 0) > lightness(v, 0, 0),
        lightness(v, 0, 0) > lightness(0, 0, v),
        lightness(0, 0, v) > lightness(0, 0, 0),
{
    more_light_is_lighter(0, 0, 0, v);
    light_grows(0, v);
    light_is_at_most_full(v);
    assert(light(0) == 0);
    let x = light(v);
    let k: nat = 0x400_0000_0000_0000;
    let (rl, rm, rs) = (
        4_122_214_708 * x * k,
        2_119_034_982 * x * k,
        883_024_619 * x * k,
    );
    let (gl, gm, gs) = (
        5_363_325_363 * x * k,
        6_806_995_451 * x * k,
        2_817_188_376 * x * k,
    );
    let (bl, bm, bs) = (514_459_929 * x * k, 1_073_969_566 * x * k, 6_299_787_005 * x * k);
    roots_grow(rl, gl);
    roots_grow(bl, rl);
    roots_grow(gs, gm);
    roots_grow(rs, bs);
    root_is(rm);
    root_is(gm);
    root_is(bm);
    let (cr, cg, cb) = (cube_root(rm) as int, cube_root(gm) as int, cube_root(bm) as int);
    if cg <= 1000 {
        cubes_grow(cg + 1, 1001);
    }
    if cr <= 1000 {
        cubes_grow(cr + 1, 1001);
    }
    if 10 * cr > 7 * (cg + 1) {
        assert(1000 * (cr * cr * cr) >= 343 * ((cg + 1) * (cg + 1) * (cg + 1))) by (nonlinear_arith)
            requires
                10 * cr > 7 * (cg + 1),
                cg >= 0,
        ;
    }
    if 10 * cb > 8 * (cr + 1) {
        assert(1000 * (cb * cb * cb) >= 512 * ((cr + 1) * (cr + 1) * (cr + 1))) by (nonlinear_arith)
            requires
                10 * cb > 8 * (cr + 1),
                cr >= 0,
        ;
    }
}

/// Nothing is darker than black, and nothing lighter than white.
pub proof fn black_and_white_are_the_ends(r: u8, g: u8, b: u8)
    ensures
        lightness(0, 0, 0) <= lightness(r, g, b) <= lightness(255, 255, 255),
        (r, g, b) != (0u8, 0u8, 0u8) ==> lightness(0, 0, 0) < lightness(r, g, b),
        (r, g, b) != (255u8, 255u8, 255u8) ==> lightness(r, g, b) < lightness(255, 255, 255),
{
    more_light_is_lighter(0, 0, 0, r);
    more_light_is_lighter(r, 0, 0, g);
    more_light_is_lighter(r, g, 0, b);
    more_light_is_lighter(r, g, b, 255);
    more_light_is_lighter(255, g, b, 255);
    more_light_is_lighter(255, 255, b, 255);
}

// --- laws of the downscaling ----------------------------------------------

/// Whether some of a row or column of a picture of `size` lies in a place of a
/// picture of `out`, when one is laid over the other.
pub open spec fn overlaps(at: int, size: int, o: int, out: int) -> bool {
    at * out < (o + 1) * size && (at + 1) * out > o * size
}

proof fn spans_overlap(at: nat, size: nat, o: nat, out: nat)
    requires
        o < out,
        size > 0,
        span_start(o, size, out) <= at < span_end(o, size, out),
    ensures
        at < size,
        overlaps(at as int, size as int, o as int, out as int),
{
    let a = o * size;
    let b = (o + 1) * size;
    assert(b == a + size) by (nonlinear_arith)
        requires
            a == o * size,
            b == (o + 1) * size,
    ;
    let start = span_start(o, size, out);
    vstd::arithmetic::div_mod::lemma_fundamental_div_mod(a as int, out as int);
    let rest = a as int % out as int;
    assert((start + 1) * out > a) by (nonlinear_arith)
        requires
            a == out * start + rest,
            rest < out,
    ;
    assert((at + 1) * out >= (start + 1) * out) by (nonlinear_arith)
        requires
            at >= start,
    ;
    span_bounds(o, size, out);
    let c = (b + out - 1) as nat;
    let ceil = c / out;
    vstd::arithmetic::div_mod::lemma_fundamental_div_mod(c as int, out as int);
    if at < ceil {
        assert(at * out < b) by (nonlinear_arith)
            requires
                at + 1 <= ceil,
                c == out * ceil + c % out,
                c % out >= 0,
                c == b + out - 1,
        ;
    } else {
        assert(at == start);
        assert(at * out <= a) by (nonlinear_arith)
            requires
                a == out * start + a % out,
                a % out >= 0,
                at == start,
        ;
    }
}

/// Whether every pixel that lies in a place has one value in a channel.
pub open spec fn one_value(
    rgba: Seq<u8>,
    w: nat,
    h: nat,
    ow: nat,
    oh: nat,
    ox: nat,
    oy: nat,
    ch: nat,
    v: u8,
) -> bool {
    forall|x: nat, y: nat|
        x < w && y < h && overlaps(x as int, w as int, ox as int, ow as int) && overlaps(
            y as int,
            h as int,
            oy as int,
            oh as int,
        ) ==> #[trigger] sample(rgba, w, x, y, ch) == v
}

proof fn row_of_one_value(rgba: Seq<u8>, w: nat, y: nat, x0: nat, x1: nat, ch: nat, v: u8)
    requires
        x0 <= x1,
        forall|x: nat| x0 <= x < x1 ==> #[trigger] sample(rgba, w, x, y, ch) == v,
    ensures
        row_sum(rgba, w, y, x0, x1, ch) == (x1 - x0) * weight(v, ch),
    decreases x1,
{
    let k = weight(v, ch);
    if x1 > x0 {
        let before = (x1 - 1) as nat;
        row_of_one_value(rgba, w, y, x0, before, ch, v);
        assert(sample(rgba, w, before, y, ch) == v);
        assert((before - x0) * k + k == (x1 - x0) * k) by (nonlinear_arith)
            requires
                before == x1 - 1,
        ;
    } else {
        assert((x1 - x0) * k == 0) by (nonlinear_arith)
            requires
                x1 == x0,
        ;
    }
}

proof fn area_of_one_value(
    rgba: Seq<u8>,
    w: nat,
    x0: nat,
    x1: nat,
    y0: nat,
    y1: nat,
    ch: nat,
    v: u8,
)
    requires
        x0 <= x1,
        y0 <= y1,
        forall|x: nat, y: nat|
            x0 <= x < x1 && y0 <= y < y1 ==> #[trigger] sample(rgba, w, x, y, ch) == v,
    ensures
        area_sum(rgba, w, x0, x1, y0, y1, ch) == ((x1 - x0) * (y1 - y0)) * weight(v, ch),
    decreases y1,
{
    let k = weight(v, ch);
    let n = x1 - x0;
    if y1 > y0 {
        let before = (y1 - 1) as nat;
        area_of_one_value(rgba, w, x0, x1, y0, before, ch, v);
        row_of_one_value(rgba, w, before, x0, x1, ch, v);
        assert((n * (before - y0)) * k + n * k == (n * (y1 - y0)) * k) by (nonlinear_arith)
            requires
                before == y1 - 1,
        ;
    } else {
        assert((n * (y1 - y0)) * k == 0) by (nonlinear_arith)
            requires
                y1 == y0,
        ;
    }
}

/// Where every pixel that lies in a place of the smaller picture has one value,
/// that place has it. So what is shown at a place comes from the pixels there,
/// and from no others.
pub proof fn places_show_what_lies_there(
    rgba: Seq<u8>,
    w: nat,
    h: nat,
    ow: nat,
    oh: nat,
    ox: nat,
    oy: nat,
    ch: nat,
    v: u8,
)
    requires
        resizable(rgba, w, h, ow, oh),
        ox < ow,
        oy < oh,
        ch < 4,
        one_value(rgba, w, h, ow, oh, ox, oy, ch, v),
    ensures
        resized(rgba, w, h, ow, oh).len() == 4 * (ow * oh),
        0 <= 4 * (oy * ow + ox) + ch < 4 * (ow * oh),
        resized(rgba, w, h, ow, oh)[(4 * (oy * ow + ox) + ch) as int] == v,
{
    let x0 = span_start(ox, w, ow);
    let x1 = span_end(ox, w, ow);
    let y0 = span_start(oy, h, oh);
    let y1 = span_end(oy, h, oh);
    span_bounds(ox, w, ow);
    span_bounds(oy, h, oh);
    assert forall|x: nat, y: nat| x0 <= x < x1 && y0 <= y < y1 implies #[trigger] sample(
        rgba,
        w,
        x,
        y,
        ch,
    ) == v by {
        spans_overlap(x, w, ox, ow);
        spans_overlap(y, h, oy, oh);
    }
    area_of_one_value(rgba, w, x0, x1, y0, y1, ch, v);
    let n = ((x1 - x0) * (y1 - y0)) as nat;
    assert((x1 - x0) * (y1 - y0) > 0) by (nonlinear_arith)
        requires
            x1 > x0,
            y1 > y0,
    ;
    if ch == 3 {
        assert((2 * (n * v) + n) / (2 * n as int) == v) by (nonlinear_arith)
            requires
                n > 0,
                v >= 0,
        ;
    } else {
        own_light_encodes(v, n, 0);
    }
    assert(box_mean(rgba, w, h, ow, oh, ox, oy, ch) == v);
    let i = oy * ow + ox;
    assert(i / ow == oy && i % ow == ox && i < ow * oh) by (nonlinear_arith)
        requires
            i == oy * ow + ox,
            ox < ow,
            oy < oh,
    ;
    assert((4 * i + ch) / 4 == i && (4 * i + ch) % 4 == ch);
    assert(ow * oh * 4 == 4 * (ow * oh)) by (nonlinear_arith);
}

/// A picture that is resized to its own size is the same picture.
pub proof fn the_same_size_changes_nothing(rgba: Seq<u8>, w: nat, h: nat, x: nat, y: nat, ch: nat)
    requires
        resizable(rgba, w, h, w, h),
        x < w,
        y < h,
        ch < 4,
    ensures
        0 <= 4 * (y * w + x) + ch < 4 * (w * h),
        resized(rgba, w, h, w, h)[(4 * (y * w + x) + ch) as int] == rgba[(4 * (y * w + x) + ch) as int],
{
    let v = sample(rgba, w, x, y, ch);
    assert forall|a: nat, b: nat|
        a < w && b < h && overlaps(a as int, w as int, x as int, w as int) && overlaps(
            b as int,
            h as int,
            y as int,
            h as int,
        ) implies #[trigger] sample(rgba, w, a, b, ch) == v by {
        assert(a == x) by (nonlinear_arith)
            requires
                a * w < (x + 1) * w,
                (a + 1) * w > x * w,
        ;
        assert(b == y) by (nonlinear_arith)
            requires
                b * h < (y + 1) * h,
                (b + 1) * h > y * h,
        ;
    }
    places_show_what_lies_there(rgba, w, h, w, h, x, y, ch, v);
}

/// An edge is seen. Where two neighbouring places of the nine by eight that a
/// picture is reduced to are each of one colour, the comparison between them is
/// set if and only if the left one is lighter. Comparisons are counted along
/// the rows, eight in each, from the top.
pub proof fn edges_are_seen(
    rgba: Seq<u8>,
    w: nat,
    h: nat,
    x: nat,
    y: nat,
    left: (u8, u8, u8),
    right: (u8, u8, u8),
)
    requires
        resizable(rgba, w, h, 9, 8),
        x < 8,
        y < 8,
        one_value(rgba, w, h, 9, 8, x, y, 0, left.0),
        one_value(rgba, w, h, 9, 8, x, y, 1, left.1),
        one_value(rgba, w, h, 9, 8, x, y, 2, left.2),
        one_value(rgba, w, h, 9, 8, x + 1, y, 0, right.0),
        one_value(rgba, w, h, 9, 8, x + 1, y, 1, right.1),
        one_value(rgba, w, h, 9, 8, x + 1, y, 2, right.2),
    ensures
        lighter(resized(rgba, w, h, 9, 8), (8 * y + x) as int) <==> lightness(left.0, left.1, left.2)
            > lightness(right.0, right.1, right.2),
{
    places_show_what_lies_there(rgba, w, h, 9, 8, x, y, 0, left.0);
    places_show_what_lies_there(rgba, w, h, 9, 8, x, y, 1, left.1);
    places_show_what_lies_there(rgba, w, h, 9, 8, x, y, 2, left.2);
    places_show_what_lies_there(rgba, w, h, 9, 8, x + 1, y, 0, right.0);
    places_show_what_lies_there(rgba, w, h, 9, 8, x + 1, y, 1, right.1);
    places_show_what_lies_there(rgba, w, h, 9, 8, x + 1, y, 2, right.2);
    let n = (8 * y + x) as int;
    assert(n / 8 == y && n % 8 == x);
}

/// More light in a place, wherever it falls there, never shows as less; and what
/// is shown is between the darkest and the lightest pixel that lies there.
pub proof fn means_lie_between(sum: nat, n: nat, darkest: u8, lightest: u8)
    requires
        n > 0,
        n * light(darkest) <= sum <= n * light(lightest),
    ensures
        darkest <= encoded(sum, n) <= lightest,
{
    own_light_encodes(darkest, n, 0);
    own_light_encodes(lightest, n, 0);
    encoding_grows((n * light(darkest)) as nat, sum, n, 0);
    encoding_grows(sum, (n * light(lightest)) as nat, n, 0);
}

proof fn encoding_grows(a: nat, b: nat, n: nat, from: nat)
    requires
        a <= b,
        from <= 255,
    ensures
        nearest_from(a, n, from) <= nearest_from(b, n, from),
        from <= nearest_from(b, n, from),
    decreases 255 - from,
{
    if from < 255 {
        encoding_grows(a, b, n, from + 1);
    }
}

/// Every pixel of an area counts: an area cut in two by a column or a row
/// contributes what its two parts do, and a single pixel contributes its own
/// light.
pub proof fn every_pixel_counts(
    rgba: Seq<u8>,
    w: nat,
    x0: nat,
    xm: nat,
    x1: nat,
    y0: nat,
    ym: nat,
    y1: nat,
    ch: nat,
)
    requires
        x0 <= xm <= x1,
        y0 <= ym <= y1,
    ensures
        area_sum(rgba, w, x0, x1, y0, y1, ch) == area_sum(rgba, w, x0, xm, y0, y1, ch) + area_sum(
            rgba,
            w,
            xm,
            x1,
            y0,
            y1,
            ch,
        ),
        area_sum(rgba, w, x0, x1, y0, y1, ch) == area_sum(rgba, w, x0, x1, y0, ym, ch) + area_sum(
            rgba,
            w,
            x0,
            x1,
            ym,
            y1,
            ch,
        ),
        ch < 3 ==> area_sum(rgba, w, x0, x0 + 1, y0, y0 + 1, ch) == light(
            sample(rgba, w, x0, y0, ch),
        ),
    decreases y1,
{
    if y1 > y0 {
        rows_add_up(rgba, w, (y1 - 1) as nat, x0, xm, x1, ch);
        if y1 > ym {
            every_pixel_counts(rgba, w, x0, xm, x1, y0, ym, (y1 - 1) as nat, ch);
        } else {
            every_pixel_counts(rgba, w, x0, xm, x1, y0, y0, (y1 - 1) as nat, ch);
        }
    }
    reveal_with_fuel(area_sum, 2);
    reveal_with_fuel(row_sum, 2);
}

proof fn rows_add_up(rgba: Seq<u8>, w: nat, y: nat, x0: nat, xm: nat, x1: nat, ch: nat)
    requires
        x0 <= xm <= x1,
    ensures
        row_sum(rgba, w, y, x0, x1, ch) == row_sum(rgba, w, y, x0, xm, ch) + row_sum(
            rgba,
            w,
            y,
            xm,
            x1,
            ch,
        ),
    decreases x1,
{
    if x1 > xm {
        rows_add_up(rgba, w, y, x0, xm, (x1 - 1) as nat, ch);
    }
}

/// Where every comparison comes out the other way, the distance is how many
/// comparisons there are.
pub proof fn opposites_are_farthest(a: u64, n: nat)
    requires
        n <= 64,
    ensures
        differing(a, !a, n) == n,
    decreases n,
{
    if n > 0 {
        opposites_are_farthest(a, (n - 1) as nat);
        let k = (n - 1) as u64;
        assert(((a >> k) & 1 == 1) != (((!a) >> k) & 1 == 1)) by (bit_vector)
            requires
                k < 64,
        ;
    }
}

} // verus!
