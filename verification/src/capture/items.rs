//! The items of a metadata stream, and how they are written.

use vstd::prelude::*;
use vstd::utf8::{encode_utf8, is_ascii_chars, is_ascii_chars_encode_utf8};

use crate::strings::{decimal, padded_hex, to_decimal, to_padded_hex};

verus! {

broadcast use vstd::seq::group_seq_axioms;

/// One item of a stream. Kind and code are four characters each, the first one
/// highest.
#[derive(Debug)]
pub struct Item {
    pub kind: u32,
    pub code: u32,
    pub payload: Vec<u8>,
}

/// An [`Item`] as values.
pub struct ItemView {
    pub kind: u32,
    pub code: u32,
    pub payload: Seq<u8>,
}

impl View for Item {
    type V = ItemView;

    open spec fn view(&self) -> ItemView {
        ItemView { kind: self.kind, code: self.code, payload: self.payload@ }
    }
}

/// Items as values.
pub open spec fn items_view(s: Seq<Item>) -> Seq<ItemView> {
    s.map_values(|x: Item| x@)
}

/// The kind of what the receiver says of itself: `ssnc`.
pub const SSNC: u32 = 0x7373_6e63;

/// The kind of what the sender says of a track: `core`.
pub const CORE: u32 = 0x636f_7265;

/// The code of a picture: `PICT`.
pub const PICT: u32 = 0x5049_4354;

// --- text in bytes --------------------------------------------------------

/// The bytes of a text of plain ASCII.
pub open spec fn plain(s: Seq<char>) -> Seq<u8> {
    s.map_values(|c: char| c as u8)
}

/// The bytes of a text, if it is plain ASCII.
pub proof fn plain_is_utf8(s: Seq<char>)
    requires
        is_ascii_chars(s),
    ensures
        encode_utf8(s) == plain(s),
{
    is_ascii_chars_encode_utf8(s);
    assert(encode_utf8(s) == plain(s));
}

/// Append a text of plain ASCII.
pub fn push_plain(out: &mut Vec<u8>, s: &str)
    requires
        is_ascii_chars(s@),
    ensures
        final(out)@ == old(out)@ + plain(s@),
{
    proof {
        plain_is_utf8(s@);
    }
    out.extend_from_slice(s.as_bytes());
}

/// Decimal digits are plain ASCII, and none of them is an angle bracket.
pub proof fn decimal_is_ascii(n: nat)
    ensures
        is_ascii_chars(decimal(n)),
        forall|i: int| 0 <= i < decimal(n).len() ==> #[trigger] decimal(n)[i] != '<',
{
    crate::strings::decimal_round_trip(n);
    let s = decimal(n);
    assert forall|i: int| 0 <= i < s.len() implies '\0' <= #[trigger] s[i] <= '\u{7f}'
        && s[i] != '<' by {
        assert(crate::strings::is_digit(s[i]));
    }
}

/// Hexadecimal digits are plain ASCII, and none of them is an angle bracket.
pub proof fn padded_hex_is_ascii(n: nat, width: nat)
    ensures
        is_ascii_chars(padded_hex(n, width)),
        padded_hex(n, width).len() == width,
        forall|i: int| 0 <= i < width ==> #[trigger] padded_hex(n, width)[i] != '<',
    decreases width,
{
    if width > 0 {
        padded_hex_is_ascii(n / 16, (width - 1) as nat);
    }
}

// --- base64 ---------------------------------------------------------------

/// The character of six bits.
pub open spec fn letter(n: int) -> u8 {
    if n < 26 {
        (65 + n) as u8
    } else if n < 52 {
        (71 + n) as u8
    } else if n < 62 {
        (n - 4) as u8
    } else if n == 62 {
        43
    } else {
        47
    }
}

/// Bytes in base64: three bytes in four characters, the last group padded.
pub open spec fn base64(p: Seq<u8>) -> Seq<u8>
    decreases p.len(),
{
    if p.len() == 0 {
        Seq::empty()
    } else if p.len() == 1 {
        seq![letter(p[0] as int / 4), letter(p[0] as int % 4 * 16), 61u8, 61u8]
    } else if p.len() == 2 {
        seq![
            letter(p[0] as int / 4),
            letter(p[0] as int % 4 * 16 + p[1] as int / 16),
            letter(p[1] as int % 16 * 4),
            61u8,
        ]
    } else {
        seq![
            letter(p[0] as int / 4),
            letter(p[0] as int % 4 * 16 + p[1] as int / 16),
            letter(p[1] as int % 16 * 4 + p[2] as int / 64),
            letter(p[2] as int % 64),
        ] + base64(p.skip(3))
    }
}

fn letter_of(n: u8) -> (r: u8)
    requires
        n < 64,
    ensures
        r == letter(n as int),
{
    if n < 26 {
        65 + n
    } else if n < 52 {
        71 + n
    } else if n < 62 {
        n - 4
    } else if n == 62 {
        43
    } else {
        47
    }
}

/// Append bytes in base64.
pub fn push_base64(out: &mut Vec<u8>, p: &[u8])
    ensures
        final(out)@ == old(out)@ + base64(p@),
{
    let n: usize = p.len();
    let mut i: usize = 0;
    assert(p@.skip(0) == p@);
    while n - i >= 3
        invariant
            i <= n,
            n == p@.len(),
            old(out)@ + base64(p@) == out@ + base64(p@.skip(i as int)),
        decreases n - i,
    {
        let ghost rest = p@.skip(i as int);
        let ghost before = out@;
        let (a, b, c): (u8, u8, u8) = (p[i], p[i + 1], p[i + 2]);
        out.push(letter_of(a / 4));
        out.push(letter_of(a % 4 * 16 + b / 16));
        out.push(letter_of(b % 16 * 4 + c / 64));
        out.push(letter_of(c % 64));
        proof {
            assert(rest.skip(3) == p@.skip(i + 3));
            let four = seq![
                letter(a as int / 4),
                letter(a as int % 4 * 16 + b as int / 16),
                letter(b as int % 16 * 4 + c as int / 64),
                letter(c as int % 64),
            ];
            assert(base64(rest) == four + base64(rest.skip(3)));
            assert(out@ == before + four);
            assert(before + (four + base64(rest.skip(3))) == out@ + base64(rest.skip(3)));
        }
        i = i + 3;
    }
    let ghost rest = p@.skip(i as int);
    let ghost before = out@;
    if n - i == 1 {
        let a: u8 = p[i];
        out.push(letter_of(a / 4));
        out.push(letter_of(a % 4 * 16));
        out.push(61);
        out.push(61);
    } else if n - i == 2 {
        let (a, b): (u8, u8) = (p[i], p[i + 1]);
        out.push(letter_of(a / 4));
        out.push(letter_of(a % 4 * 16 + b / 16));
        out.push(letter_of(b % 16 * 4));
        out.push(61);
    }
    assert(out@ == before + base64(rest));
}

/// No character of base64 is an angle bracket.
pub proof fn base64_has_no_brackets(p: Seq<u8>)
    ensures
        forall|i: int| 0 <= i < base64(p).len() ==> #[trigger] base64(p)[i] != 60,
        p.len() > 0 ==> base64(p).len() > 0,
    decreases p.len(),
{
    assert forall|n: int| 0 <= n < 64 implies #[trigger] letter(n) != 60 by {}
    let b = base64(p);
    if p.len() > 2 {
        let rest = p.skip(3);
        base64_has_no_brackets(rest);
        assert forall|i: int| 0 <= i < b.len() implies #[trigger] b[i] != 60 by {
            if i >= 4 {
                assert(b[i] == base64(rest)[i - 4]);
            } else {
                assert(b[0] == letter(p[0] as int / 4));
                assert(b[1] == letter(p[0] as int % 4 * 16 + p[1] as int / 16));
                assert(b[2] == letter(p[1] as int % 16 * 4 + p[2] as int / 64));
                assert(b[3] == letter(p[2] as int % 64));
            }
        }
    }
}

/// Whether a character stands for six bits.
pub open spec fn is_coded(c: u8) -> bool {
    65 <= c <= 90 || 97 <= c <= 122 || 48 <= c <= 57 || c == 43 || c == 47
}

/// The six bits of a character.
pub open spec fn six_bits(c: u8) -> int {
    if 65 <= c <= 90 {
        c - 65
    } else if 97 <= c <= 122 {
        c - 71
    } else if 48 <= c <= 57 {
        c + 4
    } else if c == 43 {
        62
    } else {
        63
    }
}

/// The bytes that base64 stands for, if that is what it is. Only the last
/// group may be padded.
pub open spec fn from_base64(s: Seq<u8>) -> Option<Seq<u8>>
    decreases s.len(),
{
    if s.len() == 0 {
        Some(Seq::empty())
    } else if s.len() < 4 || !is_coded(s[0]) || !is_coded(s[1]) {
        None
    } else {
        let (a, b, c) = (six_bits(s[0]), six_bits(s[1]), six_bits(s[2]));
        let one = (a * 4 + b / 16) as u8;
        let two = (b % 16 * 16 + c / 4) as u8;
        let three = (c % 4 * 64 + six_bits(s[3])) as u8;
        if s[2] == 61 && s[3] == 61 && s.len() == 4 {
            Some(seq![one])
        } else if !is_coded(s[2]) {
            None
        } else if s[3] == 61 && s.len() == 4 {
            Some(seq![one, two])
        } else if !is_coded(s[3]) {
            None
        } else {
            match from_base64(s.skip(4)) {
                Some(rest) => Some(seq![one, two, three] + rest),
                None => None,
            }
        }
    }
}

fn bits_of(c: u8) -> (r: Option<u8>)
    ensures
        match r {
            Some(n) => is_coded(c) && n == six_bits(c) && n < 64,
            None => !is_coded(c),
        },
{
    if 65 <= c && c <= 90 {
        Some(c - 65)
    } else if 97 <= c && c <= 122 {
        Some(c - 71)
    } else if 48 <= c && c <= 57 {
        Some(c + 4)
    } else if c == 43 {
        Some(62)
    } else if c == 47 {
        Some(63)
    } else {
        None
    }
}

/// What was read so far, in front of what is still to be read.
spec fn read_after(front: Seq<u8>, s: Seq<u8>) -> Option<Seq<u8>> {
    match from_base64(s) {
        Some(rest) => Some(front + rest),
        None => None,
    }
}

/// Read base64.
pub fn read_base64(s: &[u8]) -> (r: Option<Vec<u8>>)
    ensures
        match r {
            Some(v) => from_base64(s@) == Some(v@),
            None => from_base64(s@) is None,
        },
{
    let n: usize = s.len();
    let mut out: Vec<u8> = Vec::new();
    let mut i: usize = 0;
    assert(s@.skip(0) == s@);
    proof {
        if let Some(t) = from_base64(s@) {
            assert(Seq::<u8>::empty() + t == t);
        }
    }
    while i < n
        invariant
            i <= n,
            n == s@.len(),
            from_base64(s@) == read_after(out@, s@.skip(i as int)),
        decreases n - i,
    {
        let ghost rest = s@.skip(i as int);
        let ghost before = out@;
        if n - i < 4 {
            return None;
        }
        assert(rest[0] == s@[i as int] && rest[1] == s@[i + 1] && rest[2] == s@[i + 2] && rest[3]
            == s@[i + 3]);
        let (a, b): (u8, u8) = match (bits_of(s[i]), bits_of(s[i + 1])) {
            (Some(a), Some(b)) => (a, b),
            _ => {
                return None;
            },
        };
        out.push(a * 4 + b / 16);
        if s[i + 2] == 61 && s[i + 3] == 61 && n - i == 4 {
            assert(out@ == before + seq![(a * 4 + b / 16) as u8]);
            return Some(out);
        }
        let c: u8 = match bits_of(s[i + 2]) {
            Some(c) => c,
            None => {
                return None;
            },
        };
        out.push(b % 16 * 16 + c / 4);
        if s[i + 3] == 61 && n - i == 4 {
            assert(out@ == before + seq![(a * 4 + b / 16) as u8, (b % 16 * 16 + c / 4) as u8]);
            return Some(out);
        }
        let d: u8 = match bits_of(s[i + 3]) {
            Some(d) => d,
            None => {
                return None;
            },
        };
        out.push(c % 4 * 64 + d);
        proof {
            assert(rest.skip(4) == s@.skip(i + 4));
            let three = seq![
                (a * 4 + b / 16) as u8,
                (b % 16 * 16 + c / 4) as u8,
                (c % 4 * 64 + d) as u8,
            ];
            assert(out@ == before + three);
            if let Some(t) = from_base64(rest.skip(4)) {
                assert(before + (three + t) == out@ + t);
            }
        }
        i = i + 4;
    }
    assert(s@.skip(n as int).len() == 0);
    assert(out@ + Seq::<u8>::empty() == out@);
    Some(out)
}

// --- items ----------------------------------------------------------------

/// What every item begins with.
pub open spec fn head(kind: u32, code: u32, len: nat) -> Seq<u8> {
    plain("<item><type>"@) + plain(padded_hex(kind as nat, 8)) + plain("</type><code>"@) + plain(
        padded_hex(code as nat, 8),
    ) + plain("</code><length>"@) + plain(decimal(len)) + plain("</length>"@)
}

/// An item as it is written: an empty payload has no data.
pub open spec fn encoded(i: ItemView) -> Seq<u8> {
    head(i.kind, i.code, i.payload.len()) + (if i.payload.len() == 0 {
        Seq::empty()
    } else {
        plain("\n<data encoding=\"base64\">\n"@) + base64(i.payload) + plain("</data>"@)
    }) + plain("</item>\n"@)
}

/// Items one after the other.
pub open spec fn encoded_all(s: Seq<ItemView>) -> Seq<u8>
    decreases s.len(),
{
    if s.len() == 0 {
        Seq::empty()
    } else {
        encoded_all(s.drop_last()) + encoded(s.last())
    }
}

/// Append what every item begins with.
pub fn push_head(out: &mut Vec<u8>, kind: u32, code: u32, len: usize)
    ensures
        final(out)@ == old(out)@ + head(kind, code, len as nat),
{
    proof {
        reveal_strlit("<item><type>");
        reveal_strlit("</type><code>");
        reveal_strlit("</code><length>");
        reveal_strlit("</length>");
        padded_hex_is_ascii(kind as nat, 8);
        padded_hex_is_ascii(code as nat, 8);
        decimal_is_ascii(len as nat);
    }
    push_plain(out, "<item><type>");
    push_plain(out, to_padded_hex(kind as u64, 8).as_str());
    push_plain(out, "</type><code>");
    push_plain(out, to_padded_hex(code as u64, 8).as_str());
    push_plain(out, "</code><length>");
    push_plain(out, to_decimal(len as u64).as_str());
    push_plain(out, "</length>");
    assert(out@ == old(out)@ + head(kind, code, len as nat));
}

/// Append an item.
pub fn push_item(out: &mut Vec<u8>, kind: u32, code: u32, payload: &[u8])
    ensures
        final(out)@ == old(out)@ + encoded(ItemView { kind, code, payload: payload@ }),
{
    proof {
        reveal_strlit("\n<data encoding=\"base64\">\n");
        reveal_strlit("</data>");
        reveal_strlit("</item>\n");
    }
    push_head(out, kind, code, payload.len());
    if payload.len() > 0 {
        push_plain(out, "\n<data encoding=\"base64\">\n");
        push_base64(out, payload);
        push_plain(out, "</data>");
    }
    push_plain(out, "</item>\n");
    assert(out@ == old(out)@ + encoded(ItemView { kind, code, payload: payload@ }));
}

/// Write an item.
pub fn encode_item(kind: u32, code: u32, payload: &[u8]) -> (r: Vec<u8>)
    ensures
        r@ == encoded(ItemView { kind, code, payload: payload@ }),
{
    let mut out: Vec<u8> = Vec::new();
    push_item(&mut out, kind, code, payload);
    out
}

/// Write several items.
pub fn encode_items(items: &Vec<Item>) -> (r: Vec<u8>)
    ensures
        r@ == encoded_all(items_view(items@)),
{
    let ghost all = items_view(items@);
    let mut out: Vec<u8> = Vec::new();
    let mut i: usize = 0;
    assert(all.take(0).len() == 0);
    while i < items.len()
        invariant
            i <= items@.len(),
            all == items_view(items@),
            out@ == encoded_all(all.take(i as int)),
        decreases items.len() - i,
    {
        assert(all.take(i + 1).drop_last() == all.take(i as int));
        assert(all.take(i + 1).last() == items@[i as int]@);
        push_item(&mut out, items[i].kind, items[i].code, &items[i].payload);
        i = i + 1;
    }
    assert(all.take(items.len() as int) == all);
    out
}

// --- laws -----------------------------------------------------------------

/// Base64 loses nothing.
pub proof fn base64_round_trip(p: Seq<u8>)
    ensures
        from_base64(base64(p)) == Some(p),
    decreases p.len(),
{
    assert forall|n: int| 0 <= n < 64 implies six_bits(#[trigger] letter(n)) == n && is_coded(
        letter(n),
    ) && letter(n) != 61 by {}
    if p.len() == 1 {
        assert(from_base64(base64(p)) == Some(p)) by {
            assert(from_base64(base64(p))->0 == p);
        }
    } else if p.len() == 2 {
        assert(from_base64(base64(p)) == Some(p)) by {
            assert(from_base64(base64(p))->0 == p);
        }
    } else if p.len() > 2 {
        base64_round_trip(p.skip(3));
        assert(base64(p).skip(4) == base64(p.skip(3)));
        assert(p == seq![p[0], p[1], p[2]] + p.skip(3));
    }
}

} // verus!
