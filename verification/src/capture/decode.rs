//! From bytes to events: a decoder that is fed as bytes arrive, and what each
//! item says.

use vstd::prelude::*;
use vstd::utf8::{decode_utf8, valid_utf8};

use crate::capture::fixture::text_of;
use crate::capture::items::{plain, Item, ItemView, CORE, PICT, SSNC};
use crate::capture::reader::{all_in, as_chars, next_in, next_item, Flaw};
use crate::capture::search::{
    first, first_from, first_is, first_stands, nowhere_before_first, stands,
};
use crate::capture::synth::{
    ABEG, AEND, ASAA, ASAL, ASAR, ASGN, ASTM, ASTN, CLIP, MDEN, MDST, MINM, MPER, PBEG, PCEN, PCST,
    PEND, PFFR, PFLS, PRGR, PRSM, PVOL, RTP_HZ, SNAM, SNUA, STAL, SVIP,
};
use crate::meta::{CoreField, CoreView, MetaEvent, MetaView};
use crate::single::{Single, INFINITY_BITS, NEGATIVE_ZERO_BITS};
use crate::strings::{
    all_digits, decimal_value, find_char, first_piece_len, first_piece_len_is, from_chars,
    parse_digits, pieces, slice_chars, split, texts, to_chars,
};

verus! {

broadcast use vstd::seq::group_seq_axioms;

/// `ascp`: the composer.
pub const ASCP: u32 = 0x6173_6370;

/// `ascm`: a comment.
pub const ASCM: u32 = 0x6173_636d;

/// `asdt`: a description.
pub const ASDT: u32 = 0x6173_6474;

/// `assn`: the name to sort by.
pub const ASSN: u32 = 0x6173_736e;

/// `asul`: where the track comes from.
pub const ASUL: u32 = 0x6173_756c;

/// `conn`: a sender connected.
pub const CONN: u32 = 0x636f_6e6e;

/// `disc`: a sender went away.
pub const DISC: u32 = 0x6469_7363;

/// `svna`: the name under which the receiver is seen.
pub const SVNA: u32 = 0x7376_6e61;

/// The bits of the volume that stands for silence, -144 dB. Numbers below it
/// have larger bits.
pub const SILENCE_BITS: u32 = 0xc310_0000;

// --- a stream in chunks ---------------------------------------------------

/// What has arrived of a stream and is not read yet.
#[derive(Debug)]
pub struct Decoder {
    pending: Vec<u8>,
}

impl View for Decoder {
    type V = Seq<u8>;

    closed spec fn view(&self) -> Seq<u8> {
        self.pending@
    }
}

impl Decoder {
    /// A decoder that has seen nothing.
    pub fn new() -> (r: Decoder)
        ensures
            r@ == Seq::<u8>::empty(),
    {
        Decoder { pending: Vec::new() }
    }

    /// Take what has arrived.
    pub fn feed(&mut self, bytes: &[u8])
        ensures
            final(self)@ == old(self)@ + bytes@,
    {
        self.pending.extend_from_slice(bytes);
    }

    /// The next item that is complete, or what is wrong with it.
    pub fn next(&mut self) -> (r: Option<Result<Item, Flaw>>)
        ensures
            match r {
                Some(Ok(i)) => next_in(old(self)@) matches Some((Ok(v), end)) && v == i@ && final(self)@ == old(self)@.skip(end),
                Some(Err(e)) => next_in(old(self)@) matches Some((Err(f), end)) && f == e && final(self)@ == old(self)@.skip(end),
                None => next_in(old(self)@) is None && final(self)@ == old(self)@,
            },
    {
        match next_item(self.pending.as_slice()) {
            None => None,
            Some((r, end)) => {
                let rest = self.pending.split_off(end);
                assert(rest@ == old(self)@.skip(end as int));
                self.pending = rest;
                Some(r)
            },
        }
    }
}

proof fn first_stays(a: Seq<u8>, b: Seq<u8>, needle: Seq<u8>)
    ensures
        first(a, needle) is Some ==> first(a + b, needle) == first(a, needle),
{
    if needle.len() > 0 {
        first_stands(a, needle, 0);
        nowhere_before_first(a, needle, 0);
        if let Some(i) = first_from(a, needle, 0) {
            assert forall|j: int| 0 <= j <= i implies #[trigger] stands(a + b, needle, j)
                == stands(a, needle, j) by {
                assert((a + b).subrange(j, j + needle.len()) == a.subrange(j, j + needle.len()));
            }
            first_is(a + b, needle, 0, i);
        }
    }
}

proof fn next_stays(a: Seq<u8>, b: Seq<u8>)
    ensures
        match next_in(a) {
            Some((r, end)) => next_in(a + b) == Some((r, end)) && 0 < end <= a.len(),
            None => true,
        },
{
    let open = plain("<item>"@);
    let close = plain("</item>"@);
    reveal_strlit("<item>");
    reveal_strlit("</item>");
    first_stays(a, b, open);
    if let Some(at) = first(a, open) {
        first_stands(a, open, 0);
        let inner = a.skip(at + 6);
        assert((a + b).skip(at + 6) == inner + b);
        first_stays(inner, b, close);
        if let Some(n) = first(inner, close) {
            first_stands(inner, close, 0);
            assert((inner + b).take(n) == inner.take(n));
        }
    }
}

/// What is read from a stream does not depend on where the stream is cut:
/// reading one part, and then what that left with the next part behind it,
/// gives what reading both at once gives.
pub proof fn chunks_do_not_matter(a: Seq<u8>, b: Seq<u8>)
    ensures
        all_in(a + b).0 == all_in(a).0 + all_in(all_in(a).1 + b).0,
        all_in(a + b).1 == all_in(all_in(a).1 + b).1,
    decreases a.len(),
{
    next_stays(a, b);
    if let Some((r, end)) = next_in(a) {
        chunks_do_not_matter(a.skip(end), b);
        assert((a + b).skip(end) == a.skip(end) + b);
    }
}

// --- what an item says ----------------------------------------------------

/// The four characters of a code.
pub open spec fn letters(code: u32) -> Seq<char> {
    seq![
        ((code / 0x100_0000) % 0x100) as u8 as char,
        ((code / 0x1_0000) % 0x100) as u8 as char,
        ((code / 0x100) % 0x100) as u8 as char,
        (code % 0x100) as u8 as char,
    ]
}

/// A number, the highest byte first.
pub open spec fn big_endian(s: Seq<u8>) -> nat
    decreases s.len(),
{
    if s.len() == 0 {
        0
    } else {
        big_endian(s.drop_last()) * 256 + s.last() as nat
    }
}

/// The time between two moments of a clock that counts samples and starts
/// again when its 32 bits are full.
pub open spec fn lapse(from: nat, to: nat) -> nat {
    ((to - from) % 0x1_0000_0000) as nat * 1000 / RTP_HZ as nat
}

/// A moment of that clock.
pub open spec fn moment(s: Seq<char>) -> Option<nat> {
    if s.len() > 0 && all_digits(s) && decimal_value(s) <= u32::MAX {
        Some(decimal_value(s))
    } else {
        None
    }
}

/// How far a track is and how long it is, in milliseconds: three moments with
/// slashes between them, the start, the present and the end.
pub open spec fn progress_in(payload: Seq<u8>) -> Option<(nat, nat)> {
    let p = pieces(as_chars(payload), '/');
    if p.len() != 3 {
        None
    } else {
        match (moment(p[0]), moment(p[1]), moment(p[2])) {
            (Some(start), Some(now), Some(end)) => Some((lapse(start, now), lapse(start, end))),
            _ => None,
        }
    }
}

/// What stands before the first comma.
pub open spec fn volume_in(payload: Seq<u8>) -> Seq<char> {
    as_chars(payload).take(first_piece_len(as_chars(payload), ',') as int)
}

/// Whether a volume is silence: -144 dB or less.
pub open spec fn silent(db: Single) -> bool {
    SILENCE_BITS <= db.bits <= NEGATIVE_ZERO_BITS + INFINITY_BITS
}

/// What the sender says of a track. What cannot be read is kept as it is.
pub open spec fn core_in(code: u32, payload: Seq<u8>) -> CoreView {
    let other = CoreView::Other { code: letters(code), raw: payload };
    let text = decode_utf8(payload);
    if code == ASTM || code == ASTN || code == MPER {
        let n = big_endian(payload) as u64;
        if payload.len() == 0 || payload.len() > 8 {
            other
        } else if code == ASTM {
            CoreView::DurationMs(n)
        } else if code == ASTN {
            CoreView::TrackNumber(n)
        } else {
            CoreView::PersistentId(n)
        }
    } else if !valid_utf8(payload) {
        other
    } else if code == MINM {
        CoreView::Title(text)
    } else if code == ASAR {
        CoreView::Artist(text)
    } else if code == ASAL {
        CoreView::Album(text)
    } else if code == ASAA {
        CoreView::AlbumArtist(text)
    } else if code == ASGN {
        CoreView::Genre(text)
    } else if code == ASCP {
        CoreView::Composer(text)
    } else if code == ASCM {
        CoreView::Comment(text)
    } else if code == ASDT {
        CoreView::Description(text)
    } else if code == ASSN {
        CoreView::SortName(text)
    } else if code == ASUL {
        CoreView::Url(text)
    } else {
        other
    }
}

/// What the receiver says without a payload.
pub open spec fn signal_in(code: u32) -> Option<MetaView> {
    if code == ABEG {
        Some(MetaView::ActiveBegin)
    } else if code == AEND {
        Some(MetaView::ActiveEnd)
    } else if code == PBEG {
        Some(MetaView::PlayBegin)
    } else if code == PFFR {
        Some(MetaView::FirstFrame)
    } else if code == PEND {
        Some(MetaView::PlayEnd)
    } else if code == PFLS {
        Some(MetaView::PlayFlush)
    } else if code == PRSM {
        Some(MetaView::PlayResume)
    } else if code == STAL {
        Some(MetaView::Stall)
    } else if code == MDST {
        Some(MetaView::BundleStart)
    } else if code == MDEN {
        Some(MetaView::BundleEnd)
    } else if code == PCST {
        Some(MetaView::PictureStart)
    } else if code == PCEN {
        Some(MetaView::PictureEnd)
    } else {
        None
    }
}

/// What the receiver says in a text.
pub open spec fn told_in(code: u32, payload: Seq<u8>) -> Option<MetaView> {
    let text = decode_utf8(payload);
    if !valid_utf8(payload) {
        None
    } else if code == SNAM {
        Some(MetaView::ClientName(text))
    } else if code == SNUA {
        Some(MetaView::UserAgent(text))
    } else if code == CLIP {
        Some(MetaView::ClientIp(text))
    } else if code == SVIP {
        Some(MetaView::ServerIp(text))
    } else if code == SVNA {
        Some(MetaView::ServerName(text))
    } else if code == CONN {
        Some(MetaView::ClientConnected(text))
    } else if code == DISC {
        Some(MetaView::ClientDisconnected(text))
    } else {
        None
    }
}

/// What an item says. A volume is read by the caller.
pub open spec fn event_in(i: ItemView, db: Option<Single>) -> MetaView {
    let unknown = MetaView::Unknown {
        kind: letters(i.kind),
        code: letters(i.code),
        len: i.payload.len() as usize,
    };
    if i.kind == CORE {
        MetaView::Core(core_in(i.code, i.payload))
    } else if i.kind != SSNC {
        unknown
    } else if signal_in(i.code) is Some {
        signal_in(i.code)->0
    } else if i.code == PICT {
        if i.payload.len() == 0 {
            MetaView::PictureCleared
        } else {
            MetaView::Picture(i.payload)
        }
    } else if i.code == PRGR {
        match progress_in(i.payload) {
            Some((position, duration)) => MetaView::Progress {
                position_ms: position as u64,
                duration_ms: duration as u64,
            },
            None => unknown,
        }
    } else if i.code == PVOL {
        match db {
            Some(v) => MetaView::Volume { airplay_db: v, muted: silent(v) },
            None => unknown,
        }
    } else {
        match told_in(i.code, i.payload) {
            Some(e) => e,
            None => unknown,
        }
    }
}

fn write_letters(code: u32) -> (r: String)
    ensures
        r@ == letters(code),
{
    let a: u32 = (code / 0x100_0000) % 0x100;
    let b: u32 = (code / 0x1_0000) % 0x100;
    let c: u32 = (code / 0x100) % 0x100;
    let d: u32 = code % 0x100;
    let v: Vec<char> = vec![a as u8 as char, b as u8 as char, c as u8 as char, d as u8 as char];
    assert(v@ == letters(code));
    from_chars(v.as_slice())
}

fn read_chars(s: &[u8]) -> (r: Vec<char>)
    ensures
        r@ == as_chars(s@),
{
    let mut c: Vec<char> = Vec::new();
    let mut i: usize = 0;
    while i < s.len()
        invariant
            i <= s@.len(),
            c@ == as_chars(s@).take(i as int),
        decreases s.len() - i,
    {
        c.push(s[i] as char);
        assert(as_chars(s@).take(i + 1) == as_chars(s@).take(i as int).push(s@[i as int] as char));
        i = i + 1;
    }
    assert(as_chars(s@).take(s@.len() as int) == as_chars(s@));
    c
}

/// How many numbers some bytes can hold.
spec fn room(n: nat) -> nat
    decreases n,
{
    if n == 0 {
        1
    } else {
        256 * room((n - 1) as nat)
    }
}

fn read_big_endian(s: &[u8]) -> (r: u64)
    requires
        s@.len() <= 8,
    ensures
        r == big_endian(s@),
{
    let mut v: u64 = 0;
    let mut i: usize = 0;
    proof {
        reveal_with_fuel(room, 9);
    }
    assert(s@.take(0).len() == 0);
    while i < s.len()
        invariant
            i <= s@.len() <= 8,
            v == big_endian(s@.take(i as int)),
            v < room(i as nat),
            room(1) == 0x100,
            room(2) == 0x1_0000,
            room(3) == 0x100_0000,
            room(4) == 0x1_0000_0000,
            room(5) == 0x100_0000_0000,
            room(6) == 0x1_0000_0000_0000,
            room(7) == 0x100_0000_0000_0000,
            room(0) == 1,
        decreases s.len() - i,
    {
        assert(s@.take(i + 1).drop_last() == s@.take(i as int));
        assert(s@.take(i + 1).last() == s@[i as int]);
        assert(room((i + 1) as nat) == 256 * room(i as nat));
        v = v * 256 + s[i] as u64;
        i = i + 1;
    }
    assert(s@.take(s@.len() as int) == s@);
    v
}

fn read_moment(s: &str) -> (r: Option<u32>)
    ensures
        match r {
            Some(v) => moment(s@) == Some(v as nat),
            None => moment(s@) is None,
        },
{
    match parse_digits(&to_chars(s)) {
        Some(v) => if v <= u32::MAX as u64 {
            Some(v as u32)
        } else {
            None
        },
        None => None,
    }
}

fn measure(from: u32, to: u32) -> (r: u64)
    ensures
        r == lapse(from as nat, to as nat),
{
    let samples: u64 = if to >= from {
        (to - from) as u64
    } else {
        0x1_0000_0000u64 - (from - to) as u64
    };
    samples * 1000 / RTP_HZ as u64
}

fn read_progress(payload: &[u8]) -> (r: Option<(u64, u64)>)
    ensures
        match r {
            Some((position, duration)) => progress_in(payload@) == Some(
                (position as nat, duration as nat),
            ),
            None => progress_in(payload@) is None,
        },
{
    let parts = split(&read_chars(payload), '/');
    assert(texts(parts@).len() == parts@.len());
    if parts.len() != 3 {
        return None;
    }
    assert(texts(parts@)[0] == parts@[0]@);
    assert(texts(parts@)[1] == parts@[1]@);
    assert(texts(parts@)[2] == parts@[2]@);
    match (
        read_moment(parts[0].as_str()),
        read_moment(parts[1].as_str()),
        read_moment(parts[2].as_str()),
    ) {
        (Some(start), Some(now), Some(end)) => Some((measure(start, now), measure(start, end))),
        _ => None,
    }
}

/// The number of a volume as it is written, if the item is a volume.
pub fn volume_text(item: &Item) -> (r: Option<String>)
    ensures
        match r {
            Some(t) => item.kind == SSNC && item.code == PVOL && t@ == volume_in(item.payload@),
            None => item.kind != SSNC || item.code != PVOL,
        },
{
    if item.kind != SSNC || item.code != PVOL {
        return None;
    }
    let c = read_chars(item.payload.as_slice());
    let end: usize = match find_char(&c, ',', 0) {
        Some(at) => at,
        None => c.len(),
    };
    proof {
        first_piece_len_is(c@, ',', end as int);
    }
    Some(from_chars(&slice_chars(&c, 0, end)))
}

fn read_core(code: u32, payload: &Vec<u8>) -> (r: CoreField)
    ensures
        r@ == core_in(code, payload@),
{
    if code == ASTM || code == ASTN || code == MPER {
        if payload.len() == 0 || payload.len() > 8 {
            return CoreField::Other { code: write_letters(code), raw: payload.clone() };
        }
        let n: u64 = read_big_endian(payload.as_slice());
        if code == ASTM {
            CoreField::DurationMs(n)
        } else if code == ASTN {
            CoreField::TrackNumber(n)
        } else {
            CoreField::PersistentId(n)
        }
    } else {
        match text_of(payload.as_slice()) {
            None => CoreField::Other { code: write_letters(code), raw: payload.clone() },
            Some(text) => if code == MINM {
                CoreField::Title(text)
            } else if code == ASAR {
                CoreField::Artist(text)
            } else if code == ASAL {
                CoreField::Album(text)
            } else if code == ASAA {
                CoreField::AlbumArtist(text)
            } else if code == ASGN {
                CoreField::Genre(text)
            } else if code == ASCP {
                CoreField::Composer(text)
            } else if code == ASCM {
                CoreField::Comment(text)
            } else if code == ASDT {
                CoreField::Description(text)
            } else if code == ASSN {
                CoreField::SortName(text)
            } else if code == ASUL {
                CoreField::Url(text)
            } else {
                CoreField::Other { code: write_letters(code), raw: payload.clone() }
            },
        }
    }
}

fn read_signal(code: u32) -> (r: Option<MetaEvent>)
    ensures
        match r {
            Some(e) => signal_in(code) == Some(e@),
            None => signal_in(code) is None,
        },
{
    if code == ABEG {
        Some(MetaEvent::ActiveBegin)
    } else if code == AEND {
        Some(MetaEvent::ActiveEnd)
    } else if code == PBEG {
        Some(MetaEvent::PlayBegin)
    } else if code == PFFR {
        Some(MetaEvent::FirstFrame)
    } else if code == PEND {
        Some(MetaEvent::PlayEnd)
    } else if code == PFLS {
        Some(MetaEvent::PlayFlush)
    } else if code == PRSM {
        Some(MetaEvent::PlayResume)
    } else if code == STAL {
        Some(MetaEvent::Stall)
    } else if code == MDST {
        Some(MetaEvent::BundleStart)
    } else if code == MDEN {
        Some(MetaEvent::BundleEnd)
    } else if code == PCST {
        Some(MetaEvent::PictureStart)
    } else if code == PCEN {
        Some(MetaEvent::PictureEnd)
    } else {
        None
    }
}

fn read_told(code: u32, payload: &[u8]) -> (r: Option<MetaEvent>)
    ensures
        match r {
            Some(e) => told_in(code, payload@) == Some(e@),
            None => told_in(code, payload@) is None,
        },
{
    match text_of(payload) {
        None => None,
        Some(text) => if code == SNAM {
            Some(MetaEvent::ClientName(text))
        } else if code == SNUA {
            Some(MetaEvent::UserAgent(text))
        } else if code == CLIP {
            Some(MetaEvent::ClientIp(text))
        } else if code == SVIP {
            Some(MetaEvent::ServerIp(text))
        } else if code == SVNA {
            Some(MetaEvent::ServerName(text))
        } else if code == CONN {
            Some(MetaEvent::ClientConnected(text))
        } else if code == DISC {
            Some(MetaEvent::ClientDisconnected(text))
        } else {
            None
        },
    }
}

fn unread(item: &Item) -> (r: MetaEvent)
    ensures
        r@ == (MetaView::Unknown {
            kind: letters(item.kind),
            code: letters(item.code),
            len: item.payload@.len() as usize,
        }),
{
    MetaEvent::Unknown {
        kind: write_letters(item.kind),
        code: write_letters(item.code),
        len: item.payload.len(),
    }
}

/// What an item says. `db` is the number in [`volume_text`], where there is
/// one.
pub fn event_of(item: &Item, db: Option<Single>) -> (r: MetaEvent)
    ensures
        r@ == event_in(item@, db),
{
    if item.kind == CORE {
        return MetaEvent::Core(read_core(item.code, &item.payload));
    }
    if item.kind != SSNC {
        return unread(item);
    }
    match read_signal(item.code) {
        Some(e) => {
            return e;
        },
        None => {},
    }
    if item.code == PICT {
        if item.payload.len() == 0 {
            MetaEvent::PictureCleared
        } else {
            MetaEvent::Picture(item.payload.clone())
        }
    } else if item.code == PRGR {
        match read_progress(item.payload.as_slice()) {
            Some((position_ms, duration_ms)) => MetaEvent::Progress { position_ms, duration_ms },
            None => unread(item),
        }
    } else if item.code == PVOL {
        match db {
            Some(v) => MetaEvent::Volume {
                airplay_db: v,
                muted: SILENCE_BITS <= v.bits && v.bits <= NEGATIVE_ZERO_BITS + INFINITY_BITS,
            },
            None => unread(item),
        }
    } else {
        match read_told(item.code, item.payload.as_slice()) {
            Some(e) => e,
            None => unread(item),
        }
    }
}

} // verus!
