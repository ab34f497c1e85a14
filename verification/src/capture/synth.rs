//! Synthetic sessions.
//!
//! These are not a substitute for recorded ones. What they are is a
//! deterministic baseline, so that what reads a stream has material to work on,
//! including failure shapes that are awkward to provoke on demand.

use vstd::prelude::*;
use vstd::utf8::encode_utf8;

use crate::capture::items::{
    encode_items, encoded_all, items_view, plain, push_plain, Item, ItemView, CORE, PICT, SSNC,
};
use crate::capture::png::{cover_rows, fake_cover, file_of};
use crate::strings::{concat, decimal, to_decimal};

verus! {

broadcast use vstd::seq::group_seq_axioms;

// --- codes ----------------------------------------------------------------

pub const SNAM: u32 = 0x736e_616d;

pub const SNUA: u32 = 0x736e_7561;

pub const CLIP: u32 = 0x636c_6970;

pub const SVIP: u32 = 0x7376_6970;

pub const MDST: u32 = 0x6d64_7374;

pub const MDEN: u32 = 0x6d64_656e;

pub const PCST: u32 = 0x7063_7374;

pub const PCEN: u32 = 0x7063_656e;

pub const PRGR: u32 = 0x7072_6772;

pub const PVOL: u32 = 0x7076_6f6c;

pub const ABEG: u32 = 0x6162_6567;

pub const AEND: u32 = 0x6165_6e64;

pub const PBEG: u32 = 0x7062_6567;

pub const PEND: u32 = 0x7065_6e64;

pub const PFFR: u32 = 0x7066_6672;

pub const PFLS: u32 = 0x7066_6c73;

pub const PRSM: u32 = 0x7072_736d;

pub const STAL: u32 = 0x7374_616c;

pub const COPL: u32 = 0x636f_706c;

pub const ACRE: u32 = 0x6163_7265;

pub const DAPO: u32 = 0x6461_706f;

pub const PHBT: u32 = 0x7068_6274;

pub const ASAR: u32 = 0x6173_6172;

pub const ASAL: u32 = 0x6173_616c;

pub const ASAA: u32 = 0x6173_6161;

pub const MINM: u32 = 0x6d69_6e6d;

pub const ASGN: u32 = 0x6173_676e;

pub const ASTN: u32 = 0x6173_746e;

pub const ASTM: u32 = 0x6173_746d;

pub const MPER: u32 = 0x6d70_6572;

pub const ASDK: u32 = 0x6173_646b;

pub const AESP: u32 = 0x6165_5350;

/// How many frames of sound a second has.
pub const RTP_HZ: u32 = 44100;

// --- what a session consists of -------------------------------------------

/// An item without a payload.
pub open spec fn bare(code: u32) -> Seq<ItemView> {
    seq![ItemView { kind: SSNC, code, payload: Seq::empty() }]
}

/// An item about the stream.
pub open spec fn about(code: u32, payload: Seq<u8>) -> Seq<ItemView> {
    seq![ItemView { kind: SSNC, code, payload }]
}

/// An item about the track.
pub open spec fn track(code: u32, payload: Seq<u8>) -> Seq<ItemView> {
    seq![ItemView { kind: CORE, code, payload }]
}

/// A number in bytes, the high one first.
pub open spec fn big_endian(n: nat, width: nat) -> Seq<u8>
    decreases width,
{
    if width == 0 {
        Seq::empty()
    } else {
        big_endian(n / 256, (width - 1) as nat).push((n % 256) as u8)
    }
}

/// A sender connects.
pub open spec fn connecting(client: Seq<char>, agent: Seq<char>) -> Seq<ItemView> {
    about(SNAM, encode_utf8(client)) + about(SNUA, encode_utf8(agent)) + about(
        CLIP,
        encode_utf8("192.168.1.42"@),
    ) + about(SVIP, encode_utf8("192.168.1.10"@))
}

/// The metadata of a track.
pub struct TrackView {
    pub artist: Seq<char>,
    pub album: Seq<char>,
    pub title: Seq<char>,
    pub number: u16,
    pub duration_ms: u32,
    pub persistent_id: u64,
}

/// A metadata bundle: `mdst`, the core fields, then `mden`.
pub open spec fn bundled(t: TrackView) -> Seq<ItemView> {
    bare(MDST) + track(ASAR, encode_utf8(t.artist)) + track(ASAL, encode_utf8(t.album)) + track(
        ASAA,
        encode_utf8(t.artist),
    ) + track(MINM, encode_utf8(t.title)) + track(ASGN, encode_utf8("Electronica"@)) + track(
        ASTN,
        big_endian(t.number as nat, 2),
    ) + track(ASTM, big_endian(t.duration_ms as nat, 4)) + track(
        MPER,
        big_endian(t.persistent_id as nat, 8),
    ) + bare(MDEN)
}

/// The cover of a hue.
pub open spec fn cover(hue: u8) -> Seq<u8> {
    file_of(128, 128, cover_rows(128, hue))
}

/// Artwork, framed by `pcst` and `pcen`.
pub open spec fn pictured(hue: u8) -> Seq<ItemView> {
    about(PCST, encode_utf8(decimal(cover(hue).len()))) + about(PICT, cover(hue)) + bare(PCEN)
}

/// The absence of artwork: a picture of zero length.
pub open spec fn unpictured() -> Seq<ItemView> {
    about(PCST, encode_utf8("0"@)) + about(PICT, Seq::empty()) + bare(PCEN)
}

/// Where playback is, in frames from an arbitrary start.
pub open spec fn progress_text(position_s: nat, duration_s: nat) -> Seq<char> {
    decimal(1) + "/"@ + decimal(1 + position_s * 44100) + "/"@ + decimal(1 + duration_s * 44100)
}

/// Where playback is.
pub open spec fn progressed(position_s: nat, duration_s: nat) -> Seq<ItemView> {
    about(PRGR, encode_utf8(progress_text(position_s, duration_s)))
}

/// The volume of the sender: fourteen and a half decibels below its maximum.
pub open spec fn quieter() -> Seq<ItemView> {
    about(PVOL, encode_utf8("-14.500000,0.000000,-30.000000,0.000000"@))
}

// --- building -------------------------------------------------------------

/// A track.
struct Track {
    artist: &'static str,
    album: &'static str,
    title: &'static str,
    number: u16,
    duration_ms: u32,
    persistent_id: u64,
    hue: u8,
}

impl Track {
    spec fn view(&self) -> TrackView {
        TrackView {
            artist: self.artist@,
            album: self.album@,
            title: self.title@,
            number: self.number,
            duration_ms: self.duration_ms,
            persistent_id: self.persistent_id,
        }
    }
}

struct Builder {
    items: Vec<Item>,
}

fn to_big_endian(n: u64, width: u8) -> (r: Vec<u8>)
    ensures
        r@ == big_endian(n as nat, width as nat),
    decreases width,
{
    if width == 0 {
        Vec::new()
    } else {
        let mut out = to_big_endian(n / 256, width - 1);
        out.push((n % 256) as u8);
        out
    }
}

fn utf8(s: &str) -> (r: Vec<u8>)
    ensures
        r@ == encode_utf8(s@),
{
    let mut out: Vec<u8> = Vec::new();
    out.extend_from_slice(s.as_bytes());
    assert(out@ == encode_utf8(s@));
    out
}

impl Builder {
    spec fn view(&self) -> Seq<ItemView> {
        items_view(self.items@)
    }

    fn new() -> (r: Builder)
        ensures
            r@ == Seq::<ItemView>::empty(),
    {
        let r = Builder { items: Vec::new() };
        assert(r@ == Seq::<ItemView>::empty());
        r
    }

    fn put(&mut self, kind: u32, code: u32, payload: Vec<u8>)
        ensures
            final(self)@ == old(self)@ + seq![ItemView { kind, code, payload: payload@ }],
    {
        self.items.push(Item { kind, code, payload });
        assert(self@ == old(self)@ + seq![ItemView { kind, code, payload: payload@ }]);
    }

    fn ssnc(&mut self, code: u32)
        ensures
            final(self)@ == old(self)@ + bare(code),
    {
        let none: Vec<u8> = Vec::new();
        assert(none@ == Seq::<u8>::empty());
        self.put(SSNC, code, none);
    }

    fn ssnc_data(&mut self, code: u32, payload: &str)
        ensures
            final(self)@ == old(self)@ + about(code, encode_utf8(payload@)),
    {
        self.put(SSNC, code, utf8(payload));
    }

    fn about_track(&mut self, code: u32, payload: Vec<u8>)
        ensures
            final(self)@ == old(self)@ + track(code, payload@),
    {
        self.put(CORE, code, payload);
    }

    fn connect(&mut self, client: &str, agent: &str)
        ensures
            final(self)@ == old(self)@ + connecting(client@, agent@),
    {
        self.ssnc_data(SNAM, client);
        self.ssnc_data(SNUA, agent);
        self.ssnc_data(CLIP, "192.168.1.42");
        self.ssnc_data(SVIP, "192.168.1.10");
        assert(self@ == old(self)@ + connecting(client@, agent@));
    }

    fn bundle(&mut self, t: &Track)
        ensures
            final(self)@ == old(self)@ + bundled(t@),
    {
        self.ssnc(MDST);
        self.about_track(ASAR, utf8(t.artist));
        self.about_track(ASAL, utf8(t.album));
        self.about_track(ASAA, utf8(t.artist));
        self.about_track(MINM, utf8(t.title));
        self.about_track(ASGN, utf8("Electronica"));
        self.about_track(ASTN, to_big_endian(t.number as u64, 2));
        self.about_track(ASTM, to_big_endian(t.duration_ms as u64, 4));
        self.about_track(MPER, to_big_endian(t.persistent_id, 8));
        self.ssnc(MDEN);
        assert(self@ == old(self)@ + bundled(t@));
    }

    fn artwork(&mut self, hue: u8)
        ensures
            final(self)@ == old(self)@ + pictured(hue),
    {
        let art = fake_cover(128, hue);
        self.ssnc_data(PCST, to_decimal(art.len() as u64).as_str());
        self.put(SSNC, PICT, art);
        self.ssnc(PCEN);
        assert(self@ == old(self)@ + pictured(hue));
    }

    fn no_artwork(&mut self)
        ensures
            final(self)@ == old(self)@ + unpictured(),
    {
        self.ssnc_data(PCST, "0");
        self.ssnc(PICT);
        self.ssnc(PCEN);
        assert(self@ == old(self)@ + unpictured());
    }

    fn progress(&mut self, position_s: u32, duration_s: u32)
        requires
            position_s <= 97000,
            duration_s <= 97000,
        ensures
            final(self)@ == old(self)@ + progressed(position_s as nat, duration_s as nat),
    {
        let mut payload = concat(to_decimal(1).as_str(), "/");
        payload.append(to_decimal((1 + position_s * RTP_HZ) as u64).as_str());
        payload.append("/");
        payload.append(to_decimal((1 + duration_s * RTP_HZ) as u64).as_str());
        self.ssnc_data(PRGR, payload.as_str());
    }

    fn volume(&mut self)
        ensures
            final(self)@ == old(self)@ + quieter(),
    {
        self.ssnc_data(PVOL, "-14.500000,0.000000,-30.000000,0.000000");
    }

    fn done(&self) -> (r: Vec<u8>)
        ensures
            r@ == encoded_all(self@),
    {
        encode_items(&self.items)
    }
}

// --- sessions -------------------------------------------------------------

pub open spec fn angel() -> TrackView {
    TrackView { artist: "Massive Attack"@, album: "Mezzanine"@, title: "Angel"@, number: 1, duration_ms: 379000, persistent_id: 0x0102_0304_0506_0701 }
}

fn angel_track() -> (r: Track)
    ensures
        r@ == angel(),
        r.hue == 30,
{
    Track { artist: "Massive Attack", album: "Mezzanine", title: "Angel", number: 1, duration_ms: 379000, persistent_id: 0x0102_0304_0506_0701, hue: 30 }
}

pub open spec fn risingson() -> TrackView {
    TrackView { artist: "Massive Attack"@, album: "Mezzanine"@, title: "Risingson"@, number: 2, duration_ms: 298000, persistent_id: 0x0102_0304_0506_0702 }
}

fn risingson_track() -> (r: Track)
    ensures
        r@ == risingson(),
        r.hue == 90,
{
    Track { artist: "Massive Attack", album: "Mezzanine", title: "Risingson", number: 2, duration_ms: 298000, persistent_id: 0x0102_0304_0506_0702, hue: 90 }
}

pub open spec fn teardrop() -> TrackView {
    TrackView { artist: "Massive Attack"@, album: "Mezzanine"@, title: "Teardrop"@, number: 3, duration_ms: 330000, persistent_id: 0x0102_0304_0506_0703 }
}

fn teardrop_track() -> (r: Track)
    ensures
        r@ == teardrop(),
        r.hue == 170,
{
    Track { artist: "Massive Attack", album: "Mezzanine", title: "Teardrop", number: 3, duration_ms: 330000, persistent_id: 0x0102_0304_0506_0703, hue: 170 }
}

pub open spec fn untitled() -> TrackView {
    TrackView { artist: "Unknown Artist"@, album: "Field Recordings"@, title: "Untitled"@, number: 1, duration_ms: 60000, persistent_id: 0x11 }
}

fn untitled_track() -> (r: Track)
    ensures
        r@ == untitled(),
        r.hue == 0,
{
    Track { artist: "Unknown Artist", album: "Field Recordings", title: "Untitled", number: 1, duration_ms: 60000, persistent_id: 0x11, hue: 0 }
}

pub open spec fn roygbiv() -> TrackView {
    TrackView { artist: "Boards of Canada"@, album: "Music Has the Right to Children"@, title: "Roygbiv"@, number: 8, duration_ms: 151000, persistent_id: 0x21 }
}

fn roygbiv_track() -> (r: Track)
    ensures
        r@ == roygbiv(),
        r.hue == 200,
{
    Track { artist: "Boards of Canada", album: "Music Has the Right to Children", title: "Roygbiv", number: 8, duration_ms: 151000, persistent_id: 0x21, hue: 200 }
}

pub open spec fn xtal() -> TrackView {
    TrackView { artist: "Aphex Twin"@, album: "Selected Ambient Works 85-92"@, title: "Xtal"@, number: 1, duration_ms: 293000, persistent_id: 0x31 }
}

fn xtal_track() -> (r: Track)
    ensures
        r@ == xtal(),
        r.hue == 60,
{
    Track { artist: "Aphex Twin", album: "Selected Ambient Works 85-92", title: "Xtal", number: 1, duration_ms: 293000, persistent_id: 0x31, hue: 60 }
}

pub open spec fn roads() -> TrackView {
    TrackView { artist: "Portishead"@, album: "Dummy"@, title: "Roads"@, number: 8, duration_ms: 322000, persistent_id: 0x41 }
}

fn roads_track() -> (r: Track)
    ensures
        r@ == roads(),
        r.hue == 120,
{
    Track { artist: "Portishead", album: "Dummy", title: "Roads", number: 8, duration_ms: 322000, persistent_id: 0x41, hue: 120 }
}

pub open spec fn archangel() -> TrackView {
    TrackView { artist: "Burial"@, album: "Untrue"@, title: "Archangel"@, number: 2, duration_ms: 231000, persistent_id: 0x51 }
}

fn archangel_track() -> (r: Track)
    ensures
        r@ == archangel(),
        r.hue == 15,
{
    Track { artist: "Burial", album: "Untrue", title: "Archangel", number: 2, duration_ms: 231000, persistent_id: 0x51, hue: 15 }
}

pub open spec fn she_moves_she() -> TrackView {
    TrackView { artist: "Four Tet"@, album: "Rounds"@, title: "She Moves She"@, number: 3, duration_ms: 254000, persistent_id: 0x52 }
}

fn she_moves_she_track() -> (r: Track)
    ensures
        r@ == she_moves_she(),
        r.hue == 220,
{
    Track { artist: "Four Tet", album: "Rounds", title: "She Moves She", number: 3, duration_ms: 254000, persistent_id: 0x52, hue: 220 }
}

pub open spec fn open_eye_signal() -> TrackView {
    TrackView { artist: "Jon Hopkins"@, album: "Immunity"@, title: "Open Eye Signal"@, number: 3, duration_ms: 477000, persistent_id: 0x61 }
}

fn open_eye_signal_track() -> (r: Track)
    ensures
        r@ == open_eye_signal(),
        r.hue == 80,
{
    Track { artist: "Jon Hopkins", album: "Immunity", title: "Open Eye Signal", number: 3, duration_ms: 477000, persistent_id: 0x61, hue: 80 }
}

/// A track of the album, played to the end.
pub open spec fn played(t: TrackView, hue: u8, first: bool) -> Seq<ItemView> {
    bare(PBEG) + bundled(t) + pictured(hue) + (if first {
        quieter()
    } else {
        Seq::empty()
    }) + bare(PFFR) + progressed(0, t.duration_ms as nat / 1000) + progressed(
        t.duration_ms as nat / 2000,
        t.duration_ms as nat / 1000,
    ) + bare(PEND)
}

fn play(b: &mut Builder, t: &Track, first: bool)
    requires
        t.duration_ms < 1_000_000,
    ensures
        final(b)@ == old(b)@ + played(t@, t.hue, first),
{
    b.ssnc(PBEG);
    b.bundle(t);
    b.artwork(t.hue);
    if first {
        b.volume();
    }
    b.ssnc(PFFR);
    b.progress(0, t.duration_ms / 1000);
    b.progress(t.duration_ms / 2000, t.duration_ms / 1000);
    b.ssnc(PEND);
    assert(b@ == old(b)@ + played(t@, t.hue, first));
}

/// A normal album play: one active session containing several tracks.
pub open spec fn album_items() -> Seq<ItemView> {
    connecting("Ben's iPhone"@, "AirPlay/845.5.1"@) + bare(ABEG) + played(angel(), 30, true)
        + played(risingson(), 90, false) + played(teardrop(), 170, false) + bare(AEND)
}

/// A normal album play: one active session containing several tracks.
///
/// The important shape here is that `pbeg` and `pend` cycle *per track* inside
/// a single envelope of `abeg` and `aend`.
pub fn album() -> (r: Vec<u8>)
    ensures
        r@ == encoded_all(album_items()),
{
    let mut b = Builder::new();
    b.connect("Ben's iPhone", "AirPlay/845.5.1");
    b.ssnc(ABEG);
    play(&mut b, &angel_track(), true);
    play(&mut b, &risingson_track(), false);
    play(&mut b, &teardrop_track(), false);
    b.ssnc(AEND);
    assert(b@ == album_items());
    b.done()
}

/// A track with no cover art.
pub open spec fn no_artwork_items() -> Seq<ItemView> {
    connecting("Kitchen iPad"@, "AirPlay/845.5.1"@) + bare(ABEG) + bare(PBEG) + bundled(untitled())
        + unpictured() + bare(PFFR) + progressed(0, 60) + bare(PEND) + bare(AEND)
}

/// A track with no cover art: `PICT` arrives with zero length.
pub fn no_artwork() -> (r: Vec<u8>)
    ensures
        r@ == encoded_all(no_artwork_items()),
{
    let mut b = Builder::new();
    b.connect("Kitchen iPad", "AirPlay/845.5.1");
    b.ssnc(ABEG);
    b.ssnc(PBEG);
    b.bundle(&untitled_track());
    b.no_artwork();
    b.ssnc(PFFR);
    b.progress(0, 60);
    b.ssnc(PEND);
    b.ssnc(AEND);
    assert(b@ == no_artwork_items());
    b.done()
}

/// Pause and resume mid-track.
pub open spec fn pause_resume_items() -> Seq<ItemView> {
    connecting("Ben's iPhone"@, "AirPlay/845.5.1"@) + bare(ABEG) + bare(PBEG) + bundled(roygbiv())
        + pictured(200) + bare(PFFR) + progressed(0, 151) + progressed(30, 151) + bare(PFLS) + bare(
        PRSM,
    ) + progressed(31, 151) + bare(PEND) + bare(AEND)
}

/// Pause and resume mid-track.
pub fn pause_resume() -> (r: Vec<u8>)
    ensures
        r@ == encoded_all(pause_resume_items()),
{
    let mut b = Builder::new();
    b.connect("Ben's iPhone", "AirPlay/845.5.1");
    b.ssnc(ABEG);
    b.ssnc(PBEG);
    b.bundle(&roygbiv_track());
    b.artwork(200);
    b.ssnc(PFFR);
    b.progress(0, 151);
    b.progress(30, 151);
    b.ssnc(PFLS);
    b.ssnc(PRSM);
    b.progress(31, 151);
    b.ssnc(PEND);
    b.ssnc(AEND);
    assert(b@ == pause_resume_items());
    b.done()
}

/// A track that is skipped, unless it is the last.
pub open spec fn skipped(t: TrackView, hue: u8, last: bool) -> Seq<ItemView> {
    bare(PBEG) + bundled(t) + pictured(hue) + bare(PFFR) + (if last {
        Seq::empty()
    } else {
        bare(PFLS)
    }) + bare(PEND)
}

fn skip(b: &mut Builder, t: &Track, last: bool)
    ensures
        final(b)@ == old(b)@ + skipped(t@, t.hue, last),
{
    b.ssnc(PBEG);
    b.bundle(t);
    b.artwork(t.hue);
    b.ssnc(PFFR);
    if !last {
        b.ssnc(PFLS);
    }
    b.ssnc(PEND);
    assert(b@ == old(b)@ + skipped(t@, t.hue, last));
}

/// Skipping quickly through tracks.
pub open spec fn track_skip_items() -> Seq<ItemView> {
    connecting("Ben's iPhone"@, "AirPlay/845.5.1"@) + bare(ABEG) + skipped(angel(), 30, false)
        + skipped(risingson(), 90, false) + skipped(teardrop(), 170, true) + bare(AEND)
}

/// Skipping quickly through tracks: several short play streams with no gap.
/// This is the shape that makes a naive amp trigger chatter.
pub fn track_skip() -> (r: Vec<u8>)
    ensures
        r@ == encoded_all(track_skip_items()),
{
    let mut b = Builder::new();
    b.connect("Ben's iPhone", "AirPlay/845.5.1");
    b.ssnc(ABEG);
    skip(&mut b, &angel_track(), false);
    skip(&mut b, &risingson_track(), false);
    skip(&mut b, &teardrop_track(), true);
    b.ssnc(AEND);
    assert(b@ == track_skip_items());
    b.done()
}

/// The sender vanishes.
pub open spec fn abrupt_disconnect_items() -> Seq<ItemView> {
    connecting("Ben's iPhone"@, "AirPlay/845.5.1"@) + bare(ABEG) + bare(PBEG) + bundled(xtal())
        + pictured(60) + bare(PFFR) + progressed(0, 293) + progressed(12, 293) + bare(STAL)
}

/// What a killed writer leaves behind: the beginning of an item.
pub open spec fn cut_short() -> Seq<u8> {
    plain("<item><type>73736e63</type><code>7072"@)
}

/// The sender vanishes: no `pend`, no `aend`, and the stream simply stops
/// mid-item.
pub fn abrupt_disconnect() -> (r: Vec<u8>)
    ensures
        r@ == encoded_all(abrupt_disconnect_items()) + cut_short(),
{
    let mut b = Builder::new();
    b.connect("Ben's iPhone", "AirPlay/845.5.1");
    b.ssnc(ABEG);
    b.ssnc(PBEG);
    b.bundle(&xtal_track());
    b.artwork(60);
    b.ssnc(PFFR);
    b.progress(0, 293);
    b.progress(12, 293);
    b.ssnc(STAL);
    assert(b@ == abrupt_disconnect_items());
    let mut out = b.done();
    proof {
        reveal_strlit("<item><type>73736e63</type><code>7072");
    }
    push_plain(&mut out, "<item><type>73736e63</type><code>7072");
    out
}

/// An older sender.
pub open spec fn airplay1_no_active_items() -> Seq<ItemView> {
    connecting("Old iTunes"@, "iTunes/12.9"@) + bare(PBEG) + bundled(roads()) + pictured(120) + bare(
        PFFR,
    ) + progressed(0, 322) + bare(PEND)
}

/// An older sender that never emits `abeg` or `aend`; `pbeg` has to imply the
/// session, and the session timeout has to close it.
pub fn airplay1_no_active() -> (r: Vec<u8>)
    ensures
        r@ == encoded_all(airplay1_no_active_items()),
{
    let mut b = Builder::new();
    b.connect("Old iTunes", "iTunes/12.9");
    b.ssnc(PBEG);
    b.bundle(&roads_track());
    b.artwork(120);
    b.ssnc(PFFR);
    b.progress(0, 322);
    b.ssnc(PEND);
    assert(b@ == airplay1_no_active_items());
    b.done()
}

/// Two senders in succession.
pub open spec fn client_handover_items() -> Seq<ItemView> {
    connecting("Ben's iPhone"@, "AirPlay/845.5.1"@) + bare(ABEG) + bare(PBEG) + bundled(archangel())
        + pictured(15) + bare(PFFR) + connecting("Living Room Mac"@, "AirPlay/860.7.1"@) + bare(ABEG)
        + bare(PBEG) + bundled(she_moves_she()) + pictured(220) + bare(PFFR) + bare(PEND) + bare(
        AEND,
    )
}

/// Two senders in succession, the second taking over without a clean end from
/// the first.
pub fn client_handover() -> (r: Vec<u8>)
    ensures
        r@ == encoded_all(client_handover_items()),
{
    let mut b = Builder::new();
    b.connect("Ben's iPhone", "AirPlay/845.5.1");
    b.ssnc(ABEG);
    b.ssnc(PBEG);
    b.bundle(&archangel_track());
    b.artwork(15);
    b.ssnc(PFFR);
    // The new client just arrives.
    b.connect("Living Room Mac", "AirPlay/860.7.1");
    b.ssnc(ABEG);
    b.ssnc(PBEG);
    b.bundle(&she_moves_she_track());
    b.artwork(220);
    b.ssnc(PFFR);
    b.ssnc(PEND);
    b.ssnc(AEND);
    assert(b@ == client_handover_items());
    b.done()
}

/// Codes that nothing models, mixed into a normal session.
pub open spec fn unknown_codes_items() -> Seq<ItemView> {
    bare(ABEG) + about(COPL, encode_utf8("<plist>...</plist>"@)) + about(
        ACRE,
        encode_utf8("1234567890"@),
    ) + about(DAPO, encode_utf8("3689"@)) + bare(PBEG) + bundled(open_eye_signal()) + track(
        ASDK,
        seq![0u8],
    ) + track(AESP, seq![1u8]) + pictured(80) + bare(PFFR) + about(PHBT, encode_utf8("0/0"@)) + bare(
        PEND,
    ) + bare(AEND)
}

fn one_byte(b: u8) -> (r: Vec<u8>)
    ensures
        r@ == seq![b],
{
    let mut out: Vec<u8> = Vec::new();
    out.push(b);
    assert(out@ == seq![b]);
    out
}

/// Codes that are deliberately not modelled, mixed into a normal session:
/// unknown codes are inert rather than disruptive.
pub fn unknown_codes() -> (r: Vec<u8>)
    ensures
        r@ == encoded_all(unknown_codes_items()),
{
    let mut b = Builder::new();
    b.ssnc(ABEG);
    b.ssnc_data(COPL, "<plist>...</plist>");
    b.ssnc_data(ACRE, "1234567890");
    b.ssnc_data(DAPO, "3689");
    b.ssnc(PBEG);
    b.bundle(&open_eye_signal_track());
    b.about_track(ASDK, one_byte(0));
    b.about_track(AESP, one_byte(1));
    b.artwork(80);
    b.ssnc(PFFR);
    b.ssnc_data(PHBT, "0/0");
    b.ssnc(PEND);
    b.ssnc(AEND);
    assert(b@ == unknown_codes_items());
    b.done()
}

/// A synthetic session.
#[derive(Debug)]
pub struct Session {
    pub name: &'static str,
    pub description: &'static str,
    pub bytes: Vec<u8>,
}

/// A session as values: its name, and what it holds.
pub open spec fn sessions_view(s: Seq<Session>) -> Seq<(Seq<char>, Seq<char>, Seq<u8>)> {
    s.map_values(|x: Session| (x.name@, x.description@, x.bytes@))
}

/// Every synthetic session.
pub open spec fn sessions() -> Seq<(Seq<char>, Seq<char>, Seq<u8>)> {
    seq![
        (
            "album"@,
            "Three-track album: pbeg/pend cycles inside one abeg/aend envelope"@,
            encoded_all(album_items()),
        ),
        ("no-artwork"@, "Track with a zero-length PICT"@, encoded_all(no_artwork_items())),
        ("pause-resume"@, "pfls then prsm mid-track"@, encoded_all(pause_resume_items())),
        (
            "track-skip"@,
            "Rapid skipping: several short play streams in one session"@,
            encoded_all(track_skip_items()),
        ),
        (
            "abrupt-disconnect"@,
            "Sender vanishes; no pend/aend and the stream stops mid-item"@,
            encoded_all(abrupt_disconnect_items()) + cut_short(),
        ),
        (
            "airplay1-no-active"@,
            "Sender that never emits abeg/aend"@,
            encoded_all(airplay1_no_active_items()),
        ),
        (
            "client-handover"@,
            "Second sender takes over with no clean end from the first"@,
            encoded_all(client_handover_items()),
        ),
        (
            "unknown-codes"@,
            "Unmodelled ssnc and core codes mixed into a normal session"@,
            encoded_all(unknown_codes_items()),
        ),
    ]
}

fn add_session(
    out: &mut Vec<Session>,
    name: &'static str,
    description: &'static str,
    bytes: Vec<u8>,
)
    ensures
        sessions_view(final(out)@) == sessions_view(old(out)@).push(
            (name@, description@, bytes@),
        ),
{
    out.push(Session { name, description, bytes });
    assert(sessions_view(out@) == sessions_view(old(out)@).push((name@, description@, bytes@)));
}

/// Every synthetic session.
pub fn all() -> (r: Vec<Session>)
    ensures
        sessions_view(r@) == sessions(),
{
    let mut out: Vec<Session> = Vec::new();
    add_session(
        &mut out,
        "album",
        "Three-track album: pbeg/pend cycles inside one abeg/aend envelope",
        album(),
    );
    add_session(&mut out, "no-artwork", "Track with a zero-length PICT", no_artwork());
    add_session(&mut out, "pause-resume", "pfls then prsm mid-track", pause_resume());
    add_session(
        &mut out,
        "track-skip",
        "Rapid skipping: several short play streams in one session",
        track_skip(),
    );
    add_session(
        &mut out,
        "abrupt-disconnect",
        "Sender vanishes; no pend/aend and the stream stops mid-item",
        abrupt_disconnect(),
    );
    add_session(
        &mut out,
        "airplay1-no-active",
        "Sender that never emits abeg/aend",
        airplay1_no_active(),
    );
    add_session(
        &mut out,
        "client-handover",
        "Second sender takes over with no clean end from the first",
        client_handover(),
    );
    add_session(
        &mut out,
        "unknown-codes",
        "Unmodelled ssnc and core codes mixed into a normal session",
        unknown_codes(),
    );
    assert(sessions_view(out@) == sessions());
    out
}

} // verus!
