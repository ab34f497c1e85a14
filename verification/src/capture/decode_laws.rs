//! What the codes of a stream stand for, and that what was put into a stream is
//! what is heard.

use vstd::prelude::*;
use vstd::utf8::{
    decode_utf8, encode_utf8, encode_utf8_decode_utf8, encode_utf8_valid_utf8, valid_utf8,
};

use crate::capture::decode::{big_endian as number_in, event_in, lapse, letters, progress_in, volume_in};
use crate::capture::items::{decimal_is_ascii, plain, plain_is_utf8, ItemView};
use crate::capture::reader::as_chars;
use crate::capture::synth::{
    big_endian, bundled, connecting, pictured, progressed, unpictured, TrackView,
};
use crate::machine::{BundleView, InputView, Model, Rules, Turn};
use crate::meta::{CoreView, MetaView};
use crate::single::Single;
use crate::strings::{
    decimal, decimal_round_trip, first_piece_len_is, is_digit, is_white, pieces, trimmed,
    trimmed_end, trimmed_start,
};

verus! {

broadcast use vstd::seq::group_seq_axioms;

/// A code of four letters as a number, the first letter in its highest byte.
pub open spec fn spelled(s: Seq<char>) -> u32 {
    (s[0] as u32 * 0x100_0000 + s[1] as u32 * 0x1_0000 + s[2] as u32 * 0x100 + s[3] as u32) as u32
}

/// An item of a track.
pub open spec fn of_track(code: Seq<char>, payload: Seq<u8>) -> ItemView {
    ItemView { kind: spelled("core"@), code: spelled(code), payload }
}

/// An item of the receiver.
pub open spec fn of_receiver(code: Seq<char>, payload: Seq<u8>) -> ItemView {
    ItemView { kind: spelled("ssnc"@), code: spelled(code), payload }
}

/// The codes under which a track's fields come, and what each tells. A text is
/// UTF-8, a number has its highest byte first; what is neither is kept as it
/// came.
pub proof fn track_codes_tell_their_field(payload: Seq<u8>, db: Option<Single>)
    ensures
        valid_utf8(payload) ==> {
            let text = decode_utf8(payload);
            &&& event_in(of_track("minm"@, payload), db) == MetaView::Core(CoreView::Title(text))
            &&& event_in(of_track("asar"@, payload), db) == MetaView::Core(CoreView::Artist(text))
            &&& event_in(of_track("asal"@, payload), db) == MetaView::Core(CoreView::Album(text))
            &&& event_in(of_track("asaa"@, payload), db) == MetaView::Core(
                CoreView::AlbumArtist(text),
            )
            &&& event_in(of_track("asgn"@, payload), db) == MetaView::Core(CoreView::Genre(text))
            &&& event_in(of_track("ascp"@, payload), db) == MetaView::Core(CoreView::Composer(text))
            &&& event_in(of_track("ascm"@, payload), db) == MetaView::Core(CoreView::Comment(text))
            &&& event_in(of_track("asdt"@, payload), db) == MetaView::Core(
                CoreView::Description(text),
            )
            &&& event_in(of_track("assn"@, payload), db) == MetaView::Core(CoreView::SortName(text))
            &&& event_in(of_track("asul"@, payload), db) == MetaView::Core(CoreView::Url(text))
        },
        !valid_utf8(payload) ==> event_in(of_track("minm"@, payload), db) == MetaView::Core(
            CoreView::Other { code: "minm"@, raw: payload },
        ),
        1 <= payload.len() <= 8 ==> {
            let n = number_in(payload) as u64;
            &&& event_in(of_track("astm"@, payload), db) == MetaView::Core(CoreView::DurationMs(n))
            &&& event_in(of_track("astn"@, payload), db) == MetaView::Core(CoreView::TrackNumber(n))
            &&& event_in(of_track("mper"@, payload), db) == MetaView::Core(
                CoreView::PersistentId(n),
            )
        },
{
    reveal_strlit("core");
    reveal_strlit("minm");
    reveal_strlit("asar");
    reveal_strlit("asal");
    reveal_strlit("asaa");
    reveal_strlit("asgn");
    reveal_strlit("ascp");
    reveal_strlit("ascm");
    reveal_strlit("asdt");
    reveal_strlit("assn");
    reveal_strlit("asul");
    reveal_strlit("astm");
    reveal_strlit("astn");
    reveal_strlit("mper");
    assert(letters(spelled("minm"@)) == "minm"@);
}

/// The codes that the receiver sends without a word, whatever payload stands
/// there.
pub proof fn signals_are_told_apart(payload: Seq<u8>, db: Option<Single>)
    ensures
        event_in(of_receiver("abeg"@, payload), db) == MetaView::ActiveBegin,
        event_in(of_receiver("aend"@, payload), db) == MetaView::ActiveEnd,
        event_in(of_receiver("pbeg"@, payload), db) == MetaView::PlayBegin,
        event_in(of_receiver("pffr"@, payload), db) == MetaView::FirstFrame,
        event_in(of_receiver("pend"@, payload), db) == MetaView::PlayEnd,
        event_in(of_receiver("pfls"@, payload), db) == MetaView::PlayFlush,
        event_in(of_receiver("prsm"@, payload), db) == MetaView::PlayResume,
        event_in(of_receiver("stal"@, payload), db) == MetaView::Stall,
        event_in(of_receiver("mdst"@, payload), db) == MetaView::BundleStart,
        event_in(of_receiver("mden"@, payload), db) == MetaView::BundleEnd,
        event_in(of_receiver("pcst"@, payload), db) == MetaView::PictureStart,
        event_in(of_receiver("pcen"@, payload), db) == MetaView::PictureEnd,
{
    reveal_strlit("ssnc");
    reveal_strlit("abeg");
    reveal_strlit("aend");
    reveal_strlit("pbeg");
    reveal_strlit("pffr");
    reveal_strlit("pend");
    reveal_strlit("pfls");
    reveal_strlit("prsm");
    reveal_strlit("stal");
    reveal_strlit("mdst");
    reveal_strlit("mden");
    reveal_strlit("pcst");
    reveal_strlit("pcen");
}

/// The codes that the receiver sends with something: who is sending and who is
/// receiving, a picture or the word that there is none, and a volume, which is
/// silence from 144 decibels below full downwards. An item of any other kind is
/// passed on under its letters.
pub proof fn messages_are_told_apart(
    payload: Seq<u8>,
    db: Single,
    none: Option<Single>,
    other: ItemView,
)
    requires
        other.kind != spelled("core"@),
        other.kind != spelled("ssnc"@),
    ensures
        valid_utf8(payload) ==> {
            let text = decode_utf8(payload);
            &&& event_in(of_receiver("snam"@, payload), none) == MetaView::ClientName(text)
            &&& event_in(of_receiver("snua"@, payload), none) == MetaView::UserAgent(text)
            &&& event_in(of_receiver("clip"@, payload), none) == MetaView::ClientIp(text)
            &&& event_in(of_receiver("svip"@, payload), none) == MetaView::ServerIp(text)
            &&& event_in(of_receiver("svna"@, payload), none) == MetaView::ServerName(text)
            &&& event_in(of_receiver("conn"@, payload), none) == MetaView::ClientConnected(text)
            &&& event_in(of_receiver("disc"@, payload), none) == MetaView::ClientDisconnected(text)
        },
        event_in(of_receiver("PICT"@, payload), none) == if payload.len() == 0 {
            MetaView::PictureCleared
        } else {
            MetaView::Picture(payload)
        },
        event_in(of_receiver("pvol"@, payload), Some(db)) == (MetaView::Volume {
            airplay_db: db,
            muted: 0xc310_0000 <= db.bits <= 0xff80_0000,
        }),
        event_in(other, none) == (MetaView::Unknown {
            kind: letters(other.kind),
            code: letters(other.code),
            len: other.payload.len() as usize,
        }),
{
    reveal_strlit("core");
    reveal_strlit("ssnc");
    reveal_strlit("snam");
    reveal_strlit("snua");
    reveal_strlit("clip");
    reveal_strlit("svip");
    reveal_strlit("svna");
    reveal_strlit("conn");
    reveal_strlit("disc");
    reveal_strlit("PICT");
    reveal_strlit("pvol");
}

// --- numbers --------------------------------------------------------------

/// How many numbers some bytes can hold.
pub open spec fn room(width: nat) -> nat
    decreases width,
{
    if width == 0 {
        1
    } else {
        256 * room((width - 1) as nat)
    }
}

/// A number has its highest byte first: one more byte behind it makes it 256
/// times as large, and adds itself.
pub proof fn the_high_byte_comes_first(s: Seq<u8>, b: u8)
    ensures
        number_in(Seq::empty()) == 0,
        number_in(s.push(b)) == 256 * number_in(s) + b,
{
    assert(s.push(b).drop_last() == s);
}

/// A number that was written in bytes is the number that is read.
pub proof fn numbers_read_back(n: nat, width: nat)
    requires
        n < room(width),
    ensures
        number_in(big_endian(n, width)) == n,
        big_endian(n, width).len() == width,
    decreases width,
{
    if width > 0 {
        assert(n / 256 < room((width - 1) as nat));
        numbers_read_back(n / 256, (width - 1) as nat);
        let p = big_endian(n / 256, (width - 1) as nat);
        assert(p.push((n % 256) as u8).drop_last() == p);
    }
}

// --- tracks ---------------------------------------------------------------

/// Whether a text neither is empty nor has white space around it.
pub open spec fn neat(s: Seq<char>) -> bool {
    s.len() > 0 && !is_white(s[0]) && !is_white(s.last())
}

proof fn neat_stays(s: Seq<char>)
    requires
        neat(s),
    ensures
        trimmed(s) == s,
{
    assert(trimmed_start(s) == s);
    assert(trimmed_end(s) == s);
}

/// A machine that is told what some items say, one after the other.
#[verifier::opaque]
pub open spec fn told(m: Model, r: Rules, items: Seq<ItemView>, now: u64) -> Model
    decreases items.len(),
{
    if items.len() == 0 {
        m
    } else {
        told(m, r, items.drop_last(), now).step(
            r,
            InputView::Meta(event_in(items.last(), None)),
            now,
        ).m
    }
}

proof fn bundle_events(m: Model, r: Rules, f: CoreView, now: u64)
    requires
        r.session > 0,
        r.stall > 0,
    ensures
        m.step(r, InputView::Meta(MetaView::BundleStart), now).m.pending == Some(
            BundleView::fresh(),
        ),
        m.pending matches Some(b) ==> m.step(
            r,
            InputView::Meta(MetaView::Core(f)),
            now,
        ).m.pending == Some(b.with(f)),
        m.pending matches Some(b) && b.any ==> m.step(
            r,
            InputView::Meta(MetaView::BundleEnd),
            now,
        ).m.state.track == Some(m.pending->0.track()),
{
    reveal(Turn::on_meta);
    reveal(Turn::commit_bundle);
    reveal(Turn::set_playback);
    reveal(Turn::evaluate_timers);
    reveal(Turn::apply_power);
}

proof fn one_more(m: Model, r: Rules, items: Seq<ItemView>, i: ItemView, now: u64)
    ensures
        told(m, r, items + seq![i], now) == told(m, r, items, now).step(
            r,
            InputView::Meta(event_in(i, None)),
            now,
        ).m,
{
    reveal(told);
    let all = items + seq![i];
    assert(all.drop_last() == items);
    assert(all.last() == i);
}

#[verifier::opaque]
spec fn says(i: ItemView, e: MetaView) -> bool {
    event_in(i, None) == e
}

proof fn opens(m: Model, r: Rules, i: ItemView, now: u64)
    requires
        r.session > 0,
        r.stall > 0,
        says(i, MetaView::BundleStart),
    ensures
        told(m, r, seq![i], now).pending == Some(BundleView::fresh()),
{
    reveal(says);
    one_more(m, r, Seq::empty(), i, now);
    assert(Seq::<ItemView>::empty() + seq![i] == seq![i]);
    bundle_events(told(m, r, Seq::empty(), now), r, CoreView::DurationMs(0), now);
}

proof fn takes(
    m: Model,
    r: Rules,
    items: Seq<ItemView>,
    i: ItemView,
    b: BundleView,
    f: CoreView,
    now: u64,
)
    requires
        r.session > 0,
        r.stall > 0,
        says(i, MetaView::Core(f)),
        told(m, r, items, now).pending == Some(b),
    ensures
        told(m, r, items + seq![i], now).pending == Some(b.with(f)),
{
    reveal(says);
    one_more(m, r, items, i, now);
    bundle_events(told(m, r, items, now), r, f, now);
}

proof fn ends(m: Model, r: Rules, items: Seq<ItemView>, i: ItemView, b: BundleView, now: u64)
    requires
        r.session > 0,
        r.stall > 0,
        says(i, MetaView::BundleEnd),
        told(m, r, items, now).pending == Some(b),
        b.any,
    ensures
        told(m, r, items + seq![i], now).state.track == Some(b.track()),
{
    reveal(says);
    one_more(m, r, items, i, now);
    bundle_events(told(m, r, items, now), r, CoreView::DurationMs(0), now);
}

proof fn bundles_say(t: TrackView)
    ensures
        ({
            let b = bundled(t);
            &&& b.len() == 10
            &&& says(b[0], MetaView::BundleStart)
            &&& says(b[1], MetaView::Core(CoreView::Artist(t.artist)))
            &&& says(b[2], MetaView::Core(CoreView::Album(t.album)))
            &&& says(b[3], MetaView::Core(CoreView::AlbumArtist(t.artist)))
            &&& says(b[4], MetaView::Core(CoreView::Title(t.title)))
            &&& says(b[5], MetaView::Core(CoreView::Genre("Electronica"@)))
            &&& says(b[6], MetaView::Core(CoreView::TrackNumber(t.number as u64)))
            &&& says(b[7], MetaView::Core(CoreView::DurationMs(t.duration_ms as u64)))
            &&& says(b[8], MetaView::Core(CoreView::PersistentId(t.persistent_id)))
            &&& says(b[9], MetaView::BundleEnd)
        }),
{
    broadcast use encode_utf8_valid_utf8, encode_utf8_decode_utf8;

    reveal(says);
    reveal_with_fuel(room, 9);
    numbers_read_back(t.number as nat, 2);
    numbers_read_back(t.duration_ms as nat, 4);
    numbers_read_back(t.persistent_id as nat, 8);
}

/// What a bundle says of a track is what is shown of it: each field under its
/// own name, whatever was shown before.
pub proof fn tracks_are_shown_as_sent(m: Model, r: Rules, t: TrackView, now: u64)
    requires
        r.session > 0,
        r.stall > 0,
        neat(t.artist),
        neat(t.album),
        neat(t.title),
    ensures
        told(m, r, bundled(t), now).state.track matches Some(shown) && {
            &&& shown.title == Some(t.title)
            &&& shown.artist == Some(t.artist)
            &&& shown.album == Some(t.album)
            &&& shown.album_artist == Some(t.artist)
            &&& shown.genre == Some("Electronica"@)
            &&& shown.composer is None
            &&& shown.track_number == Some(t.number as u64)
            &&& shown.duration_ms == Some(t.duration_ms as u64)
        },
{
    neat_stays(t.artist);
    neat_stays(t.album);
    neat_stays(t.title);
    reveal_strlit("Electronica");
    neat_stays("Electronica"@);
    bundles_say(t);
    let items = bundled(t);
    let s0 = seq![items[0]];
    let b0 = BundleView::fresh();
    opens(m, r, items[0], now);
    let f1 = CoreView::Artist(t.artist);
    let s1 = s0 + seq![items[1]];
    let b1 = b0.with(f1);
    takes(m, r, s0, items[1], b0, f1, now);
    let f2 = CoreView::Album(t.album);
    let s2 = s1 + seq![items[2]];
    let b2 = b1.with(f2);
    takes(m, r, s1, items[2], b1, f2, now);
    let f3 = CoreView::AlbumArtist(t.artist);
    let s3 = s2 + seq![items[3]];
    let b3 = b2.with(f3);
    takes(m, r, s2, items[3], b2, f3, now);
    let f4 = CoreView::Title(t.title);
    let s4 = s3 + seq![items[4]];
    let b4 = b3.with(f4);
    takes(m, r, s3, items[4], b3, f4, now);
    let f5 = CoreView::Genre("Electronica"@);
    let s5 = s4 + seq![items[5]];
    let b5 = b4.with(f5);
    takes(m, r, s4, items[5], b4, f5, now);
    let f6 = CoreView::TrackNumber(t.number as u64);
    let s6 = s5 + seq![items[6]];
    let b6 = b5.with(f6);
    takes(m, r, s5, items[6], b5, f6, now);
    let f7 = CoreView::DurationMs(t.duration_ms as u64);
    let s7 = s6 + seq![items[7]];
    let b7 = b6.with(f7);
    takes(m, r, s6, items[7], b6, f7, now);
    let f8 = CoreView::PersistentId(t.persistent_id);
    let s8 = s7 + seq![items[8]];
    let b8 = b7.with(f8);
    takes(m, r, s7, items[8], b7, f8, now);
    ends(m, r, s8, items[9], b8, now);
    assert(s8 + seq![items[9]] == items);
}

/// What else a sender says is heard as it was said: who it is, a picture between
/// its two marks, and that there is none.
pub proof fn senders_are_heard(client: Seq<char>, agent: Seq<char>, hue: u8)
    ensures
        ({
            let c = connecting(client, agent);
            &&& c.len() == 4
            &&& event_in(c[0], None) == MetaView::ClientName(client)
            &&& event_in(c[1], None) == MetaView::UserAgent(agent)
            &&& event_in(c[2], None) == MetaView::ClientIp("192.168.1.42"@)
            &&& event_in(c[3], None) == MetaView::ServerIp("192.168.1.10"@)
        }),
        ({
            let p = pictured(hue);
            &&& p.len() == 3
            &&& event_in(p[0], None) == MetaView::PictureStart
            &&& event_in(p[1], None) == MetaView::Picture(crate::capture::synth::cover(hue))
            &&& event_in(p[2], None) == MetaView::PictureEnd
        }),
        ({
            let p = unpictured();
            &&& p.len() == 3
            &&& event_in(p[0], None) == MetaView::PictureStart
            &&& event_in(p[1], None) == MetaView::PictureCleared
            &&& event_in(p[2], None) == MetaView::PictureEnd
        }),
{
    broadcast use encode_utf8_valid_utf8, encode_utf8_decode_utf8;

    assert(crate::capture::synth::cover(hue).len() > 0);
}

// --- progress -------------------------------------------------------------

/// Three moments of the sender's clock, as they are written.
pub open spec fn three_moments(start: nat, now: nat, end: nat) -> Seq<char> {
    decimal(start) + "/"@ + decimal(now) + "/"@ + decimal(end)
}

proof fn cut_at_slash(a: Seq<char>, b: Seq<char>)
    requires
        forall|i: int| 0 <= i < a.len() ==> #[trigger] a[i] != '/',
    ensures
        pieces(a + "/"@ + b, '/') == seq![a] + pieces(b, '/'),
{
    reveal_strlit("/");
    let s = a + "/"@ + b;
    let n = a.len() as int;
    assert(s[n] == '/');
    assert forall|k: int| 0 <= k < n implies s[k] != '/' by {
        assert(s[k] == a[k]);
    }
    first_piece_len_is(s, '/', n);
    assert(s.take(n) == a);
    assert(s.skip(n + 1) == b);
}

proof fn digits_are_no_slashes(n: nat)
    ensures
        forall|i: int| 0 <= i < decimal(n).len() ==> #[trigger] decimal(n)[i] != '/',
{
    decimal_round_trip(n);
    assert forall|i: int| 0 <= i < decimal(n).len() implies #[trigger] decimal(n)[i] != '/' by {
        assert(is_digit(decimal(n)[i]));
    }
}

/// How far a track is, and how long it is, by the sender's clock: `position` and
/// `length` frames from its start, of which a second has 44100. The clock may
/// start again from zero in between.
pub proof fn progress_is_counted_from_the_start(
    start: nat,
    position: nat,
    length: nat,
    db: Option<Single>,
)
    requires
        start < 0x1_0000_0000,
        position < 0x1_0000_0000,
        length < 0x1_0000_0000,
    ensures
        ({
            let now = (start + position) % 0x1_0000_0000;
            let end = (start + length) % 0x1_0000_0000;
            event_in(of_receiver("prgr"@, plain(three_moments(start, now, end))), db) == (
            MetaView::Progress {
                position_ms: (position * 1000 / 44100) as u64,
                duration_ms: (length * 1000 / 44100) as u64,
            })
        }),
{
    let now = (start + position) % 0x1_0000_0000;
    let end = (start + length) % 0x1_0000_0000;
    moments_are_read(start, now, end);
    lapses_come_back(start, position);
    lapses_come_back(start, length);
    reveal_strlit("ssnc");
    reveal_strlit("prgr");
}

proof fn lapses_come_back(start: nat, n: nat)
    requires
        start < 0x1_0000_0000,
        n < 0x1_0000_0000,
    ensures
        lapse(start, (start + n) % 0x1_0000_0000) == n * 1000 / 44100,
{
    assert(((start + n) % 0x1_0000_0000 - start) % 0x1_0000_0000 == n);
}

proof fn moments_are_read(start: nat, now: nat, end: nat)
    requires
        start < 0x1_0000_0000,
        now < 0x1_0000_0000,
        end < 0x1_0000_0000,
    ensures
        progress_in(plain(three_moments(start, now, end))) == Some(
            (lapse(start, now), lapse(start, end)),
        ),
{
    decimal_round_trip(start);
    decimal_round_trip(now);
    decimal_round_trip(end);
    moments_are_cut(start, now, end);
    texts_survive(three_moments(start, now, end), start, now, end);
}

proof fn moments_are_cut(start: nat, now: nat, end: nat)
    ensures
        ({
            let p = pieces(three_moments(start, now, end), '/');
            p.len() == 3 && p[0] == decimal(start) && p[1] == decimal(now) && p[2] == decimal(end)
        }),
{
    let s = three_moments(start, now, end);
    digits_are_no_slashes(start);
    digits_are_no_slashes(now);
    digits_are_no_slashes(end);
    let behind = decimal(now) + "/"@ + decimal(end);
    assert(s == decimal(start) + "/"@ + behind);
    cut_at_slash(decimal(start), behind);
    cut_at_slash(decimal(now), decimal(end));
    first_piece_len_is(decimal(end), '/', decimal(end).len() as int);
    assert(pieces(decimal(end), '/') == seq![decimal(end)]);
}

proof fn texts_survive(s: Seq<char>, start: nat, now: nat, end: nat)
    requires
        s == three_moments(start, now, end),
    ensures
        as_chars(plain(s)) == s,
        encode_utf8(s) == plain(s),
{
    reveal_strlit("/");
    decimal_is_ascii(start);
    decimal_is_ascii(now);
    decimal_is_ascii(end);
    plain_is_utf8(s);
    assert(as_chars(plain(s)) =~= s);
}

/// Progress that was sent in seconds is shown in milliseconds.
pub proof fn seconds_are_shown(position_s: nat, duration_s: nat)
    requires
        position_s <= 97000,
        duration_s <= 97000,
    ensures
        progressed(position_s, duration_s).len() == 1,
        event_in(progressed(position_s, duration_s)[0], None) == (MetaView::Progress {
            position_ms: (position_s * 1000) as u64,
            duration_ms: (duration_s * 1000) as u64,
        }),
{
    reveal_strlit("ssnc");
    reveal_strlit("prgr");
    progress_is_counted_from_the_start(1, position_s * 44100, duration_s * 44100, None);
    texts_survive(
        three_moments(1, 1 + position_s * 44100, 1 + duration_s * 44100),
        1,
        1 + position_s * 44100,
        1 + duration_s * 44100,
    );
    assert(position_s * 44100 * 1000 / 44100 == position_s * 1000);
    assert(duration_s * 44100 * 1000 / 44100 == duration_s * 1000);
}

/// A code that is not known is passed on under the letters it was spelled with.
pub proof fn codes_keep_their_letters(s: Seq<char>)
    requires
        s.len() == 4,
        forall|i: int| 0 <= i < 4 ==> #[trigger] s[i] <= '\u{7f}',
    ensures
        letters(spelled(s)) == s,
{
    assert(s[0] <= '\u{7f}' && s[1] <= '\u{7f}' && s[2] <= '\u{7f}' && s[3] <= '\u{7f}');
    ascii_stays(s[0]);
    ascii_stays(s[1]);
    ascii_stays(s[2]);
    ascii_stays(s[3]);
    let n = spelled(s);
    let (a, b, c, d) = (s[0] as u32, s[1] as u32, s[2] as u32, s[3] as u32);
    assert(n == a * 0x100_0000 + b * 0x1_0000 + c * 0x100 + d);
    assert(n / 0x100_0000 == a);
    assert((n / 0x1_0000) % 0x100 == b);
    assert((n / 0x100) % 0x100 == c);
    assert(n % 0x100 == d);
    assert(letters(n) =~= s);
}

proof fn ascii_stays(c: char)
    requires
        c <= '\u{7f}',
    ensures
        c as u32 <= 0x7f,
        (c as u8) as char == c,
        (c as u32 as u8) as char == c,
{
}

/// Of the numbers in a volume the first is the sender's, up to its comma.
pub proof fn the_first_volume_is_the_senders(a: Seq<char>, rest: Seq<char>)
    requires
        forall|i: int| 0 <= i < a.len() ==> #[trigger] a[i] <= '\u{7f}' && a[i] != ',',
        forall|i: int| 0 <= i < rest.len() ==> #[trigger] rest[i] <= '\u{7f}',
    ensures
        volume_in(plain(a.push(',') + rest)) == a,
{
    let s = a.push(',') + rest;
    let n = a.len() as int;
    assert forall|i: int| 0 <= i < s.len() implies #[trigger] s[i] <= '\u{7f}' by {
        if i < n {
            assert(s[i] == a[i]);
        } else if i > n {
            assert(s[i] == rest[i - n - 1]);
        }
    }
    assert forall|i: int| 0 <= i < s.len() implies as_chars(plain(s))[i] == s[i] by {
        ascii_stays(s[i]);
        assert(plain(s)[i] == s[i] as u8);
    }
    assert(as_chars(plain(s)) =~= s);
    assert forall|k: int| 0 <= k < n implies s[k] != ',' by {
        assert(s[k] == a[k]);
    }
    assert(s[n] == ',');
    first_piece_len_is(s, ',', n);
    assert(s.take(n) == a);
}

} // verus!
