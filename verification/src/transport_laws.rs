//! What each event of a sender does to what is shown, and what the passing of
//! time does to the amplifier and the display.

use vstd::prelude::*;

use crate::config::AmpTrigger;
use crate::machine::{BundleView, EffectView, InputView, Model, Rules, Turn};
use crate::meta::{CoreView, MetaView};
use crate::proto::{DisplayPower, Playback, Progress, Volume};
use crate::strings::{lowercase, trimmed};

verus! {

broadcast use vstd::seq::group_seq_axioms;

/// Power never touches anything else that is shown.
proof fn power_moves_nothing_else(t: Turn, r: Rules, now: u64)
    ensures
        ({
            let u = t.apply_power(r, now).m;
            &&& u.state.playback == t.m.state.playback
            &&& u.state.session == t.m.state.session
            &&& u.state.track == t.m.state.track
            &&& u.state.artwork == t.m.state.artwork
            &&& u.state.progress == t.m.state.progress
            &&& u.state.volume == t.m.state.volume
            &&& u.pending == t.m.pending
        }),
        forall|i: int|
            0 <= i < t.notes.len() ==> #[trigger] t.apply_power(r, now).notes[i] == t.notes[i],
        t.apply_power(r, now).notes.len() >= t.notes.len(),
{
    reveal(Turn::apply_power);
}

/// An event is a sign of life, so no timeout follows on it at once.
proof fn events_are_activity(m: Model, r: Rules, ev: MetaView, now: u64)
    requires
        r.session > 0,
        r.stall > 0,
    ensures
        ({
            let a = m.begin().take_in(r, InputView::Meta(ev), now);
            a.evaluate_timers(r, now) == a
        }),
{
    reveal(Turn::on_meta);
    reveal(Turn::set_playback);
    reveal(Turn::enter_active);
    reveal(Turn::enter_idle);
    reveal(Turn::commit_bundle);
    reveal(Turn::evaluate_timers);
}

/// What each event makes of the playback that is shown. A sender that attaches
/// is active, and idle once it is gone; a stream that begins is starting, and
/// playing with its first frame; one that ends leaves the session open; what
/// is flushed or has stalled while it plays is paused; resuming plays, and
/// progress shows that what was paused plays again. No other event moves the
/// playback, and none but an announcement opens a session.
pub proof fn events_move_the_playback(m: Model, r: Rules, ev: MetaView, now: u64)
    requires
        r.session > 0,
        r.stall > 0,
    ensures
        ({
            let before = m.state.playback;
            let after = m.step(r, InputView::Meta(ev), now).m.state.playback;
            match ev {
                MetaView::ActiveBegin => after == Playback::Active,
                MetaView::ActiveEnd => after == Playback::Idle,
                MetaView::PlayBegin => after == Playback::Starting,
                MetaView::FirstFrame | MetaView::PlayResume => if before == Playback::Idle {
                    after == Playback::Idle
                } else {
                    after == Playback::Playing
                },
                MetaView::PlayEnd => if before == Playback::Idle {
                    after == Playback::Idle
                } else {
                    after == Playback::Active
                },
                MetaView::PlayFlush | MetaView::Stall => if before == Playback::Playing {
                    after == Playback::Paused
                } else {
                    after == before
                },
                MetaView::Progress { .. } => if before == Playback::Paused {
                    after == Playback::Playing
                } else {
                    after == before
                },
                _ => after == before,
            }
        }),
{
    events_are_activity(m, r, ev, now);
    power_moves_nothing_else(m.begin().take_in(r, InputView::Meta(ev), now), r, now);
    reveal(Turn::on_meta);
    reveal(Turn::set_playback);
    reveal(Turn::enter_active);
    reveal(Turn::enter_idle);
    reveal(Turn::commit_bundle);
}

/// A pause and its end are told: pressing pause while something plays gives
/// the note `playing -> paused`, and resuming `paused -> playing`.
pub proof fn pauses_are_told(m: Model, r: Rules, now: u64)
    requires
        r.session > 0,
        r.stall > 0,
    ensures
        m.state.playback == Playback::Playing ==> m.step(
            r,
            InputView::Meta(MetaView::PlayFlush),
            now,
        ).notes.contains("playing -> paused"@),
        m.state.playback == Playback::Paused ==> m.step(
            r,
            InputView::Meta(MetaView::PlayResume),
            now,
        ).notes.contains("paused -> playing"@),
{
    reveal_strlit("playing");
    reveal_strlit("paused");
    reveal_strlit(" -> ");
    reveal_strlit("playing -> paused");
    reveal_strlit("paused -> playing");
    reveal(Turn::on_meta);
    reveal(Turn::set_playback);
    events_are_activity(m, r, MetaView::PlayFlush, now);
    events_are_activity(m, r, MetaView::PlayResume, now);
    let a = m.begin().take_in(r, InputView::Meta(MetaView::PlayFlush), now);
    let b = m.begin().take_in(r, InputView::Meta(MetaView::PlayResume), now);
    power_moves_nothing_else(a, r, now);
    power_moves_nothing_else(b, r, now);
    assert("playing"@ + " -> "@ + "paused"@ == "playing -> paused"@);
    assert("paused"@ + " -> "@ + "playing"@ == "paused -> playing"@);
    if m.state.playback == Playback::Playing {
        assert(a.notes[0] == "playing -> paused"@);
        assert(a.apply_power(r, now).notes[0] == "playing -> paused"@);
    }
    if m.state.playback == Playback::Paused {
        assert(b.notes[0] == "paused -> playing"@);
        assert(b.apply_power(r, now).notes[0] == "paused -> playing"@);
    }
}

/// Each event tells one thing and leaves the rest as it was: the volume, the
/// progress, who is sending, and the picture each change through the event
/// that speaks of them, to what it says. The progress is gone with the stream
/// or the session it belonged to.
pub proof fn events_touch_what_they_speak_of(m: Model, r: Rules, ev: MetaView, now: u64)
    requires
        r.session > 0,
        r.stall > 0,
    ensures
        ({
            let old = m.state;
            let new = m.step(r, InputView::Meta(ev), now).m.state;
            &&& new.volume == (match ev {
                MetaView::Volume { airplay_db, muted } => Some(Volume { airplay_db, muted }),
                _ => old.volume,
            })
            &&& new.progress == (match ev {
                MetaView::Progress { position_ms, duration_ms } => Some(
                    Progress { position_ms, duration_ms },
                ),
                MetaView::PlayEnd | MetaView::ActiveEnd => if old.playback == Playback::Idle {
                    old.progress
                } else {
                    None
                },
                _ => old.progress,
            })
            &&& new.session.client_name == (match ev {
                MetaView::ClientName(s) => Some(s),
                _ => old.session.client_name,
            })
            &&& new.session.user_agent == (match ev {
                MetaView::UserAgent(s) => Some(s),
                _ => old.session.user_agent,
            })
            &&& new.session.client_ip == (match ev {
                MetaView::ClientIp(s) => Some(s),
                MetaView::ClientConnected(s) => if s.len() > 0 {
                    Some(s)
                } else {
                    old.session.client_ip
                },
                _ => old.session.client_ip,
            })
            &&& new.artwork == (if ev == MetaView::PictureCleared {
                None
            } else {
                old.artwork
            })
            &&& ev != MetaView::BundleEnd ==> new.track == old.track
        }),
{
    events_are_activity(m, r, ev, now);
    power_moves_nothing_else(m.begin().take_in(r, InputView::Meta(ev), now), r, now);
    reveal(Turn::on_meta);
    reveal(Turn::set_playback);
    reveal(Turn::enter_active);
    reveal(Turn::enter_idle);
    reveal(Turn::commit_bundle);
}

/// A picture is to be stored if and only if one came, and it is the one that
/// came. Clearing is asked for if and only if a picture is shown and the sender
/// says there is none.
pub proof fn pictures_are_handed_on(m: Model, r: Rules, ev: MetaView, now: u64)
    requires
        r.session > 0,
        r.stall > 0,
    ensures
        forall|bytes: Seq<u8>| #[trigger]
            m.step(r, InputView::Meta(ev), now).effects.contains(EffectView::StoreArtwork(bytes))
                <==> ev == MetaView::Picture(bytes),
        m.step(r, InputView::Meta(ev), now).effects.contains(EffectView::ClearArtwork) <==> ev
            == MetaView::PictureCleared && m.state.artwork is Some,
{
    events_are_activity(m, r, ev, now);
    let a = m.begin().take_in(r, InputView::Meta(ev), now);
    let c = a.apply_power(r, now);
    assert(a.effects == (match ev {
        MetaView::Picture(bytes) => seq![EffectView::StoreArtwork(bytes)],
        MetaView::PictureCleared => if m.state.artwork is Some {
            seq![EffectView::ClearArtwork]
        } else {
            Seq::empty()
        },
        _ => Seq::empty(),
    })) by {
        reveal(Turn::on_meta);
        reveal(Turn::set_playback);
        reveal(Turn::enter_active);
        reveal(Turn::enter_idle);
        reveal(Turn::commit_bundle);
    }
    reveal(Turn::apply_power);
    assert forall|i: int| 0 <= i < a.effects.len() implies #[trigger] c.effects[i]
        == a.effects[i] by {}
    assert forall|i: int| a.effects.len() <= i < c.effects.len() implies #[trigger] c.effects[i] is SetAmp
        || c.effects[i] is SetDisplay by {}
    if a.effects.len() > 0 {
        assert(c.effects[0] == a.effects[0]);
    }
}

/// Garbage on the pipe is counted and changes nothing that is shown: it does
/// what the passing of time does.
pub proof fn garbage_is_only_counted(m: Model, r: Rules, now: u64)
    requires
        m.counters.parse_errors < u64::MAX,
    ensures
        m.step(r, InputView::ParseError, now).m.state == m.step(r, InputView::Tick, now).m.state,
        m.step(r, InputView::ParseError, now).effects == m.step(r, InputView::Tick, now).effects,
        m.step(r, InputView::ParseError, now).m.counters.parse_errors == m.counters.parse_errors
            + 1,
        m.step(r, InputView::Tick, now).m.counters.parse_errors == m.counters.parse_errors,
{
    reveal(Turn::evaluate_timers);
    reveal(Turn::set_playback);
    reveal(Turn::enter_idle);
    reveal(Turn::apply_power);
}

/// The amplifier, where nobody has switched it by hand. It is off unless it is
/// enabled. In a session it is on from the announced event: the session itself,
/// or the first stream, after which it stays on through gaps and pauses. Out of
/// a session it stays on until its delay has passed, and never comes on.
pub proof fn the_amp_follows_its_trigger(m: Model, r: Rules, input: InputView, now: u64)
    requires
        m.consistent(),
    ensures
        ({
            let n = m.step(r, input, now).m;
            let on = n.state.power.amp;
            &&& n.amp_override matches Some(asked) ==> on == asked
            &&& n.amp_override is None && !r.amp_enabled ==> !on
            &&& n.amp_override is None && r.amp_enabled && n.state.playback != Playback::Idle ==> {
                &&& r.on_event == AmpTrigger::SessionBegin ==> on
                &&& r.on_event == AmpTrigger::PlayBegin ==> on == (n.state.playback
                    == Playback::Starting || n.state.playback == Playback::Playing
                    || m.state.power.amp)
            }
            &&& n.amp_override is None && r.amp_enabled && n.state.playback == Playback::Idle ==> on
                == (m.state.power.amp && (n.amp_off_at matches Some(t) && now < t))
        }),
{
    let a = m.begin().take_in(r, input, now);
    crate::session_laws::take_in_keeps(m.begin(), r, input, now);
    crate::session_laws::timers_keep(a, r, now);
    crate::session_laws::power_keeps(a.evaluate_timers(r, now), r, now);
}

/// The display while nobody sends. Once its delay has passed it is off; before
/// that, once the ambient delay has passed, it is ambient; and until either it
/// shows what it did.
pub proof fn the_display_winds_down(m: Model, r: Rules, now: u64)
    requires
        m.consistent(),
        m.state.playback == Playback::Idle,
    ensures
        ({
            let shown = m.step(r, InputView::Tick, now).m.state.power.display;
            if m.blank_at matches Some(t) && t <= now {
                shown == DisplayPower::Off
            } else if m.ambient_at matches Some(t) && t <= now {
                shown == DisplayPower::Ambient
            } else {
                shown == m.state.power.display
            }
        }),
{
    let a = m.begin();
    crate::session_laws::timers_keep(a, r, now);
    crate::session_laws::power_keeps(a.evaluate_timers(r, now), r, now);
}

/// The next moment to wake up is one at which something is due: a running
/// power-down timer, or the end of the silence that a session or a playing
/// stream is allowed.
pub proof fn deadlines_are_due_moments(m: Model, r: Rules)
    requires
        m.fits(r),
    ensures
        ({
            let playing = m.state.playback == Playback::Playing;
            let attached = m.state.playback != Playback::Idle;
            let stall = m.last_activity + r.stall;
            let session = m.last_activity + r.session;
            match m.next_deadline(r) {
                Some(t) => {
                    &&& {
                        ||| m.amp_off_at == Some(t)
                        ||| m.ambient_at == Some(t)
                        ||| m.blank_at == Some(t)
                        ||| playing && t == stall
                        ||| attached && t == session
                    }
                    &&& m.amp_off_at matches Some(x) ==> t <= x
                    &&& m.ambient_at matches Some(x) ==> t <= x
                    &&& m.blank_at matches Some(x) ==> t <= x
                    &&& playing ==> t <= stall
                    &&& attached ==> t <= session
                },
                None => {
                    &&& m.amp_off_at is None
                    &&& m.ambient_at is None
                    &&& m.blank_at is None
                    &&& !attached
                },
            }
        }),
{
}

/// What is counted: a session when one begins and none was there, a track when
/// a bundle tells of another than the one shown, and each timeout as it comes.
pub proof fn beginnings_are_counted(m: Model, r: Rules, ev: MetaView, now: u64)
    requires
        r.session > 0,
        r.stall > 0,
        m.counters.has_room(),
    ensures
        ({
            let n = m.step(r, InputView::Meta(ev), now).m.counters;
            let begins = m.state.playback == Playback::Idle && (ev == MetaView::ActiveBegin || ev
                == MetaView::PlayBegin);
            let other = ev == MetaView::BundleEnd && (m.pending matches Some(b) && b.any && match m.state.track {
                Some(t) => t.id != b.track().id,
                None => true,
            });
            &&& n.sessions == m.counters.sessions + if begins {
                1int
            } else {
                0int
            }
            &&& n.tracks == m.counters.tracks + if other {
                1int
            } else {
                0int
            }
            &&& n.stall_timeouts == m.counters.stall_timeouts
            &&& n.session_timeouts == m.counters.session_timeouts
        }),
{
    events_are_activity(m, r, ev, now);
    reveal(Turn::on_meta);
    reveal(Turn::set_playback);
    reveal(Turn::enter_active);
    reveal(Turn::enter_idle);
    reveal(Turn::commit_bundle);
    reveal(Turn::apply_power);
}

/// A field of a bundle fills its own place, with the white space around a text
/// taken off, and leaves the others. Outside a bundle it is dropped.
pub proof fn fields_fill_their_place(m: Model, r: Rules, f: CoreView, now: u64)
    requires
        r.session > 0,
        r.stall > 0,
    ensures
        m.pending is None ==> m.step(r, InputView::Meta(MetaView::Core(f)), now).m.pending is None,
        m.pending matches Some(b) ==> m.step(
            r,
            InputView::Meta(MetaView::Core(f)),
            now,
        ).m.pending matches Some(n) && {
            let text = |s: Seq<char>|
                if trimmed(s).len() == 0 {
                    None
                } else {
                    Some(trimmed(s))
                };
            let (t, u) = (b.track(), n.track());
            &&& n.any
            &&& u.title == (match f {
                CoreView::Title(s) => text(s),
                _ => t.title,
            })
            &&& u.artist == (match f {
                CoreView::Artist(s) => text(s),
                _ => t.artist,
            })
            &&& u.album == (match f {
                CoreView::Album(s) => text(s),
                _ => t.album,
            })
            &&& u.album_artist == (match f {
                CoreView::AlbumArtist(s) => text(s),
                _ => t.album_artist,
            })
            &&& u.genre == (match f {
                CoreView::Genre(s) => text(s),
                _ => t.genre,
            })
            &&& u.composer == (match f {
                CoreView::Composer(s) => text(s),
                _ => t.composer,
            })
            &&& u.duration_ms == (match f {
                CoreView::DurationMs(v) => Some(v),
                _ => t.duration_ms,
            })
            &&& u.track_number == (match f {
                CoreView::TrackNumber(v) => Some(v),
                _ => t.track_number,
            })
            &&& n.persistent_id == (match f {
                CoreView::PersistentId(v) => Some(v),
                _ => b.persistent_id,
            })
        },
{
    events_are_activity(m, r, MetaView::Core(f), now);
    power_moves_nothing_else(
        m.begin().take_in(r, InputView::Meta(MetaView::Core(f)), now),
        r,
        now,
    );
    reveal(Turn::on_meta);
}

/// Without a persistent ID of the sender, zero being none, a track is known by
/// its artist, album and title, whatever the case of their letters, and by
/// nothing else.
pub proof fn names_identify_a_track(a: BundleView, b: BundleView)
    requires
        a.persistent_id is None || a.persistent_id == Some(0u64),
        b.persistent_id is None || b.persistent_id == Some(0u64),
        a.artist is Some && b.artist is Some && lowercase(a.artist->0) == lowercase(b.artist->0),
        a.album is Some && b.album is Some && lowercase(a.album->0) == lowercase(b.album->0),
        a.title is Some && b.title is Some && lowercase(a.title->0) == lowercase(b.title->0),
    ensures
        a.track().id == b.track().id,
        a.track().id.len() >= 2 && a.track().id[0] == 'h' && a.track().id[1] == ':',
{
    reveal_strlit("h:");
}

} // verus!
