//! What holds of the state machine over every input: the properties that the
//! renderer, the amplifier and the main loop rely on.

use vstd::prelude::*;

use crate::config::AmpTrigger;
use crate::machine::{
    booted, due, pending_until, since, BundleView, Counters, EffectView, EnrichmentOutcome,
    InputView, Machine, Model, Rules, Turn,
};
use crate::meta::MetaView;
use crate::proto::{ArtworkSource, DisplayPower, Playback, Power, StateView};

verus! {

broadcast use vstd::seq::group_seq_axioms;

impl Model {
    /// What holds of the machine between inputs: a session is marked active
    /// and has no power-down timer running, everything else is idle, and the
    /// picture that is shown is the last that was given a revision.
    pub open spec fn consistent(self) -> bool {
        &&& self.state.session.active == self.state.playback.in_session()
        &&& self.state.playback.in_session() ==> {
            &&& self.idle_since is None
            &&& self.amp_off_at is None
            &&& self.ambient_at is None
            &&& self.blank_at is None
        }
        &&& self.state.artwork matches Some(a) ==> a.revision == self.last_revision
    }

    /// Whether power is where it should be at this moment, and no timer has
    /// come due.
    pub open spec fn settled(self, r: Rules, now: u64) -> bool {
        &&& self.state.power.amp == self.wants_amp(r, now)
        &&& self.state.power.display == self.wants_display(now)
        &&& !due(self.amp_off_at, now)
        &&& !due(self.ambient_at, now)
        &&& !due(self.blank_at, now)
    }
}

/// What taking in the input itself keeps: consistency, and the power state.
pub(crate) proof fn take_in_keeps(t: Turn, r: Rules, input: InputView, now: u64)
    requires
        t.m.consistent(),
    ensures
        t.take_in(r, input, now).m.consistent(),
        t.take_in(r, input, now).m.state.power == t.m.state.power,
        t.take_in(r, input, now).m.last_activity == now || t.take_in(r, input, now).m.last_activity
            == t.m.last_activity,
        input != InputView::Meta(MetaView::BundleEnd) ==> t.take_in(r, input, now).m.state.track
            == t.m.state.track,
        input != InputView::Meta(MetaView::PictureCleared) ==> t.take_in(
            r,
            input,
            now,
        ).m.state.artwork == t.m.state.artwork,
        t.take_in(r, input, now).m.last_revision == t.m.last_revision,
        t.m.state.playback.in_session() == t.take_in(r, input, now).m.state.playback.in_session()
            ==> t.take_in(r, input, now).m.amp_override == t.m.amp_override,
        amp_effects(t.effects) == 0 ==> amp_effects(t.take_in(r, input, now).effects) == 0,
{
    reveal(Turn::on_meta);
    reveal(Turn::set_playback);
    reveal(Turn::enter_active);
    reveal(Turn::enter_idle);
    reveal(Turn::commit_bundle);
    let u = t.take_in(r, input, now);
    if u.effects != t.effects {
        let e = u.effects.last();
        assert(u.effects.drop_last() == t.effects);
        assert(!(e is SetAmp));
    }
}

/// How often a list of effects switches the amplifier.
pub open spec fn amp_effects(s: Seq<EffectView>) -> nat
    decreases s.len(),
{
    if s.len() == 0 {
        0
    } else {
        amp_effects(s.drop_last()) + if s.last() is SetAmp {
            1nat
        } else {
            0
        }
    }
}

pub(crate) proof fn timers_keep(t: Turn, r: Rules, now: u64)
    requires
        t.m.consistent(),
    ensures
        t.evaluate_timers(r, now).m.consistent(),
        t.evaluate_timers(r, now).m.state.power == t.m.state.power,
        t.evaluate_timers(r, now).m.last_activity == t.m.last_activity,
        t.evaluate_timers(r, now).m.state.track == t.m.state.track,
        t.evaluate_timers(r, now).m.state.artwork == t.m.state.artwork,
        t.evaluate_timers(r, now).m.last_revision == t.m.last_revision,
        t.evaluate_timers(r, now).effects == t.effects,
        t.m.state.playback.in_session() == t.evaluate_timers(r, now).m.state.playback.in_session()
            ==> t.evaluate_timers(r, now).m.amp_override == t.m.amp_override,
        t.evaluate_timers(r, now).m.state.playback.in_session() ==> t.m.state.playback.in_session()
            && since(now, t.m.last_activity) < r.session,
        t.evaluate_timers(r, now).m.state.playback == Playback::Playing ==> since(
            now,
            t.m.last_activity,
        ) < r.stall,
        !t.m.state.playback.in_session() ==> t.evaluate_timers(r, now) == t,
{
    reveal(Turn::evaluate_timers);
    reveal(Turn::set_playback);
    reveal(Turn::enter_idle);
}

pub(crate) proof fn power_keeps(t: Turn, r: Rules, now: u64)
    requires
        t.m.consistent(),
    ensures
        t.apply_power(r, now).m.consistent(),
        t.apply_power(r, now).m.last_activity == t.m.last_activity,
        t.apply_power(r, now).m.amp_override == t.m.amp_override,
        t.apply_power(r, now).m.pending == t.m.pending,
        t.apply_power(r, now).m.counters == t.m.counters,
        t.apply_power(r, now).m.last_revision == t.m.last_revision,
        t.apply_power(r, now).m.state == (StateView {
            power: Power { amp: t.m.wants_amp(r, now), display: t.m.wants_display(now) },
            ..t.m.state
        }),
        t.apply_power(r, now).m.amp_off_at == pending_until(t.m.amp_off_at, now),
        t.apply_power(r, now).m.ambient_at == pending_until(t.m.ambient_at, now),
        t.apply_power(r, now).m.blank_at == pending_until(t.m.blank_at, now),
        amp_effects(t.effects) == 0 ==> amp_effects(t.apply_power(r, now).effects) == (
        if t.m.wants_amp(r, now) != t.m.state.power.amp {
            1nat
        } else {
            0
        }),
{
    reveal(Turn::apply_power);
    let amp = t.m.wants_amp(r, now);
    let display = t.m.wants_display(now);
    let power = t.m.state.power;
    let one = t.effects.push(EffectView::SetAmp(amp));
    assert(one.drop_last() == t.effects);
    let mid = if amp != power.amp {
        one
    } else {
        t.effects
    };
    let two = mid.push(EffectView::SetDisplay(display));
    assert(two.drop_last() == mid);
    assert(amp_effects(one) == amp_effects(t.effects) + 1);
    assert(amp_effects(two) == amp_effects(mid));
}

impl Model {
    /// The start of a turn.
    pub open spec fn begin(self) -> Turn {
        Turn { m: self, effects: Seq::empty(), notes: Seq::empty() }
    }
}

/// Every input keeps the machine consistent.
pub proof fn steps_stay_consistent(m: Model, r: Rules, input: InputView, now: u64)
    requires
        m.consistent(),
    ensures
        m.step(r, input, now).m.consistent(),
{
    let a = m.begin().take_in(r, input, now);
    take_in_keeps(m.begin(), r, input, now);
    timers_keep(a, r, now);
    power_keeps(a.evaluate_timers(r, now), r, now);
}

/// No deadline is left in the past: after every input, the next moment to
/// wake up lies ahead, so the main loop never spins.
pub proof fn deadlines_lie_ahead(m: Model, r: Rules, input: InputView, now: u64)
    requires
        m.consistent(),
        m.fits(r),
        r.fit(now),
    ensures
        m.step(r, input, now).m.next_deadline(r) matches Some(t) ==> t > now,
{
    let a = m.begin().take_in(r, input, now);
    let b = a.evaluate_timers(r, now);
    take_in_keeps(m.begin(), r, input, now);
    timers_keep(a, r, now);
    power_keeps(b, r, now);
}

/// A machine that has just booted is consistent, and waits for nothing.
pub proof fn fresh_machines_wait_for_nothing(r: Rules, now: u64)
    ensures
        booted(now).consistent(),
        booted(now).next_deadline(r) is None,
{
}

/// A device that is idle with no timer running never wakes up on its own.
pub proof fn settled_devices_sleep(m: Model, r: Rules)
    requires
        m.state.playback == Playback::Idle,
        m.amp_off_at is None,
        m.ambient_at is None,
        m.blank_at is None,
    ensures
        m.next_deadline(r) is None,
{
}

/// In a session the display is on, and the amplifier is too, if it is enabled
/// to follow sessions and nobody has switched it by hand.
pub proof fn sessions_are_powered(m: Model, r: Rules, input: InputView, now: u64)
    requires
        m.consistent(),
        m.step(r, input, now).m.state.playback.in_session(),
    ensures
        m.step(r, input, now).m.state.power.display == DisplayPower::On,
        r.amp_enabled && r.on_event == AmpTrigger::SessionBegin && m.step(
            r,
            input,
            now,
        ).m.amp_override is None ==> m.step(r, input, now).m.state.power.amp,
{
    let a = m.begin().take_in(r, input, now);
    take_in_keeps(m.begin(), r, input, now);
    timers_keep(a, r, now);
    power_keeps(a.evaluate_timers(r, now), r, now);
}

/// The amplifier switches at most once per input, and not at all while a
/// session goes on with it already on.
pub proof fn the_amp_does_not_chatter(m: Model, r: Rules, input: InputView, now: u64)
    requires
        m.consistent(),
    ensures
        amp_effects(m.step(r, input, now).effects) <= 1,
        amp_effects(m.step(r, input, now).effects) == 1 <==> m.step(
            r,
            input,
            now,
        ).m.state.power.amp != m.state.power.amp,
        m.state.power.amp && r.amp_enabled && r.on_event == AmpTrigger::SessionBegin
            && m.amp_override is None && m.state.playback.in_session() && m.step(
            r,
            input,
            now,
        ).m.state.playback.in_session() ==> amp_effects(m.step(r, input, now).effects) == 0,
{
    let a = m.begin().take_in(r, input, now);
    let b = a.evaluate_timers(r, now);
    assert(amp_effects(m.begin().effects) == 0);
    take_in_keeps(m.begin(), r, input, now);
    timers_keep(a, r, now);
    power_keeps(b, r, now);
}

/// A step asks for a device to be switched if and only if it moved that
/// device's power, and then to where the power now stands. So the amplifier and
/// the display follow the state that is shown, and nothing else switches them.
pub proof fn devices_follow_the_state(m: Model, r: Rules, input: InputView, now: u64)
    requires
        m.consistent(),
    ensures
        ({
            let turn = m.step(r, input, now);
            let power = turn.m.state.power;
            &&& forall|on: bool| #[trigger]
                turn.effects.contains(EffectView::SetAmp(on)) <==> power.amp != m.state.power.amp
                    && power.amp == on
            &&& forall|d: DisplayPower| #[trigger]
                turn.effects.contains(EffectView::SetDisplay(d)) <==> power.display
                    != m.state.power.display && power.display == d
        }),
{
    let a = m.begin().take_in(r, input, now);
    let b = a.evaluate_timers(r, now);
    let c = b.apply_power(r, now);
    take_in_keeps(m.begin(), r, input, now);
    timers_keep(a, r, now);
    power_keeps(b, r, now);
    assert forall|i: int| 0 <= i < a.effects.len() implies !(a.effects[i] is SetAmp) && !(
    a.effects[i] is SetDisplay) by {
        reveal(Turn::on_meta);
        reveal(Turn::set_playback);
        reveal(Turn::enter_active);
        reveal(Turn::enter_idle);
        reveal(Turn::commit_bundle);
    }
    reveal(Turn::apply_power);
    let amp = c.m.state.power.amp;
    let display = c.m.state.power.display;
    let n = b.effects.len() as int;
    if amp != m.state.power.amp {
        assert(c.effects[n] == EffectView::SetAmp(amp));
    }
    if display != m.state.power.display {
        assert(c.effects[c.effects.len() - 1] == EffectView::SetDisplay(display));
    }
}

/// What every input leaves behind, whatever came before: the session is active
/// if and only if the playback is in one, the display is on in a session, and
/// an amplifier that is not enabled is off unless somebody switched it by hand.
pub proof fn every_step_leaves_order(m: Model, r: Rules, input: InputView, now: u64)
    requires
        m.consistent(),
    ensures
        ({
            let n = m.step(r, input, now).m;
            &&& n.state.session.active == n.state.playback.in_session()
            &&& n.state.playback.in_session() ==> n.state.power.display == DisplayPower::On
            &&& !r.amp_enabled ==> n.state.power.amp == (n.amp_override == Some(true))
        }),
{
    let a = m.begin().take_in(r, input, now);
    take_in_keeps(m.begin(), r, input, now);
    timers_keep(a, r, now);
    power_keeps(a.evaluate_timers(r, now), r, now);
}

/// The end of a track is not the end of the session: a play stream that ends
/// leaves the sender attached.
pub proof fn play_end_stays_in_the_session(m: Model, r: Rules, now: u64)
    requires
        m.consistent(),
        m.state.playback.in_session(),
        r.session > 0,
    ensures
        m.step(r, InputView::Meta(MetaView::PlayEnd), now).m.state.playback == Playback::Active,
        m.step(r, InputView::Meta(MetaView::PlayEnd), now).m.state.power.display
            == DisplayPower::On,
{
    let input = InputView::Meta(MetaView::PlayEnd);
    let a = m.begin().take_in(r, input, now);
    take_in_keeps(m.begin(), r, input, now);
    timers_keep(a, r, now);
    power_keeps(a.evaluate_timers(r, now), r, now);
    reveal(Turn::on_meta);
    reveal(Turn::set_playback);
    reveal(Turn::evaluate_timers);
}

/// A sender that never announces a session still opens one by playing.
pub proof fn play_begin_opens_a_session(m: Model, r: Rules, now: u64)
    requires
        m.consistent(),
        r.session > 0,
    ensures
        m.step(r, InputView::Meta(MetaView::PlayBegin), now).m.state.playback
            == Playback::Starting,
{
    let input = InputView::Meta(MetaView::PlayBegin);
    let a = m.begin().take_in(r, input, now);
    take_in_keeps(m.begin(), r, input, now);
    timers_keep(a, r, now);
    power_keeps(a.evaluate_timers(r, now), r, now);
    reveal(Turn::on_meta);
    reveal(Turn::set_playback);
    reveal(Turn::enter_active);
    reveal(Turn::evaluate_timers);
}

/// The pipe's end forces idle, whatever came before.
pub proof fn pipe_end_forces_idle(m: Model, r: Rules, now: u64)
    requires
        m.consistent(),
    ensures
        m.step(r, InputView::PipeEof, now).m.state.playback == Playback::Idle,
        !m.step(r, InputView::PipeEof, now).m.state.session.active,
        m.step(r, InputView::PipeEof, now).m.pending is None || m.state.playback == Playback::Idle,
{
    let input = InputView::PipeEof;
    let a = m.begin().take_in(r, input, now);
    take_in_keeps(m.begin(), r, input, now);
    timers_keep(a, r, now);
    power_keeps(a.evaluate_timers(r, now), r, now);
    reveal(Turn::enter_idle);
    reveal(Turn::set_playback);
}

/// Silence ends a session, and pauses playback before that.
pub proof fn silence_pauses_then_ends(m: Model, r: Rules, now: u64)
    requires
        m.consistent(),
        m.state.playback.in_session(),
    ensures
        since(now, m.last_activity) >= r.session ==> m.step(
            r,
            InputView::Tick,
            now,
        ).m.state.playback == Playback::Idle,
        since(now, m.last_activity) < r.session && since(now, m.last_activity) >= r.stall
            && m.state.playback == Playback::Playing ==> m.step(
            r,
            InputView::Tick,
            now,
        ).m.state.playback == Playback::Paused,
        since(now, m.last_activity) < r.session && since(now, m.last_activity) < r.stall ==> m.step(
            r,
            InputView::Tick,
            now,
        ).m.state.playback == m.state.playback,
{
    let a = m.begin();
    timers_keep(a, r, now);
    power_keeps(a.evaluate_timers(r, now), r, now);
    reveal(Turn::evaluate_timers);
    reveal(Turn::enter_idle);
    reveal(Turn::set_playback);
}

/// The blank and amplifier timers start when a session ends, and run the
/// configured time from there.
pub proof fn power_down_counts_from_idle(m: Model, r: Rules, now: u64)
    requires
        m.consistent(),
        m.state.playback.in_session(),
        r.fit(now),
        r.off_delay > 0,
        r.blank_after > 0,
        r.ambient_after matches Some(x) ==> x > 0,
    ensures
        ({
            let n = m.step(r, InputView::Meta(MetaView::ActiveEnd), now).m;
            &&& n.state.playback == Playback::Idle
            &&& n.amp_off_at == Some((now + r.off_delay) as u64)
            &&& n.blank_at == Some((now + r.blank_after) as u64)
            &&& n.ambient_at == match r.ambient_after {
                Some(x) => Some((now + x) as u64),
                None => None,
            }
            // Nothing is switched yet.
            &&& n.state.power.display == m.state.power.display
            &&& r.amp_enabled ==> n.state.power.amp == m.state.power.amp
        }),
{
    let input = InputView::Meta(MetaView::ActiveEnd);
    let a = m.begin().take_in(r, input, now);
    take_in_keeps(m.begin(), r, input, now);
    timers_keep(a, r, now);
    power_keeps(a.evaluate_timers(r, now), r, now);
    reveal(Turn::on_meta);
    reveal(Turn::enter_idle);
    reveal(Turn::set_playback);
}

/// The published track changes only when a bundle ends, and then as a whole:
/// half a bundle is never seen.
pub proof fn bundles_are_atomic(m: Model, r: Rules, input: InputView, now: u64)
    requires
        m.consistent(),
    ensures
        input != InputView::Meta(MetaView::BundleEnd) ==> m.step(r, input, now).m.state.track
            == m.state.track,
        input == InputView::Meta(MetaView::BundleEnd) ==> m.step(r, input, now).m.state.track == (
        match m.pending {
            Some(b) if b.any => Some(b.track()),
            _ => m.state.track,
        }),
{
    let a = m.begin().take_in(r, input, now);
    take_in_keeps(m.begin(), r, input, now);
    timers_keep(a, r, now);
    power_keeps(a.evaluate_timers(r, now), r, now);
    reveal(Turn::on_meta);
    reveal(Turn::commit_bundle);
}

/// A bundle that is sent again is not a new track.
pub proof fn resent_bundles_are_not_new_tracks(m: Model, r: Rules, now: u64)
    requires
        m.consistent(),
        m.pending matches Some(b) && m.state.track matches Some(t) && b.track().id == t.id,
    ensures
        m.step(r, InputView::Meta(MetaView::BundleEnd), now).m.counters.tracks == m.counters.tracks,
{
    let input = InputView::Meta(MetaView::BundleEnd);
    let a = m.begin().take_in(r, input, now);
    take_in_keeps(m.begin(), r, input, now);
    timers_keep(a, r, now);
    power_keeps(a.evaluate_timers(r, now), r, now);
    reveal(Turn::on_meta);
    reveal(Turn::commit_bundle);
    reveal(Turn::evaluate_timers);
    reveal(Turn::enter_idle);
    reveal(Turn::set_playback);
}

/// A sender's persistent ID is the whole identity: two bundles with the same
/// one describe the same track, whatever else they say.
pub proof fn persistent_id_decides(a: BundleView, b: BundleView)
    requires
        a.persistent_id == b.persistent_id,
        a.persistent_id matches Some(id) && id != 0,
    ensures
        a.track().id == b.track().id,
{
}

/// The picture changes through no input but the one that clears it; and one
/// that is recorded again keeps its revision, while any other gets the next
/// one, whether or not a picture is shown.
pub proof fn revisions_count_pictures(
    m: Model,
    r: Rules,
    input: InputView,
    now: u64,
    sha256: Seq<char>,
    path: Seq<char>,
    bytes: u64,
    dimensions: Option<(u32, u32)>,
    source: ArtworkSource,
    is_upgrade: bool,
)
    requires
        m.consistent(),
        m.last_revision < u64::MAX,
    ensures
        input != InputView::Meta(MetaView::PictureCleared) ==> m.step(r, input, now).m.state.artwork
            == m.state.artwork,
        m.step(r, input, now).m.last_revision == m.last_revision,
        ({
            let n = Machine::art_recorded(m, sha256, path, bytes, dimensions, source, is_upgrade);
            &&& n.consistent()
            &&& match m.state.artwork {
                Some(a) if a.sha256 == sha256 => n.state == m.state,
                _ => n.state.artwork matches Some(b) && b.revision == m.last_revision + 1
                    && b.sha256 == sha256,
            }
        }),
{
    let a = m.begin().take_in(r, input, now);
    take_in_keeps(m.begin(), r, input, now);
    timers_keep(a, r, now);
    power_keeps(a.evaluate_timers(r, now), r, now);
}

/// Something that happens to a machine.
pub enum Happening {
    /// An input comes in, under the rules of the moment.
    Came { rules: Rules, input: InputView, now: u64 },
    /// The amplifier is switched by hand.
    Switched { rules: Rules, on: bool, now: u64 },
    /// A picture is recorded.
    Recorded {
        sha256: Seq<char>,
        path: Seq<char>,
        bytes: u64,
        dimensions: Option<(u32, u32)>,
        source: ArtworkSource,
        is_upgrade: bool,
    },
    /// An enrichment attempt is counted.
    Counted { outcome: EnrichmentOutcome, limited: bool },
}

impl Model {
    /// The machine after one thing has happened.
    pub open spec fn met(self, h: Happening) -> Model {
        match h {
            Happening::Came { rules, input, now } => self.step(rules, input, now).m,
            Happening::Switched { rules, on, now } => self.overridden(rules, on, now).m,
            Happening::Recorded {
                sha256,
                path,
                bytes,
                dimensions,
                source,
                is_upgrade,
            } => Machine::art_recorded(self, sha256, path, bytes, dimensions, source, is_upgrade),
            Happening::Counted { outcome, limited } => Model {
                counters: Counters {
                    enrichment: self.counters.enrichment.recorded(outcome, limited),
                    ..self.counters
                },
                ..self
            },
        }
    }

    /// The machine after all of this has happened, in order.
    pub open spec fn lived(self, history: Seq<Happening>) -> Model
        decreases history.len(),
    {
        if history.len() == 0 {
            self
        } else {
            self.lived(history.drop_last()).met(history.last())
        }
    }
}

/// The last revision never falls, and rises by at most one at a time.
proof fn revisions_never_fall(m: Model, h: Happening)
    requires
        m.consistent(),
        m.last_revision < u64::MAX,
    ensures
        m.met(h).consistent(),
        m.last_revision <= m.met(h).last_revision <= m.last_revision + 1,
{
    match h {
        Happening::Came { rules, input, now } => {
            let a = m.begin().take_in(rules, input, now);
            take_in_keeps(m.begin(), rules, input, now);
            timers_keep(a, rules, now);
            power_keeps(a.evaluate_timers(rules, now), rules, now);
        },
        Happening::Switched { rules, on, now } => {
            power_keeps(Model { amp_override: Some(on), ..m }.begin(), rules, now);
        },
        Happening::Recorded { .. } | Happening::Counted { .. } => {},
    }
}

proof fn revisions_grow_along(m: Model, history: Seq<Happening>, i: int)
    requires
        m.consistent(),
        0 <= i <= history.len(),
        m.last_revision + history.len() <= u64::MAX,
    ensures
        m.lived(history).consistent(),
        m.lived(history.take(i)).consistent(),
        m.lived(history.take(i)).last_revision <= m.lived(history).last_revision,
        m.lived(history).last_revision <= m.last_revision + history.len(),
    decreases history.len(),
{
    if history.len() == 0 {
        assert(history.take(i) == history);
    } else {
        let before = history.drop_last();
        if i == history.len() {
            assert(history.take(i) == history);
            revisions_grow_along(m, before, i - 1);
        } else {
            assert(history.take(i) == before.take(i));
            revisions_grow_along(m, before, i);
        }
        revisions_never_fall(m.lived(before), history.last());
    }
}

/// Revisions are monotonic over the life of a machine: a new picture gets a
/// greater revision than every picture that was ever shown before, also one
/// that has been cleared since. So every new picture triggers a crossfade.
pub proof fn revisions_are_monotonic(
    m: Model,
    history: Seq<Happening>,
    i: int,
    sha256: Seq<char>,
    path: Seq<char>,
    bytes: u64,
    dimensions: Option<(u32, u32)>,
    source: ArtworkSource,
    is_upgrade: bool,
)
    requires
        m.consistent(),
        0 <= i <= history.len(),
        m.last_revision + history.len() < u64::MAX,
    ensures
        ({
            let then = m.lived(history.take(i));
            let now = m.lived(history);
            let new = Machine::art_recorded(
                now,
                sha256,
                path,
                bytes,
                dimensions,
                source,
                is_upgrade,
            );
            !(now.state.artwork matches Some(a) && a.sha256 == sha256) ==> {
                &&& new.state.artwork matches Some(b) && b.revision > 0
                &&& then.state.artwork matches Some(a) ==> new.state.artwork matches Some(b)
                    && a.revision < b.revision
            }
        }),
{
    revisions_grow_along(m, history, i);
}

proof fn steps_settle(m: Model, r: Rules, input: InputView, now: u64)
    requires
        m.consistent(),
    ensures
        m.step(r, input, now).m.settled(r, now),
        m.step(r, input, now).m.state.playback.in_session() ==> since(
            now,
            m.step(r, input, now).m.last_activity,
        ) < r.session,
        m.step(r, input, now).m.state.playback == Playback::Playing ==> since(
            now,
            m.step(r, input, now).m.last_activity,
        ) < r.stall,
{
    let a = m.begin().take_in(r, input, now);
    let b = a.evaluate_timers(r, now);
    take_in_keeps(m.begin(), r, input, now);
    timers_keep(a, r, now);
    power_keeps(b, r, now);
}

/// A tick before the next deadline does nothing: after an input, and until the
/// moment that is given for waking up, the machine stays as it is, publishes
/// nothing and asks for nothing. If there is no such moment, no tick ever does
/// anything.
pub proof fn nothing_happens_before_the_deadline(
    m: Model,
    r: Rules,
    input: InputView,
    now: u64,
    tick: u64,
)
    requires
        m.consistent(),
        m.fits(r),
        r.fit(now),
        now <= tick,
        m.step(r, input, now).m.next_deadline(r) matches Some(t) ==> tick < t,
    ensures
        ({
            let n = m.step(r, input, now).m;
            let turn = n.step(r, InputView::Tick, tick);
            &&& turn.m == n
            &&& turn.effects == Seq::<EffectView>::empty()
            &&& turn.notes == Seq::<Seq<char>>::empty()
            &&& (n.state.volume matches Some(v) ==> !v.airplay_db.is_nan()) ==> turn.m.state.equals(
                n.state,
            )
        }),
{
    let n = m.step(r, input, now).m;
    steps_stay_consistent(m, r, input, now);
    steps_settle(m, r, input, now);
    let a = m.begin().take_in(r, input, now);
    take_in_keeps(m.begin(), r, input, now);
    timers_keep(a, r, now);
    power_keeps(a.evaluate_timers(r, now), r, now);
    reveal(Turn::evaluate_timers);
    reveal(Turn::apply_power);
    let t = n.begin();
    assert(t.evaluate_timers(r, tick) == t);
    assert(n.wants_amp(r, tick) == n.state.power.amp);
    assert(n.wants_display(tick) == n.state.power.display);
}

/// A manual setting of the amplifier takes hold at once, and stays until a
/// session begins or ends.
pub proof fn overrides_hold_until_a_transition(
    m: Model,
    r: Rules,
    on: bool,
    at: u64,
    input: InputView,
    now: u64,
)
    requires
        m.consistent(),
    ensures
        ({
            let n = m.overridden(r, on, at).m;
            &&& n.consistent()
            &&& n.state.power.amp == on
            &&& n.state.playback == m.state.playback
        }),
        m.amp_override == Some(on) && m.state.playback.in_session() == m.begin().take_in(
            r,
            input,
            now,
        ).m.state.playback.in_session() && m.state.playback.in_session() == m.step(
            r,
            input,
            now,
        ).m.state.playback.in_session() ==> m.step(r, input, now).m.state.power.amp == on,
{
    let a = m.begin().take_in(r, input, now);
    take_in_keeps(m.begin(), r, input, now);
    timers_keep(a, r, now);
    power_keeps(a.evaluate_timers(r, now), r, now);
    power_keeps(Model { amp_override: Some(on), ..m }.begin(), r, at);
}

/// A picture that is recorded anew is shown as it was recorded: with its file,
/// its size, where it came from, and whether it replaces the sender's. Nothing
/// else that is shown changes with it.
pub proof fn pictures_are_shown_as_recorded(
    m: Model,
    sha256: Seq<char>,
    path: Seq<char>,
    bytes: u64,
    width: u32,
    height: u32,
    source: ArtworkSource,
    is_upgrade: bool,
)
    requires
        m.last_revision < u64::MAX,
        m.counters.has_art_room(),
        m.state.artwork matches Some(a) ==> a.sha256 != sha256,
    ensures
        ({
            let n = Machine::art_recorded(
                m,
                sha256,
                path,
                bytes,
                Some((width, height)),
                source,
                is_upgrade,
            );
            &&& n.state.artwork matches Some(b) && {
                &&& b.sha256 == sha256
                &&& b.path == path
                &&& b.bytes == bytes
                &&& b.width == Some(width)
                &&& b.height == Some(height)
                &&& b.source == source
                &&& b.is_upgrade == is_upgrade
            }
            &&& n.state.playback == m.state.playback
            &&& n.state.track == m.state.track
            &&& n.state.session == m.state.session
            &&& n.state.progress == m.state.progress
            &&& n.state.power == m.state.power
            &&& n.counters.artwork_updates == m.counters.artwork_updates + 1
            &&& n.counters.artwork_duplicates == m.counters.artwork_duplicates
        }),
{
}

} // verus!
