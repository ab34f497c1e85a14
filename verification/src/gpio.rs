//! The amplifier trigger: one GPIO line through an optocoupler.
//!
//! What stands here is everything around the line: which chip carries it, how
//! it is driven, and how soon it may be driven again.
//!
//! ## The hardware requirement this code cannot enforce
//!
//! When the process exits the kernel releases the line request and the pin
//! reverts to its power-on state, which is an input. Nothing in software runs
//! at that moment. **The optocoupler input must therefore have an external
//! pull-down** (or pull-up, if `active_low`) holding it in the amplifier-off
//! state. Without it, a crash can leave an amplifier powered indefinitely.

use vstd::prelude::*;

use crate::config::Amp;
use crate::duration::Dur;
use crate::strings::{
    concat, debug_quoted, decimal, pieces, quote, same, split, texts, to_chars, to_decimal,
};

verus! {

broadcast use vstd::seq::group_seq_axioms;

/// One candidate GPIO chip, as read from the kernel.
#[derive(Debug)]
pub struct ChipCandidate {
    pub path: String,
    pub label: String,
    pub num_lines: u32,
}

/// A [`ChipCandidate`] as values.
pub struct ChipView {
    pub path: Seq<char>,
    pub label: Seq<char>,
    pub num_lines: u32,
}

impl View for ChipCandidate {
    type V = ChipView;

    open spec fn view(&self) -> ChipView {
        ChipView { path: self.path@, label: self.label@, num_lines: self.num_lines }
    }
}

impl Clone for ChipCandidate {
    fn clone(&self) -> (r: ChipCandidate)
        ensures
            r@ == self@,
    {
        ChipCandidate {
            path: self.path.clone(),
            label: self.label.clone(),
            num_lines: self.num_lines,
        }
    }
}

/// Candidates as values.
pub open spec fn chips(c: Seq<ChipCandidate>) -> Seq<ChipView> {
    c.map_values(|x: ChipCandidate| x@)
}

// --- paths ----------------------------------------------------------------

/// The steps of a path that lead somewhere: not the empty ones between two
/// separators in a row, and not `.`.
pub open spec fn steps(p: Seq<Seq<char>>) -> Seq<Seq<char>>
    decreases p.len(),
{
    if p.len() == 0 {
        Seq::empty()
    } else {
        let rest = steps(p.drop_last());
        if p.last().len() == 0 || p.last() == "."@ {
            rest
        } else {
            rest.push(p.last())
        }
    }
}

/// Whether a path starts at the root.
pub open spec fn absolute(p: Seq<char>) -> bool {
    p.len() > 0 && p[0] == '/'
}

/// Whether two paths from the root lead through the same steps.
pub open spec fn same_place(a: Seq<char>, b: Seq<char>) -> bool {
    absolute(a) && absolute(b) && steps(pieces(a, '/')) == steps(pieces(b, '/'))
}

fn path_steps(p: &str) -> (r: Vec<String>)
    ensures
        texts(r@) == steps(pieces(p@, '/')),
{
    let all = split(&to_chars(p), '/');
    let mut out: Vec<String> = Vec::new();
    let mut i: usize = 0;
    let ghost names = texts(all@);
    assert(texts(out@) == Seq::<Seq<char>>::empty());
    assert(names.take(0).len() == 0);
    while i < all.len()
        invariant
            i <= all.len(),
            names == texts(all@),
            texts(out@) == steps(names.take(i as int)),
        decreases all.len() - i,
    {
        assert(names.take(i + 1).drop_last() == names.take(i as int));
        assert(names.take(i + 1).last() == all@[i as int]@);
        if !(all[i].as_str().is_empty() || same(all[i].as_str(), ".")) {
            let ghost before = texts(out@);
            out.push(all[i].clone());
            assert(texts(out@) == before.push(all@[i as int]@));
        }
        i = i + 1;
    }
    assert(names.take(all.len() as int) == names);
    out
}

fn is_absolute(p: &str) -> (r: bool)
    ensures
        r == absolute(p@),
{
    let c = to_chars(p);
    c.len() > 0 && c[0] == '/'
}

fn same_texts(a: &Vec<String>, b: &Vec<String>) -> (r: bool)
    ensures
        r == (texts(a@) == texts(b@)),
{
    if a.len() != b.len() {
        assert(texts(a@).len() != texts(b@).len());
        return false;
    }
    let mut i: usize = 0;
    while i < a.len()
        invariant
            i <= a.len(),
            a.len() == b.len(),
            forall|k: int| 0 <= k < i ==> a@[k]@ == b@[k]@,
        decreases a.len() - i,
    {
        if !same(a[i].as_str(), b[i].as_str()) {
            assert(texts(a@)[i as int] != texts(b@)[i as int]);
            return false;
        }
        i = i + 1;
    }
    assert(texts(a@) == texts(b@));
    true
}

// --- choosing a chip ------------------------------------------------------

/// Chip labels that carry the 40-pin header, most recent first.
///
/// Selection is by label and never by index: the Pi 5 moved the header to the
/// RP1 pin controller, and `gpiochipN` numbering has shifted between kernel
/// releases on both boards. A config that says `gpiochip0` is a config that
/// breaks on an update.
pub open spec fn header_labels() -> Seq<Seq<char>> {
    seq!["pinctrl-rp1"@, "pinctrl-bcm2835"@, "pinctrl-bcm2711"@]
}

/// The first candidate at a path, from a place on.
pub open spec fn at_path(c: Seq<ChipView>, want: Seq<char>, from: int) -> Option<ChipView>
    decreases c.len() - from,
{
    if from < 0 || from >= c.len() {
        None
    } else if same_place(want, c[from].path) {
        Some(c[from])
    } else {
        at_path(c, want, from + 1)
    }
}

/// The first candidate with a label, from a place on.
pub open spec fn labelled(c: Seq<ChipView>, want: Seq<char>, from: int) -> Option<ChipView>
    decreases c.len() - from,
{
    if from < 0 || from >= c.len() {
        None
    } else if c[from].label == want {
        Some(c[from])
    } else {
        labelled(c, want, from + 1)
    }
}

/// The first candidate that has a line, from a place on.
pub open spec fn with_line(c: Seq<ChipView>, line: u32, from: int) -> Option<ChipView>
    decreases c.len() - from,
{
    if from < 0 || from >= c.len() {
        None
    } else if c[from].num_lines > line {
        Some(c[from])
    } else {
        with_line(c, line, from + 1)
    }
}

/// The candidate that carries the header; on a board we have not heard of,
/// the first one with enough lines.
pub open spec fn automatic(c: Seq<ChipView>, line: u32) -> Option<ChipView> {
    let h = header_labels();
    match labelled(c, h[0], 0) {
        Some(x) => Some(x),
        None => match labelled(c, h[1], 0) {
            Some(x) => Some(x),
            None => match labelled(c, h[2], 0) {
                Some(x) => Some(x),
                None => with_line(c, line, 0),
            },
        },
    }
}

/// One candidate in an error message.
pub open spec fn chip_text(c: ChipView) -> Seq<char> {
    c.path + " ("@ + c.label + ", "@ + decimal(c.num_lines as nat) + " lines)"@
}

/// The candidates in an error message.
pub open spec fn found_text(c: Seq<ChipView>) -> Seq<char>
    decreases c.len(),
{
    if c.len() == 0 {
        Seq::empty()
    } else if c.len() == 1 {
        chip_text(c[0])
    } else {
        found_text(c.drop_last()) + ", "@ + chip_text(c.last())
    }
}

/// What is said when the kernel offers no chip at all.
pub open spec fn no_chips_text() -> Seq<char> {
    "no GPIO chips found. On a Pi this means the kernel has no pin controller bound, which is not a configuration lpframe can fix; set power.amp.enabled = false to run without an amplifier trigger"@
}

/// A choice as values: the chip's path, or what is wrong.
pub enum Choice {
    Chip(Seq<char>),
    Problem(Seq<char>),
}

/// The chip to drive: at a path, with a label, or found automatically; and it
/// has to have the line.
pub open spec fn choice(c: Seq<ChipView>, want: Seq<char>, line: u32) -> Choice {
    if c.len() == 0 {
        Choice::Problem(no_chips_text())
    } else {
        let (chosen, missing) = if absolute(want) {
            (at_path(c, want, 0), "no GPIO chip at "@ + want + ". Found: "@ + found_text(c))
        } else if want != "auto"@ {
            (
                labelled(c, want, 0),
                "no GPIO chip labelled "@ + debug_quoted(want) + ". Found: "@ + found_text(c),
            )
        } else {
            (
                automatic(c, line),
                "no GPIO chip exposes line "@ + decimal(line as nat) + ". Found: "@ + found_text(c),
            )
        };
        match chosen {
            None => Choice::Problem(missing),
            Some(x) => if x.num_lines <= line {
                Choice::Problem(
                    x.path + " ("@ + x.label + ") has "@ + decimal(x.num_lines as nat)
                        + " lines, so line "@ + decimal(line as nat) + " does not exist"@,
                )
            } else {
                Choice::Chip(x.path)
            },
        }
    }
}

fn find_path(c: &[ChipCandidate], want: &str) -> (r: Option<usize>)
    requires
        absolute(want@),
    ensures
        match r {
            Some(i) => i < c@.len() && at_path(chips(c@), want@, 0) == Some(c@[i as int]@),
            None => at_path(chips(c@), want@, 0) is None,
        },
{
    let wanted = path_steps(want);
    let mut i: usize = 0;
    while i < c.len()
        invariant
            i <= c.len(),
            absolute(want@),
            texts(wanted@) == steps(pieces(want@, '/')),
            at_path(chips(c@), want@, 0) == at_path(chips(c@), want@, i as int),
        decreases c.len() - i,
    {
        assert(chips(c@)[i as int] == c@[i as int]@);
        if is_absolute(c[i].path.as_str()) && same_texts(
            &wanted,
            &path_steps(c[i].path.as_str()),
        ) {
            return Some(i);
        }
        i = i + 1;
    }
    None
}

fn find_label(c: &[ChipCandidate], want: &str) -> (r: Option<usize>)
    ensures
        match r {
            Some(i) => i < c@.len() && labelled(chips(c@), want@, 0) == Some(c@[i as int]@),
            None => labelled(chips(c@), want@, 0) is None,
        },
{
    let mut i: usize = 0;
    while i < c.len()
        invariant
            i <= c.len(),
            labelled(chips(c@), want@, 0) == labelled(chips(c@), want@, i as int),
        decreases c.len() - i,
    {
        assert(chips(c@)[i as int] == c@[i as int]@);
        if same(c[i].label.as_str(), want) {
            return Some(i);
        }
        i = i + 1;
    }
    None
}

fn find_line(c: &[ChipCandidate], line: u32) -> (r: Option<usize>)
    ensures
        match r {
            Some(i) => i < c@.len() && with_line(chips(c@), line, 0) == Some(c@[i as int]@),
            None => with_line(chips(c@), line, 0) is None,
        },
{
    let mut i: usize = 0;
    while i < c.len()
        invariant
            i <= c.len(),
            with_line(chips(c@), line, 0) == with_line(chips(c@), line, i as int),
        decreases c.len() - i,
    {
        assert(chips(c@)[i as int] == c@[i as int]@);
        if c[i].num_lines > line {
            return Some(i);
        }
        i = i + 1;
    }
    None
}

fn find_automatic(c: &[ChipCandidate], line: u32) -> (r: Option<usize>)
    ensures
        match r {
            Some(i) => i < c@.len() && automatic(chips(c@), line) == Some(c@[i as int]@),
            None => automatic(chips(c@), line) is None,
        },
{
    if let Some(i) = find_label(c, "pinctrl-rp1") {
        return Some(i);
    }
    if let Some(i) = find_label(c, "pinctrl-bcm2835") {
        return Some(i);
    }
    if let Some(i) = find_label(c, "pinctrl-bcm2711") {
        return Some(i);
    }
    find_line(c, line)
}

fn chip_to_text(c: &ChipCandidate) -> (r: String)
    ensures
        r@ == chip_text(c@),
{
    let mut out = concat(c.path.as_str(), " (");
    out.append(c.label.as_str());
    out.append(", ");
    out.append(to_decimal(c.num_lines as u64).as_str());
    out.append(" lines)");
    out
}

fn found_to_text(c: &[ChipCandidate]) -> (r: String)
    ensures
        r@ == found_text(chips(c@)),
{
    let mut out = String::new();
    let mut i: usize = 0;
    let ghost all = chips(c@);
    assert(all.take(0).len() == 0);
    assert(out@ == Seq::<char>::empty());
    while i < c.len()
        invariant
            i <= c.len(),
            all == chips(c@),
            out@ == found_text(all.take(i as int)),
        decreases c.len() - i,
    {
        assert(all.take(i + 1).drop_last() == all.take(i as int));
        assert(all.take(i + 1).last() == c@[i as int]@);
        if i > 0 {
            out.append(", ");
        }
        let ghost before = out@;
        out.append(chip_to_text(&c[i]).as_str());
        assert(before.len() == 0 ==> out@ == chip_text(c@[i as int]@));
        i = i + 1;
    }
    assert(all.take(c.len() as int) == all);
    out
}

/// Choose which chip to drive.
///
/// `want` is either `"auto"`, a chip label, or a device path.
pub fn choose_chip(candidates: &[ChipCandidate], want: &str, line: u32) -> (r: Result<
    String,
    String,
>)
    ensures
        choice(chips(candidates@), want@, line) == (match r {
            Ok(path) => Choice::Chip(path@),
            Err(e) => Choice::Problem(e@),
        }),
{
    if candidates.len() == 0 {
        return Err(
            "no GPIO chips found. On a Pi this means the kernel has no pin controller bound, which is not a configuration lpframe can fix; set power.amp.enabled = false to run without an amplifier trigger".to_owned(),
        );
    }
    let mut missing: String;
    let chosen: Option<usize>;
    if is_absolute(want) {
        chosen = find_path(candidates, want);
        missing = concat("no GPIO chip at ", want);
    } else if !same(want, "auto") {
        chosen = find_label(candidates, want);
        missing = concat("no GPIO chip labelled ", quote(want).as_str());
    } else {
        chosen = find_automatic(candidates, line);
        missing = concat("no GPIO chip exposes line ", to_decimal(line as u64).as_str());
    }
    match chosen {
        None => {
            missing.append(". Found: ");
            missing.append(found_to_text(candidates).as_str());
            Err(missing)
        },
        Some(i) => {
            let x = &candidates[i];
            if x.num_lines <= line {
                let mut e = concat(x.path.as_str(), " (");
                e.append(x.label.as_str());
                e.append(") has ");
                e.append(to_decimal(x.num_lines as u64).as_str());
                e.append(" lines, so line ");
                e.append(to_decimal(line as u64).as_str());
                e.append(" does not exist");
                Err(e)
            } else {
                Ok(x.path.clone())
            }
        },
    }
}

/// A request for a line. It is always taken inactive: taking the line must
/// never be the thing that switches an amplifier on.
#[derive(Debug)]
pub struct LineRequest {
    pub chip: String,
    pub line: u32,
    pub active_low: bool,
}

impl LineRequest {
    /// The line that a configuration asks for.
    pub fn for_amp(cfg: &Amp, candidates: &[ChipCandidate]) -> (r: Result<LineRequest, String>)
        ensures
            choice(chips(candidates@), cfg.gpio_chip@, cfg.gpio_line) == (match r {
                Ok(x) => Choice::Chip(x.chip@),
                Err(e) => Choice::Problem(e@),
            }),
            r matches Ok(x) ==> x.line == cfg.gpio_line && x.active_low == cfg.active_low,
    {
        match choose_chip(candidates, cfg.gpio_chip.as_str(), cfg.gpio_line) {
            Ok(chip) => Ok(
                LineRequest { chip, line: cfg.gpio_line, active_low: cfg.active_low },
            ),
            Err(e) => Err(e),
        }
    }

    /// Which line it is, in words.
    pub fn describe(&self) -> (r: String)
        ensures
            r@ == self.chip@ + " line "@ + decimal(self.line as nat),
    {
        let mut out = concat(self.chip.as_str(), " line ");
        out.append(to_decimal(self.line as u64).as_str());
        out
    }

    /// What is said when the kernel does not grant it.
    pub fn refused(&self) -> (r: String)
        ensures
            r@ == "requesting line "@ + decimal(self.line as nat) + " on "@ + self.chip@
                + ". Another process may hold it — check `gpioinfo` — or lpframe may lack access to the gpio group"@,
    {
        let mut out = concat("requesting line ", to_decimal(self.line as u64).as_str());
        out.append(" on ");
        out.append(self.chip.as_str());
        out.append(
            ". Another process may hold it — check `gpioinfo` — or lpframe may lack access to the gpio group",
        );
        out
    }
}

// --- driving the line -----------------------------------------------------

/// What the worker should do with the line for a given desired state.
///
/// A level-hold amplifier and a toggle-style one need genuinely different pin
/// behaviour, and getting it backwards means an amp that is on when the music
/// stops.
#[derive(Debug, Clone, Copy, PartialEq, Eq, Structural)]
pub enum Action {
    /// Hold the line at this level until told otherwise.
    Hold(bool),
    /// Emit a momentary pulse; the line returns to inactive afterwards.
    Pulse(Dur),
}

/// What to do with the line for a desired state.
///
/// A toggle-style trigger has no notion of "on": both directions are the same
/// momentary contact closure, and the amplifier keeps its own state. Sending
/// a level there would latch it permanently.
pub open spec fn action(pulse: Dur, on: bool) -> Action {
    if pulse.ms() == 0 {
        Action::Hold(on)
    } else {
        Action::Pulse(Dur(pulse.ms() as u128))
    }
}

/// What to do with the line for a desired state.
pub fn action_for(cfg: &Amp, on: bool) -> (r: Action)
    ensures
        r == action(cfg.pulse, on),
{
    let ms: u64 = cfg.pulse.as_millis();
    if ms == 0 {
        Action::Hold(on)
    } else {
        Action::Pulse(Dur::from_millis(ms))
    }
}

/// The line as the worker knows it. Moments are nanoseconds of a clock that
/// never goes back.
#[derive(Debug)]
pub struct Worker {
    /// How long a state lasts at least.
    debounce_ms: u64,
    pulse: Dur,
    current: bool,
    last_change: Option<u64>,
}

/// A [`Worker`] as values.
pub struct WorkerView {
    pub debounce: nat,
    pub pulse: Dur,
    pub current: bool,
    pub last_change: Option<u64>,
}

/// What to do about a wish: sleep for some nanoseconds, then act.
#[derive(Debug, Clone, Copy, PartialEq, Eq, Structural)]
pub struct Order {
    pub wait: u128,
    pub action: Action,
}

impl View for Worker {
    type V = WorkerView;

    closed spec fn view(&self) -> WorkerView {
        WorkerView {
            debounce: (self.debounce_ms * 1_000_000) as nat,
            pulse: self.pulse,
            current: self.current,
            last_change: self.last_change,
        }
    }
}

impl WorkerView {
    /// How long the previous state still has to be held.
    pub open spec fn hold(self, now: u64) -> int {
        match self.last_change {
            Some(last) => {
                let elapsed = if now >= last {
                    now - last
                } else {
                    0
                };
                if elapsed < self.debounce {
                    self.debounce - elapsed
                } else {
                    0
                }
            },
            None => 0,
        }
    }

    /// What a wish comes to: nothing, if that is how things are; or else the
    /// action, once the previous state has been held long enough.
    pub open spec fn order(self, on: bool, now: u64) -> Option<(int, Action)> {
        if on == self.current {
            None
        } else {
            Some((self.hold(now), action(self.pulse, on)))
        }
    }

    /// The line after an action.
    pub open spec fn changed(self, on: bool, now: u64) -> WorkerView {
        WorkerView { current: on, last_change: Some(now), ..self }
    }
}

impl Worker {
    /// A line that was just taken, inactive.
    pub fn new(cfg: &Amp) -> (r: Worker)
        ensures
            r@ == (WorkerView {
                debounce: (cfg.debounce.ms() * 1_000_000) as nat,
                pulse: cfg.pulse,
                current: false,
                last_change: None,
            }),
    {
        Worker {
            debounce_ms: cfg.debounce.as_millis(),
            pulse: cfg.pulse,
            current: false,
            last_change: None,
        }
    }

    /// Someone wants the amplifier on or off.
    ///
    /// For a level-hold trigger a repeat is a no-op. For a pulse trigger it
    /// would emit a spurious contact closure and toggle the amplifier to the
    /// wrong state, so it is suppressed there too. The previous state is held
    /// for at least the configured interval, so a rapid sequence cannot
    /// chatter a relay.
    pub fn request(&self, on: bool, now: u64) -> (r: Option<Order>)
        ensures
            match r {
                Some(o) => self@.order(on, now) == Some((o.wait as int, o.action)),
                None => self@.order(on, now) is None,
            },
    {
        if on == self.current {
            return None;
        }
        let debounce: u128 = self.debounce_ms as u128 * 1_000_000;
        let wait: u128 = match self.last_change {
            Some(last) => {
                let elapsed: u128 = if now >= last {
                    (now - last) as u128
                } else {
                    0
                };
                if elapsed < debounce {
                    debounce - elapsed
                } else {
                    0
                }
            },
            None => 0,
        };
        let ms: u64 = self.pulse.as_millis();
        let action = if ms == 0 {
            Action::Hold(on)
        } else {
            Action::Pulse(Dur::from_millis(ms))
        };
        Some(Order { wait, action })
    }

    /// The action was performed.
    pub fn done(&mut self, on: bool, now: u64)
        ensures
            final(self)@ == old(self)@.changed(on, now),
    {
        self.current = on;
        self.last_change = Some(now);
    }

    /// What is done last, whatever brought the worker to its end: the
    /// amplifier is left off.
    pub fn release(&self) -> (r: Action)
        ensures
            r == Action::Hold(false),
    {
        Action::Hold(false)
    }
}

// --- laws -----------------------------------------------------------------

/// A relay never chatters: from one change to the next at least the
/// configured interval passes, and asking again for what is already there
/// does nothing.
pub proof fn relays_do_not_chatter(w: WorkerView, on: bool, done_at: u64, asked_at: u64, next: bool)
    requires
        done_at <= asked_at,
    ensures
        next == on ==> w.changed(on, done_at).order(next, asked_at) is None,
        match w.changed(on, done_at).order(next, asked_at) {
            Some(o) => next != on && asked_at + o.0 >= done_at + w.debounce,
            None => next == on,
        },
{
}

/// A chosen chip is one of the candidates, and it has the line.
pub proof fn a_chosen_chip_has_the_line(c: Seq<ChipView>, want: Seq<char>, line: u32)
    ensures
        choice(c, want, line) matches Choice::Chip(path) ==> exists|i: int|
            0 <= i < c.len() && #[trigger] c[i].path == path && c[i].num_lines > line,
{
    paths_are_found(c, want, 0);
    labels_are_found(c, want, 0);
    labels_are_found(c, header_labels()[0], 0);
    labels_are_found(c, header_labels()[1], 0);
    labels_are_found(c, header_labels()[2], 0);
    lines_are_found(c, line, 0);
}

proof fn paths_are_found(c: Seq<ChipView>, want: Seq<char>, from: int)
    ensures
        at_path(c, want, from) matches Some(x) ==> exists|i: int|
            0 <= i < c.len() && #[trigger] c[i] == x,
    decreases c.len() - from,
{
    if 0 <= from < c.len() {
        paths_are_found(c, want, from + 1);
    }
}

proof fn labels_are_found(c: Seq<ChipView>, want: Seq<char>, from: int)
    ensures
        labelled(c, want, from) matches Some(x) ==> exists|i: int|
            0 <= i < c.len() && #[trigger] c[i] == x,
    decreases c.len() - from,
{
    if 0 <= from < c.len() {
        labels_are_found(c, want, from + 1);
    }
}

proof fn lines_are_found(c: Seq<ChipView>, line: u32, from: int)
    ensures
        with_line(c, line, from) matches Some(x) ==> exists|i: int|
            0 <= i < c.len() && #[trigger] c[i] == x,
    decreases c.len() - from,
{
    if 0 <= from < c.len() {
        lines_are_found(c, line, from + 1);
    }
}

/// A wish is carried out as soon as the previous state has lasted long enough,
/// and no later. A line that holds is set to what is wished; one that is pulsed
/// gets the same pulse either way.
pub proof fn wishes_are_carried_out(w: WorkerView, done_at: u64, asked_at: u64)
    requires
        done_at <= asked_at,
    ensures
        w.changed(true, done_at).order(false, asked_at) matches Some(o) && asked_at + o.0 == (
        if asked_at < done_at + w.debounce {
            done_at + w.debounce
        } else {
            asked_at as int
        }) && o.1 == (if w.pulse.ms() == 0 {
            Action::Hold(false)
        } else {
            Action::Pulse(Dur(w.pulse.ms() as u128))
        }),
        w.changed(false, done_at).order(true, asked_at) matches Some(o) && o.1 == (if w.pulse.ms()
            == 0 {
            Action::Hold(true)
        } else {
            Action::Pulse(Dur(w.pulse.ms() as u128))
        }),
{
}

} // verus!
