//! The shared publication point.
//!
//! One publisher, two consumers: the Unix socket and the web interface's
//! event stream both carry the same snapshot with the same `seq`.

use vstd::prelude::*;

use crate::machine::{no_counts, Counters};
use crate::proto::{boot_state, ServerMessage, State, StateView, ENVELOPE_VERSION};

verus! {

broadcast use vstd::seq::group_seq_axioms;

/// A note worth showing on the diagnostics page.
#[derive(Debug)]
pub struct Note {
    pub ts: String,
    pub input: String,
    pub text: String,
}

/// A [`Note`] as values.
pub struct NoteView {
    pub ts: Seq<char>,
    pub input: Seq<char>,
    pub text: Seq<char>,
}

impl View for Note {
    type V = NoteView;

    open spec fn view(&self) -> NoteView {
        NoteView { ts: self.ts@, input: self.input@, text: self.text@ }
    }
}

impl Clone for Note {
    fn clone(&self) -> (r: Note)
        ensures
            r@ == self@,
    {
        Note { ts: self.ts.clone(), input: self.input.clone(), text: self.text.clone() }
    }
}

/// Notes as values.
pub open spec fn notes_view(n: Seq<Note>) -> Seq<NoteView> {
    n.map_values(|x: Note| x@)
}

/// What the daemon publishes.
#[derive(Debug)]
pub struct Hub {
    seq: u64,
    state: State,
    /// Most recent first.
    notes: Vec<Note>,
    note_capacity: usize,
    counters: Counters,
}

/// A [`Hub`] as values.
pub struct HubView {
    pub seq: u64,
    pub state: StateView,
    pub notes: Seq<NoteView>,
    pub capacity: nat,
    pub counters: Counters,
}

impl View for Hub {
    type V = HubView;

    closed spec fn view(&self) -> HubView {
        HubView {
            seq: self.seq,
            state: self.state@,
            notes: notes_view(self.notes@),
            capacity: self.note_capacity as nat,
            counters: self.counters,
        }
    }
}

/// A message that carries a snapshot.
pub open spec fn is_snapshot(m: ServerMessage, seq: u64, ts: Seq<char>, state: StateView) -> bool {
    m matches ServerMessage::State { v, seq: s, ts: t, state: x } && v == ENVELOPE_VERSION && s
        == seq && t@ == ts && x@ == state
}

impl HubView {
    /// What holds of every hub.
    pub open spec fn valid(self) -> bool {
        self.capacity >= 1 && self.notes.len() <= self.capacity
    }

    /// The hub after a note: the newest comes first, and what no longer fits
    /// is forgotten.
    pub open spec fn noted(self, note: NoteView) -> HubView {
        let all = seq![note] + self.notes;
        HubView {
            notes: if all.len() > self.capacity {
                all.take(self.capacity as int)
            } else {
                all
            },
            ..self
        }
    }

    /// The hub after a snapshot was published.
    pub open spec fn published(self, state: StateView) -> HubView {
        HubView { seq: (self.seq + 1) as u64, state, ..self }
    }
}

impl Hub {
    /// A hub that has published nothing. At least one note is kept.
    pub fn new(note_capacity: usize) -> (r: Hub)
        ensures
            r@.valid(),
            r@ == (HubView {
                seq: 0,
                state: boot_state(),
                notes: Seq::empty(),
                capacity: if note_capacity >= 1 {
                    note_capacity as nat
                } else {
                    1
                },
                counters: no_counts(),
            }),
    {
        let r = Hub {
            seq: 0,
            state: State::default(),
            notes: Vec::new(),
            note_capacity: if note_capacity >= 1 {
                note_capacity
            } else {
                1
            },
            counters: Counters::default(),
        };
        assert(r@.notes == Seq::<NoteView>::empty());
        r
    }

    /// The latest snapshot and its number.
    pub fn snapshot(&self) -> (r: (u64, State))
        ensures
            r.0 == self@.seq,
            r.1@ == self@.state,
    {
        (self.seq, self.state.clone())
    }

    /// The current state as a message, for a client that has just connected.
    pub fn current_message(&self, ts: String) -> (r: ServerMessage)
        ensures
            is_snapshot(r, self@.seq, ts@, self@.state),
    {
        ServerMessage::state(self.seq, ts, self.state.clone())
    }

    /// The notes, newest first.
    pub fn notes(&self) -> (r: Vec<Note>)
        ensures
            notes_view(r@) == self@.notes,
    {
        let mut out: Vec<Note> = Vec::new();
        let mut i: usize = 0;
        while i < self.notes.len()
            invariant
                i <= self.notes@.len(),
                out@.len() == i,
                forall|k: int| 0 <= k < i ==> (#[trigger] out@[k])@ == self.notes@[k]@,
            decreases self.notes.len() - i,
        {
            out.push(self.notes[i].clone());
            i = i + 1;
        }
        assert(notes_view(out@) == notes_view(self.notes@));
        out
    }

    pub fn counters(&self) -> (r: Counters)
        ensures
            r == self@.counters,
    {
        self.counters
    }

    pub fn set_counters(&mut self, c: Counters)
        ensures
            final(self)@ == (HubView { counters: c, ..old(self)@ }),
    {
        self.counters = c;
    }

    /// Keep a note.
    pub fn push_note(&mut self, ts: String, input: &str, text: String)
        requires
            old(self)@.valid(),
        ensures
            final(self)@.valid(),
            final(self)@ == old(self)@.noted(
                NoteView { ts: ts@, input: input@, text: text@ },
            ),
    {
        let ghost before = self@;
        let note = Note { ts, input: input.to_owned(), text };
        let ghost all = seq![note@] + before.notes;
        if self.notes.len() >= self.note_capacity {
            // There is one at least, since the capacity is not zero.
            let _ = self.notes.pop();
            assert(notes_view(self.notes@) == before.notes.drop_last());
        }
        self.notes.insert(0, note);
        assert(self@.notes == (if all.len() > before.capacity {
            all.take(before.capacity as int)
        } else {
            all
        }));
    }

    /// Whether another snapshot can be numbered.
    pub fn can_publish(&self) -> (r: bool)
        ensures
            r == (self@.seq < u64::MAX),
    {
        self.seq < u64::MAX
    }

    /// Publish a new snapshot. Returns the assigned sequence number, and the
    /// message for whoever is listening.
    pub fn publish(&mut self, ts: String, state: State) -> (r: (u64, ServerMessage))
        requires
            old(self)@.seq < u64::MAX,
        ensures
            final(self)@ == old(self)@.published(state@),
            r.0 == old(self)@.seq + 1,
            is_snapshot(r.1, r.0, ts@, state@),
    {
        self.seq = self.seq + 1;
        self.state = state.clone();
        (self.seq, ServerMessage::state(self.seq, ts, state))
    }
}

// --- laws -----------------------------------------------------------------

/// Sequence numbers only ever increase, and a snapshot is what was published
/// last.
pub proof fn snapshots_are_current(h: HubView, state: StateView, note: NoteView)
    requires
        h.seq < u64::MAX,
    ensures
        h.published(state).seq == h.seq + 1,
        h.published(state).state == state,
        h.noted(note).seq == h.seq,
        h.noted(note).state == h.state,
{
}

/// Notes are capped, newest first: the note that was just pushed leads, and
/// the ones before it follow in their order as far as there is room.
pub proof fn notes_are_newest_first(h: HubView, note: NoteView, i: int)
    requires
        h.valid(),
        0 <= i < h.notes.len(),
        i + 1 < h.capacity,
    ensures
        h.noted(note).valid(),
        h.noted(note).notes[0] == note,
        h.noted(note).notes[i + 1] == h.notes[i],
{
}

} // verus!
