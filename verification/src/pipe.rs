//! Reading the metadata pipe.
//!
//! No spare write descriptor is held open to suppress the end of the stream.
//! That end is the single most reliable signal that the sender's process has
//! gone away, and trading it for a tidier read loop would leave the amp
//! powered and the screen lit after a crash. The reopen churn is taken
//! instead.

use vstd::prelude::*;

use crate::ipc::Existing;
use crate::machine::Input;
use crate::meta::MetaEvent;
use crate::strings::concat;

verus! {

/// How many bytes are read at once.
pub const BUF: usize = 65536;

/// How long to wait for something to read, in milliseconds.
pub const POLL_MS: u64 = 250;

/// How long to wait before a pipe without a writer is looked at again, in
/// milliseconds: a read from it ends immediately, so back off rather than
/// spinning.
pub const BACKOFF_MS: u64 = 100;

/// Whether the pipe has to be created.
///
/// The daemon is ordered before the sender's process precisely so the pipe
/// exists and is being read before any metadata can be written: metadata
/// written while no reader is attached is discarded, which would otherwise
/// lose the first bundle of every boot.
pub fn must_create(path: &str, existing: Existing) -> (r: Result<bool, String>)
    ensures
        match existing {
            Existing::Nothing => r == Ok::<bool, String>(true),
            Existing::Ours => r == Ok::<bool, String>(false),
            Existing::Other => r matches Err(e) && e@ == path@ + " exists and is not a FIFO"@,
        },
{
    match existing {
        Existing::Nothing => Ok(true),
        Existing::Ours => Ok(false),
        Existing::Other => Err(concat(path, " exists and is not a FIFO")),
    }
}

/// What came of waiting and reading.
#[derive(Debug, Clone, Copy, PartialEq, Eq, Structural)]
pub enum Event {
    /// Nothing to read. `listening` is whether anyone still wants inputs.
    Quiet { listening: bool },
    /// The end of the stream.
    End,
    /// Some bytes.
    Bytes,
    /// A reason to just try again.
    Again,
    /// A reason to give up.
    Failed,
}

/// What is done about it.
#[derive(Debug, Clone, Copy, PartialEq, Eq, Structural)]
pub enum Act {
    /// Wait again.
    Wait,
    /// Open the pipe again and back off. If `ended`, a writer has closed:
    /// that is reported as an input first, and a fresh decoder is used, so
    /// that a partial item from the old stream does not corrupt the first
    /// item of the new.
    Reopen { ended: bool },
    /// Decode the bytes. `attached` is whether a writer has just come.
    Decode { attached: bool },
    /// Stop reading.
    Stop,
    /// Stop reading, and report the failure.
    Fail,
}

/// The reader: whether a writer is there.
#[derive(Debug)]
pub struct Reader {
    pub attached: bool,
}

/// Whether a writer is there after an event.
pub open spec fn attached_after(attached: bool, event: Event) -> bool {
    match event {
        Event::End => false,
        Event::Bytes => true,
        _ => attached,
    }
}

/// What is done about an event.
pub open spec fn act_on(attached: bool, event: Event) -> Act {
    match event {
        Event::Quiet { listening } => if listening {
            Act::Wait
        } else {
            Act::Stop
        },
        Event::End => Act::Reopen { ended: attached },
        Event::Bytes => Act::Decode { attached: !attached },
        Event::Again => Act::Wait,
        Event::Failed => Act::Fail,
    }
}

impl Reader {
    /// A reader of a pipe that was just opened.
    pub fn new() -> (r: Reader)
        ensures
            !r.attached,
    {
        Reader { attached: false }
    }

    /// One step of the read loop.
    pub fn step(&mut self, event: Event) -> (r: Act)
        ensures
            final(self).attached == attached_after(old(self).attached, event),
            r == act_on(old(self).attached, event),
    {
        match event {
            Event::Quiet { listening } => if listening {
                Act::Wait
            } else {
                Act::Stop
            },
            Event::End => {
                let ended: bool = self.attached;
                self.attached = false;
                Act::Reopen { ended }
            },
            Event::Bytes => {
                let attached: bool = !self.attached;
                self.attached = true;
                Act::Decode { attached }
            },
            Event::Again => Act::Wait,
            Event::Failed => Act::Fail,
        }
    }
}

/// The input for something that was decoded, or that could not be.
pub fn decoded(event: Option<MetaEvent>) -> (r: Input)
    ensures
        r == match event {
            Some(e) => Input::Meta(e),
            None => Input::ParseError,
        },
{
    match event {
        Some(e) => Input::Meta(e),
        None => Input::ParseError,
    }
}

/// Every writer that came is seen to go exactly once: the end of the stream is
/// reported once, and not again until another writer has come.
pub proof fn ends_are_reported_once(attached: bool)
    ensures
        act_on(attached, Event::End) == (Act::Reopen { ended: attached }),
        act_on(attached_after(attached, Event::End), Event::End) == (Act::Reopen { ended: false }),
        act_on(attached_after(attached, Event::Bytes), Event::End) == (Act::Reopen { ended: true }),
{
}

} // verus!
