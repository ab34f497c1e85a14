//! The Unix socket: what a client is told, and what it may ask for.
//!
//! One message per line.

use vstd::prelude::*;

use crate::config::Config;
use crate::hub::{is_snapshot, Hub, HubView};
use crate::proto::{ClientMessage, DisplayPower, ServerMessage, ENVELOPE_VERSION};
use crate::strings::{concat, trim, trimmed};

verus! {

/// Requests from clients that the core has to act on.
///
/// Also the channel the web interface uses: a settings change that can be
/// applied without a restart arrives here as [`Command::Reload`], so there is
/// one place where the running configuration is replaced rather than two.
#[derive(Debug)]
pub enum Command {
    SetDisplay(DisplayPower),
    SetAmp(bool),
    InjectArtwork(String),
    Reload(Box<Config>),
}

/// What stands at a path that is about to be used.
#[derive(Debug, Clone, Copy, PartialEq, Eq, Structural)]
pub enum Existing {
    Nothing,
    /// Something of the right kind.
    Ours,
    /// Something else.
    Other,
}

/// Whether a file has to be removed before the socket can be bound.
///
/// A stale socket from an unclean exit would make binding fail; removing it is
/// safe because two daemons are not a supported setup.
pub fn clear_the_way(path: &str, existing: Existing) -> (r: Result<bool, String>)
    ensures
        match existing {
            Existing::Nothing => r == Ok::<bool, String>(false),
            Existing::Ours => r == Ok::<bool, String>(true),
            Existing::Other => r matches Err(e) && e@ == path@ + " exists and is not a socket"@,
        },
{
    match existing {
        Existing::Nothing => Ok(false),
        Existing::Ours => Ok(true),
        Existing::Other => Err(concat(path, " exists and is not a socket")),
    }
}

/// Something happened on a connection.
#[derive(Debug)]
pub enum Event {
    /// The client closed its end.
    Closed,
    /// A line that could not be understood.
    Unparseable,
    /// A line that could.
    Message(ClientMessage),
    /// A snapshot was published.
    Published(ServerMessage),
    /// Snapshots were published faster than this client took them.
    Lagged,
    /// There will be no more snapshots.
    Ended,
}

/// What is done about it.
#[derive(Debug)]
pub enum Reply {
    /// Nothing.
    Ignore,
    /// Write a message to the client.
    Write(ServerMessage),
    /// Hand a request to the core.
    Ask(Command),
    /// Close the connection.
    Close,
}

/// Whether a line holds nothing but white space, and is passed over.
pub fn is_blank(line: &str) -> (r: bool)
    ensures
        r == (trimmed(line@).len() == 0),
{
    trim(line).as_str().is_empty()
}

/// What a new client is told: who we are, then the full state.
pub fn greeting(hub: &Hub, ts: String) -> (r: (ServerMessage, ServerMessage))
    ensures
        r.0.is_hello(),
        is_snapshot(r.1, hub@.seq, ts@, hub@.state),
{
    (ServerMessage::hello(), hub.current_message(ts))
}

/// What is done about a client's message.
///
/// Forward compatibility: an unrecognised message is ignored, never fatal, so
/// a newer client can talk to an older daemon. Injecting artwork needs a
/// daemon that was started for debugging.
pub open spec fn answers(
    msg: ClientMessage,
    hub: HubView,
    ts: Seq<char>,
    debug: bool,
    r: Reply,
) -> bool {
    match msg {
        ClientMessage::Ping => r == Reply::Write(ServerMessage::Pong { v: ENVELOPE_VERSION }),
        ClientMessage::GetState => r matches Reply::Write(m) && is_snapshot(
            m,
            hub.seq,
            ts,
            hub.state,
        ),
        ClientMessage::Hello { .. } => r == Reply::Ignore,
        ClientMessage::SetDisplay { value } => r == Reply::Ask(Command::SetDisplay(value)),
        ClientMessage::SetAmp { value } => r == Reply::Ask(Command::SetAmp(value)),
        ClientMessage::InjectArtwork { path } => r == (if debug {
            Reply::Ask(Command::InjectArtwork(path))
        } else {
            Reply::Ignore
        }),
        ClientMessage::Unknown => r == Reply::Ignore,
    }
}

/// Answer a client's message.
pub fn handle(msg: ClientMessage, hub: &Hub, ts: String, debug: bool) -> (r: Reply)
    ensures
        answers(msg, hub@, ts@, debug, r),
{
    match msg {
        ClientMessage::Ping => Reply::Write(ServerMessage::Pong { v: ENVELOPE_VERSION }),
        ClientMessage::GetState => Reply::Write(hub.current_message(ts)),
        ClientMessage::Hello { .. } => Reply::Ignore,
        ClientMessage::SetDisplay { value } => Reply::Ask(Command::SetDisplay(value)),
        ClientMessage::SetAmp { value } => Reply::Ask(Command::SetAmp(value)),
        ClientMessage::InjectArtwork { path } => if debug {
            Reply::Ask(Command::InjectArtwork(path))
        } else {
            Reply::Ignore
        },
        ClientMessage::Unknown => Reply::Ignore,
    }
}

/// One step of a connection.
///
/// Malformed input from a client is that client's problem; it takes down
/// neither the connection nor the daemon. Every message is a full snapshot, so
/// a lagging client recovers simply by receiving the current one.
pub fn serve(event: Event, hub: &Hub, ts: String, debug: bool) -> (r: Reply)
    ensures
        match event {
            Event::Closed | Event::Ended => r == Reply::Close,
            Event::Unparseable => r == Reply::Ignore,
            Event::Published(m) => r == Reply::Write(m),
            Event::Lagged => r matches Reply::Write(m) && is_snapshot(
                m,
                hub@.seq,
                ts@,
                hub@.state,
            ),
            Event::Message(msg) => answers(msg, hub@, ts@, debug, r),
        },
{
    match event {
        Event::Closed | Event::Ended => Reply::Close,
        Event::Unparseable => Reply::Ignore,
        Event::Published(m) => Reply::Write(m),
        Event::Lagged => Reply::Write(hub.current_message(ts)),
        Event::Message(msg) => handle(msg, hub, ts, debug),
    }
}

} // verus!
