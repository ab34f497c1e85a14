//! The rule for pages that nobody has to log in to: they stay on the device.

use vstd::prelude::*;

use crate::config::SocketAddress;
use crate::strings::{concat, debug_quoted, decimal, quote, to_decimal};

verus! {

/// What is said of a bind that is no address.
pub open spec fn unreadable(bind: Seq<char>) -> Seq<char> {
    "web.bind "@ + debug_quoted(bind) + " is not a valid address:port"@
}

/// What is said of a bind that would reach beyond the device.
pub open spec fn exposed(address: Seq<char>, port: nat) -> Seq<char> {
    "web.bind is "@ + address
        + ", but authentication is not implemented yet (arrives with milestone 7). Refusing to expose an unauthenticated page beyond loopback — set web.bind = \"127.0.0.1:"@
        + decimal(port) + "\" and use an SSH tunnel, or set web.enabled = false."@
}

/// Decide whether an address may be bound: only on the loopback interface,
/// unless there is authentication.
///
/// `parsed` is what `bind` reads as, if it is an address and a port.
pub fn check_bind(
    bind: &str,
    parsed: Option<SocketAddress>,
    auth_implemented: bool,
) -> (r: Result<SocketAddress, String>)
    ensures
        match parsed {
            None => r matches Err(e) && e@ == unreadable(bind@),
            Some(a) => if !auth_implemented && !a.loopback {
                r matches Err(e) && e@ == exposed(a.text@, a.port as nat)
            } else {
                r == Ok::<SocketAddress, String>(a)
            },
        },
{
    match parsed {
        None => {
            let mut e = concat("web.bind ", quote(bind).as_str());
            e.append(" is not a valid address:port");
            Err(e)
        },
        Some(a) => {
            if !auth_implemented && !a.loopback {
                let mut e = concat("web.bind is ", a.text.as_str());
                e.append(
                    ", but authentication is not implemented yet (arrives with milestone 7). Refusing to expose an unauthenticated page beyond loopback — set web.bind = \"127.0.0.1:",
                );
                e.append(to_decimal(a.port as u64).as_str());
                e.append("\" and use an SSH tunnel, or set web.enabled = false.");
                return Err(e);
            }
            Ok(a)
        },
    }
}

} // verus!
