//! The logic of an album-art frame: a device that listens to what an AirPlay
//! receiver says about the music, shows the cover of the album that plays, and
//! switches an amplifier.
//!
//! Everything here decides and computes. Reading pipes, sockets and files,
//! talking to catalogues, driving a GPIO line and drawing are left to the
//! programs around it; they perform what is decided here, and hand back what
//! came of it.
//!
//! - [`meta`] is what the receiver says, [`machine`] what the device makes of
//!   it, and [`session_laws`] and [`transport_laws`] what always holds of that.
//!   [`runtime`] carries a machine's effects out.
//! - [`proto`] is what is published, through [`hub`] and [`ipc`]; [`client`] is
//!   the other end.
//! - [`config`], [`value`], [`document`] and [`overrides`] are the settings,
//!   the files they come from, and changes to them.
//! - [`enrich`] looks for a better picture of the same cover; [`pixels`] tells
//!   whether two pictures are of the same thing.
//! - [`artwork`] keeps pictures, [`gpio`] drives the amplifier, [`pipe`] reads
//!   the stream, [`web`] is the interface for people.
//! - [`capture`] records, packs and synthesises streams.

pub mod artwork;
pub mod capture;
pub mod client;
pub mod config;
pub mod digest;
pub mod document;
pub mod double;
pub mod duration;
pub mod enrich;
pub mod gpio;
pub mod hub;
pub mod ipc;
pub mod machine;
pub mod meta;
pub mod overrides;
pub mod pipe;
pub mod pixels;
pub mod proto;
pub mod runtime;
pub mod session_laws;
pub mod transport_laws;
pub mod single;
pub mod strings;
pub mod value;
pub mod web;
