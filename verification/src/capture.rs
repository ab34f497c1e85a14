//! Capture, packing and replay of metadata streams.

pub mod decode;
pub mod decode_laws;
pub mod fifo;
pub mod fixture;
pub mod items;
pub mod png;
pub mod reader;
pub mod search;
pub mod synth;
