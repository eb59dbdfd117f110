//! Parser for the text report that a host's DNS-configuration dump emits:
//! section headers, `resolver #N` blocks, and per-field lines are scanned
//! into two ordered lists of resolver records (global and scoped).

pub mod text;
pub mod dns;
pub mod laws;
