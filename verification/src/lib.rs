//! A verified core for a personal bookmark manager: records of the form
//! `alias;kind;value` kept one per line in a flat text file, with operations
//! to encode and decode single records, load the whole file, append a record,
//! remove every record with a given alias, and match aliases ignoring ASCII
//! letter case.

pub mod codec;
pub mod lookup;
pub mod store;
