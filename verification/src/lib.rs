//! Record real HTTP traffic once, replay it for tests.
//!
//! A [`record::Session`] takes one client through one real exchange: it reads
//! the request, forwards it, returns the response, and has the exchange
//! recorded. [`replay::handle_one`] answers a request from a recording alone.
//! Both read and write messages through [`httpmsg`].
pub mod arrival;
pub mod characters;
pub mod framing;
pub mod httpmsg;
pub mod passing_on;
pub mod proxying;
pub mod reader;
pub mod reading;
pub mod record;
pub mod recording;
pub mod replay;
pub mod round_trip;
pub mod search;
pub mod text;
pub mod utf8_text;
pub mod writing;
