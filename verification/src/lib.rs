//! Faint Light: the logic of a blind astrometric plate solver and its
//! server — FITS reading and writing, astrometry.net index structures, and
//! the request handling, job bookkeeping and log buffering of the server.

pub mod extract;
pub mod fits;
pub mod index;
pub mod server;
pub mod sky;
pub mod solve;
pub mod text;
