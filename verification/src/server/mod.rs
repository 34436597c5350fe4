//! The server's own logic: request parsing, job bookkeeping, download
//! names, the log buffer behind the GUI's Logs tab, and the web UI's page
//! and asset table.

use vstd::prelude::*;

pub mod autostart;
pub mod form;
pub mod hash;
pub mod logs;
pub mod nova;
pub mod solve;
pub mod store;
pub mod web;

verus! {

/// The release this is.
pub open spec fn release() -> Seq<char> {
    "0.1.1a"@
}

/// The released version, as every user-visible surface prints it.
pub fn version() -> (r: &'static str)
    ensures
        r@ == release(),
{
    "0.1.1a"
}

} // verus!
