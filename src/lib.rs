//! A small document server's logic: reading HTTP requests from raw bytes and
//! writing responses, resolving request paths against a content root and a
//! static root, rebuilding directory trees from depth-first walks, listing
//! directories, and deciding what each request gets. The filesystem, the
//! sockets and the templates are the caller's: each step here takes what they
//! gave as plain values.
use vstd::prelude::*;

pub mod wire;
pub mod request;
pub mod response;
pub mod config;
pub mod uri;
pub mod walk;
pub mod directory;
pub mod handlers;

verus! {

} // verus!
