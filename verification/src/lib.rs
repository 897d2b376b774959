//! Recovers the gacha/convene history URL of a game from its caches and logs.
//!
//! The library holds the logic: recognising URLs in logs and cache blobs,
//! choosing the newest cache, stripping a URL to the parameters that matter,
//! reading Steam's library list, matching directories to a game, and the
//! decisions of the searches. File, network and clipboard access live in the
//! program around it.
use vstd::prelude::*;

pub mod config;
pub mod detect;
pub mod game;
pub mod log_url;
pub mod steam;
pub mod text;
pub mod web_cache;

verus! {

} // verus!
