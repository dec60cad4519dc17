//! A janitor for a `registry:2` filesystem store.
//!
//! A registry of short-lived images grows for ever if it is left alone. The janitor keeps the last
//! `N` tags of each repository, deletes the others, and has the registry's own garbage collector
//! reclaim what no tag needs any more.
//!
//! This library decides; its caller reads the store, deletes, sleeps and runs commands. Where the
//! two take turns, the library has a function from what the caller saw to what the caller does
//! next:
//!
//! - [`janitor::next_action`]: the loop of sweeps, collections and pauses;
//! - [`sweep::sweep`]: one sweep over all repositories;
//! - [`registry_fs::Layout`]: the search for repositories, the listing of a repository's tags, and
//!   the deletion of a tag.
//!
//! What to delete is decided by [`retention::tags_to_delete`], and all settings come from the
//! environment by [`config::Config::from_env`].

pub mod config;
pub mod discovery;
pub mod disk;
pub mod footprint;
pub mod gc;
pub mod janitor;
pub mod log;
pub mod names;
pub mod order;
pub mod paths;
pub mod pruning;
pub mod registry_fs;
pub mod retention;
pub mod sweep;
pub mod text;
pub mod walk;
