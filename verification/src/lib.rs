//! An ordered map from `u64` keys to `u64` values, kept as a B+ tree whose nodes
//! live in an arena and whose leaves form a doubly linked ring in key order.
//!
//! Every leaf other than the root holds `MIN_LEN` to `MAX_LEN` entries, every
//! internal node other than the root has `MIN_LEN` to `MAX_LEN` children, and all
//! leaves stand at one depth. Lookup, insertion and removal visit one node per
//! level.

pub mod slots;
pub mod map;
pub mod laws;

mod branch;
mod content;
mod facts;
mod fuse;
mod grow;
mod insert;
mod intrabal;
mod intrafuse;
mod leafbal;
mod lookup;
mod node;
mod observe;
mod remove;
mod shrink;

pub use laws::{apply, latest, lookup, run, Op};
pub use map::{ascending, BTreeMap};
pub use slots::{MAX_LEN, MIN_LEN};
