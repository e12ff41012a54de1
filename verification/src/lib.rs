//! Node layer of a user-space filesystem that overlays host directory trees
//! under a single virtual mount point.  Directory and file nodes form an
//! in-memory tree whose shape is discovered lazily; some subtrees are backed
//! by host paths ("mapped") and others are purely virtual ("scaffold").
//!
//! All host filesystem answers (stat results, directory listings) enter the
//! library as plain values, so every decision the node layer makes is stated
//! in contracts and proved.  The surrounding program performs the actual host
//! calls and feeds the answers in.

pub mod attrs;
pub mod errors;
pub mod host;
pub mod tree;
pub mod dir;
pub mod file;
pub mod laws;
