//! An immutable, priority-ordered prefix tree over composite keys whose
//! parts are either exact tokens or weighted wildcards.
//!
//! A [`builder::PrefixTreeMapBuilder`] accepts repeated insertions of keys
//! (sequences of [`key_part::KeyPart`]) with values, tracks the largest
//! wildcard count seen in any one key, and is consumed once by `build` into
//! an immutable [`prefix_tree_map::PrefixTreeMap`] whose siblings are sorted
//! in non-increasing priority order, ready for a matching traversal.

pub mod builder;
pub mod key_part;
pub mod laws;
pub mod prefix_tree_map;
