//! Path-compressed binary tries keyed by bit strings, with longest-prefix
//! lookup, and the decomposition of bit-string ranges into prefixes.

pub mod bits;
pub mod iter;
pub mod map;
pub mod set;
pub mod tree;
pub mod walk_dir;
pub mod walk_mut;
