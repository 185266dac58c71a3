//! An insertion-ordered hash map: point lookup, insertion and removal of any
//! entry through a hash index, and iteration in the order in which keys were
//! first inserted.
pub mod iter;
pub mod map;
pub mod model;
