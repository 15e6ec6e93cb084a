//! Problem layer of a branch-and-bound solver for the single-depot asymmetric
//! travelling-salesman problem over relaxed decision diagrams: tour states and
//! their transitions, the merge that relaxes several states into one, the
//! ranking of states, and the compression of an instance into meta-destinations.

pub mod bitset;
pub mod instance;
pub mod model;
pub mod ranking;
pub mod compression;
pub mod solve;
