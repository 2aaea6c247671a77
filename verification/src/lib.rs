//! A resumable maze engine: a grid board whose walls are carved one step at
//! a time by interchangeable generators, and solved one step at a time by
//! interchangeable solvers.
//!
//! Every generator keeps the open passages a forest, so that a finished maze
//! is a spanning tree of the grid; every solver ends with a route through
//! open passages, or says that there is none. The contracts in [`maze`] say
//! so.

pub mod maze;
