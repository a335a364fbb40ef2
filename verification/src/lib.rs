//! A verified Tower of Hanoi library: a three-rod board of distinctly sized
//! disks, a validated single-disk move operation, a recursive solver that is
//! proved to succeed in the optimal number of moves, a textual renderer with
//! an exact output specification, and parsers for the disk-count input.

pub mod hanoi_solver;
pub mod io;
pub mod render;
pub mod text;
