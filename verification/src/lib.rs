//! Verified core of a small collection of command-line utilities:
//! `cat`, `echo`, `pwd`, `tree` and `watch`.
//!
//! Each utility is split into the part that decides what to print (here,
//! with contracts proved by Verus) and the part that talks to the terminal,
//! the file system or child processes (the application around it).

pub mod bytes;
pub mod coreutils;
pub mod decimal;
pub mod gnu_cmd;
pub mod gnuutils;
pub mod text;
