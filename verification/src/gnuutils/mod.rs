pub mod tree;
pub mod watch;
