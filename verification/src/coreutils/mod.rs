pub mod cat;
pub mod echo;
pub mod pwd;
