//! Compares the explicitly installed packages of two Arch Linux machines and
//! plans the commands that bring this machine closer to the other one.

pub mod text;
pub mod order;
pub mod package;
pub mod diff;
pub mod path;
pub mod source;
pub mod known;
pub mod action;
pub mod keys;
pub mod app;
