//! System-monitor logic: parsers for the kernel's `/proc` and `/sys` text,
//! the process tree, and the state that the monitor's screens show.

pub mod app;
pub mod num;
pub mod order;
pub mod proc;
pub mod text;
pub mod theme;
pub mod tree;
