//! Process, virtual-memory and scheduling core of a small single-core kernel.
//!
//! The kernel state is an explicit value (`task::Kernel`) handed to every
//! system call; nothing is kept in globals.
pub mod config;
pub mod manager;
pub mod mm;
pub mod process;
pub mod task;
