//! The logic of a small kernel: its heap allocators over a fixed address
//! range, the command line of its shell, the tags it is booted with, and
//! what its drivers compute.
//!
//! Nothing here touches memory or a device: the allocators compute
//! addresses, the shell computes text.
pub mod allocator;
pub mod atags;
pub mod pi;
pub mod shell;
