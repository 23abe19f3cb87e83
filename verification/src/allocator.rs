//! Allocators over one contiguous arena `[start, end)`.
pub mod bin;
pub mod bin_laws;
pub mod bin_state;
pub mod bump;
pub mod layout;
pub mod linked_list;
pub mod util;
