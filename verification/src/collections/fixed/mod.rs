//! Collections whose storage is reserved once and never grows.
pub mod arena;
pub mod array;
pub mod hash;
pub mod index;
pub(crate) mod lanes;
pub mod pinned;
