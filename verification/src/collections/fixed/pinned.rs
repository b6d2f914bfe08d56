//! Fixed storage whose values stay in place for the whole life of the
//! storage.
pub mod recycle;
