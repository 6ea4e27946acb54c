//! The single-lock cache: the list, the map-backed LRU, and its thread-safe wrapper.
pub mod key;
pub mod dll;
pub mod table;
pub mod lru;
pub mod safe;
