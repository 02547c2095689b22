//! A bounded least-recently-used cache that only reclaims an entry once no
//! handle outside the cache still shares its value.

pub mod lru;
pub mod model;

pub use lru::LRU;
