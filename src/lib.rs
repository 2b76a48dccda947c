//! The caching layer of a reverse proxy: a fixed-capacity least-recently-used
//! index, the byte layout of cache file headers, cache entries bound to their
//! files with an atomic write plan, and the decisions of lookups, the background
//! writer and the expiry sweep.
pub mod filedata;
pub mod lru;
pub mod maintenance;
pub mod metadata;
