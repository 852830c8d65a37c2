//! A polling-friendly core for a client that searches a listing service and
//! shows item images: an async-result bridge that tracks one logical request
//! for a consumer that must never block, and a keyed resource cache that
//! deduplicates concurrent fetches and drains completed ones into a lookup
//! table. Task handles are `poll_promise::Promise` values, opaque here; the
//! fetches themselves are injected by the caller.

pub mod bridge;
pub mod image_storage;
pub mod promise_state;
pub mod task;
