//! A verified core for a batch text-translation pipeline over key/value
//! language mappings: chunked scheduling with a fail-loud merge policy,
//! classification-driven retry with backoff, incremental update resolution,
//! and an offset-safe locator/splicer for semi-structured quest documents.

pub mod batch;
pub mod config;
pub mod langfmt;
pub mod locator;
pub mod logging;
pub mod mapping;
pub mod mcmeta;
pub mod message;
pub mod pipeline;
pub mod retry;
pub mod scan;
pub mod sanitize;
pub mod text;
pub mod translate;

use vstd::prelude::*;

verus! {

} // verus!
