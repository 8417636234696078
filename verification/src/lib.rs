//! A small embedded key-value store shaped like a log-structured merge tree:
//! an in-memory write buffer that flushes into immutable sorted runs, a
//! size-triggered merge policy that reconciles duplicate keys by timestamp,
//! a membership filter that short-circuits negative lookups, and tombstone
//! semantics for deletion — together with the line-oriented statement
//! language that drives it and the binary codec that frames responses.

mod clock;

pub mod ast;
pub mod chest;

pub mod codec;
pub mod errors;
pub mod filter;
pub mod mem_table;
pub mod merge_model;
pub mod order;
pub mod run_id;
pub mod server_value;
pub mod runner;
pub mod sorted_map;
pub mod ss_table;
pub mod value;
