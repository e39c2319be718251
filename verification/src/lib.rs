//! Building blocks for fast batch tokenization.

pub mod arith;
pub mod barrier;
pub mod batch;
pub mod cache;
pub mod decimal;
pub mod entry_map;
pub mod fixed_length;
pub mod pcre2_backend;
pub mod pool;
pub mod pre_tokenized;
pub mod topology;
pub mod utf8;
