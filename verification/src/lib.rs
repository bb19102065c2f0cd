//! Per-base sequencing coverage engine.
//!
//! The crate plans genomic work into bounded chunks ([`chunk`]), accumulates
//! per-position depth counts for each chunk from plain alignment records
//! ([`process`], [`record`]), and merges the partial results
//! deterministically ([`merger`], [`covmap`], [`order`]).  Region files are
//! parsed in [`regions`], the execution strategy is chosen in [`mode`], and
//! report rendering lives in [`fmt`] and [`stats`].
//!
//! Reading alignment files, rendering plots and all other I/O stay outside
//! the library: callers hand in plain values (chromosome catalogs, region
//! lists, alignment records) and receive coverage maps and summary totals
//! back.

pub mod chunk;
pub mod config;
pub mod covmap;
pub mod fmt;
pub mod merger;
pub mod mode;
pub mod order;
pub mod process;
pub mod record;
pub mod regions;
pub mod stats;
