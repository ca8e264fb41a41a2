//! Finds Java classes in a local Maven repository and caches their
//! decompiled source.
//!
//! The heart of the library is the engine that caches and pre-loads
//! decompiled sources:
//!
//! - [`cache`]: the store, a set of named tables, with its statistics
//! - [`buffer`]: the write buffer that commits sources in batches
//! - [`registry`]: which artifacts hold which class
//! - [`hotspot`]: access counts and the warmup requests they raise
//! - [`warmup`]: the scheduler of warmup tasks
//! - [`incremental`]: re-cataloging of artifacts that changed
//!
//! Around it stand the parts that read archives, decompiler dumps and
//! sources ([`catalog`], [`probe`], [`parse`], [`structure`], [`syntax`]),
//! that work out paths ([`paths`], [`scan`], [`config`]), and that serve the
//! commands ([`cli`], [`commands`], [`find`], [`cfr`]). [`text`] and
//! [`table`] are the shared foundations.
//!
//! The store is held in memory. Reading the tables from disk and writing
//! them back, running the decompiler, walking the repository and running
//! threads is left to the program that uses the library.

pub mod buffer;
pub mod cache;
pub mod catalog;
pub mod cfr;
pub mod cli;
pub mod commands;
pub mod config;
pub mod find;
pub mod hotspot;
pub mod incremental;
pub mod parse;
pub mod paths;
pub mod probe;
pub mod registry;
pub mod scan;
pub mod structure;
pub mod syntax;
pub mod table;
pub mod text;
pub mod warmup;
