//! A search-driven wordlist builder: engines turn a query into result links,
//! a link filter scores each link against the query, fetched pages are mined
//! for candidate words, and the harvested words are deduplicated and trimmed.
//!
//! Everything that computes — URL building, link extraction and filtering,
//! text mining, word collection and finalization — lives here and is verified.
//! Network and file I/O stay outside, handing plain values in and out.

pub mod engine;
pub mod fetcher;
pub mod filter;
pub mod finalize;
pub mod miner;
pub mod outside;
pub mod spider;
pub mod text;
