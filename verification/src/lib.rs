//! Indexing and retrieval core of an application launcher.
//!
//! The library finds out where shortcut files lie ([`discovery`]), reads
//! them into entries ([`desktop`]), collects the entries of a whole pass
//! ([`index`]) and answers queries against the collection ([`search`], with
//! the order of the answers from [`ranking`]). Reading the environment,
//! walking directories, reading and writing files and showing results are
//! the caller's part.

pub mod desktop;
pub mod discovery;
pub mod index;
pub mod ranking;
pub mod search;
pub mod text;
