//! Keeps a local library of remote media collections in step with their source.
//!
//! The library records, for each entry (an artist or a playlist), the tracks that
//! have been downloaded so far. A synchronisation run asks the remote side for the
//! current listing of every entry, schedules one download per track that is not
//! yet recorded, and merges the completed downloads back into the library.
//!
//! Everything here works on plain values: reading files, running the extraction
//! tool and spreading downloads over threads is left to the caller, who hands the
//! outcomes in.
//!
//! - [`db`] holds the library, its stored form, and what is decided when it is
//!   created, read and written;
//! - [`diff`] finds the tracks that are missing;
//! - [`executor`] sizes the pool of download workers and settles each download;
//! - [`merge`] records the downloads that went through;
//! - [`sync`] proves what holds of a run as a whole;
//! - [`command`] adds a collection to the library;
//! - [`yt_dlp`] reads what the extraction tool prints;
//! - [`error`] names the failures.

pub mod command;
pub mod db;
pub mod diff;
pub mod error;
pub mod executor;
pub mod facts;
pub mod merge;
pub mod sync;
pub mod yt_dlp;
