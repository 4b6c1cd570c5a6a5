//! Random access to the entries of a GNU tar archive.
//!
//! An archive is indexed once, in a single streaming pass, into a text index
//! with one line per entry. With that index any single file can later be
//! located by its name and copied out of the archive without reading the rest.

pub mod error;
pub mod extract;
pub mod feed;
pub mod index;
pub mod tar;
pub mod tar_stream;
pub mod transitions;
pub mod util;
