//! A fixed-size page cache between a page-addressed database file and the
//! components that read and write its pages.
//!
//! * [`common`] holds the identifiers shared by every component.
//! * [`storage`] holds the in-memory frame contents and the layout rules of
//!   the data and log files.
//! * [`buffer`] holds the replacement policy and the buffer pool manager.
//!
//! The library performs no I/O itself. Wherever the buffer pool needs the disk
//! it says so in the value it returns, and the caller reports back what the
//! disk did.

pub mod common;
pub mod storage;
pub mod buffer;
