//! Change-detection core of a torrent notification bridge.
//!
//! The library observes successive samples of a torrent client's state
//! (each torrent: a name and a completion flag), detects the two
//! transitions worth reporting (a torrent newly added and still
//! downloading, and a torrent finishing its download), maintains the
//! snapshot that makes the detection correct across restarts, and fixes
//! the binary format in which that snapshot is persisted.
//!
//! All I/O (the RPC poll, the notification POSTs, the snapshot file,
//! the environment) lives outside the library; callers hand in plain
//! values and perform the actions the library decides on.

pub mod torrent;
pub mod snapshot;
pub mod detector;
pub mod codec;
pub mod runs;
pub mod config;
