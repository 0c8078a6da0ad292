//! Chunked, restart-safe spool pipeline for cold-storage backups.
//!
//! A backup stream is cut into numbered chunk files (`split`), which move
//! through queue directories of a spool (`spool`, `backup_id`, `path`). On
//! restore the chunks are taken in index order however they arrive
//! (`fragment`), read back to back (`cat`), and decompressed (`compression`).
//! The freeze queue tracks which chunks are present as runs of indices
//! (`interval`).
//!
//! The library decides and computes; reading and writing files, watching
//! directories and talking to the network are left to its caller, which
//! carries out the steps that the library hands back.
pub mod backup_id;
pub mod cat;
pub mod cli;
pub mod compression;
pub mod config;
pub mod fragment;
pub mod interval;
pub mod path;
pub mod split;
pub mod spool;
