//! Verified core of a client downloader and patcher.
//!
//! Everything here is a function from plain values to plain values: the
//! decisions, formats and rules of the tool. Sockets, files, threads and the
//! terminal are the business of the program around it.
pub mod blocks;
pub mod bytes;
pub mod cli;
pub mod diff;
pub mod filter;
pub mod listing;
pub mod login;
pub mod miniwzlib;
pub mod net;
pub mod ngm;
pub mod numerals;
pub mod nxl;
pub mod nxl_patch;
pub mod outside;
pub mod paths;
pub mod report;
pub mod resume;
pub mod retry;
pub mod sizes;
pub mod taskprogress;
pub mod text;
