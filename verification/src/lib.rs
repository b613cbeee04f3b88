//! File encryption with password-protected keys.
//!
//! * [`crypto`] holds the uses of the ciphers, the container format and the key
//!   file format.
//! * [`fsops`] decides how files and directories are encrypted, decrypted and
//!   deleted in their place.
//! * [`cli`] decides what the command line program does, [`web`] what the web
//!   service does.
//! * [`bytes`], [`text`] and [`paths`] hold what these have in common.
//!
//! Nothing in this library reads or writes anything. What it needs from outside
//! it asks for, and what it is given decides what it asks for next.

pub mod bytes;
pub mod cli;
pub mod crypto;
pub mod fsops;
pub mod paths;
pub mod text;
pub mod web;
