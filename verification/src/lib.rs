//! A decoder for the Brotli compressed data format (RFC 7932).
//!
//! The crate turns a compressed byte stream into the bytes it stands for.
//! Every function is verified: its contract says, over a mathematical model
//! of the stream, which bytes come out or which error is reported.
//!
//! What a whole stream comes to is `decoder::decoded`, a function of the
//! input bytes and of the dictionary; `decoder::Decompressor` hands those
//! bytes out piece by piece. Below it stand, leaves first:
//!
//! - `error`: the ways in which a stream can be rejected;
//! - `bits`: the input as a sequence of bits, on top of the `bitreader`
//!   crate;
//! - `codes`, `header`: the stream header and the header of a meta-block;
//! - `window`: the sliding window and the ring of the last distances;
//! - `prefix`, `complete`, `simple`, `complex`: prefix codes, what holds of
//!   them, and their two kinds of description;
//! - `command`, `context`, `blocks`, `dictionary`: the lengths and distances
//!   of a command, context modelling, block switching and references to
//!   the dictionary;
//! - `tables`, `literals`, `commands`, `metablock`: the tables of a
//!   compressed meta-block, its literals and commands, and a meta-block as
//!   a whole.

pub mod error;
pub mod bits;
pub mod codes;
pub mod header;
pub mod window;
pub mod prefix;
pub mod complete;
pub mod simple;
pub mod complex;
pub mod command;
pub mod context;
pub mod blocks;
pub mod dictionary;
pub mod tables;
pub mod literals;
pub mod commands;
pub mod metablock;
pub mod decoder;
