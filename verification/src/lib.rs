//! Core of a two-player networked paddle-and-ball game: the
//! authoritative simulation (`game`), endpoint-to-role assignment
//! (`registry`), input ingestion (`ingest`), the text wire codec for
//! snapshots and directional commands (`codec`, `digits`), and the
//! client's last-snapshot-wins mailbox (`mailbox`). Sockets, wall-clock
//! time and terminal rendering stay outside; they hand this library
//! plain values and take plain values back.
//!
//! All lengths are integers in half-cell units: one display cell is two
//! half-units, which represents the game's finest motion (half a cell
//! per tick) exactly.
use vstd::prelude::*;

pub mod codec;
pub mod digits;
pub mod game;
pub mod ingest;
pub mod mailbox;
pub mod registry;
pub mod text;
