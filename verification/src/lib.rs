//! Definitive CAN signal reverse engineering and CAN/DBC diagnostics.
//!
//! Every analysis reports only facts that hold over every observed frame,
//! with its evidence counts: bit activity, rolling counters, checksums,
//! multiplexor layouts, differential compares of labeled recordings, DBC
//! validation, and OBD-II ground truth (ISO-TP reassembly, Service `$01`
//! PIDs). Around them stand the viewer's text helpers and filters.
use vstd::prelude::*;

pub mod activity;
pub mod analyze;
pub mod args;
pub mod bitmap;
pub mod bits;
pub mod capture;
pub mod checksum;
pub mod correlate;
pub mod counter;
pub mod dbc_check;
pub mod dbc_edit;
pub mod diff;
pub mod extract;
pub mod filter;
pub mod frame;
pub mod helpers;
pub mod isotp;
pub mod mux;
pub mod pids;
pub mod poll;
pub mod report;
pub mod session;
pub mod stats;
pub mod survey;
pub mod text;
