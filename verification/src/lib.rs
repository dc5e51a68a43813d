//! Reads player-versus-player events out of captured game traffic.

pub mod address;
pub mod analyze;
pub mod calibrate;
pub mod capture;
pub mod detect;
pub mod dump;
pub mod export;
pub mod format;
pub mod frame;
pub mod home;
pub mod kinds;
pub mod laws;
pub mod marker;
pub mod names;
pub mod opcode;
pub mod prompt;
pub mod rank;
pub mod reassembly;
pub mod records;
pub mod refresh;
pub mod reordering;
pub mod report;
pub mod search;
pub mod stats;
pub mod stream;
pub mod text;
pub mod utf16;
