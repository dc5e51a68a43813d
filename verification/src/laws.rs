//! What the library promises, said of its inputs and results.

pub mod calibration;
pub mod detection;
pub mod dumps;
pub mod events;
pub mod formats;
pub mod homes;
pub mod markers;
pub mod names;
pub mod statistics;
pub mod streams;
pub mod summaries;
pub mod texts;
