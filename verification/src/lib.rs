//! A verified core for an audio sample library.

pub mod audio;
pub mod database;
pub mod folders;
pub mod listing;
pub mod order;
pub mod paths;
pub mod rounding;
pub mod scanner;
pub mod session;
pub mod stamp;
pub mod text;
pub mod waveform;
