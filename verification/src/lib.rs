//! Path timing for speedrun routes: recording, comparing and sorting the
//! times of recorded paths between a start and a finish trigger.

pub mod rendering;
pub mod error;
pub mod ids;
pub mod seqs;
pub mod pathdata;
mod binary;
pub mod fileformat;
mod clock;
pub mod pathlog;
pub mod laws;
pub mod selection;
pub mod events;
pub mod keybind;
pub mod ui;
pub mod game;
pub mod logs;
