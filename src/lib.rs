//! Live race timing for a PlayStation 2 racing game running in an emulator:
//! guest memory access, anchor discovery, and the gap-to-leader estimator.
pub mod anchor;
pub mod checkpoints;
pub mod game_data;
pub mod guest;
pub mod overlay;
pub mod progress;
pub mod ps2_types;
pub mod records;
pub mod scan;
