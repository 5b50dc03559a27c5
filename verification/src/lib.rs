//! Device, playlist, transfer and browser logic of a terminal manager for classic Zune players.
use vstd::prelude::*;

pub mod app_state;
pub mod audio;
pub mod browser;
pub mod debug_log;
pub mod deletion;
pub mod device;
pub mod device_tree;
pub mod file_screen;
pub mod folders;
pub mod keys;
pub mod library;
pub mod local_path;
pub mod marks;
pub mod order;
pub mod palette;
pub mod path;
pub mod playlist_screen;
pub mod screen;
pub mod seqs;
pub mod session;
pub mod text;
pub mod transfer;
pub mod tree;
pub mod upload;

verus! {

} // verus!
