use vstd::prelude::*;

pub mod audio;
pub mod auth;
pub mod autoselect;
pub mod blacklist;
pub mod browser;
pub mod cards;
pub mod clusters;
pub mod comparer;
pub mod comparison;
pub mod config;
pub mod db;
pub mod discovery;
pub mod dryrun;
pub mod escape;
pub mod evidence;
pub mod ffmpeg_setup;
pub mod frame;
pub mod monitor;
pub mod notify;
pub mod phash;
pub mod presets;
pub mod ranker;
pub mod relocate;
pub mod report;
pub mod rounding;
pub mod scan;
pub mod selection;
pub mod stats;
pub mod streaming;
pub mod text;
pub mod timeline;
pub mod ui_state;
pub mod utils;

verus! {

} // verus!
