use vstd::prelude::*;

pub mod text;
pub mod paths;
pub mod cli;
pub mod exif;
pub mod model;
pub mod shell;
pub mod theme;
pub mod fsops;
pub mod quick;
pub mod thumbs;
pub mod commands;
pub mod history;
pub mod montage;
pub mod controls;
pub mod conversation;
pub mod palette;
pub mod preview_cache;

verus! {
} // verus!
