pub mod collections;
pub mod error;
pub mod files;
pub mod ini_store;
pub mod paths;
pub mod text;
pub mod utils;

pub use files::{
    does_dir_contain, file_name_from_str, file_name_or_err, files_not_found, omit_off_state,
    parent_or_err, shorten_paths, toggle_files, toggle_name_state, FileData, Operation,
    OperationResult, PathErrors,
};
pub use utils::ini::writer::{get_cfg, get_or_setup_cfg};

use vstd::prelude::*;

verus! {

pub const REQUIRED_GAME_FILES: [&'static str; 3] = [
    "eldenring.exe",
    "oo2core_6_win64.dll",
    "eossdk-win64-shipping.dll",
];

pub const OFF_STATE: &'static str = ".disabled";

pub const LOG_NAME: &'static str = "EML_gui_log.txt";
pub const INI_NAME: &'static str = "EML_gui_config.ini";
pub const INI_SECTIONS: [&'static str; 4] = ["app-settings", "paths", "registered-mods", "mod-files"];
pub const INI_KEYS: [&'static str; 3] = ["dark_mode", "save_log", "game_dir"];
pub const DEFAULT_INI_VALUES: [bool; 2] = [true, true];
pub const ARRAY_KEY: &'static str = "array[]";
pub const ARRAY_VALUE: &'static str = "array";

pub const LOADER_FILES: [&'static str; 4] = [
    "dinput8.dll.disabled",
    "dinput8.dll",
    "_dinput8.dll",
    "mod_loader_config.ini",
];
pub const LOADER_SECTIONS: [&'static str; 2] = ["modloader", "loadorder"];
pub const LOADER_KEYS: [&'static str; 2] = ["load_delay", "show_terminal"];
pub const DEFAULT_LOADER_VALUES: [&'static str; 2] = ["5000", "0"];
pub const LOADER_EXAMPLE: &'static str = "Example.dll";
pub const ANTI_CHEAT_EXE: &'static str = "toggle_anti_cheat.exe";

} // verus!
