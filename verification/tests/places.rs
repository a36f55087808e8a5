//! Where files are kept.
use std::path::{Path, PathBuf};

use froklog_watch::paths::{
    config_path, config_path_in, pronounce_path, pronounce_path_in, voices_dir, voices_dir_in,
};

#[test]
fn files_lie_in_the_users_directories() {
    let home = || Some(PathBuf::from("/home/z/.config"));
    assert_eq!(config_path_in(home()), Path::new("/home/z/.config/froklog-watch/config.toml"));
    assert_eq!(pronounce_path_in(home()), Path::new("/home/z/.config/froklog-watch/pronounce.toml"));
    assert_eq!(
        voices_dir_in(Some(PathBuf::from("/home/z/.local/share/"))),
        Path::new("/home/z/.local/share/piper/voices")
    );
}

#[test]
fn without_a_home_files_lie_here() {
    assert_eq!(config_path_in(None), Path::new("./froklog-watch/config.toml"));
    assert_eq!(pronounce_path_in(None), Path::new("./froklog-watch/pronounce.toml"));
    assert_eq!(voices_dir_in(None), Path::new("./piper/voices"));
}

#[test]
fn the_directories_are_the_users_own() {
    assert!(config_path().ends_with("froklog-watch/config.toml"));
    assert!(pronounce_path().ends_with("froklog-watch/pronounce.toml"));
    assert!(voices_dir().ends_with("piper/voices"));
    let here = || PathBuf::from(".");
    let config = dirs::config_dir().unwrap_or_else(here);
    assert_eq!(config_path(), config.join("froklog-watch").join("config.toml"));
    assert_eq!(pronounce_path(), config.join("froklog-watch").join("pronounce.toml"));
    let data = dirs::data_dir().unwrap_or_else(here);
    assert_eq!(voices_dir(), data.join("piper").join("voices"));
}
