use factory_planner::paths::{
    autosave_path, log_path, manual_save_path, preview_path_for, saves_dir, settings_path, userdata_dir,
};
use std::path::{Path, PathBuf};

#[test]
fn data_locations() {
    assert_eq!(userdata_dir(), PathBuf::from("userdata"));
    assert_eq!(saves_dir(), Path::new("userdata").join("saves"));
    assert_eq!(settings_path(), Path::new("userdata").join("settings.json"));
    assert_eq!(log_path(), Path::new("userdata").join("perf_log.txt"));
    assert_eq!(manual_save_path(), Path::new("userdata").join("saves").join("manual.json"));
    assert_eq!(autosave_path(2), Path::new("userdata").join("saves").join("autosave_2.json"));
}

#[test]
fn preview_beside_save() {
    assert_eq!(
        preview_path_for(&manual_save_path()),
        Path::new("userdata").join("saves").join("manual_preview.png")
    );
    assert_eq!(preview_path_for(&PathBuf::from("x.json")), PathBuf::from("x_preview.png"));
    assert_eq!(preview_path_for(&PathBuf::from("dir/archive.tar.json")), Path::new("dir").join("archive.tar_preview.png"));
    assert_eq!(preview_path_for(&PathBuf::from("")), Path::new(".").join("save_preview.png"));
}
