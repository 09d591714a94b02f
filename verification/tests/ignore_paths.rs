#[test]
fn ds_store_paths_are_ignored() {
    assert!(swifty_artifacts::should_ignore_rel_path(".DS_Store"));
    assert!(swifty_artifacts::should_ignore_rel_path("@mod/.DS_Store"));
}

#[test]
fn normal_paths_are_not_ignored() {
    assert!(!swifty_artifacts::should_ignore_rel_path("addons/file.pbo"));
    assert!(!swifty_artifacts::should_ignore_rel_path("addons/file.pbo.bisign"));
}

#[test]
fn ds_store_behind_a_backslash_is_ignored() {
    assert!(swifty_artifacts::should_ignore_rel_path("@mod\\addons\\.DS_Store"));
    assert!(!swifty_artifacts::should_ignore_rel_path(".DS_Store/file"));
    assert!(!swifty_artifacts::should_ignore_rel_path("x.DS_Store"));
}
