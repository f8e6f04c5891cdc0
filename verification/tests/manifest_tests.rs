use twist::manifest::ConfigData;
use twist::manifest::ConfigManager;
use twist::paths::Paths;

#[test]
fn add_twice_is_the_same_as_once() {
    let paths = Paths::new_with_home_dir(&b"/home/user/.twist".to_vec(), &b"/home/user".to_vec());
    let entry = paths.resolve_file_paths(&b"/home/user/.zshrc".to_vec()).unwrap();

    let mut once = ConfigManager::new();
    once.add_files(&vec![
        paths.resolve_file_paths(&b"/home/user/.zshrc".to_vec()).unwrap(),
    ]);

    let mut twice = ConfigManager::new();
    twice.add_files(&vec![
        paths.resolve_file_paths(&b"/home/user/.zshrc".to_vec()).unwrap(),
    ]);
    twice.add_files(&vec![
        paths.resolve_file_paths(&b"/home/user/.zshrc".to_vec()).unwrap(),
    ]);

    assert_eq!(once.to_bytes(), twice.to_bytes());
    assert!(once.contains_file(&entry));
    assert!(twice.contains_file(&entry));
}

#[test]
fn remove_untracked_leaves_the_manifest_alone() {
    let paths = Paths::new_with_home_dir(&b"/home/user/.twist".to_vec(), &b"/home/user".to_vec());
    let kept = paths.resolve_file_paths(&b"/home/user/.zshrc".to_vec()).unwrap();
    let absent = paths.resolve_file_paths(&b"/usr/etc/config.toml".to_vec()).unwrap();

    let mut cfg = ConfigManager::new();
    cfg.add_files(&vec![
        paths.resolve_file_paths(&b"/home/user/.zshrc".to_vec()).unwrap(),
    ]);
    let before = cfg.to_bytes();

    let deletes = twist::sync::remove_files(&mut cfg, &vec![absent]);
    assert_eq!(deletes.len(), 0);
    assert_eq!(cfg.to_bytes(), before);
    assert!(cfg.contains_file(&kept));
}

#[test]
fn remove_tracked_deletes_its_mirror() {
    let paths = Paths::new_with_home_dir(&b"/home/user/.twist".to_vec(), &b"/home/user".to_vec());
    let kept = paths.resolve_file_paths(&b"/home/user/.zshrc".to_vec()).unwrap();

    let mut cfg = ConfigManager::new();
    cfg.add_files(&vec![
        paths.resolve_file_paths(&b"/home/user/.zshrc".to_vec()).unwrap(),
    ]);
    let deletes = twist::sync::remove_files(&mut cfg, &vec![kept]);
    assert_eq!(deletes, vec![b"/home/user/.twist/dotfiles/home/zshrc".to_vec()]);

    let reread = paths.resolve_file_paths(&b"/home/user/.zshrc".to_vec()).unwrap();
    assert!(!cfg.contains_file(&reread));
}

#[test]
fn manifest_round_trips_through_its_bytes() {
    let paths = Paths::new_with_home_dir(&b"/home/user/.twist".to_vec(), &b"/home/user".to_vec());
    let mut cfg = ConfigManager::new();
    cfg.add_files(&vec![
        paths.resolve_file_paths(&b"/home/user/.zshrc".to_vec()).unwrap(),
        paths.resolve_file_paths(&b"/usr/etc/config.toml".to_vec()).unwrap(),
    ]);
    cfg.add_dirs(&vec![
        paths.resolve_dir_paths(&b"/home/user/.ssh".to_vec()).unwrap(),
    ]);

    let bytes = cfg.to_bytes();
    let reloaded = ConfigManager::open(Some(&bytes));
    assert_eq!(reloaded.to_bytes(), bytes);
}

#[test]
fn manifest_bytes_are_readable_sections() {
    let paths = Paths::new_with_home_dir(&b"/home/user/.twist".to_vec(), &b"/home/user".to_vec());
    let mut cfg = ConfigManager::new();
    cfg.add_files(&vec![
        paths.resolve_file_paths(&b"/home/user/.zshrc".to_vec()).unwrap(),
    ]);
    cfg.add_dirs(&vec![
        paths.resolve_dir_paths(&b"/home/user/.ssh".to_vec()).unwrap(),
    ]);
    let text = String::from_utf8(cfg.to_bytes()).unwrap();
    assert_eq!(text, "[dirs]\n\"~/.ssh\" = \"home/ssh\"\n[files]\n\"~/.zshrc\" = \"home/zshrc\"\n");
}

#[test]
fn awkward_bytes_survive_the_codec() {
    let mut data = ConfigData::new();
    let paths = Paths::new_with_home_dir(&b"/home/user/.twist".to_vec(), &b"/home/user".to_vec());
    let odd = paths
        .resolve_file_paths(&b"/tmp/a\"quote\\and\nnewline".to_vec())
        .unwrap();
    data.add_file(&odd);
    let cfg = ConfigManager::from_data(data);
    let bytes = cfg.to_bytes();
    let reloaded = ConfigManager::open(Some(&bytes));
    assert_eq!(reloaded.to_bytes(), bytes);
}

#[test]
fn corrupt_or_missing_manifest_loads_empty() {
    let empty = ConfigManager::new();
    let none = ConfigManager::open(None);
    assert_eq!(none.to_bytes(), empty.to_bytes());

    let garbage = ConfigManager::open(Some(&b"not a manifest at all".to_vec()));
    assert_eq!(garbage.to_bytes(), empty.to_bytes());

    let truncated = ConfigManager::open(Some(&b"[dirs]\n\"~/x\" = \"home/x".to_vec()));
    assert_eq!(truncated.to_bytes(), empty.to_bytes());
}

#[test]
fn entries_come_back_in_key_order() {
    let paths = Paths::new_with_home_dir(&b"/home/user/.twist".to_vec(), &b"/home/user".to_vec());
    let mut cfg = ConfigManager::new();
    cfg.add_files(&vec![
        paths.resolve_file_paths(&b"/usr/etc/config.toml".to_vec()).unwrap(),
        paths.resolve_file_paths(&b"/home/user/.zshrc".to_vec()).unwrap(),
    ]);
    let files = cfg.files(&paths);
    assert_eq!(files.len(), 2);
    assert_eq!(files[0].src_path, b"/usr/etc/config.toml".to_vec());
    assert_eq!(files[1].src_path, b"~/.zshrc".to_vec());
    assert_eq!(files[1].full_src_path, b"/home/user/.zshrc".to_vec());
    assert_eq!(
        files[1].full_repo_path,
        b"/home/user/.twist/dotfiles/home/zshrc".to_vec()
    );
}

#[test]
fn config_file_name_is_fixed() {
    let cfg = ConfigManager::new();
    assert_eq!(cfg.config_file_repo_path(), b"config.toml".to_vec());
}

#[test]
fn dirs_map_and_files_map_are_separate() {
    let paths = Paths::new_with_home_dir(&b"/home/user/.twist".to_vec(), &b"/home/user".to_vec());
    let mut data = ConfigData::new();
    let f = paths.resolve_file_paths(&b"/home/user/.zshrc".to_vec()).unwrap();
    let d = paths.resolve_dir_paths(&b"/home/user/.ssh".to_vec()).unwrap();
    data.add_file(&f);
    data.add_dir(&d);
    data.remove_file(&b"~/.ssh".to_vec());
    data.remove_dir(&b"~/.zshrc".to_vec());
    let cfg = ConfigManager::from_data(data);
    assert!(cfg.contains_file(&f));
    assert!(cfg.contains_dir(&d));
}
