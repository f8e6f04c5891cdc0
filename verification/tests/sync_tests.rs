use twist::manifest::ConfigManager;
use twist::paths::Paths;
use twist::sync::register_batch;
use twist::sync::update_ops;

#[test]
fn copy_plans_mirror_the_entries() {
    let paths = Paths::new_with_home_dir(&b"/home/user/.twist".to_vec(), &b"/home/user".to_vec());
    let files = vec![
        paths.resolve_file_paths(&b"/home/user/.zshrc".to_vec()).unwrap(),
    ];
    let ops = twist::sync::copy_ops_for_files(&files);
    assert_eq!(ops.len(), 1);
    assert_eq!(ops[0].src, b"/home/user/.zshrc".to_vec());
    assert_eq!(ops[0].dest, b"/home/user/.twist/dotfiles/home/zshrc".to_vec());

    let dirs = vec![
        paths.resolve_dir_paths(&b"/home/user/.ssh".to_vec()).unwrap(),
    ];
    let dops = twist::sync::copy_ops_for_dirs(&dirs);
    assert_eq!(dops.len(), 1);
    assert_eq!(dops[0].src, b"/home/user/.ssh".to_vec());
    assert_eq!(dops[0].dest, b"/home/user/.twist/dotfiles/home/ssh".to_vec());
}

#[test]
fn update_refreshes_every_tracked_entry() {
    let paths = Paths::new_with_home_dir(&b"/home/user/.twist".to_vec(), &b"/home/user".to_vec());
    let mut cfg = ConfigManager::new();
    register_batch(
        &mut cfg,
        &vec![paths.resolve_file_paths(&b"/home/user/.zshrc".to_vec()).unwrap()],
        &vec![paths.resolve_dir_paths(&b"/etc/nginx".to_vec()).unwrap()],
    );

    let (file_ops, dir_ops) = update_ops(&cfg, &paths);
    assert_eq!(file_ops.len(), 1);
    assert_eq!(file_ops[0].src, b"/home/user/.zshrc".to_vec());
    assert_eq!(file_ops[0].dest, b"/home/user/.twist/dotfiles/home/zshrc".to_vec());
    assert_eq!(dir_ops.len(), 1);
    assert_eq!(dir_ops[0].src, b"/etc/nginx".to_vec());
    assert_eq!(dir_ops[0].dest, b"/home/user/.twist/dotfiles/etc/nginx".to_vec());
}

#[test]
fn remove_dirs_only_deletes_tracked_mirrors() {
    let paths = Paths::new_with_home_dir(&b"/home/user/.twist".to_vec(), &b"/home/user".to_vec());
    let mut cfg = ConfigManager::new();
    register_batch(
        &mut cfg,
        &Vec::new(),
        &vec![paths.resolve_dir_paths(&b"/etc/nginx".to_vec()).unwrap()],
    );

    let absent = vec![paths.resolve_dir_paths(&b"/etc/apt".to_vec()).unwrap()];
    assert_eq!(twist::sync::remove_dirs(&mut cfg, &absent).len(), 0);

    let kept = vec![paths.resolve_dir_paths(&b"/etc/nginx".to_vec()).unwrap()];
    let deletes = twist::sync::remove_dirs(&mut cfg, &kept);
    assert_eq!(deletes, vec![b"/home/user/.twist/dotfiles/etc/nginx".to_vec()]);
}
