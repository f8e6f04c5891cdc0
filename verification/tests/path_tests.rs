use twist::paths::CandidatePath;
use twist::paths::DirPathInfo;
use twist::paths::FilePathInfo;
use twist::paths::PathKind;
use twist::paths::Paths;

#[test]
fn test_root_dir() {
    let paths = Paths::new_with_home_dir(&b"/home/user/.twist".to_vec(), &b"/home/user".to_vec());
    assert_eq!(paths.root_dir, b"/home/user/.twist".to_vec());
}

#[test]
fn path_test_root_dir() {
    let paths = Paths::new_with_home_dir(&b"/home/user/.twist".to_vec(), &b"/home/user".to_vec());
    assert_eq!(paths.root_dir, b"/home/user/.twist".to_vec());
}

#[test]
fn test_files_dir() {
    let paths = Paths::new_with_home_dir(&b"/home/user/.twist".to_vec(), &b"/home/user".to_vec());
    assert_eq!(paths.files_dir, b"/home/user/.twist/dotfiles".to_vec());
}

#[test]
fn path_test_files_dir() {
    let paths = Paths::new_with_home_dir(&b"/home/user/.twist".to_vec(), &b"/home/user".to_vec());
    assert_eq!(paths.files_dir, b"/home/user/.twist/dotfiles".to_vec());
}

#[test]
fn test_resolve_file_paths_no_include_root() {
    let paths = Paths::new_with_home_dir(&b"/home/user/.twist".to_vec(), &b"/home/user".to_vec());
    assert_eq!(
        paths.resolve_file_paths(&b"/home/user/.twist/dotfiles/file".to_vec()),
        None
    );
}

#[test]
fn path_test_resolve_file_paths_no_include_root() {
    let paths = Paths::new_with_home_dir(&b"/home/user/.twist".to_vec(), &b"/home/user".to_vec());
    assert_eq!(
        paths.resolve_file_paths(&b"/home/user/.twist/dotfiles/file".to_vec()),
        None
    );
}

#[test]
fn test_avoid_self_referential_paths() {
    let paths = Paths::new_with_home_dir(&b"/home/user/.twist".to_vec(), &b"/home/user".to_vec());
    assert_eq!(paths.file_path(&b"/home/user/.twist/config.toml".to_vec()), None);
}

#[test]
fn test_resolve_file_paths() {
    let paths = Paths::new_with_home_dir(&b"/home/user/.twist".to_vec(), &b"/home/user".to_vec());

    assert_eq!(
        paths.resolve_file_paths(&b"/home/user/test".to_vec()),
        Some(FilePathInfo {
            full_src_path: b"/home/user/test".to_vec(),
            src_path: b"~/test".to_vec(),
            config_repo_path: b"home/test".to_vec(),
            repo_path: b"dotfiles/home/test".to_vec(),
            full_repo_path: b"/home/user/.twist/dotfiles/home/test".to_vec(),
        })
    );

    assert_eq!(
        paths.resolve_file_paths(&b"/home/user/.zshrc".to_vec()),
        Some(FilePathInfo {
            full_src_path: b"/home/user/.zshrc".to_vec(),
            src_path: b"~/.zshrc".to_vec(),
            config_repo_path: b"home/zshrc".to_vec(),
            repo_path: b"dotfiles/home/zshrc".to_vec(),
            full_repo_path: b"/home/user/.twist/dotfiles/home/zshrc".to_vec(),
        })
    );

    assert_eq!(
        paths.resolve_file_paths(&b"/home/user/.config/starship.toml".to_vec()),
        Some(FilePathInfo {
            full_src_path: b"/home/user/.config/starship.toml".to_vec(),
            src_path: b"~/.config/starship.toml".to_vec(),
            config_repo_path: b"home/config/starship.toml".to_vec(),
            repo_path: b"dotfiles/home/config/starship.toml".to_vec(),
            full_repo_path: b"/home/user/.twist/dotfiles/home/config/starship.toml".to_vec(),
        })
    );

    assert_eq!(
        paths.resolve_file_paths(&b"/usr/etc/config.toml".to_vec()),
        Some(FilePathInfo {
            full_src_path: b"/usr/etc/config.toml".to_vec(),
            src_path: b"/usr/etc/config.toml".to_vec(),
            config_repo_path: b"usr/etc/config.toml".to_vec(),
            repo_path: b"dotfiles/usr/etc/config.toml".to_vec(),
            full_repo_path: b"/home/user/.twist/dotfiles/usr/etc/config.toml".to_vec(),
        })
    )
}

#[test]
fn test_resolve_file_paths_from_config_paths() {
    let paths = Paths::new_with_home_dir(&b"/home/user/.twist".to_vec(), &b"/home/user".to_vec());

    assert_eq!(
        paths.resolve_file_paths_from_config_paths(
            &b"~/.config/starship.toml".to_vec(),
            &b"home/config/starship.toml".to_vec()
        ),
        FilePathInfo {
            full_src_path: b"/home/user/.config/starship.toml".to_vec(),
            src_path: b"~/.config/starship.toml".to_vec(),
            config_repo_path: b"home/config/starship.toml".to_vec(),
            repo_path: b"dotfiles/home/config/starship.toml".to_vec(),
            full_repo_path: b"/home/user/.twist/dotfiles/home/config/starship.toml".to_vec(),
        }
    );

    assert_eq!(
        paths.resolve_file_paths_from_config_paths(
            &b"/etc/nginx/nginx.conf".to_vec(),
            &b"etc/nginx/nginx.conf".to_vec()
        ),
        FilePathInfo {
            full_src_path: b"/etc/nginx/nginx.conf".to_vec(),
            src_path: b"/etc/nginx/nginx.conf".to_vec(),
            config_repo_path: b"etc/nginx/nginx.conf".to_vec(),
            repo_path: b"dotfiles/etc/nginx/nginx.conf".to_vec(),
            full_repo_path: b"/home/user/.twist/dotfiles/etc/nginx/nginx.conf".to_vec(),
        }
    );
}

#[test]
fn test_resolve_dir_paths() {
    let paths = Paths::new_with_home_dir(&b"/home/user/.twist".to_vec(), &b"/home/user".to_vec());

    assert_eq!(
        paths.resolve_dir_paths(&b"/home/user/test".to_vec()),
        Some(DirPathInfo {
            full_src_path: b"/home/user/test".to_vec(),
            src_path: b"~/test".to_vec(),
            config_repo_path: b"home/test".to_vec(),
            repo_path: b"dotfiles/home/test".to_vec(),
            full_repo_path: b"/home/user/.twist/dotfiles/home/test".to_vec(),
            full_parent_repo_path: b"/home/user/.twist/dotfiles/home".to_vec(),
        })
    );

    assert_eq!(
        paths.resolve_dir_paths(&b"/etc/nginx".to_vec()),
        Some(DirPathInfo {
            full_src_path: b"/etc/nginx".to_vec(),
            src_path: b"/etc/nginx".to_vec(),
            config_repo_path: b"etc/nginx".to_vec(),
            repo_path: b"dotfiles/etc/nginx".to_vec(),
            full_repo_path: b"/home/user/.twist/dotfiles/etc/nginx".to_vec(),
            full_parent_repo_path: b"/home/user/.twist/dotfiles/etc".to_vec(),
        })
    );

    assert_eq!(
        paths.resolve_dir_paths(&b"/home/user/.ssh".to_vec()),
        Some(DirPathInfo {
            full_src_path: b"/home/user/.ssh".to_vec(),
            src_path: b"~/.ssh".to_vec(),
            config_repo_path: b"home/ssh".to_vec(),
            repo_path: b"dotfiles/home/ssh".to_vec(),
            full_repo_path: b"/home/user/.twist/dotfiles/home/ssh".to_vec(),
            full_parent_repo_path: b"/home/user/.twist/dotfiles/home".to_vec(),
        })
    );
}

#[test]
fn test_resolve_dir_paths_from_config_paths() {
    let paths = Paths::new_with_home_dir(&b"/home/user/.twist".to_vec(), &b"/home/user".to_vec());

    assert_eq!(
        paths.resolve_dir_paths_from_config_paths(&b"~/test".to_vec(), &b"home/test".to_vec()),
        DirPathInfo {
            full_src_path: b"/home/user/test".to_vec(),
            src_path: b"~/test".to_vec(),
            config_repo_path: b"home/test".to_vec(),
            repo_path: b"dotfiles/home/test".to_vec(),
            full_repo_path: b"/home/user/.twist/dotfiles/home/test".to_vec(),
            full_parent_repo_path: b"/home/user/.twist/dotfiles/home".to_vec(),
        }
    );

    assert_eq!(
        paths.resolve_dir_paths_from_config_paths(&b"/etc/nginx".to_vec(), &b"etc/nginx".to_vec()),
        DirPathInfo {
            full_src_path: b"/etc/nginx".to_vec(),
            src_path: b"/etc/nginx".to_vec(),
            config_repo_path: b"etc/nginx".to_vec(),
            repo_path: b"dotfiles/etc/nginx".to_vec(),
            full_repo_path: b"/home/user/.twist/dotfiles/etc/nginx".to_vec(),
            full_parent_repo_path: b"/home/user/.twist/dotfiles/etc".to_vec(),
        }
    );

    assert_eq!(
        paths.resolve_dir_paths_from_config_paths(&b"~/.ssh".to_vec(), &b"home/ssh".to_vec()),
        DirPathInfo {
            full_src_path: b"/home/user/.ssh".to_vec(),
            src_path: b"~/.ssh".to_vec(),
            config_repo_path: b"home/ssh".to_vec(),
            repo_path: b"dotfiles/home/ssh".to_vec(),
            full_repo_path: b"/home/user/.twist/dotfiles/home/ssh".to_vec(),
            full_parent_repo_path: b"/home/user/.twist/dotfiles/home".to_vec(),
        }
    );
}

#[test]
fn test_simple_home_file_path() {
    let paths = Paths::new_with_home_dir(&b"/home/user/.twist".to_vec(), &b"/home/user".to_vec());
    assert_eq!(
        paths.file_path(&b"~/.zshrc".to_vec()),
        Some(b"/home/user/.twist/dotfiles/home/zshrc".to_vec())
    );

    assert_eq!(
        paths.file_path(&b"~/starship/config.toml".to_vec()),
        Some(b"/home/user/.twist/dotfiles/home/starship/config.toml".to_vec())
    );
}

#[test]
fn test_simple_file_path() {
    let paths = Paths::new_with_home_dir(&b"/home/user/.twist".to_vec(), &b"/home/user".to_vec());
    assert_eq!(
        paths.file_path(&b"/.zshrc".to_vec()),
        Some(b"/home/user/.twist/dotfiles/zshrc".to_vec())
    );

    assert_eq!(
        paths.file_path(&b"/usr/etc/config.toml".to_vec()),
        Some(b"/home/user/.twist/dotfiles/usr/etc/config.toml".to_vec())
    );
}

#[test]
fn resolve_paths_classifies_and_skips_root() {
    let paths = Paths::new_with_home_dir(&b"/home/user/.twist".to_vec(), &b"/home/user".to_vec());
    let cands = vec![
        CandidatePath { path: b"/home/user/.zshrc".to_vec(), kind: PathKind::File },
        CandidatePath { path: b"/home/user/.twist/config.toml".to_vec(), kind: PathKind::File },
        CandidatePath { path: b"/etc/nginx".to_vec(), kind: PathKind::Dir },
        CandidatePath { path: b"/home/user/gone".to_vec(), kind: PathKind::Missing },
    ];
    let (files, dirs) = paths.resolve_paths(&cands);
    assert_eq!(files.len(), 1);
    assert_eq!(files[0].src_path, b"~/.zshrc".to_vec());
    assert_eq!(dirs.len(), 1);
    assert_eq!(dirs[0].src_path, b"/etc/nginx".to_vec());
}

#[test]
fn parent_of_drops_the_last_component() {
    assert_eq!(
        twist::paths::parent_of(&b"/home/user/.twist/dotfiles/home/zshrc".to_vec()),
        b"/home/user/.twist/dotfiles/home".to_vec()
    );
    assert_eq!(twist::paths::parent_of(&b"home/zshrc".to_vec()), b"home".to_vec());
}
