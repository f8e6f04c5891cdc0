use twist::commands::ApplyFilesArgs;
use twist::commands::CommandError;
use twist::commands::PullFromRemoteArgs;
use twist::commands::PushToRemoteArgs;
use twist::commands::RootDirError;

#[test]
fn test_safe_args() {
    let args = vec![
        b"-C".to_vec(),
        b"c-arg".to_vec(),
        b"--git-dir".to_vec(),
        b"git-dir".to_vec(),
        b"--work-tree".to_vec(),
        b"work-tree".to_vec(),
        b"--bare".to_vec(),
        b"--no-checkout".to_vec(),
        b"--".to_vec(),
        b"add".to_vec(),
        b"file1".to_vec(),
        b"file2".to_vec(),
    ];

    let safe_args = twist::commands::safe_git_args(&args);

    assert_eq!(
        safe_args,
        vec![
            b"--bare".to_vec(),
            b"--no-checkout".to_vec(),
            b"--".to_vec(),
            b"add".to_vec(),
            b"file1".to_vec(),
            b"file2".to_vec(),
        ]
    );
}

#[test]
fn blocked_flag_at_the_end_drops_nothing_else() {
    let args = vec![b"status".to_vec(), b"--git-dir".to_vec()];
    assert_eq!(twist::commands::safe_git_args(&args), vec![b"status".to_vec()]);
}

#[test]
fn stubs_fail_with_a_typed_error() {
    let pull = twist::commands::pull_from_remote(PullFromRemoteArgs {
        root_dir: b"/home/user/.twist".to_vec(),
        profile: "main".to_string(),
    });
    assert_eq!(pull, Err(CommandError::NotImplemented));

    let push = twist::commands::push_to_remote(PushToRemoteArgs {
        root_dir: b"/home/user/.twist".to_vec(),
        profile: "main".to_string(),
    });
    assert_eq!(push, Err(CommandError::NotImplemented));

    let apply = twist::commands::apply_files(ApplyFilesArgs {
        root_dir: b"/home/user/.twist".to_vec(),
        profile: "main".to_string(),
    });
    assert_eq!(apply, Err(CommandError::NotImplemented));
    assert_eq!(CommandError::NotImplemented.message(), "not implemented");
}

#[test]
fn root_dir_prefers_the_override() {
    let chosen = twist::commands::root_dir(
        Some(b"/srv/dotfiles".to_vec()),
        Some(&b"/home/user".to_vec()),
    );
    assert_eq!(chosen, Ok(b"/srv/dotfiles".to_vec()));

    let fallback = twist::commands::root_dir(None, Some(&b"/home/user".to_vec()));
    assert_eq!(fallback, Ok(b"/home/user/.twist".to_vec()));

    let neither = twist::commands::root_dir(None, None);
    assert_eq!(neither, Err(RootDirError::HomeDirNotFound));
}

#[test]
fn an_occupied_root_that_is_no_directory_is_fatal() {
    let ok = twist::commands::check_root_dir(b"/home/user/.twist".to_vec(), false, false);
    assert_eq!(ok, Ok(b"/home/user/.twist".to_vec()));

    let ok = twist::commands::check_root_dir(b"/home/user/.twist".to_vec(), true, true);
    assert_eq!(ok, Ok(b"/home/user/.twist".to_vec()));

    let bad = twist::commands::check_root_dir(b"/home/user/.twist".to_vec(), true, false);
    assert_eq!(
        bad,
        Err(RootDirError::NotADirectory(b"/home/user/.twist".to_vec()))
    );
}
