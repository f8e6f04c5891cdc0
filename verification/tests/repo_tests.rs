use std::io::Write;

use twist::paths::Paths;
use twist::repo::resolve_committer;
use twist::repo::CommitOutcome;
use twist::repo::CommitPlan;
use twist::repo::DeltaInfo;
use twist::repo::DeltaKind;
use twist::repo::GitRepository;
use twist::repo::StageOp;

fn temp_paths(dir: &tempfile::TempDir) -> Paths {
    let root = dir.path().to_str().unwrap().as_bytes().to_vec();
    Paths::new_with_home_dir(&root, &b"/home/user".to_vec())
}

#[test]
fn committer_defaults_when_config_is_silent() {
    let c = resolve_committer(None, None);
    assert_eq!(c.name, "Twist");
    assert_eq!(c.email, "twist@example.com");

    let c = resolve_committer(Some("A. Person".to_string()), None);
    assert_eq!(c.name, "A. Person");
    assert_eq!(c.email, "twist@example.com");
}

#[test]
fn commit_action_is_empty_only_for_no_deltas() {
    let none: Vec<DeltaInfo> = Vec::new();
    assert!(matches!(twist::repo::commit_action(&none), CommitPlan::NoChanges));

    let deltas = vec![
        DeltaInfo {
            kind: DeltaKind::Untracked,
            old_path: None,
            new_path: Some(b"dotfiles/home/zshrc".to_vec()),
        },
        DeltaInfo {
            kind: DeltaKind::Deleted,
            old_path: Some(b"dotfiles/home/old".to_vec()),
            new_path: None,
        },
        DeltaInfo { kind: DeltaKind::Other, old_path: None, new_path: None },
    ];
    match twist::repo::commit_action(&deltas) {
        CommitPlan::NoChanges => panic!("deltas must be staged"),
        CommitPlan::Apply(ops) => {
            assert_eq!(ops.len(), 2);
            assert!(matches!(&ops[0], StageOp::Stage(p) if p == &b"dotfiles/home/zshrc".to_vec()));
            assert!(
                matches!(&ops[1], StageOp::Unstage(p) if p == &b"dotfiles/home/old".to_vec())
            );
        },
    }
}

#[test]
fn no_op_commit_writes_nothing() {
    let dir = tempfile::tempdir().unwrap();
    let paths = temp_paths(&dir);
    let repo = GitRepository::open(&paths, "main").unwrap();

    // Fresh repository, empty working directory: nothing to commit.
    assert_eq!(repo.commit("first"), Ok(CommitOutcome::NoChanges));

    let mut file = tempfile::Builder::new()
        .prefix("mirrored")
        .rand_bytes(4)
        .tempfile_in(dir.path())
        .unwrap();
    file.write_all(b"content\n").unwrap();

    assert_eq!(repo.commit("first"), Ok(CommitOutcome::Committed));

    // Bit-identical working directory: zero git mutations, success, and no
    // new commit.
    let raw = git2::Repository::open(dir.path()).unwrap();
    let tip_before = raw.head().unwrap().peel_to_commit().unwrap().id();
    assert_eq!(repo.commit("again"), Ok(CommitOutcome::NoChanges));
    let tip_after = raw.head().unwrap().peel_to_commit().unwrap().id();
    assert_eq!(tip_before, tip_after);
}

#[test]
fn profile_switch_creates_branch_at_head() {
    let dir = tempfile::tempdir().unwrap();
    let paths = temp_paths(&dir);
    let repo = GitRepository::open(&paths, "main").unwrap();

    let mut file = tempfile::Builder::new()
        .prefix("base")
        .rand_bytes(4)
        .tempfile_in(dir.path())
        .unwrap();
    file.write_all(b"base\n").unwrap();
    assert_eq!(repo.commit("base"), Ok(CommitOutcome::Committed));

    let raw = git2::Repository::open(dir.path()).unwrap();
    let main_tip = raw.head().unwrap().peel_to_commit().unwrap().id();
    assert!(raw.find_branch("work", git2::BranchType::Local).is_err());

    repo.switch_profile("work").unwrap();

    // The branch now exists, points at the old HEAD, and is current.
    let work = raw.find_branch("work", git2::BranchType::Local).unwrap();
    assert_eq!(work.get().peel_to_commit().unwrap().id(), main_tip);
    assert_eq!(raw.head().unwrap().name().unwrap(), "refs/heads/work");

    // A later commit lands on the new branch, parented on the old tip.
    let mut second = tempfile::Builder::new()
        .prefix("ontop")
        .rand_bytes(4)
        .tempfile_in(dir.path())
        .unwrap();
    second.write_all(b"more\n").unwrap();
    assert_eq!(repo.commit("on work"), Ok(CommitOutcome::Committed));

    let work_tip = raw.head().unwrap().peel_to_commit().unwrap();
    assert_eq!(raw.head().unwrap().name().unwrap(), "refs/heads/work");
    assert_eq!(work_tip.parent(0).unwrap().id(), main_tip);
    let main_branch = raw.find_branch("main", git2::BranchType::Local).unwrap();
    assert_eq!(main_branch.get().peel_to_commit().unwrap().id(), main_tip);
}

#[test]
fn switching_to_the_current_branch_is_a_no_op() {
    let dir = tempfile::tempdir().unwrap();
    let paths = temp_paths(&dir);
    let repo = GitRepository::open(&paths, "main").unwrap();

    let mut file = tempfile::Builder::new()
        .prefix("one")
        .rand_bytes(4)
        .tempfile_in(dir.path())
        .unwrap();
    file.write_all(b"one\n").unwrap();
    assert_eq!(repo.commit("one"), Ok(CommitOutcome::Committed));

    repo.switch_profile("main").unwrap();
    let raw = git2::Repository::open(dir.path()).unwrap();
    assert_eq!(raw.head().unwrap().name().unwrap(), "refs/heads/main");
}

#[test]
fn an_unusable_profile_name_is_a_switch_failure() {
    let dir = tempfile::tempdir().unwrap();
    let paths = temp_paths(&dir);
    let repo = GitRepository::open(&paths, "main").unwrap();

    let mut file = tempfile::Builder::new()
        .prefix("seed")
        .rand_bytes(4)
        .tempfile_in(dir.path())
        .unwrap();
    file.write_all(b"seed\n").unwrap();
    assert_eq!(repo.commit("seed"), Ok(CommitOutcome::Committed));

    // "a..b" is not a valid reference name, so the branch cannot be
    // created; the failure is reported under its own variant.
    match repo.switch_profile("a..b") {
        Err(twist::repo::RepoError::SwitchProfile(_)) => {},
        other => panic!("expected a switch failure, got {:?}", other),
    }
}

#[test]
fn ignore_file_is_only_written_when_absent() {
    assert_eq!(twist::repo::ignore_file_action(true), None);
    let content = twist::repo::ignore_file_action(false).unwrap();
    assert_eq!(content, b".DS_Store\n".to_vec());
}

#[test]
fn branch_ref_names_live_under_heads() {
    assert_eq!(twist::repo::branch_ref_name("work"), "refs/heads/work");
}
