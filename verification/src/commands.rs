//! The command layer's data and decisions: the arguments each command
//! receives, the typed errors of unimplemented commands, the root
//! directory choice, and the filtering of arguments handed to a raw git
//! invocation.

use vstd::prelude::*;

verus! {

/// Arguments of the raw git pass-through command.
#[derive(Debug)]
pub struct ExecGitArgs {
    pub root_dir: Vec<u8>,
    pub args: Vec<Vec<u8>>,
}

/// Arguments of the command that tracks new files and directories.
#[derive(Debug)]
pub struct AddFilesArgs {
    pub root_dir: Vec<u8>,
    pub profile: String,
    pub message: Option<String>,
    pub paths: Vec<Vec<u8>>,
}

/// Arguments of the command that untracks files and directories.
#[derive(Debug)]
pub struct RemoveFilesArgs {
    pub root_dir: Vec<u8>,
    pub profile: String,
    pub message: Option<String>,
    pub paths: Vec<Vec<u8>>,
}

/// Arguments of the command that refreshes every tracked entry.
#[derive(Debug)]
pub struct UpdateRepositoryArgs {
    pub root_dir: Vec<u8>,
    pub profile: String,
    pub message: Option<String>,
}

/// Arguments of the command that applies the mirror back to the system.
#[derive(Debug)]
pub struct ApplyFilesArgs {
    pub root_dir: Vec<u8>,
    pub profile: String,
}

/// Arguments of the command that initialises a fresh managed root.
#[derive(Debug)]
pub struct InitArgs {
    pub root_dir: Vec<u8>,
    pub profile: String,
}

/// Arguments of the command that pulls from a remote.
#[derive(Debug)]
pub struct PullFromRemoteArgs {
    pub root_dir: Vec<u8>,
    pub profile: String,
}

/// Arguments of the command that pushes to a remote.
#[derive(Debug)]
pub struct PushToRemoteArgs {
    pub root_dir: Vec<u8>,
    pub profile: String,
}

/// The typed failure of a feature that is a stub: never a panic.
#[derive(Debug, PartialEq, Eq)]
pub enum CommandError {
    NotImplemented,
}

impl CommandError {
    /// What went wrong, in words.
    pub fn message(&self) -> (r: &'static str)
        ensures
            r@ == "not implemented"@,
    {
        "not implemented"
    }
}

/// Applying the mirror to the system is not implemented; the command
/// fails with the typed error on every input.
pub fn apply_files(args: ApplyFilesArgs) -> (r: Result<(), CommandError>)
    ensures
        r == Err::<(), CommandError>(CommandError::NotImplemented),
{
    let _ = args;
    Err(CommandError::NotImplemented)
}

/// Pulling from a remote is not implemented; the command fails with the
/// typed error on every input.
pub fn pull_from_remote(args: PullFromRemoteArgs) -> (r: Result<(), CommandError>)
    ensures
        r == Err::<(), CommandError>(CommandError::NotImplemented),
{
    let _ = args;
    Err(CommandError::NotImplemented)
}

/// Pushing to a remote is not implemented; the command fails with the
/// typed error on every input.
pub fn push_to_remote(args: PushToRemoteArgs) -> (r: Result<(), CommandError>)
    ensures
        r == Err::<(), CommandError>(CommandError::NotImplemented),
{
    let _ = args;
    Err(CommandError::NotImplemented)
}

/// A failure to choose the managed root directory.
#[derive(Debug, PartialEq, Eq)]
pub enum RootDirError {
    HomeDirNotFound,
    NotADirectory(Vec<u8>),
}

/// The default root directory's name under the home directory, `.twist`.
pub open spec fn root_dir_name() -> Seq<u8> {
    seq![46u8, 116u8, 119u8, 105u8, 115u8, 116u8]
}

/// The managed root to use: an explicit override wins; otherwise the
/// fixed directory under the home directory; with no home directory to
/// fall back on, the choice fails.
pub fn root_dir(root_dir_override: Option<Vec<u8>>, home_dir: Option<&Vec<u8>>) -> (r: Result<
    Vec<u8>,
    RootDirError,
>)
    ensures
        root_dir_override matches Some(p) ==> r == Ok::<Vec<u8>, RootDirError>(p),
        (root_dir_override is None && home_dir is Some) ==> (r matches Ok(d) && d@ == (
        home_dir->Some_0)@ + seq![crate::paths::SEP] + root_dir_name()),
        (root_dir_override is None && home_dir is None) ==> r == Err::<Vec<u8>, RootDirError>(
            RootDirError::HomeDirNotFound,
        ),
{
    match root_dir_override {
        Some(p) => Ok(p),
        None => match home_dir {
            Some(h) => {
                let mut d = crate::paths::copy_bytes(h);
                d.push(crate::paths::SEP);
                d.push(46);
                d.push(116);
                d.push(119);
                d.push(105);
                d.push(115);
                d.push(116);
                proof {
                    assert(d@ =~= h@ + seq![crate::paths::SEP] + root_dir_name());
                }
                Ok(d)
            },
            None => Err(RootDirError::HomeDirNotFound),
        },
    }
}

/// Whether a chosen root is usable: a missing root is fine (it will be
/// created), an existing directory is fine, anything else that exists in
/// its place is fatal.
pub fn check_root_dir(root: Vec<u8>, exists: bool, is_dir: bool) -> (r: Result<
    Vec<u8>,
    RootDirError,
>)
    ensures
        ((!exists) || is_dir) ==> (r matches Ok(d) && d@ == root@),
        (exists && (!is_dir)) ==> (r matches Err(e) && e == RootDirError::NotADirectory(root)),
{
    if exists && !is_dir {
        Err(RootDirError::NotADirectory(root))
    } else {
        Ok(root)
    }
}

/// A failure to set up logging.
#[derive(Debug, PartialEq, Eq)]
pub enum LoggingError {
    InitFailed,
}

impl LoggingError {
    /// What went wrong, in words.
    pub fn message(&self) -> (r: &'static str)
        ensures
            r@ == "failed to initialize logging"@,
    {
        "failed to initialize logging"
    }
}

/// The flag that changes git's working directory, `-C`.
pub open spec fn cwd_flag() -> Seq<u8> {
    seq![45u8, 67u8]
}

/// The flag that changes git's repository directory, `--git-dir`.
pub open spec fn git_dir_flag() -> Seq<u8> {
    seq![45u8, 45u8, 103u8, 105u8, 116u8, 45u8, 100u8, 105u8, 114u8]
}

/// The flag that changes git's work tree, `--work-tree`.
pub open spec fn work_tree_flag() -> Seq<u8> {
    seq![45u8, 45u8, 119u8, 111u8, 114u8, 107u8, 45u8, 116u8, 114u8, 101u8, 101u8]
}

/// An argument the pass-through must not forward: it would redirect git
/// away from the managed root.
pub open spec fn is_blocked_flag(a: Seq<u8>) -> bool {
    a == cwd_flag() || a == git_dir_flag() || a == work_tree_flag()
}

/// The arguments that remain once every blocked flag is dropped together
/// with the argument that follows it.
pub open spec fn spec_safe_args(s: Seq<Seq<u8>>) -> Seq<Seq<u8>>
    decreases s.len(),
{
    if s.len() == 0 {
        Seq::<Seq<u8>>::empty()
    } else if is_blocked_flag(s[0]) {
        if s.len() >= 2 {
            spec_safe_args(s.skip(2))
        } else {
            Seq::<Seq<u8>>::empty()
        }
    } else {
        seq![s[0]] + spec_safe_args(s.skip(1))
    }
}

/// Whether `a` is one of the blocked flags.
fn arg_is_blocked(a: &Vec<u8>) -> (r: bool)
    ensures
        r == is_blocked_flag(a@),
{
    let is_cwd = a.len() == 2 && a[0] == 45 && a[1] == 67;
    proof {
        if is_cwd {
            assert(a@ =~= cwd_flag());
        } else if a@ == cwd_flag() {
            assert(a@.len() == 2 && a@[0] == 45 && a@[1] == 67);
        }
    }
    if is_cwd {
        return true;
    }
    let is_git_dir = a.len() == 9 && a[0] == 45 && a[1] == 45 && a[2] == 103 && a[3] == 105 && a[4]
        == 116 && a[5] == 45 && a[6] == 100 && a[7] == 105 && a[8] == 114;
    proof {
        if is_git_dir {
            assert(a@ =~= git_dir_flag());
        } else if a@ == git_dir_flag() {
            assert(a@.len() == 9 && a@[0] == 45 && a@[1] == 45 && a@[2] == 103 && a@[3] == 105
                && a@[4] == 116 && a@[5] == 45 && a@[6] == 100 && a@[7] == 105 && a@[8] == 114);
        }
    }
    if is_git_dir {
        return true;
    }
    let is_work_tree = a.len() == 11 && a[0] == 45 && a[1] == 45 && a[2] == 119 && a[3] == 111
        && a[4] == 114 && a[5] == 107 && a[6] == 45 && a[7] == 116 && a[8] == 114 && a[9] == 101
        && a[10] == 101;
    proof {
        if is_work_tree {
            assert(a@ =~= work_tree_flag());
        } else if a@ == work_tree_flag() {
            assert(a@.len() == 11 && a@[0] == 45 && a@[1] == 45 && a@[2] == 119 && a@[3] == 111
                && a@[4] == 114 && a@[5] == 107 && a@[6] == 45 && a@[7] == 116 && a@[8] == 114
                && a@[9] == 101 && a@[10] == 101);
        }
    }
    is_work_tree
}

/// The arguments safe to hand to a raw git invocation: every blocked flag
/// is dropped together with the argument that follows it, everything
/// else is kept in order.
pub fn safe_git_args(args: &Vec<Vec<u8>>) -> (r: Vec<Vec<u8>>)
    ensures
        r.deep_view() == spec_safe_args(args.deep_view()),
{
    let ghost all = args.deep_view();
    let mut out: Vec<Vec<u8>> = Vec::new();
    let mut i: usize = 0;
    proof {
        assert(all.skip(0) =~= all);
        assert(out.deep_view() + spec_safe_args(all.skip(0)) =~= spec_safe_args(all));
    }
    while i < args.len()
        invariant
            i <= args@.len(),
            all == args.deep_view(),
            all.len() == args@.len(),
            out.deep_view() + spec_safe_args(all.skip(i as int)) == spec_safe_args(all),
        decreases args@.len() - i,
    {
        let a = &args[i];
        proof {
            assert(all.skip(i as int)[0] == all[i as int]);
            assert(all[i as int] =~= a@);
        }
        if arg_is_blocked(a) {
            proof {
                if all.skip(i as int).len() >= 2 {
                    assert(all.skip(i as int).skip(2) =~= all.skip(i + 2));
                } else {
                    assert(spec_safe_args(all.skip(i as int)) =~= Seq::<Seq<u8>>::empty());
                }
            }
            if i + 1 < args.len() {
                i += 2;
            } else {
                i += 1;
                proof {
                    assert(all.skip(i as int) =~= Seq::<Seq<u8>>::empty());
                }
            }
        } else {
            let ghost before = out.deep_view();
            out.push(crate::paths::copy_bytes(a));
            proof {
                assert(out.deep_view() =~~= before.push(all[i as int]));
                assert(all.skip(i as int).skip(1) =~= all.skip(i + 1));
                assert(out.deep_view() + spec_safe_args(all.skip(i + 1)) =~= before + (seq![
                    all[i as int],
                ] + spec_safe_args(all.skip(i + 1))));
            }
            i += 1;
        }
    }
    proof {
        assert(all.skip(all.len() as int) =~= Seq::<Seq<u8>>::empty());
        assert(spec_safe_args(all.skip(args@.len() as int)) =~= Seq::<Seq<u8>>::empty());
        assert(out.deep_view() + Seq::<Seq<u8>>::empty() =~= out.deep_view());
    }
    out
}

} // verus!
