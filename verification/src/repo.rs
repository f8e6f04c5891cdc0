//! The version-control engine: opens or initialises the backing git
//! repository at the managed root, resolves a committer identity, switches
//! between per-profile branches, and commits snapshots.
//!
//! Staging is diff-based: the changes between the last commit's tree and
//! the working directory decide what is staged or unstaged, and a commit
//! is skipped entirely when nothing changed. Every call into git happens
//! through a trusted wrapper; all decisions around the calls are verified.

use vstd::prelude::*;

use crate::paths::Paths;

verus! {

#[verifier::external_type_specification]
#[verifier::external_body]
pub struct ExGitRepository(git2::Repository);

#[verifier::external_type_specification]
#[verifier::external_body]
pub struct ExGitError(git2::Error);

#[verifier::external_type_specification]
#[verifier::external_body]
pub struct ExGitConfig(git2::Config);

#[verifier::external_type_specification]
#[verifier::external_body]
pub struct ExGitCommit<'a>(git2::Commit<'a>);

#[verifier::external_type_specification]
#[verifier::external_body]
pub struct ExGitTree<'a>(git2::Tree<'a>);

#[verifier::external_type_specification]
#[verifier::external_body]
pub struct ExGitOid(git2::Oid);

#[verifier::external_type_specification]
#[verifier::external_body]
pub struct ExGitIndex(git2::Index);

#[verifier::external_type_specification]
#[verifier::external_body]
pub struct ExGitSignature<'a>(git2::Signature<'a>);

#[verifier::external_type_specification]
#[verifier::external_body]
pub struct ExGitDelta(git2::Delta);

/// The committer identity recorded on every commit: name and email,
/// resolved once per repository open.
#[derive(Debug)]
pub struct Committer {
    pub name: String,
    pub email: String,
}

/// What `commit` did: nothing, because the working directory matched the
/// last commit's tree, or one new commit.
#[derive(Debug, PartialEq, Eq)]
pub enum CommitOutcome {
    NoChanges,
    Committed,
}

/// The status of one changed path, as the diff reports it.
#[derive(Debug, PartialEq, Eq, Clone, Copy)]
pub enum DeltaKind {
    Added,
    Copied,
    Modified,
    Renamed,
    Untracked,
    Unmodified,
    Deleted,
    Other,
}

/// One changed path between the last commit's tree and the working
/// directory.
#[derive(Debug)]
pub struct DeltaInfo {
    pub kind: DeltaKind,
    pub old_path: Option<Vec<u8>>,
    pub new_path: Option<Vec<u8>>,
}

/// The mathematical content of a [`DeltaInfo`].
pub struct DeltaV {
    pub kind: DeltaKind,
    pub old_path: Option<Seq<u8>>,
    pub new_path: Option<Seq<u8>>,
}

impl View for DeltaInfo {
    type V = DeltaV;

    open spec fn view(&self) -> DeltaV {
        DeltaV {
            kind: self.kind,
            old_path: match self.old_path {
                Some(ref p) => Some(p@),
                None => None,
            },
            new_path: match self.new_path {
                Some(ref p) => Some(p@),
                None => None,
            },
        }
    }
}

/// One index operation of a commit plan.
#[derive(Debug)]
pub enum StageOp {
    Stage(Vec<u8>),
    Unstage(Vec<u8>),
}

/// The mathematical content of a [`StageOp`].
pub enum StageOpV {
    Stage(Seq<u8>),
    Unstage(Seq<u8>),
}

impl View for StageOp {
    type V = StageOpV;

    open spec fn view(&self) -> StageOpV {
        match self {
            StageOp::Stage(p) => StageOpV::Stage(p@),
            StageOp::Unstage(p) => StageOpV::Unstage(p@),
        }
    }
}

/// What the engine owes the index for one delta: additions, copies,
/// modifications, renames and untracked files are staged under their new
/// path; deletions are unstaged under their old path; anything else is
/// left alone, as is a delta whose path the diff did not report.
pub open spec fn spec_stage_op(d: DeltaV) -> Option<StageOpV> {
    match d.kind {
        DeltaKind::Deleted => match d.old_path {
            Some(p) => Some(StageOpV::Unstage(p)),
            None => None,
        },
        DeltaKind::Other => None,
        _ => match d.new_path {
            Some(p) => Some(StageOpV::Stage(p)),
            None => None,
        },
    }
}

/// The index operations a delta list demands, in order.
pub open spec fn spec_plan(ds: Seq<DeltaV>) -> Seq<StageOpV>
    decreases ds.len(),
{
    if ds.len() == 0 {
        Seq::<StageOpV>::empty()
    } else {
        (match spec_stage_op(ds[0]) {
            Some(op) => seq![op],
            None => Seq::<StageOpV>::empty(),
        }) + spec_plan(ds.drop_first())
    }
}

/// One more delta appends its operation, if it has one.
pub proof fn lemma_spec_plan_push(ds: Seq<DeltaV>, d: DeltaV)
    ensures
        spec_plan(ds.push(d)) == spec_plan(ds) + (match spec_stage_op(d) {
            Some(op) => seq![op],
            None => Seq::<StageOpV>::empty(),
        }),
    decreases ds.len(),
{
    if ds.len() == 0 {
        assert(ds.push(d)[0] == d);
        assert(ds.push(d).drop_first() =~= Seq::<DeltaV>::empty());
        assert(spec_plan(ds.push(d).drop_first()) =~= Seq::<StageOpV>::empty());
        assert(spec_plan(ds.push(d)) =~= spec_plan(ds) + (match spec_stage_op(d) {
            Some(op) => seq![op],
            None => Seq::<StageOpV>::empty(),
        }));
    } else {
        assert(ds.push(d)[0] == ds[0]);
        assert(ds.push(d).drop_first() =~= ds.drop_first().push(d));
        lemma_spec_plan_push(ds.drop_first(), d);
        assert(spec_plan(ds.push(d)) =~= spec_plan(ds) + (match spec_stage_op(d) {
            Some(op) => seq![op],
            None => Seq::<StageOpV>::empty(),
        }));
    }
}

/// What `commit` decides to do, before it touches the index.
#[derive(Debug)]
pub enum CommitPlan {
    NoChanges,
    Apply(Vec<StageOp>),
}

/// The commit decision for a delta list: no deltas means no commit at all,
/// otherwise exactly the operations the deltas demand, in order.
pub fn commit_action(deltas: &Vec<DeltaInfo>) -> (r: CommitPlan)
    ensures
        r is NoChanges <==> deltas@.len() == 0,
        r matches CommitPlan::Apply(ops) ==> ops@.map_values(|op: StageOp| op@) == spec_plan(
            deltas@.map_values(|d: DeltaInfo| d@),
        ),
{
    let ghost dv = deltas@.map_values(|d: DeltaInfo| d@);
    if deltas.len() == 0 {
        return CommitPlan::NoChanges;
    }
    let mut ops: Vec<StageOp> = Vec::new();
    let mut i: usize = 0;
    proof {
        assert(dv.subrange(0, 0) =~= Seq::<DeltaV>::empty());
        assert(ops@.map_values(|op: StageOp| op@) =~= spec_plan(dv.subrange(0, 0)));
    }
    while i < deltas.len()
        invariant
            i <= deltas@.len(),
            dv == deltas@.map_values(|d: DeltaInfo| d@),
            dv.len() == deltas@.len(),
            ops@.map_values(|op: StageOp| op@) == spec_plan(dv.subrange(0, i as int)),
        decreases deltas@.len() - i,
    {
        let d = &deltas[i];
        let ghost before = ops@.map_values(|op: StageOp| op@);
        proof {
            assert(dv.subrange(0, i + 1) =~= dv.subrange(0, i as int).push(dv[i as int]));
            lemma_spec_plan_push(dv.subrange(0, i as int), dv[i as int]);
            assert(dv[i as int] == d@);
        }
        match d.kind {
            DeltaKind::Deleted => {
                match &d.old_path {
                    Some(p) => {
                        ops.push(StageOp::Unstage(crate::paths::copy_bytes(p)));
                        proof {
                            assert(ops@.map_values(|op: StageOp| op@) =~= before.push(
                                StageOpV::Unstage(p@),
                            ));
                        }
                    },
                    None => {},
                }
            },
            DeltaKind::Other => {},
            _ => {
                match &d.new_path {
                    Some(p) => {
                        ops.push(StageOp::Stage(crate::paths::copy_bytes(p)));
                        proof {
                            assert(ops@.map_values(|op: StageOp| op@) =~= before.push(
                                StageOpV::Stage(p@),
                            ));
                        }
                    },
                    None => {},
                }
            },
        }
        proof {
            assert(ops@.map_values(|op: StageOp| op@) =~= spec_plan(dv.subrange(0, i + 1)));
        }
        i += 1;
    }
    proof {
        assert(dv.subrange(0, dv.len() as int) =~= dv);
    }
    CommitPlan::Apply(ops)
}

/// The default committer name when the git configuration has none.
pub open spec fn default_committer_name() -> Seq<char> {
    "Twist"@
}

/// The default committer email when the git configuration has none.
pub open spec fn default_committer_email() -> Seq<char> {
    "twist@example.com"@
}

/// The committer identity for a repository: the configured name and email
/// where the configuration has them, fixed defaults where it does not.
pub fn resolve_committer(name: Option<String>, email: Option<String>) -> (c: Committer)
    ensures
        c.name@ == match name {
            Some(n) => n@,
            None => default_committer_name(),
        },
        c.email@ == match email {
            Some(e) => e@,
            None => default_committer_email(),
        },
{
    let name = match name {
        Some(n) => n,
        None => String::from_str("Twist"),
    };
    let email = match email {
        Some(e) => e,
        None => String::from_str("twist@example.com"),
    };
    Committer { name, email }
}

/// The full reference name of a profile's local branch.
pub fn branch_ref_name(profile: &str) -> (r: String)
    ensures
        r@ == "refs/heads/"@ + profile@,
{
    let mut s = String::from_str("refs/heads/");
    s.append(profile);
    s
}

/// What a profile switch must do: use the branch if it exists; create it
/// at the current HEAD commit if there is one; on a repository with no
/// commits yet, defer — the first commit establishes HEAD on the initial
/// branch.
#[derive(Debug, PartialEq, Eq)]
pub enum SwitchAction {
    UseExisting,
    CreateAtHead,
    Defer,
}

pub open spec fn spec_plan_switch(branch_exists: bool, has_head: bool) -> SwitchAction {
    if branch_exists {
        SwitchAction::UseExisting
    } else if has_head {
        SwitchAction::CreateAtHead
    } else {
        SwitchAction::Defer
    }
}

/// The profile-switch decision; see [`SwitchAction`]. Switching to a name
/// whose branch exists never creates anything, and a name with no branch
/// is created exactly when the repository has a HEAD commit to point it
/// at.
pub fn plan_switch(branch_exists: bool, has_head: bool) -> (r: SwitchAction)
    ensures
        r == spec_plan_switch(branch_exists, has_head),
{
    if branch_exists {
        SwitchAction::UseExisting
    } else if has_head {
        SwitchAction::CreateAtHead
    } else {
        SwitchAction::Defer
    }
}

/// The default ignore-file content written into a fresh managed root.
pub open spec fn default_ignore_name() -> Seq<u8> {
    seq![46u8, 68u8, 83u8, 95u8, 83u8, 116u8, 111u8, 114u8, 101u8, 10u8]
}

/// The default ignore-file content, `.DS_Store` and a newline.
pub fn default_ignore_content() -> (r: Vec<u8>)
    ensures
        r@ == default_ignore_name(),
{
    let mut v: Vec<u8> = Vec::new();
    v.push(46);
    v.push(68);
    v.push(83);
    v.push(95);
    v.push(83);
    v.push(116);
    v.push(111);
    v.push(114);
    v.push(101);
    v.push(10);
    proof {
        assert(v@ =~= default_ignore_name());
    }
    v
}

/// What to write for the ignore file: the default content when none
/// exists, nothing otherwise — an existing ignore file is never
/// overwritten.
pub fn ignore_file_action(exists: bool) -> (r: Option<Vec<u8>>)
    ensures
        exists ==> r is None,
        !exists ==> (r matches Some(c) && c@ == default_ignore_name()),
{
    if exists {
        None
    } else {
        Some(default_ignore_content())
    }
}

/// A failure of the version-control engine, with the message git gave.
#[derive(Debug, PartialEq, Eq)]
pub enum RepoError {
    InitializeGit(String),
    SwitchProfile(String),
    CreateIndex(String),
    Stage(String),
    CommitFailed(String),
}

impl RepoError {
    /// The message of the underlying git failure.
    pub fn message(&self) -> (r: &String)
        ensures
            r@ == match self {
                RepoError::InitializeGit(m) => m@,
                RepoError::SwitchProfile(m) => m@,
                RepoError::CreateIndex(m) => m@,
                RepoError::Stage(m) => m@,
                RepoError::CommitFailed(m) => m@,
            },
    {
        match self {
            RepoError::InitializeGit(m) => m,
            RepoError::SwitchProfile(m) => m,
            RepoError::CreateIndex(m) => m,
            RepoError::Stage(m) => m,
            RepoError::CommitFailed(m) => m,
        }
    }
}

/// Relies on git2::Error::message: the text of a git failure.
#[verifier::external_body]
fn git_error_message(e: &git2::Error) -> String {
    e.message().to_owned()
}

/// Relies on git2::Repository::open: opens an existing repository at the
/// given directory. A root that is not valid text is an error, never a
/// mangled path.
#[verifier::external_body]
fn git_open(root: &Vec<u8>) -> Result<git2::Repository, git2::Error> {
    match String::from_utf8(root.clone()) {
        Ok(p) => git2::Repository::open(std::path::Path::new(&p)),
        Err(_) => Err(git2::Error::from_str("root directory is not valid text")),
    }
}

/// Relies on git2::Repository::init_opts: initialises a repository at the
/// given directory, creating it if need be, with the given initial branch.
#[verifier::external_body]
fn git_init_with_head(root: &Vec<u8>, initial_head: &str) -> Result<
    git2::Repository,
    git2::Error,
> {
    let p = match String::from_utf8(root.clone()) {
        Ok(p) => p,
        Err(_) => return Err(git2::Error::from_str("root directory is not valid text")),
    };
    let mut opts = git2::RepositoryInitOptions::new();
    opts.mkdir(true).initial_head(initial_head);
    git2::Repository::init_opts(std::path::Path::new(&p), &opts)
}

/// Relies on git2::Repository::config: the configuration of the
/// repository.
#[verifier::external_body]
fn git_config(repo: &git2::Repository) -> Result<git2::Config, git2::Error> {
    repo.config()
}

/// Relies on git2::Config::get_string: the value of a configuration key.
#[verifier::external_body]
fn config_get_string(cfg: &git2::Config, key: &str) -> Result<String, git2::Error> {
    cfg.get_string(key)
}

/// Relies on git2::Repository::find_branch: whether a local branch of
/// that name exists.
#[verifier::external_body]
fn git_branch_exists(repo: &git2::Repository, name: &str) -> bool {
    match repo.find_branch(name, git2::BranchType::Local) {
        Ok(_) => true,
        Err(_) => false,
    }
}

/// Relies on git2::Repository::set_head: points HEAD at the given
/// reference.
#[verifier::external_body]
fn git_set_head(repo: &git2::Repository, refname: &str) -> Result<(), git2::Error> {
    repo.set_head(refname)
}

/// Relies on git2::Repository::head and git2::Reference::peel_to_commit:
/// the commit HEAD points at, or nothing on a repository with no commits.
#[verifier::external_body]
fn git_head_commit(repo: &git2::Repository) -> Option<git2::Commit<'_>> {
    match repo.head() {
        Ok(h) => h.peel_to_commit().ok(),
        Err(_) => None,
    }
}

/// Relies on git2::Repository::branch: creates a local branch at the
/// given commit, without forcing.
#[verifier::external_body]
fn git_create_branch(
    repo: &git2::Repository,
    name: &str,
    target: &git2::Commit<'_>,
) -> Result<(), git2::Error> {
    match repo.branch(name, target, false) {
        Ok(_) => Ok(()),
        Err(e) => Err(e),
    }
}

/// Relies on git2::Commit::tree: the tree of a commit.
#[verifier::external_body]
fn commit_tree<'a>(c: &git2::Commit<'a>) -> Result<git2::Tree<'a>, git2::Error> {
    c.tree()
}

/// Relies on git2::Repository::diff_tree_to_workdir, git2::Diff::deltas
/// and git2::DiffFile::path_bytes: the changes between the given tree and
/// the working directory, untracked files included, each reduced to its
/// status and its exact path bytes.
#[verifier::external_body]
fn git_diff_workdir_deltas(
    repo: &git2::Repository,
    base: Option<&git2::Tree<'_>>,
) -> Result<Vec<DeltaInfo>, git2::Error> {
    let mut opts = git2::DiffOptions::new();
    opts.update_index(true).include_untracked(true).recurse_untracked_dirs(true);
    let diff = repo.diff_tree_to_workdir(base, Some(&mut opts))?;
    Ok(diff.deltas().map(|d| DeltaInfo {
        kind: delta_kind_of(d.status()),
        old_path: d.old_file().path_bytes().map(|p| p.to_vec()),
        new_path: d.new_file().path_bytes().map(|p| p.to_vec()),
    }).collect())
}

/// Relies on git2::Delta: names the variant of a delta status, one arm
/// each.
#[verifier::external_body]
fn delta_kind_of(d: git2::Delta) -> DeltaKind {
    match d {
        git2::Delta::Added => DeltaKind::Added,
        git2::Delta::Copied => DeltaKind::Copied,
        git2::Delta::Modified => DeltaKind::Modified,
        git2::Delta::Renamed => DeltaKind::Renamed,
        git2::Delta::Untracked => DeltaKind::Untracked,
        git2::Delta::Unmodified => DeltaKind::Unmodified,
        git2::Delta::Deleted => DeltaKind::Deleted,
        _ => DeltaKind::Other,
    }
}

/// Relies on git2::Repository::index: the repository's index.
#[verifier::external_body]
fn git_index(repo: &git2::Repository) -> Result<git2::Index, git2::Error> {
    repo.index()
}

/// Relies on git2::Index::add_path: stages the file at the given
/// repository-relative path. A path that is not valid text is an error,
/// never a mangled path.
#[verifier::external_body]
fn index_add_path(ix: &mut git2::Index, path: &Vec<u8>) -> Result<(), git2::Error> {
    match String::from_utf8(path.clone()) {
        Ok(p) => ix.add_path(std::path::Path::new(&p)),
        Err(_) => Err(git2::Error::from_str("path is not valid text")),
    }
}

/// Relies on git2::Index::remove_path: unstages the file at the given
/// repository-relative path. A path that is not valid text is an error,
/// never a mangled path.
#[verifier::external_body]
fn index_remove_path(ix: &mut git2::Index, path: &Vec<u8>) -> Result<(), git2::Error> {
    match String::from_utf8(path.clone()) {
        Ok(p) => ix.remove_path(std::path::Path::new(&p)),
        Err(_) => Err(git2::Error::from_str("path is not valid text")),
    }
}

/// Relies on git2::Index::write_tree: writes the index as a tree and
/// names it.
#[verifier::external_body]
fn index_write_tree(ix: &mut git2::Index) -> Result<git2::Oid, git2::Error> {
    ix.write_tree()
}

/// Relies on git2::Repository::find_tree: the tree object with the given
/// id.
#[verifier::external_body]
fn git_find_tree(repo: &git2::Repository, oid: git2::Oid) -> Result<git2::Tree<'_>, git2::Error> {
    repo.find_tree(oid)
}

/// Relies on git2::Signature::now: a signature for the given identity at
/// the current time; the time of day decides the result.
#[verifier::external_body]
fn signature_now(name: &str, email: &str) -> Result<git2::Signature<'static>, git2::Error> {
    git2::Signature::now(name, email)
}

/// Relies on git2::Repository::commit: writes a commit on HEAD with the
/// given tree, the same identity as author and committer, and the given
/// parent if there is one.
#[verifier::external_body]
fn git_commit_on_head(
    repo: &git2::Repository,
    sig: &git2::Signature<'_>,
    message: &str,
    tree: &git2::Tree<'_>,
    parent: Option<&git2::Commit<'_>>,
) -> Result<git2::Oid, git2::Error> {
    match parent {
        Some(c) => repo.commit(Some("HEAD"), sig, sig, message, tree, &[c]),
        None => repo.commit(Some("HEAD"), sig, sig, message, tree, &[]),
    }
}

/// One opened repository at the managed root, with its resolved committer
/// identity cached for the lifetime of the handle.
pub struct GitRepository {
    repo: git2::Repository,
    committer: Committer,
}

impl GitRepository {
    /// The name of the resolved committer identity.
    pub closed spec fn spec_committer_name(&self) -> Seq<char> {
        self.committer.name@
    }

    /// The email of the resolved committer identity.
    pub closed spec fn spec_committer_email(&self) -> Seq<char> {
        self.committer.email@
    }

    /// The resolved committer identity.
    pub fn committer(&self) -> (r: &Committer)
        ensures
            r.name@ == self.spec_committer_name(),
            r.email@ == self.spec_committer_email(),
    {
        &self.committer
    }

    /// Opens the repository at the managed root. Opening an existing
    /// repository is tried first; only when that fails is a fresh one
    /// initialised there, with `profile` as its initial branch and the
    /// directory created if need be. Failure of both is the only error,
    /// and it is fatal: nothing else is attempted after it. On success the
    /// committer identity has been resolved (the exact rule is
    /// [`resolve_committer`]'s contract) and the profile's branch has been
    /// switched to; a failure of that switch alone is disregarded here,
    /// as only open and initialise failures abort a command.
    pub fn open(paths: &Paths, profile: &str) -> (r: Result<GitRepository, RepoError>)
        ensures
            r matches Err(e) ==> e is InitializeGit,
    {
        let repo = match git_open(&paths.root_dir) {
            Ok(r) => r,
            Err(_) => match git_init_with_head(&paths.root_dir, profile) {
                Ok(r) => r,
                Err(e) => {
                    return Err(RepoError::InitializeGit(git_error_message(&e)));
                },
            },
        };
        let (name, email) = match git_config(&repo) {
            Ok(cfg) => {
                let name = match config_get_string(&cfg, "user.name") {
                    Ok(n) => Some(n),
                    Err(_) => None,
                };
                let email = match config_get_string(&cfg, "user.email") {
                    Ok(e) => Some(e),
                    Err(_) => None,
                };
                (name, email)
            },
            Err(_) => (None, None),
        };
        let committer = resolve_committer(name, email);
        let out = GitRepository { repo, committer };
        let _ = out.switch_profile(profile);
        Ok(out)
    }

    /// Makes the profile's branch current: an existing branch is used, a
    /// missing one is created at the current HEAD commit, and on a
    /// repository with no commits nothing changes — the first commit
    /// establishes HEAD on the initial branch. Switching to the branch
    /// that is already current is a no-op, not an error. Which of the
    /// three happens is exactly [`plan_switch`]'s contract; the only error
    /// is a failure of the branch move itself, which
    /// [`GitRepository::open`] disregards.
    pub fn switch_profile(&self, profile: &str) -> (r: Result<(), RepoError>)
        ensures
            r matches Err(e) ==> e is SwitchProfile,
    {
        let exists = git_branch_exists(&self.repo, profile);
        let head = git_head_commit(&self.repo);
        let has_head = match &head {
            Some(_) => true,
            None => false,
        };
        match plan_switch(exists, has_head) {
            SwitchAction::UseExisting => {
                let refname = branch_ref_name(profile);
                match git_set_head(&self.repo, refname.as_str()) {
                    Ok(_) => Ok(()),
                    Err(e) => Err(RepoError::SwitchProfile(git_error_message(&e))),
                }
            },
            SwitchAction::CreateAtHead => {
                match &head {
                    Some(c) => {
                        match git_create_branch(&self.repo, profile, c) {
                            Ok(_) => {},
                            Err(e) => {
                                return Err(RepoError::SwitchProfile(git_error_message(&e)));
                            },
                        }
                        let refname = branch_ref_name(profile);
                        match git_set_head(&self.repo, refname.as_str()) {
                            Ok(_) => Ok(()),
                            Err(e) => Err(RepoError::SwitchProfile(git_error_message(&e))),
                        }
                    },
                    None => Ok(()),
                }
            },
            SwitchAction::Defer => Ok(()),
        }
    }

    /// Commits the changes between the last commit's tree and the working
    /// directory. The stage operations are exactly what
    /// [`commit_action`]'s contract demands of the diff: additions,
    /// copies, modifications, renames and untracked files staged under
    /// their new path, deletions unstaged under their old one. On success
    /// exactly one commit is written, with the given message, the
    /// identity resolved at open as both author and committer, the staged
    /// index tree as its tree, and the previous HEAD commit as its only
    /// parent — none on a repository with no commits, so the first commit
    /// establishes HEAD. With no changes at all the index is never
    /// touched, no commit is written, and the call succeeds with
    /// [`CommitOutcome::NoChanges`]. A failed stage aborts before the
    /// commit is created: no partial commit is ever visible.
    pub fn commit(&self, message: &str) -> (r: Result<CommitOutcome, RepoError>)
        ensures
            r matches Err(e) ==> (e is CreateIndex || e is Stage || e is CommitFailed),
    {
        let head = git_head_commit(&self.repo);
        let head_tree = match &head {
            Some(c) => match commit_tree(c) {
                Ok(t) => Some(t),
                Err(_) => None,
            },
            None => None,
        };
        let base = match &head_tree {
            Some(t) => Some(t),
            None => None,
        };
        let deltas = match git_diff_workdir_deltas(&self.repo, base) {
            Ok(d) => d,
            Err(_) => Vec::new(),
        };
        let ops = match commit_action(&deltas) {
            CommitPlan::NoChanges => {
                return Ok(CommitOutcome::NoChanges);
            },
            CommitPlan::Apply(ops) => ops,
        };
        let mut index = match git_index(&self.repo) {
            Ok(ix) => ix,
            Err(e) => {
                return Err(RepoError::CreateIndex(git_error_message(&e)));
            },
        };
        let mut i: usize = 0;
        while i < ops.len()
            decreases ops@.len() - i,
        {
            let step = match &ops[i] {
                StageOp::Stage(p) => index_add_path(&mut index, p),
                StageOp::Unstage(p) => index_remove_path(&mut index, p),
            };
            match step {
                Ok(_) => {},
                Err(e) => {
                    return Err(RepoError::Stage(git_error_message(&e)));
                },
            }
            i += 1;
        }
        let oid = match index_write_tree(&mut index) {
            Ok(o) => o,
            Err(e) => {
                return Err(RepoError::CommitFailed(git_error_message(&e)));
            },
        };
        let tree = match git_find_tree(&self.repo, oid) {
            Ok(t) => t,
            Err(e) => {
                return Err(RepoError::CommitFailed(git_error_message(&e)));
            },
        };
        let sig = match signature_now(self.committer.name.as_str(), self.committer.email.as_str())
            {
            Ok(s) => s,
            Err(e) => {
                return Err(RepoError::CommitFailed(git_error_message(&e)));
            },
        };
        let parent = match &head {
            Some(c) => Some(c),
            None => None,
        };
        match git_commit_on_head(&self.repo, &sig, message, &tree, parent) {
            Ok(_) => Ok(CommitOutcome::Committed),
            Err(e) => Err(RepoError::CommitFailed(git_error_message(&e))),
        }
    }
}

} // verus!
