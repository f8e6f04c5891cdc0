//! The file synchroniser's planning layer: which copies bring the mirror
//! up to date, which mirrored paths a removal deletes, and how the
//! manifest changes with each batch.
//!
//! The plans are pure values; carrying them out against the filesystem is
//! the caller's edge work. A copy failure partway through a batch aborts
//! the rest of that batch; entries already copied stay in place.

use vstd::prelude::*;

use crate::manifest::ConfigManager;
use crate::paths::copy_bytes;
use crate::paths::lemma_filter_push_any;
use crate::paths::DirPathInfo;
use crate::paths::FilePathInfo;
use crate::paths::Paths;

verus! {

/// One pending copy into the mirror: an absolute source and an absolute
/// destination. For a directory the copy is recursive.
#[derive(Debug, PartialEq, Eq)]
pub struct CopyOp {
    pub src: Vec<u8>,
    pub dest: Vec<u8>,
}

/// The copies that mirror a batch of file entries, in order.
pub fn copy_ops_for_files(files: &Vec<FilePathInfo>) -> (r: Vec<CopyOp>)
    ensures
        r@.len() == files@.len(),
        forall|i: int|
            0 <= i < r@.len() ==> (#[trigger] r@[i]).src@ == files@[i].full_src_path@ && r@[i].dest@
                == files@[i].full_repo_path@,
{
    let mut out: Vec<CopyOp> = Vec::new();
    let mut i: usize = 0;
    while i < files.len()
        invariant
            i <= files@.len(),
            out@.len() == i,
            forall|j: int|
                0 <= j < i ==> (#[trigger] out@[j]).src@ == files@[j].full_src_path@
                    && out@[j].dest@ == files@[j].full_repo_path@,
        decreases files@.len() - i,
    {
        let f = &files[i];
        out.push(CopyOp { src: copy_bytes(&f.full_src_path), dest: copy_bytes(&f.full_repo_path) });
        i += 1;
    }
    out
}

/// The recursive copies that mirror a batch of directory entries, in
/// order.
pub fn copy_ops_for_dirs(dirs: &Vec<DirPathInfo>) -> (r: Vec<CopyOp>)
    ensures
        r@.len() == dirs@.len(),
        forall|i: int|
            0 <= i < r@.len() ==> (#[trigger] r@[i]).src@ == dirs@[i].full_src_path@ && r@[i].dest@
                == dirs@[i].full_repo_path@,
{
    let mut out: Vec<CopyOp> = Vec::new();
    let mut i: usize = 0;
    while i < dirs.len()
        invariant
            i <= dirs@.len(),
            out@.len() == i,
            forall|j: int|
                0 <= j < i ==> (#[trigger] out@[j]).src@ == dirs@[j].full_src_path@
                    && out@[j].dest@ == dirs@[j].full_repo_path@,
        decreases dirs@.len() - i,
    {
        let d = &dirs[i];
        out.push(CopyOp { src: copy_bytes(&d.full_src_path), dest: copy_bytes(&d.full_repo_path) });
        i += 1;
    }
    out
}

/// Registers a batch of resolved files and directories in the manifest.
/// The caller copies first and registers only what was copied.
pub fn register_batch(cfg: &mut ConfigManager, files: &Vec<FilePathInfo>, dirs: &Vec<DirPathInfo>)
    requires
        old(cfg).wf(),
    ensures
        final(cfg).wf(),
        final(cfg).files_seq() == crate::manifest::insert_all(
            old(cfg).files_seq(),
            crate::manifest::file_kv(files@),
        ),
        final(cfg).dirs_seq() == crate::manifest::insert_all(
            old(cfg).dirs_seq(),
            crate::manifest::dir_kv(dirs@),
        ),
{
    cfg.add_files(files);
    cfg.add_dirs(dirs);
}

/// The mirrored locations of the file entries that are actually tracked.
pub open spec fn spec_tracked_file_mirrors(
    m: Map<Seq<u8>, Seq<u8>>,
    fs: Seq<FilePathInfo>,
) -> Seq<Seq<u8>> {
    fs.filter(|f: FilePathInfo| m.dom().contains(f.src_path@)).map_values(
        |f: FilePathInfo| f.full_repo_path@,
    )
}

/// The mirrored locations of the directory entries that are actually
/// tracked.
pub open spec fn spec_tracked_dir_mirrors(
    m: Map<Seq<u8>, Seq<u8>>,
    ds: Seq<DirPathInfo>,
) -> Seq<Seq<u8>> {
    ds.filter(|d: DirPathInfo| m.dom().contains(d.src_path@)).map_values(
        |d: DirPathInfo| d.full_repo_path@,
    )
}

/// Deregisters a batch of file entries and returns the mirrored locations
/// to delete: exactly those of the entries that were tracked. Entries
/// never added leave the manifest and the mirror untouched.
pub fn remove_files(cfg: &mut ConfigManager, files: &Vec<FilePathInfo>) -> (r: Vec<Vec<u8>>)
    requires
        old(cfg).wf(),
    ensures
        final(cfg).wf(),
        final(cfg).files_seq() == crate::manifest::remove_all(
            old(cfg).files_seq(),
            crate::manifest::file_keys(files@),
        ),
        final(cfg).dirs_seq() == old(cfg).dirs_seq(),
        r.deep_view() == spec_tracked_file_mirrors(old(cfg).files_map(), files@),
{
    let ghost m = cfg.files_map();
    let mut out: Vec<Vec<u8>> = Vec::new();
    let mut i: usize = 0;
    proof {
        assert(files@.subrange(0, 0) =~= Seq::<FilePathInfo>::empty());
        assert(Seq::<FilePathInfo>::empty().filter(
            |f: FilePathInfo| m.dom().contains(f.src_path@),
        ) =~= Seq::<FilePathInfo>::empty()) by {
            reveal(Seq::filter);
        }
        assert(out.deep_view() =~= spec_tracked_file_mirrors(m, files@.subrange(0, 0)));
    }
    while i < files.len()
        invariant
            i <= files@.len(),
            cfg.wf(),
            cfg == old(cfg),
            m == cfg.files_map(),
            out.deep_view() == spec_tracked_file_mirrors(m, files@.subrange(0, i as int)),
        decreases files@.len() - i,
    {
        let f = &files[i];
        proof {
            assert(files@.subrange(0, i + 1) =~= files@.subrange(0, i as int).push(
                files@[i as int],
            ));
            lemma_filter_push_any(
                files@.subrange(0, i as int),
                files@[i as int],
                |f: FilePathInfo| m.dom().contains(f.src_path@),
            );
        }
        let ghost before = out.deep_view();
        if cfg.contains_file(f) {
            out.push(copy_bytes(&f.full_repo_path));
            proof {
                assert(out.deep_view() =~~= before.push(files@[i as int].full_repo_path@));
            }
        }
        proof {
            assert(out.deep_view() =~= spec_tracked_file_mirrors(m, files@.subrange(0, i + 1)));
        }
        i += 1;
    }
    proof {
        assert(files@.subrange(0, files@.len() as int) =~= files@);
    }
    cfg.remove_files(files);
    out
}

/// Deregisters a batch of directory entries and returns the mirrored
/// locations to delete recursively; see [`remove_files`].
pub fn remove_dirs(cfg: &mut ConfigManager, dirs: &Vec<DirPathInfo>) -> (r: Vec<Vec<u8>>)
    requires
        old(cfg).wf(),
    ensures
        final(cfg).wf(),
        final(cfg).dirs_seq() == crate::manifest::remove_all(
            old(cfg).dirs_seq(),
            crate::manifest::dir_keys(dirs@),
        ),
        final(cfg).files_seq() == old(cfg).files_seq(),
        r.deep_view() == spec_tracked_dir_mirrors(old(cfg).dirs_map(), dirs@),
{
    let ghost m = cfg.dirs_map();
    let mut out: Vec<Vec<u8>> = Vec::new();
    let mut i: usize = 0;
    proof {
        assert(dirs@.subrange(0, 0) =~= Seq::<DirPathInfo>::empty());
        assert(Seq::<DirPathInfo>::empty().filter(
            |d: DirPathInfo| m.dom().contains(d.src_path@),
        ) =~= Seq::<DirPathInfo>::empty()) by {
            reveal(Seq::filter);
        }
        assert(out.deep_view() =~= spec_tracked_dir_mirrors(m, dirs@.subrange(0, 0)));
    }
    while i < dirs.len()
        invariant
            i <= dirs@.len(),
            cfg.wf(),
            cfg == old(cfg),
            m == cfg.dirs_map(),
            out.deep_view() == spec_tracked_dir_mirrors(m, dirs@.subrange(0, i as int)),
        decreases dirs@.len() - i,
    {
        let d = &dirs[i];
        proof {
            assert(dirs@.subrange(0, i + 1) =~= dirs@.subrange(0, i as int).push(dirs@[i as int]));
            lemma_filter_push_any(
                dirs@.subrange(0, i as int),
                dirs@[i as int],
                |d: DirPathInfo| m.dom().contains(d.src_path@),
            );
        }
        let ghost before = out.deep_view();
        if cfg.contains_dir(d) {
            out.push(copy_bytes(&d.full_repo_path));
            proof {
                assert(out.deep_view() =~~= before.push(dirs@[i as int].full_repo_path@));
            }
        }
        proof {
            assert(out.deep_view() =~= spec_tracked_dir_mirrors(m, dirs@.subrange(0, i + 1)));
        }
        i += 1;
    }
    proof {
        assert(dirs@.subrange(0, dirs@.len() as int) =~= dirs@);
    }
    cfg.remove_dirs(dirs);
    out
}

/// The copies that refresh every tracked entry from its live source
/// location, files first, then directories.
pub fn update_ops(cfg: &ConfigManager, paths: &Paths) -> (r: (Vec<CopyOp>, Vec<CopyOp>))
    requires
        paths.wf(),
    ensures
        r.0@.len() == cfg.files_seq().len(),
        r.1@.len() == cfg.dirs_seq().len(),
        forall|i: int|
            0 <= i < r.0@.len() ==> (#[trigger] r.0@[i]).src@ == crate::paths::spec_full_src(
                paths.home_dir@,
                cfg.files_seq()[i].0,
            ) && r.0@[i].dest@ == crate::paths::spec_full_repo_of(
                paths.files_dir@,
                crate::paths::components(cfg.files_seq()[i].1),
            ),
        forall|i: int|
            0 <= i < r.1@.len() ==> (#[trigger] r.1@[i]).src@ == crate::paths::spec_full_src(
                paths.home_dir@,
                cfg.dirs_seq()[i].0,
            ) && r.1@[i].dest@ == crate::paths::spec_full_repo_of(
                paths.files_dir@,
                crate::paths::components(cfg.dirs_seq()[i].1),
            ),
{
    let files = cfg.files(paths);
    let dirs = cfg.dirs(paths);
    let file_ops = copy_ops_for_files(&files);
    let dir_ops = copy_ops_for_dirs(&dirs);
    proof {
        let fv = files@.map_values(crate::paths::file_info_view_fn());
        assert(fv == cfg.files_seq().map_values(
            crate::paths::file_entry_from_config_fn(paths.home_dir@, paths.files_dir@),
        ));
        assert(cfg.files_seq().map_values(
            crate::paths::file_entry_from_config_fn(paths.home_dir@, paths.files_dir@),
        ).len() == cfg.files_seq().len());
        assert(fv.len() == files@.len());
        assert forall|i: int| 0 <= i < file_ops@.len() implies (#[trigger] file_ops@[i]).src@
            == crate::paths::spec_full_src(paths.home_dir@, cfg.files_seq()[i].0)
            && file_ops@[i].dest@ == crate::paths::spec_full_repo_of(
            paths.files_dir@,
            crate::paths::components(cfg.files_seq()[i].1),
        ) by {
            assert(file_ops@[i].src@ == files@[i].full_src_path@);
            assert(file_ops@[i].dest@ == files@[i].full_repo_path@);
            assert(files@[i]@ == fv[i]);
            assert(fv[i] == cfg.files_seq().map_values(
                crate::paths::file_entry_from_config_fn(paths.home_dir@, paths.files_dir@),
            )[i]);
            assert(cfg.files_seq().map_values(
                crate::paths::file_entry_from_config_fn(paths.home_dir@, paths.files_dir@),
            )[i] == crate::paths::file_entry_from_config_fn(
                paths.home_dir@,
                paths.files_dir@,
            )(cfg.files_seq()[i]));
        }
        let dv = dirs@.map_values(crate::paths::dir_info_view_fn());
        assert(dv == cfg.dirs_seq().map_values(
            crate::paths::dir_entry_from_config_fn(
                paths.home_dir@,
                paths.root_dir@,
                paths.files_dir@,
            ),
        ));
        assert(cfg.dirs_seq().map_values(
            crate::paths::dir_entry_from_config_fn(
                paths.home_dir@,
                paths.root_dir@,
                paths.files_dir@,
            ),
        ).len() == cfg.dirs_seq().len());
        assert(dv.len() == dirs@.len());
        assert forall|i: int| 0 <= i < dir_ops@.len() implies (#[trigger] dir_ops@[i]).src@
            == crate::paths::spec_full_src(paths.home_dir@, cfg.dirs_seq()[i].0)
            && dir_ops@[i].dest@ == crate::paths::spec_full_repo_of(
            paths.files_dir@,
            crate::paths::components(cfg.dirs_seq()[i].1),
        ) by {
            assert(dir_ops@[i].src@ == dirs@[i].full_src_path@);
            assert(dir_ops@[i].dest@ == dirs@[i].full_repo_path@);
            assert(dirs@[i]@ == dv[i]);
            assert(dv[i] == crate::paths::dir_entry_from_config_fn(
                paths.home_dir@,
                paths.root_dir@,
                paths.files_dir@,
            )(cfg.dirs_seq()[i]));
        }
    }
    (file_ops, dir_ops)
}

} // verus!
