use crate::models::MTime;
use crate::path::{copy_path, PathBytes};
use crate::scan::DedupError;
use vstd::prelude::*;

verus! {

/// One change to the file system, carried out by the caller in order.
#[derive(Debug, Clone, PartialEq, Eq)]
pub enum FsOp {
    /// Remove the directory entry `path`.
    RemoveFile(PathBytes),
    /// Create `link` as a new hard link to the inode of `original`.
    HardLink { original: PathBytes, link: PathBytes },
    /// Set the modification time of `path`.
    SetMtime { path: PathBytes, mtime: MTime },
}

/// A file system change as plain values.
pub enum FsOpView {
    RemoveFile(Seq<u8>),
    HardLink { original: Seq<u8>, link: Seq<u8> },
    SetMtime { path: Seq<u8>, mtime: MTime },
}

impl View for FsOp {
    type V = FsOpView;

    open spec fn view(&self) -> FsOpView {
        match self {
            FsOp::RemoveFile(p) => FsOpView::RemoveFile(p@),
            FsOp::HardLink { original, link } => FsOpView::HardLink {
                original: original@,
                link: link@,
            },
            FsOp::SetMtime { path, mtime } => FsOpView::SetMtime { path: path@, mtime: *mtime },
        }
    }
}

/// The views of a sequence of changes.
pub open spec fn ops_view(ops: Seq<FsOp>) -> Seq<FsOpView> {
    ops.map_values(|o: FsOp| o@)
}

/// The view of a change that may be absent.
pub open spec fn op_view(op: Option<FsOp>) -> Option<FsOpView> {
    match op {
        Some(o) => Some(o@),
        None => None,
    }
}

/// The steps that rewire `link` to the inode of `original`: remove it, link
/// it anew, then put back the modification time that its directory `dir`
/// had before, since both steps touch it.
pub open spec fn relink_steps(original: Seq<u8>, link: Seq<u8>, dir: Seq<u8>, dir_mtime: MTime) -> Seq<
    FsOpView,
> {
    seq![
        FsOpView::RemoveFile(link),
        FsOpView::HardLink { original, link },
        FsOpView::SetMtime { path: dir, mtime: dir_mtime },
    ]
}

/// Decides how to rewire `link` to the inode of `original`, given the
/// devices of their parent directories and the current modification time
/// of `link`'s directory `link_dir`. Hard links cannot cross devices: when
/// the devices differ nothing is to be done and the error says so.
pub fn relink(
    original: &PathBytes,
    link: &PathBytes,
    link_dir: &PathBytes,
    original_dir_dev: u64,
    link_dir_dev: u64,
    link_dir_mtime: MTime,
) -> (r: Result<Vec<FsOp>, DedupError>)
    ensures
        original_dir_dev == link_dir_dev ==> (r matches Ok(ops) && ops_view(ops@) == relink_steps(
            original@,
            link@,
            link_dir@,
            link_dir_mtime,
        )),
        original_dir_dev != link_dir_dev ==> r == Err::<Vec<FsOp>, DedupError>(
            DedupError::DeviceMismatch { original_dev: original_dir_dev, link_dev: link_dir_dev },
        ),
{
    if original_dir_dev != link_dir_dev {
        return Err(DedupError::DeviceMismatch { original_dev: original_dir_dev, link_dev: link_dir_dev });
    }
    let mut ops: Vec<FsOp> = Vec::new();
    ops.push(FsOp::RemoveFile(copy_path(link)));
    ops.push(FsOp::HardLink { original: copy_path(original), link: copy_path(link) });
    ops.push(FsOp::SetMtime { path: copy_path(link_dir), mtime: link_dir_mtime });
    proof {
        assert(ops_view(ops@) =~= relink_steps(original@, link@, link_dir@, link_dir_mtime));
    }
    Ok(ops)
}

/// The write, if any, that gives `path`, modified at `current`, the time `target`.
pub open spec fn mtime_step(path: Seq<u8>, current: MTime, target: MTime) -> Option<FsOpView> {
    if current == target {
        None
    } else {
        Some(FsOpView::SetMtime { path, mtime: target })
    }
}

/// Decides whether the canonical `path`, now modified at `current`, needs
/// its modification time set to `target`: only when the two differ.
pub fn update_mtime(path: &PathBytes, current: MTime, target: MTime) -> (r: Option<FsOp>)
    ensures
        op_view(r) == mtime_step(path@, current, target),
{
    if current == target {
        None
    } else {
        Some(FsOp::SetMtime { path: copy_path(path), mtime: target })
    }
}

/// The modification time of a file at `current` once `op` is carried out on it.
pub open spec fn mtime_after(current: MTime, op: Option<FsOpView>) -> MTime {
    match op {
        Some(FsOpView::SetMtime { path: _, mtime }) => mtime,
        _ => current,
    }
}

/// Which inode each path names.
pub open spec fn apply_op(fs: Map<Seq<u8>, u64>, op: FsOpView) -> Map<Seq<u8>, u64> {
    match op {
        FsOpView::RemoveFile(p) => fs.remove(p),
        FsOpView::HardLink { original, link } => if fs.contains_key(original) && !fs.contains_key(
            link,
        ) {
            fs.insert(link, fs[original])
        } else {
            fs
        },
        FsOpView::SetMtime { .. } => fs,
    }
}

/// Carries out `ops` in order on the path-to-inode map `fs`.
pub open spec fn apply_ops(fs: Map<Seq<u8>, u64>, ops: Seq<FsOpView>) -> Map<Seq<u8>, u64>
    decreases ops.len(),
{
    if ops.len() == 0 {
        fs
    } else {
        apply_ops(apply_op(fs, ops[0]), ops.subrange(1, ops.len() as int))
    }
}

/// The steps of a whole group: every path of `links`, in order, rewired to
/// the inode of `canonical`, with `dirs[k]` and `dir_mtimes[k]` the parent
/// directory of `links[k]` and its time.
pub open spec fn group_steps(
    canonical: Seq<u8>,
    links: Seq<Seq<u8>>,
    dirs: Seq<Seq<u8>>,
    dir_mtimes: Seq<MTime>,
) -> Seq<FsOpView>
    decreases links.len(),
{
    if links.len() == 0 {
        Seq::empty()
    } else {
        let n = links.len() - 1;
        group_steps(
            canonical,
            links.subrange(0, n),
            dirs.subrange(0, n),
            dir_mtimes.subrange(0, n),
        ) + relink_steps(canonical, links[n], dirs[n], dir_mtimes[n])
    }
}

proof fn lemma_apply_ops_concat(fs: Map<Seq<u8>, u64>, a: Seq<FsOpView>, b: Seq<FsOpView>)
    ensures
        apply_ops(fs, a + b) == apply_ops(apply_ops(fs, a), b),
    decreases a.len(),
{
    if a.len() == 0 {
        assert(a + b =~= b);
    } else {
        assert((a + b).subrange(1, (a + b).len() as int) =~= a.subrange(1, a.len() as int) + b);
        lemma_apply_ops_concat(apply_op(fs, a[0]), a.subrange(1, a.len() as int), b);
    }
}

/// After a group is carried out, every path of the group still exists and
/// all of them name the inode that `canonical` named before: the files
/// with identical content now share one inode.
pub proof fn lemma_group_shares_one_inode(
    fs: Map<Seq<u8>, u64>,
    canonical: Seq<u8>,
    links: Seq<Seq<u8>>,
    dirs: Seq<Seq<u8>>,
    dir_mtimes: Seq<MTime>,
)
    requires
        fs.contains_key(canonical),
        forall|k: int| 0 <= k < links.len() ==> fs.contains_key(#[trigger] links[k]),
        forall|k: int| 0 <= k < links.len() ==> #[trigger] links[k] != canonical,
        dirs.len() == links.len(),
        dir_mtimes.len() == links.len(),
    ensures
        ({
            let after = apply_ops(fs, group_steps(canonical, links, dirs, dir_mtimes));
            &&& after.dom() == fs.dom()
            &&& after[canonical] == fs[canonical]
            &&& forall|k: int| 0 <= k < links.len() ==> after[#[trigger] links[k]] == fs[canonical]
            &&& forall|p: Seq<u8>|
                fs.contains_key(p) && p != canonical && !links.contains(p) ==> #[trigger] after[p]
                    == fs[p]
        }),
    decreases links.len(),
{
    if links.len() > 0 {
        let n = links.len() - 1;
        let (pl, pd, pm) = (links.subrange(0, n), dirs.subrange(0, n), dir_mtimes.subrange(0, n));
        lemma_group_shares_one_inode(fs, canonical, pl, pd, pm);
        let mid = apply_ops(fs, group_steps(canonical, pl, pd, pm));
        let steps = relink_steps(canonical, links[n], dirs[n], dir_mtimes[n]);
        lemma_apply_ops_concat(fs, group_steps(canonical, pl, pd, pm), steps);
        let s1 = apply_op(mid, steps[0]);
        let s2 = apply_op(s1, steps[1]);
        let s3 = apply_op(s2, steps[2]);
        assert(apply_ops(mid, steps) == s3) by {
            let t1 = steps.subrange(1, 3);
            let t2 = t1.subrange(1, 2);
            let t3 = t2.subrange(1, 1);
            assert(t1[0] == steps[1]);
            assert(t2[0] == steps[2]);
            assert(t3.len() == 0);
            assert(apply_ops(s3, t3) == s3);
            assert(apply_ops(s2, t2) == apply_ops(s3, t3));
            assert(apply_ops(s1, t1) == apply_ops(s2, t2));
            assert(apply_ops(mid, steps) == apply_ops(s1, t1));
        }
        assert(mid.contains_key(links[n])) by {
            assert(fs.contains_key(links[n]));
            if !pl.contains(links[n]) {
            } else {
                let k = choose|k: int| 0 <= k < pl.len() && pl[k] == links[n];
                assert(pl[k] == links[n]);
            }
        }
        assert(s3 =~= mid.insert(links[n], fs[canonical]));
        assert(s3.dom() =~= fs.dom());
        assert forall|k: int| 0 <= k < links.len() implies s3[#[trigger] links[k]] == fs[canonical] by {
            if k < n {
                assert(pl[k] == links[k]);
            }
        }
        assert forall|p: Seq<u8>|
            fs.contains_key(p) && p != canonical && !links.contains(p) implies #[trigger] s3[p]
                == fs[p] by {
            if pl.contains(p) {
                let k = choose|k: int| 0 <= k < pl.len() && pl[k] == p;
                assert(links[k] == p);
            }
            assert(p != links[n]);
        }
    }
}

} // verus!
