use crate::arena::Arena;
use crate::path::{copy_path, same_path, PathBytes};
use crate::models::{
    in_groups, Database, Dev, Device, FileSizeSieveEntry, Ino, Inode, MTime, Sha256Value,
};
use vstd::prelude::*;

verus! {

broadcast use {vstd::laws_cmp::group_laws_cmp, vstd::std_specs::hash::group_hash_axioms};

/// The metadata of a regular file that classification reads.
#[derive(Debug, Clone, Copy, PartialEq, Eq, Structural)]
pub struct FileMeta {
    pub dev: u64,
    pub ino: u64,
    /// Logical length in bytes.
    pub size: u64,
    pub mtime: MTime,
    pub nlink: u64,
    /// Allocated 512-byte blocks.
    pub blocks: u64,
}

/// A file whose content digest classification needs: the caller hashes
/// `path` and hands the digest back with `ino`.
#[derive(Debug, Clone, PartialEq, Eq)]
pub struct HashRequest {
    pub ino: Ino,
    pub path: PathBytes,
}

/// The targets to scan: files or directory roots.
#[derive(Debug, Clone, PartialEq, Eq)]
pub struct Args {
    pub targets: Vec<PathBytes>,
}

/// What kind of file system entry traversal met.
#[derive(Debug, Clone, Copy, PartialEq, Eq, Structural)]
pub enum EntryKind {
    Dir,
    File,
    /// A symbolic link, device, socket or pipe: never considered.
    Other,
}

/// What traversal does next about one entry.
#[derive(Debug, Clone, PartialEq, Eq)]
pub enum WalkStep {
    /// Walk into the directory.
    Descend,
    /// Do not walk into the directory: it was entered before.
    SkipDir,
    /// Hash these files and hand each digest back (possibly none).
    Hash(Vec<HashRequest>),
    /// Nothing to do: the entry is neither a directory nor a regular file.
    Ignore,
}

/// The errors the library reports.
#[derive(Debug, Clone, Copy, PartialEq, Eq, Structural)]
pub enum DedupError {
    /// A registry is as long as a `usize` can count.
    CapacityExceeded,
    /// A digest was handed back for an inode that traversal never recorded.
    UnknownInode,
    /// A digest was handed back for an inode already placed in a group.
    AlreadyGrouped,
    /// A digest was handed back for an inode whose digest was never asked for.
    NotRequested,
    /// A hard link was asked for across two devices.
    DeviceMismatch { original_dev: u64, link_dev: u64 },
}

/// Bytes allocated for `blocks` blocks of 512 bytes, saturated at `u64::MAX`.
pub open spec fn allocated_bytes(blocks: u64) -> u64 {
    if blocks <= u64::MAX / 512 {
        (blocks * 512) as u64
    } else {
        u64::MAX
    }
}

pub fn allocated_size(blocks: u64) -> (r: u64)
    ensures
        r == allocated_bytes(blocks),
{
    if blocks <= u64::MAX / 512 {
        blocks * 512
    } else {
        u64::MAX
    }
}

/// What the database knows of one device, as plain values.
pub struct DeviceView {
    pub inodes: Map<u64, Inode>,
    pub sieve: Map<u64, FileSizeSieveEntry>,
    pub sizes: Map<u64, u64>,
    pub groups: Seq<((u64, u64, u64, u64), Seq<Ino>)>,
    pub visited: Set<u64>,
    /// The inodes whose digest is asked for and not yet handed back.
    pub pending: Set<u64>,
}

impl DeviceView {
    pub open spec fn empty() -> DeviceView {
        DeviceView {
            inodes: Map::empty(),
            sieve: Map::empty(),
            sizes: Map::empty(),
            groups: Seq::empty(),
            visited: Set::empty(),
            pending: Set::empty(),
        }
    }
}

impl View for Device {
    type V = DeviceView;

    open spec fn view(&self) -> DeviceView {
        DeviceView {
            inodes: self.inodes@,
            sieve: self.sieve@,
            sizes: self.sizes@,
            groups: self.groups(),
            visited: self.visited_dirs@,
            pending: self.pending@,
        }
    }
}

/// Entering directory `ino` (true when it was not entered before) takes `a` to `b`.
pub open spec fn entered(a: DeviceView, b: DeviceView, ino: u64, r: bool) -> bool {
    &&& r == !a.visited.contains(ino)
    &&& b == DeviceView { visited: a.visited.insert(ino), ..a }
}

/// Classifying the file `path` with metadata `m` takes `a` to `b` and asks
/// for the digests `r`.
pub open spec fn prepared(
    a: DeviceView,
    b: DeviceView,
    path: PathBytes,
    m: FileMeta,
    r: Seq<HashRequest>,
) -> bool {
    let i = m.ino;
    let s = m.size;
    if a.inodes.contains_key(i) && has_path(a.inodes[i].files@, path) {
        // the very file was met before: nothing changes
        &&& b == a
        &&& r.len() == 0
    } else {
        &&& b.groups == a.groups
        &&& b.visited == a.visited
        &&& b.inodes == a.inodes.insert(i, b.inodes[i])
        &&& if a.inodes.contains_key(i) {
            // another path of a known inode: nothing to hash
            &&& b.inodes[i].mtime == a.inodes[i].mtime
            &&& b.inodes[i].nlink == a.inodes[i].nlink
            &&& b.inodes[i].realsize == a.inodes[i].realsize
            &&& b.inodes[i].files@ == a.inodes[i].files@.push(path)
            &&& b.sieve == a.sieve
            &&& b.sizes == a.sizes
            &&& b.pending == a.pending
            &&& r.len() == 0
        } else {
            &&& b.inodes[i].mtime == m.mtime
            &&& b.inodes[i].nlink == m.nlink
            &&& b.inodes[i].realsize == allocated_bytes(m.blocks)
            &&& b.inodes[i].files@ == seq![path]
            &&& b.sizes == a.sizes.insert(i, s)
            &&& if !a.sieve.contains_key(s) {
                // first inode of this size: defer hashing
                &&& b.sieve == a.sieve.insert(s, FileSizeSieveEntry::Unique(Ino(i)))
                &&& b.pending == a.pending
                &&& r.len() == 0
            } else if let FileSizeSieveEntry::Unique(i0) = a.sieve[s] {
                // second inode of this size: hash the first one too
                &&& b.sieve == a.sieve.insert(s, FileSizeSieveEntry::Ambiguous)
                &&& b.pending == a.pending.insert(i0.0).insert(i)
                &&& r.len() == 2
                &&& r[0].ino == i0
                &&& r[0].path@ == a.inodes[i0.0].files@[0]@
                &&& r[1].ino == Ino(i)
                &&& r[1].path@ == path@
            } else {
                &&& b.sieve == a.sieve
                &&& b.pending == a.pending.insert(i)
                &&& r.len() == 1
                &&& r[0].ino == Ino(i)
                &&& r[0].path@ == path@
            }
        }
    }
}

/// Whether `path` is among `files`.
pub open spec fn has_path(files: Seq<PathBytes>, path: PathBytes) -> bool {
    exists|k: int| 0 <= k < files.len() && files[k]@ == path@
}

fn contains_path(files: &Vec<PathBytes>, path: &PathBytes) -> (r: bool)
    ensures
        r == has_path(files@, *path),
{
    let mut k: usize = 0;
    while k < files.len()
        invariant
            0 <= k <= files@.len(),
            forall|j: int| 0 <= j < k ==> files@[j]@ != path@,
        decreases files@.len() - k,
    {
        if same_path(&files[k], path) {
            return true;
        }
        k = k + 1;
    }
    false
}

/// Each requested inode is known in `b` and shares its size with another
/// known inode: an inode whose size no other inode has is never hashed.
pub open spec fn hashed_with_peer(b: DeviceView, r: Seq<HashRequest>) -> bool {
    forall|k: int|
        0 <= k < r.len() ==> {
            &&& b.inodes.contains_key(#[trigger] r[k].ino.0)
            &&& exists|j: u64|
                j != r[k].ino.0 && b.inodes.contains_key(j) && b.sizes[j] == b.sizes[r[k].ino.0]
        }
}

/// Recording that inode `ino` has the digest `key` takes `a` to `b`.
pub open spec fn grouped(a: DeviceView, b: DeviceView, ino: Ino, key: (u64, u64, u64, u64)) -> bool {
    let p = choose|p: int| 0 <= p < a.groups.len() && a.groups[p].0 == key;
    &&& b.inodes == a.inodes
    &&& b.sieve == a.sieve
    &&& b.sizes == a.sizes
    &&& b.visited == a.visited
    &&& b.pending == a.pending.remove(ino.0)
    &&& if exists|p: int| 0 <= p < a.groups.len() && a.groups[p].0 == key {
        b.groups == a.groups.update(p, (key, a.groups[p].1.push(ino)))
    } else {
        b.groups == a.groups.push((key, seq![ino]))
    }
}

/// No step of traversal forgets an entered directory: entering one,
/// classifying a file and recording a digest each keep every mark. Chained
/// over a whole walk, with `lemma_dir_entered_once`, each directory inode
/// of a device is descended into at most once, however many targets or
/// routes lead to it.
pub proof fn lemma_steps_keep_visited(
    a: DeviceView,
    b: DeviceView,
    ino: u64,
    entered_now: bool,
    path: PathBytes,
    m: FileMeta,
    r: Seq<HashRequest>,
    digest_ino: Ino,
    key: (u64, u64, u64, u64),
)
    requires
        entered(a, b, ino, entered_now) || prepared(a, b, path, m, r) || grouped(a, b, digest_ino, key),
    ensures
        a.visited.subset_of(b.visited),
{
}

/// A directory inode is entered at most once per device: once entered,
/// it stays marked through every later step (classifying a file or
/// recording a digest leaves the marks as they are), and entering it again
/// is refused.
pub proof fn lemma_dir_entered_once(
    a: DeviceView,
    b: DeviceView,
    c: DeviceView,
    d: DeviceView,
    ino: u64,
    first: bool,
    again: bool,
)
    requires
        entered(a, b, ino, first),
        b.visited.subset_of(c.visited),
        entered(c, d, ino, again),
    ensures
        !again,
{
}

/// A file whose size no other inode of its device shares is never hashed:
/// its size stays `Unique` to its inode in the sieve, its digest is never
/// asked for, and it is in no content group. Every database that the
/// library's steps hand back is well formed, so this holds after any walk.
pub proof fn lemma_unique_size_never_hashed(db: &Database, d: u64, i: u64)
    requires
        db.wf(),
        db.dev(d).inodes.contains_key(i),
        forall|j: u64|
            #[trigger] db.dev(d).inodes.contains_key(j) && j != i ==> db.dev(d).sizes[j]
                != db.dev(d).sizes[i],
    ensures
        db.dev(d).sieve.contains_key(db.dev(d).sizes[i]),
        db.dev(d).sieve[db.dev(d).sizes[i]] == FileSizeSieveEntry::Unique(Ino(i)),
        !db.dev(d).pending.contains(i),
        !in_groups(db.dev(d).groups, i),
{
    assert(db.devices.contains(d));
    let dev = db.devices.at(d);
    assert(dev.wf());
    let s = dev.sizes@[i];
    assert(dev.inodes@.contains_key(i));
    assert(dev.sieve@.contains_key(s));
    let f = dev.first_of_size@[s];
    assert(dev.inodes@.contains_key(f));
    assert(f == i);
    if dev.sieve@[s] is Ambiguous {
        let j = choose|j: u64| dev.inodes@.contains_key(j) && dev.sizes@[j] == s && j != f;
        assert(dev.inodes@.contains_key(j));
    }
    if dev.pending@.contains(i) {
        assert(dev.sieve@[dev.sizes@[i]] is Ambiguous);
    }
    if in_groups(dev.groups(), i) {
        let (g, k) = choose|g: int, k: int|
            0 <= g < dev.groups().len() && 0 <= k < dev.groups()[g].1.len() && dev.groups()[g].1[k].0 == i;
        assert(dev.grouped@.contains(dev.groups()[g].1[k].0));
    }
}

impl Device {
    /// Room is left in every registry for one more record.
    pub open spec fn has_room(&self) -> bool {
        &&& self.inodes.map.entries().len() < usize::MAX
        &&& self.sieve.map.entries().len() < usize::MAX
        &&& self.identicals.map.entries().len() < usize::MAX
    }

    pub fn room(&self) -> (r: bool)
        ensures
            r == self.has_room(),
    {
        self.inodes.map.len() < usize::MAX && self.sieve.map.len() < usize::MAX
            && self.identicals.map.len() < usize::MAX
    }

    /// Marks directory `ino` as entered; true when traversal should descend.
    pub fn enter_dir(&mut self, ino: Ino) -> (r: bool)
        requires
            old(self).wf(),
        ensures
            final(self).wf(),
            entered(old(self)@, final(self)@, ino.0, r),
    {
        self.visited_dirs.visit(ino)
    }

    /// Classifies one regular file: records its path under its inode and
    /// consults the size sieve; returns the files whose digests are now due.
    pub fn prepare_file(&mut self, path: PathBytes, meta: &FileMeta) -> (r: Vec<HashRequest>)
        requires
            old(self).wf(),
            old(self).has_room(),
        ensures
            final(self).wf(),
            prepared(old(self)@, final(self)@, path, *meta, r@),
            hashed_with_peer(final(self)@, r@),
    {
        let ghost a = *self;
        let ino = Ino(meta.ino);
        let size = meta.size;
        match self.inodes.get(ino) {
            Some(inode) => {
                if contains_path(&inode.files, &path) {
                    return Vec::new();
                }
            },
            None => {},
        }
        match self.inodes.get_mut(ino) {
            Some(inode) => {
                inode.files.push(path);
                let ghost n = *inode;
                proof {
                    Arena::lemma_lent(&a.inodes.map, &self.inodes.map, ino.0, n);
                    assert(self.groups() == a.groups());
                    assert(self.first_of_size@.dom() =~= self.sieve@.dom());
                    assert(self.sizes@.dom() =~= self.inodes@.dom());
                }
                return Vec::new();
            },
            None => {},
        }
        let realsize = allocated_size(meta.blocks);
        let req_path = copy_path(&path);
        let ghost given = path;
        let inode = self.inodes.get_or_insert(ino, meta.mtime, meta.nlink, realsize);
        inode.files.push(path);
        let ghost n = *inode;
        proof {
            Arena::lemma_grown(&a.inodes.map, &self.inodes.map, ino.0, n);
            assert(n.files@ =~= seq![given]);
        }
        self.sizes = Ghost(self.sizes@.insert(ino.0, size));
        let ghost b = *self;
        let mut reqs: Vec<HashRequest> = Vec::new();
        match self.sieve.get_mut(size) {
            None => {
                self.sieve.set_unique(size, ino);
                self.first_of_size = Ghost(self.first_of_size@.insert(size, ino.0));
            },
            Some(entry) => {
                if let FileSizeSieveEntry::Unique(ino0) = *entry {
                    *entry = FileSizeSieveEntry::Ambiguous;
                    let first = self.inodes.get(ino0);
                    let path0 = copy_path(&first.unwrap().files[0]);
                    reqs.push(HashRequest { ino: ino0, path: path0 });
                    self.pending.insert(ino0.0);
                }
                let ghost e = *entry;
                proof {
                    Arena::lemma_lent(&b.sieve.map, &self.sieve.map, size, e);
                    if e == b.sieve@[size] {
                        assert(self.sieve@ =~= b.sieve@);
                    }
                }
                reqs.push(HashRequest { ino, path: req_path });
                self.pending.insert(ino.0);
            },
        }
        proof {
            assert(self.groups() == a.groups());
            assert(self.first_of_size@.dom() =~= self.sieve@.dom());
            assert(self.sizes@.dom() =~= self.inodes@.dom());
            assert(self.inodes@ == self.inodes@.insert(ino.0, self.inodes@[ino.0]));
            assert forall|t: u64|
                #[trigger] self.sieve@.contains_key(t) && self.sieve@[t] is Ambiguous implies exists|j: u64|
                    self.inodes@.contains_key(j) && self.sizes@[j] == t && j
                        != self.first_of_size@[t] by {
                if t == size && !(a.sieve@.contains_key(size) && a.sieve@[size] is Ambiguous) {
                    assert(self.inodes@.contains_key(ino.0) && self.sizes@[ino.0] == t && ino.0
                        != self.first_of_size@[t]);
                } else {
                    assert(a.sieve@.contains_key(t));
                    let j = choose|j: u64|
                        a.inodes@.contains_key(j) && a.sizes@[j] == t && j != a.first_of_size@[t];
                    assert(self.inodes@.contains_key(j) && self.sizes@[j] == t && j
                        != self.first_of_size@[t]);
                }
            }
            assert forall|k: u64| #[trigger] self.pending@.contains(k) implies {
                &&& self.inodes@.contains_key(k)
                &&& self.sieve@[self.sizes@[k]] is Ambiguous
                &&& !self.grouped@.contains(k)
            } by {
                if k != ino.0 && a.pending@.contains(k) {
                    assert(a.inodes@.contains_key(k));
                    assert(self.sizes@[k] == a.sizes@[k]);
                }
            }
            assert forall|k: u64| #[trigger] self.grouped@.contains(k) implies self.sieve@[self.sizes@[k]] is Ambiguous by {
                assert(a.grouped@.contains(k));
                assert(in_groups(a.groups(), k));
                let (g, j) = choose|g: int, j: int|
                    0 <= g < a.groups().len() && 0 <= j < a.groups()[g].1.len() && a.groups()[g].1[j].0 == k;
                assert(a.inodes@.contains_key(a.groups()[g].1[j].0));
                assert(self.sizes@[k] == a.sizes@[k]);
            }
            assert forall|k: u64| #[trigger] self.inodes@.contains_key(k) implies {
                &&& self.inodes@[k].files@.len() >= 1
                &&& self.sieve@.contains_key(self.sizes@[k])
                &&& (self.sieve@[self.sizes@[k]] is Unique ==> self.first_of_size@[self.sizes@[k]] == k)
            } by {
                if k != ino.0 {
                    assert(a.inodes@.contains_key(k));
                    assert(self.sizes@[k] == a.sizes@[k]);
                }
            }
            assert(self.wf());
            assert forall|k: int| 0 <= k < reqs@.len() implies {
                &&& self.inodes@.contains_key(#[trigger] reqs@[k].ino.0)
                &&& exists|j: u64|
                    j != reqs@[k].ino.0 && self.inodes@.contains_key(j) && self.sizes@[j]
                        == self.sizes@[reqs@[k].ino.0]
            } by {
                let f = a.first_of_size@[size];
                if reqs@[k].ino.0 == ino.0 {
                    assert(f != ino.0 && self.inodes@.contains_key(f) && self.sizes@[f] == self.sizes@[ino.0]);
                } else {
                    assert(ino.0 != reqs@[k].ino.0 && self.inodes@.contains_key(ino.0) && self.sizes@[ino.0] == self.sizes@[reqs@[k].ino.0]);
                }
            }
        }
        reqs
    }

    /// Adds `ino` to the content group of `hash`, creating the group if it
    /// is new.
    pub fn insert_identical_file(&mut self, ino: Ino, hash: Sha256Value)
        requires
            old(self).wf(),
            old(self).has_room(),
            old(self)@.pending.contains(ino.0),
        ensures
            final(self).wf(),
            final(self).has_room() == old(self).has_room() || !old(self).identicals.map.contains(hash.spec_key()),
            grouped(old(self)@, final(self)@, ino, hash.spec_key()),
    {
        let ghost a = *self;
        let ghost key = hash.spec_key();
        let group = self.identicals.get_or_insert(hash);
        group.inos.push(ino);
        let ghost g = *group;
        self.grouped.insert(ino.0);
        self.pending.remove(&ino.0);
        proof {
            Arena::lemma_grown(&a.identicals.map, &self.identicals.map, key, g);
            let ag = a.groups();
            let bg = self.groups();
            if a.identicals.map.contains(key) {
                let p = a.identicals.map.pos(key);
                assert(0 <= p < ag.len() && ag[p].0 == key);
                let q = choose|q: int| 0 <= q < ag.len() && ag[q].0 == key;
                assert(a.identicals.map.index@.contains_key(a.identicals.map.slots@[q].0));
                assert(q == p);
                assert(bg =~= ag.update(p, (key, ag[p].1.push(ino))));
            } else {
                assert forall|q: int| 0 <= q < ag.len() implies ag[q].0 != key by {
                    assert(a.identicals.map.index@.contains_key(a.identicals.map.slots@[q].0));
                }
                assert(g.inos@ =~= seq![ino]);
                assert(bg =~= ag.push((key, seq![ino])));
            }
            assert forall|gi: int, j: int|
                0 <= gi < bg.len() && 0 <= j < bg[gi].1.len()
                    implies #[trigger] self.inodes@.contains_key(bg[gi].1[j].0) by {
                if gi < ag.len() && j < ag[gi].1.len() {
                    assert(bg[gi].1[j] == ag[gi].1[j]);
                    assert(a.inodes@.contains_key(ag[gi].1[j].0));
                } else {
                    assert(bg[gi].1[j] == ino);
                }
            }
            // an element of the new groups is an old one at the same place, or `ino`
            assert forall|gi: int, j: int|
                0 <= gi < bg.len() && 0 <= j < bg[gi].1.len() implies (gi < ag.len() && j
                    < ag[gi].1.len() && #[trigger] bg[gi].1[j] == ag[gi].1[j]) || bg[gi].1[j]
                    == ino by {
                if !(gi < ag.len() && j < ag[gi].1.len()) {
                    assert(bg[gi].1[j] == ino);
                }
            }
            assert forall|gi: int, j: int|
                0 <= gi < bg.len() && 0 <= j < bg[gi].1.len()
                    implies #[trigger] self.grouped@.contains(bg[gi].1[j].0) by {
                if gi < ag.len() && j < ag[gi].1.len() && bg[gi].1[j] == ag[gi].1[j] {
                    assert(a.grouped@.contains(ag[gi].1[j].0));
                }
            }
            assert forall|k: u64| #[trigger] self.grouped@.contains(k) implies in_groups(bg, k) by {
                if k == ino.0 {
                    if a.identicals.map.contains(key) {
                        let p = a.identicals.map.pos(key);
                        assert(bg[p].1[ag[p].1.len() as int] == ino);
                    } else {
                        assert(bg[ag.len() as int].1[0] == ino);
                    }
                } else {
                    assert(a.grouped@.contains(k));
                    let (g0, j0) = choose|g0: int, j0: int|
                        0 <= g0 < ag.len() && 0 <= j0 < ag[g0].1.len() && ag[g0].1[j0].0 == k;
                    if a.identicals.map.contains(key) {
                        let p = a.identicals.map.pos(key);
                        if g0 == p {
                            assert(bg[g0].1[j0] == ag[g0].1[j0]);
                        } else {
                            assert(bg[g0] == ag[g0]);
                        }
                    } else {
                        assert(bg[g0] == ag[g0]);
                    }
                }
            }
            assert(!a.grouped@.contains(ino.0)) by {
                if a.grouped@.contains(ino.0) {
                    assert(in_groups(ag, ino.0));
                }
            }
        }
    }
}

impl Database {
    /// What is recorded of device `d`; nothing when it was never met.
    pub open spec fn dev(&self, d: u64) -> DeviceView {
        if self.devices.contains(d) {
            self.devices.at(d)@
        } else {
            DeviceView::empty()
        }
    }

    /// Room is left to record one more file on device `d`.
    pub open spec fn room_for(&self, d: u64) -> bool {
        if self.devices.contains(d) {
            self.devices.at(d).has_room()
        } else {
            self.devices.entries().len() < usize::MAX
        }
    }

    pub fn has_room_for(&self, dev: Dev) -> (r: bool)
        requires
            self.wf(),
        ensures
            r == self.room_for(dev.0),
    {
        match self.devices.get(&dev.0) {
            Some(device) => device.room(),
            None => self.devices.len() < usize::MAX,
        }
    }

    proof fn lemma_lift(a: &Self, b: &Self, d: u64, v: Device)
        requires
            a.wf(),
            a.devices.contains(d) || a.devices.entries().len() < usize::MAX,
            b.devices.grown_from(&a.devices, d, v),
            v.wf(),
        ensures
            b.wf(),
            b.dev(d) == v@,
            b.devices.contains(d),
            b.devices.at(d) == v,
            forall|e: u64| e != d ==> #[trigger] b.dev(e) == a.dev(e),
    {
        Arena::lemma_grown(&a.devices, &b.devices, d, v);
        assert forall|k: u64| #[trigger] b.devices.contains(k) implies b.devices.at(k).wf() by {
            assert(b.devices.at(k) == b.devices.view()[k]);
            if k != d {
                assert(a.devices.at(k) == a.devices.view()[k]);
            }
        }
        assert(b.devices.at(d) == b.devices.view()[d]);
        assert forall|e: u64| e != d implies #[trigger] b.dev(e) == a.dev(e) by {
            if a.devices.contains(e) {
                assert(b.devices.at(e) == b.devices.view()[e]);
                assert(a.devices.at(e) == a.devices.view()[e]);
            }
        }
    }

    /// Marks directory `ino` of `dev` as entered; true when traversal should
    /// descend into it, false when it was entered before.
    pub fn enter_dir(&mut self, dev: Dev, ino: Ino) -> (r: Result<bool, DedupError>)
        requires
            old(self).wf(),
        ensures
            final(self).wf(),
            match r {
                Ok(descend) => {
                    &&& old(self).room_for(dev.0) || old(self).devices.contains(dev.0)
                    &&& entered(old(self).dev(dev.0), final(self).dev(dev.0), ino.0, descend)
                    &&& forall|e: u64| e != dev.0 ==> #[trigger] final(self).dev(e) == old(self).dev(e)
                },
                Err(err) => {
                    &&& err == DedupError::CapacityExceeded
                    &&& !old(self).devices.contains(dev.0)
                    &&& !old(self).room_for(dev.0)
                    &&& *final(self) == *old(self)
                },
            },
    {
        if self.devices.find(&dev.0).is_none() && self.devices.len() == usize::MAX {
            return Err(DedupError::CapacityExceeded);
        }
        let ghost a = *self;
        let device = self.get_or_insert(dev);
        proof {
            if !a.devices.contains(dev.0) {
                assert(device@.groups =~= Seq::empty());
                assert(device@ == DeviceView::empty());
            }
        }
        let descend = device.enter_dir(ino);
        let ghost v = *device;
        proof {
            Self::lemma_lift(&a, self, dev.0, v);
        }
        Ok(descend)
    }

    /// Classifies one regular file of device `meta.dev` (see `prepared`);
    /// returns the files whose digests are now due.
    pub fn prepare_file(&mut self, path: PathBytes, meta: &FileMeta) -> (r: Result<
        Vec<HashRequest>,
        DedupError,
    >)
        requires
            old(self).wf(),
        ensures
            final(self).wf(),
            match r {
                Ok(reqs) => {
                    &&& old(self).room_for(meta.dev)
                    &&& prepared(old(self).dev(meta.dev), final(self).dev(meta.dev), path, *meta, reqs@)
                    &&& hashed_with_peer(final(self).dev(meta.dev), reqs@)
                    &&& forall|e: u64| e != meta.dev ==> #[trigger] final(self).dev(e) == old(self).dev(e)
                },
                Err(err) => {
                    &&& err == DedupError::CapacityExceeded
                    &&& !old(self).room_for(meta.dev)
                    &&& *final(self) == *old(self)
                },
            },
    {
        if !self.has_room_for(Dev(meta.dev)) {
            return Err(DedupError::CapacityExceeded);
        }
        let ghost a = *self;
        let device = self.get_or_insert(Dev(meta.dev));
        proof {
            if !a.devices.contains(meta.dev) {
                assert(device@.groups =~= Seq::empty());
                assert(device@ == DeviceView::empty());
            }
        }
        let reqs = device.prepare_file(path, meta);
        let ghost v = *device;
        proof {
            Self::lemma_lift(&a, self, meta.dev, v);
        }
        Ok(reqs)
    }

    /// Records the digest of inode `ino` of `dev` (see `grouped`).
    pub fn insert_identical_file(&mut self, dev: Dev, ino: Ino, hash: Sha256Value) -> (r: Result<
        (),
        DedupError,
    >)
        requires
            old(self).wf(),
        ensures
            final(self).wf(),
            match r {
                Ok(()) => {
                    &&& old(self).dev(dev.0).inodes.contains_key(ino.0)
                    &&& !in_groups(old(self).dev(dev.0).groups, ino.0)
                    &&& old(self).dev(dev.0).pending.contains(ino.0)
                    &&& old(self).room_for(dev.0)
                    &&& grouped(old(self).dev(dev.0), final(self).dev(dev.0), ino, hash.spec_key())
                    &&& forall|e: u64| e != dev.0 ==> #[trigger] final(self).dev(e) == old(self).dev(e)
                },
                Err(err) => {
                    let known = old(self).dev(dev.0).inodes.contains_key(ino.0);
                    let in_group = in_groups(old(self).dev(dev.0).groups, ino.0);
                    let asked = old(self).dev(dev.0).pending.contains(ino.0);
                    &&& err == if !known {
                        DedupError::UnknownInode
                    } else if in_group {
                        DedupError::AlreadyGrouped
                    } else if !asked {
                        DedupError::NotRequested
                    } else {
                        DedupError::CapacityExceeded
                    }
                    &&& known && !in_group && asked ==> !old(self).room_for(dev.0)
                    &&& *final(self) == *old(self)
                },
            },
    {
        let (known, already, asked) = match self.devices.get(&dev.0) {
            Some(device) => {
                let known = device.inodes.get(ino).is_some();
                let already = device.grouped.contains(&ino.0);
                let asked = device.pending.contains(&ino.0);
                proof {
                    assert(self.devices.contains(dev.0));
                    if in_groups(device@.groups, ino.0) {
                        let (g, j) = choose|g: int, j: int|
                            0 <= g < device@.groups.len() && 0 <= j < device@.groups[g].1.len()
                                && device@.groups[g].1[j].0 == ino.0;
                        assert(device.grouped@.contains(device.groups()[g].1[j].0));
                    }
                }
                (known, already, asked)
            },
            None => (false, false, false),
        };
        if !known {
            return Err(DedupError::UnknownInode);
        }
        if already {
            return Err(DedupError::AlreadyGrouped);
        }
        if !asked {
            return Err(DedupError::NotRequested);
        }
        if !self.has_room_for(dev) {
            return Err(DedupError::CapacityExceeded);
        }
        let ghost a = *self;
        let device = self.get_or_insert(dev);
        device.insert_identical_file(ino, hash);
        let ghost v = *device;
        proof {
            Self::lemma_lift(&a, self, dev.0, v);
        }
        Ok(())
    }

    /// Decides about one entry met by traversal, whose metadata is `meta`:
    /// a directory is entered unless it was before; a regular file is
    /// classified; anything else is left alone.
    pub fn walk_entry(&mut self, kind: EntryKind, path: PathBytes, meta: &FileMeta) -> (r: Result<
        WalkStep,
        DedupError,
    >)
        requires
            old(self).wf(),
        ensures
            final(self).wf(),
            match kind {
                EntryKind::Dir => match r {
                    Ok(step) => {
                        &&& old(self).room_for(meta.dev) || old(self).devices.contains(meta.dev)
                        &&& step == if old(self).dev(meta.dev).visited.contains(meta.ino) {
                            WalkStep::SkipDir
                        } else {
                            WalkStep::Descend
                        }
                        &&& entered(
                            old(self).dev(meta.dev),
                            final(self).dev(meta.dev),
                            meta.ino,
                            step == WalkStep::Descend,
                        )
                        &&& forall|e: u64| e != meta.dev ==> #[trigger] final(self).dev(e) == old(self).dev(e)
                    },
                    Err(err) => {
                        &&& err == DedupError::CapacityExceeded
                        &&& !old(self).devices.contains(meta.dev)
                        &&& !old(self).room_for(meta.dev)
                        &&& *final(self) == *old(self)
                    },
                },
                EntryKind::File => match r {
                    Ok(step) => {
                        &&& old(self).room_for(meta.dev)
                        &&& step matches WalkStep::Hash(reqs)
                        &&& prepared(old(self).dev(meta.dev), final(self).dev(meta.dev), path, *meta, reqs@)
                        &&& hashed_with_peer(final(self).dev(meta.dev), reqs@)
                        &&& forall|e: u64| e != meta.dev ==> #[trigger] final(self).dev(e) == old(self).dev(e)
                    },
                    Err(err) => {
                        &&& err == DedupError::CapacityExceeded
                        &&& !old(self).room_for(meta.dev)
                        &&& *final(self) == *old(self)
                    },
                },
                EntryKind::Other => r == Ok::<WalkStep, DedupError>(WalkStep::Ignore) && *final(self) == *old(self),
            },
    {
        match kind {
            EntryKind::Dir => match self.enter_dir(Dev(meta.dev), Ino(meta.ino)) {
                Ok(true) => Ok(WalkStep::Descend),
                Ok(false) => Ok(WalkStep::SkipDir),
                Err(e) => Err(e),
            },
            EntryKind::File => match self.prepare_file(path, meta) {
                Ok(reqs) => Ok(WalkStep::Hash(reqs)),
                Err(e) => Err(e),
            },
            EntryKind::Other => Ok(WalkStep::Ignore),
        }
    }
}

} // verus!
