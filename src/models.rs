use crate::arena::Arena;
use crate::path::PathBytes;
use vstd::prelude::*;

verus! {

broadcast use vstd::laws_cmp::group_laws_cmp;

/// An inode number, unique within one device.
#[derive(Debug, Clone, Copy, PartialEq, Eq, Structural, Hash)]
pub struct Ino(pub u64);

/// A device (file system) identifier.
#[derive(Debug, Clone, Copy, PartialEq, Eq, Structural, Hash)]
pub struct Dev(pub u64);

/// A modification time: whole seconds since the Unix epoch, plus nanoseconds.
///
/// Times order by seconds first, then by nanoseconds.
#[derive(Debug, Clone, Copy, PartialEq, Eq, Structural, Hash)]
pub struct MTime {
    pub seconds: i64,
    pub nanos: u32,
}

impl MTime {
    pub open spec fn spec_le(self, o: MTime) -> bool {
        self.seconds < o.seconds || (self.seconds == o.seconds && self.nanos <= o.nanos)
    }

    /// Whether `self` is not later than `o`.
    pub fn le(&self, o: &MTime) -> (r: bool)
        ensures
            r == self.spec_le(*o),
    {
        self.seconds < o.seconds || (self.seconds == o.seconds && self.nanos <= o.nanos)
    }
}

/// A SHA-256 digest as four 64-bit words, most significant first.
#[derive(Debug, Clone, Copy, PartialEq, Eq, Structural, Hash)]
pub struct Sha256Value(pub u64, pub u64, pub u64, pub u64);

impl Sha256Value {
    pub open spec fn spec_key(self) -> (u64, u64, u64, u64) {
        (self.0, self.1, self.2, self.3)
    }

    pub fn key(&self) -> (r: (u64, u64, u64, u64))
        ensures
            r == self.spec_key(),
    {
        (self.0, self.1, self.2, self.3)
    }
}

/// What is known of one inode: its metadata at discovery time and every
/// path found for it, in the order found.
#[derive(Debug)]
pub struct Inode {
    pub mtime: MTime,
    pub nlink: u64,
    /// Bytes allocated on disk, not the logical length.
    pub realsize: u64,
    pub files: Vec<PathBytes>,
}

impl Inode {
    /// `self` holds the given metadata and no path yet.
    pub open spec fn is_fresh(&self, mtime: MTime, nlink: u64, realsize: u64) -> bool {
        &&& self.mtime == mtime
        &&& self.nlink == nlink
        &&& self.realsize == realsize
        &&& self.files@ == Seq::<PathBytes>::empty()
    }

    pub fn new(mtime: MTime, nlink: u64, realsize: u64) -> (r: Self)
        ensures
            r.is_fresh(mtime, nlink, realsize),
    {
        Inode { mtime, nlink, realsize, files: Vec::new() }
    }
}

/// The inode registry of one device, keyed by inode number.
#[derive(Debug)]
pub struct Inodes {
    pub map: Arena<u64, Inode>,
}

impl View for Inodes {
    type V = Map<u64, Inode>;

    open spec fn view(&self) -> Map<u64, Inode> {
        self.map.view()
    }
}

impl Inodes {
    pub open spec fn wf(&self) -> bool {
        self.map.wf()
    }

    pub fn new() -> (r: Self)
        ensures
            r.wf(),
            r@ == Map::<u64, Inode>::empty(),
            r.map.entries().len() == 0,
    {
        let r = Inodes { map: Arena::new() };
        assert(r@ =~= Map::<u64, Inode>::empty());
        r
    }

    /// Lends the record of `ino`, first creating it, with no path, if it is
    /// not known yet.
    pub fn get_or_insert(&mut self, ino: Ino, mtime: MTime, nlink: u64, realsize: u64) -> (r:
        &mut Inode)
        requires
            old(self).wf(),
            old(self).map.entries().len() < usize::MAX,
        ensures
            old(self)@.contains_key(ino.0) ==> *r == old(self)@[ino.0],
            !old(self)@.contains_key(ino.0) ==> r.is_fresh(mtime, nlink, realsize),
            final(self).map.grown_from(&old(self).map, ino.0, *final(r)),
    {
        self.map.get_or_insert(ino.0, Inode::new(mtime, nlink, realsize))
    }

    pub fn get(&self, ino: Ino) -> (r: Option<&Inode>)
        requires
            self.wf(),
        ensures
            match r {
                Some(v) => self@.contains_key(ino.0) && *v == self@[ino.0],
                None => !self@.contains_key(ino.0),
            },
    {
        self.map.get(&ino.0)
    }

    pub fn get_mut(&mut self, ino: Ino) -> (r: Option<&mut Inode>)
        requires
            old(self).wf(),
        ensures
            match r {
                Some(v) => {
                    &&& old(self)@.contains_key(ino.0)
                    &&& *v == old(self)@[ino.0]
                    &&& final(self).map.lent_from(&old(self).map, ino.0, *final(v))
                },
                None => !old(self)@.contains_key(ino.0) && *final(self) == *old(self),
            },
    {
        self.map.get_mut(&ino.0)
    }
}

/// The inodes found to share one content digest, in the order found.
#[derive(Debug)]
pub struct IdenticalFile {
    pub inos: Vec<Ino>,
}

impl IdenticalFile {
    pub fn new() -> (r: Self)
        ensures
            r.inos@ == Seq::<Ino>::empty(),
    {
        IdenticalFile { inos: Vec::new() }
    }
}

/// The content groups of one device, keyed by digest, in the order their
/// digests first appeared.
#[derive(Debug)]
pub struct IdenticalFiles {
    pub map: Arena<(u64, u64, u64, u64), IdenticalFile>,
}

impl IdenticalFiles {
    pub open spec fn wf(&self) -> bool {
        self.map.wf()
    }

    pub fn new() -> (r: Self)
        ensures
            r.wf(),
            r.map.entries().len() == 0,
            forall|k: (u64, u64, u64, u64)| !r.map.contains(k),
    {
        IdenticalFiles { map: Arena::new() }
    }

    /// Lends the group of `hash`, first creating it empty if there is none.
    pub fn get_or_insert(&mut self, hash: Sha256Value) -> (r: &mut IdenticalFile)
        requires
            old(self).wf(),
            old(self).map.entries().len() < usize::MAX,
        ensures
            r.inos@ == if old(self).map.contains(hash.spec_key()) {
                old(self).map.at(hash.spec_key()).inos@
            } else {
                Seq::empty()
            },
            final(self).map.grown_from(&old(self).map, hash.spec_key(), *final(r)),
    {
        self.map.get_or_insert(hash.key(), IdenticalFile::new())
    }
}

/// What the size sieve knows of one file size.
#[derive(Debug, Clone, Copy, PartialEq, Eq, Structural)]
pub enum FileSizeSieveEntry {
    /// Exactly one inode of this size is known; it has not been hashed.
    Unique(Ino),
    /// Two or more inodes of this size are known; all of them are hashed.
    Ambiguous,
}

/// The size sieve of one device, keyed by logical file size.
#[derive(Debug)]
pub struct FileSizeSieve {
    pub map: Arena<u64, FileSizeSieveEntry>,
}

impl View for FileSizeSieve {
    type V = Map<u64, FileSizeSieveEntry>;

    open spec fn view(&self) -> Map<u64, FileSizeSieveEntry> {
        self.map.view()
    }
}

impl FileSizeSieve {
    pub open spec fn wf(&self) -> bool {
        self.map.wf()
    }

    pub fn new() -> (r: Self)
        ensures
            r.wf(),
            r@ == Map::<u64, FileSizeSieveEntry>::empty(),
            r.map.entries().len() == 0,
    {
        let r = FileSizeSieve { map: Arena::new() };
        assert(r@ =~= Map::<u64, FileSizeSieveEntry>::empty());
        r
    }

    /// Lends the entry of `size`, if there is one.
    pub fn get_mut(&mut self, size: u64) -> (r: Option<&mut FileSizeSieveEntry>)
        requires
            old(self).wf(),
        ensures
            match r {
                Some(e) => {
                    &&& old(self)@.contains_key(size)
                    &&& *e == old(self)@[size]
                    &&& final(self).map.lent_from(&old(self).map, size, *final(e))
                },
                None => !old(self)@.contains_key(size) && *final(self) == *old(self),
            },
    {
        self.map.get_mut(&size)
    }

    /// Records that `ino` is, so far, the only inode of `size`.
    pub fn set_unique(&mut self, size: u64, ino: Ino)
        requires
            old(self).wf(),
            old(self).map.entries().len() < usize::MAX,
        ensures
            final(self).wf(),
            final(self)@ == old(self)@.insert(size, FileSizeSieveEntry::Unique(ino)),
            final(self).map.entries().len() <= old(self).map.entries().len() + 1,
    {
        let ghost a = self.map;
        let e = self.map.get_or_insert(size, FileSizeSieveEntry::Unique(ino));
        *e = FileSizeSieveEntry::Unique(ino);
        proof {
            Arena::lemma_grown(&a, &self.map, size, FileSizeSieveEntry::Unique(ino));
        }
    }
}

/// The directory inodes of one device that traversal has entered.
#[derive(Debug)]
pub struct VisitedDirs {
    pub set: std::collections::HashSet<u64>,
}

impl View for VisitedDirs {
    type V = Set<u64>;

    open spec fn view(&self) -> Set<u64> {
        self.set@
    }
}

impl VisitedDirs {
    pub fn new() -> (r: Self)
        ensures
            r@ == Set::<u64>::empty(),
    {
        VisitedDirs { set: std::collections::HashSet::new() }
    }

    /// Marks `ino` as entered; true when it had not been entered before.
    pub fn visit(&mut self, ino: Ino) -> (r: bool)
        ensures
            r == !old(self)@.contains(ino.0),
            final(self)@ == old(self)@.insert(ino.0),
    {
        broadcast use vstd::std_specs::hash::group_hash_axioms;

        self.set.insert(ino.0)
    }
}

/// Everything traversal records about one device.
pub struct Device {
    pub inodes: Inodes,
    pub sieve: FileSizeSieve,
    pub identicals: IdenticalFiles,
    pub visited_dirs: VisitedDirs,
    /// The logical size of each known inode.
    pub sizes: Ghost<Map<u64, u64>>,
    /// For each size in the sieve, the first inode seen with that size.
    pub first_of_size: Ghost<Map<u64, u64>>,
    /// The inodes already placed in a content group.
    pub grouped: std::collections::HashSet<u64>,
    /// The inodes whose digest was asked for and not yet handed back.
    pub pending: std::collections::HashSet<u64>,
}

/// Whether inode `k` is a member of one of `groups`.
pub open spec fn in_groups(groups: Seq<((u64, u64, u64, u64), Seq<Ino>)>, k: u64) -> bool {
    exists|g: int, j: int| 0 <= g < groups.len() && 0 <= j < groups[g].1.len() && groups[g].1[j].0 == k
}

impl Device {
    /// The content groups: each digest key with its member inodes.
    pub open spec fn groups(&self) -> Seq<((u64, u64, u64, u64), Seq<Ino>)> {
        self.identicals.map.entries().map_values(
            |e: ((u64, u64, u64, u64), IdenticalFile)| (e.0, e.1.inos@),
        )
    }

    pub open spec fn wf(&self) -> bool {
        &&& self.inodes.wf()
        &&& self.sieve.wf()
        &&& self.identicals.wf()
        &&& self.sizes@.dom() == self.inodes@.dom()
        &&& self.first_of_size@.dom() == self.sieve@.dom()
        &&& forall|k: u64| #[trigger]
            self.inodes@.contains_key(k) ==> {
                &&& self.inodes@[k].files@.len() >= 1
                &&& self.sieve@.contains_key(self.sizes@[k])
                // an inode whose size is still unique is the first of that size
                &&& (self.sieve@[self.sizes@[k]] is Unique ==> self.first_of_size@[self.sizes@[k]]
                    == k)
            }
        &&& forall|s: u64| #[trigger]
            self.sieve@.contains_key(s) ==> {
                &&& self.inodes@.contains_key(self.first_of_size@[s])
                &&& self.sizes@[self.first_of_size@[s]] == s
                &&& (self.sieve@[s] matches FileSizeSieveEntry::Unique(i) ==> i.0
                    == self.first_of_size@[s])
                // an ambiguous size has a second inode
                &&& (self.sieve@[s] is Ambiguous ==> exists|j: u64|
                    self.inodes@.contains_key(j) && self.sizes@[j] == s && j
                        != self.first_of_size@[s])
            }
        // only inodes of an ambiguous size are asked for or grouped
        &&& forall|k: u64| #[trigger]
            self.pending@.contains(k) ==> {
                &&& self.inodes@.contains_key(k)
                &&& self.sieve@[self.sizes@[k]] is Ambiguous
                &&& !self.grouped@.contains(k)
            }
        &&& forall|k: u64| #[trigger]
            self.grouped@.contains(k) ==> self.sieve@[self.sizes@[k]] is Ambiguous
        &&& forall|g: int, j: int|
            0 <= g < self.groups().len() && 0 <= j < self.groups()[g].1.len()
                ==> #[trigger] self.inodes@.contains_key(self.groups()[g].1[j].0)
        &&& forall|g: int, j: int|
            0 <= g < self.groups().len() && 0 <= j < self.groups()[g].1.len()
                ==> #[trigger] self.grouped@.contains(self.groups()[g].1[j].0)
        &&& forall|k: u64| #[trigger] self.grouped@.contains(k) ==> in_groups(self.groups(), k)
        // no inode is in two groups, nor twice in one
        &&& forall|g1: int, j1: int, g2: int, j2: int|
            0 <= g1 < self.groups().len() && 0 <= j1 < self.groups()[g1].1.len() && 0 <= g2
                < self.groups().len() && 0 <= j2 < self.groups()[g2].1.len() && (g1 != g2 || j1
                != j2) ==> #[trigger] self.groups()[g1].1[j1] != #[trigger] self.groups()[g2].1[j2]
    }

    /// A device of which nothing is recorded yet.
    pub open spec fn is_empty(&self) -> bool {
        &&& self.inodes@ == Map::<u64, Inode>::empty()
        &&& self.sieve@ == Map::<u64, FileSizeSieveEntry>::empty()
        &&& self.groups().len() == 0
        &&& self.visited_dirs@ == Set::<u64>::empty()
        &&& self.sizes@ == Map::<u64, u64>::empty()
        &&& self.pending@ == Set::<u64>::empty()
    }

    /// No registry of the device holds a record.
    pub open spec fn is_new(&self) -> bool {
        &&& self.inodes.map.entries().len() == 0
        &&& self.sieve.map.entries().len() == 0
        &&& self.identicals.map.entries().len() == 0
    }

    pub fn new() -> (r: Self)
        ensures
            r.wf(),
            r.is_empty(),
            r.is_new(),
    {
        let r = Device {
            inodes: Inodes::new(),
            sieve: FileSizeSieve::new(),
            identicals: IdenticalFiles::new(),
            visited_dirs: VisitedDirs::new(),
            sizes: Ghost(Map::empty()),
            first_of_size: Ghost(Map::empty()),
            grouped: std::collections::HashSet::new(),
            pending: std::collections::HashSet::new(),
        };
        assert(r.groups() =~= Seq::empty());
        r
    }
}

/// All that traversal records, per device, in the order devices were met.
pub struct Database {
    pub devices: Arena<u64, Device>,
}

impl Database {
    pub open spec fn wf(&self) -> bool {
        &&& self.devices.wf()
        &&& forall|d: u64| #[trigger] self.devices.contains(d) ==> self.devices.at(d).wf()
    }

    pub fn new() -> (r: Self)
        ensures
            r.wf(),
            r.devices.entries().len() == 0,
            forall|d: u64| !r.devices.contains(d),
    {
        Database { devices: Arena::new() }
    }

    /// Lends the record of `dev`, first creating it empty if it is not known.
    pub fn get_or_insert(&mut self, dev: Dev) -> (r: &mut Device)
        requires
            old(self).wf(),
            old(self).devices.contains(dev.0) || old(self).devices.entries().len() < usize::MAX,
        ensures
            old(self).devices.contains(dev.0) ==> *r == old(self).devices.at(dev.0),
            !old(self).devices.contains(dev.0) ==> r.is_empty() && r.is_new(),
            r.wf(),
            final(self).devices.grown_from(&old(self).devices, dev.0, *final(r)),
    {
        self.devices.get_or_insert(dev.0, Device::new())
    }
}

} // verus!
