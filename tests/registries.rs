use dedup::{
    FileSizeSieve, FileSizeSieveEntry, IdenticalFile, IdenticalFiles, Ino, Inode, Inodes, MTime,
    Sha256Value, VisitedDirs,
};

#[test]
fn sieve_entry_moves_from_unique_to_ambiguous() {
    let mut sieve = FileSizeSieve::new();
    assert!(sieve.get_mut(10).is_none());
    sieve.set_unique(10, Ino(4));
    assert_eq!(sieve.get_mut(10).copied(), Some(FileSizeSieveEntry::Unique(Ino(4))));
    *sieve.get_mut(10).unwrap() = FileSizeSieveEntry::Ambiguous;
    assert_eq!(sieve.get_mut(10).copied(), Some(FileSizeSieveEntry::Ambiguous));
    assert!(sieve.get_mut(11).is_none());
}

#[test]
fn visited_dirs_report_first_visit() {
    let mut dirs = VisitedDirs::new();
    assert!(dirs.visit(Ino(1)));
    assert!(!dirs.visit(Ino(1)));
    assert!(dirs.visit(Ino(2)));
}

#[test]
fn identical_files_group_by_digest() {
    let mut groups = IdenticalFiles::new();
    groups.get_or_insert(Sha256Value(1, 1, 1, 1)).inos.push(Ino(1));
    groups.get_or_insert(Sha256Value(2, 2, 2, 2)).inos.push(Ino(2));
    groups.get_or_insert(Sha256Value(1, 1, 1, 1)).inos.push(Ino(3));
    assert_eq!(groups.get_or_insert(Sha256Value(1, 1, 1, 1)).inos, vec![Ino(1), Ino(3)]);
    assert_eq!(groups.map.len(), 2);
    assert_eq!(IdenticalFile::new().inos, vec![]);
}

#[test]
fn inode_record_keeps_first_metadata() {
    let mut inodes = Inodes::new();
    let t = MTime { seconds: 7, nanos: 1 };
    inodes.get_or_insert(Ino(5), t, 2, 4096).files.push(b"a".to_vec());
    inodes.get_or_insert(Ino(5), MTime { seconds: 9, nanos: 0 }, 3, 0).files.push(b"b".to_vec());
    let rec: &Inode = inodes.get(Ino(5)).unwrap();
    assert_eq!(rec.mtime, t);
    assert_eq!(rec.nlink, 2);
    assert_eq!(rec.realsize, 4096);
    assert_eq!(rec.files, vec![b"a".to_vec(), b"b".to_vec()]);
    assert!(inodes.get(Ino(6)).is_none());
    inodes.get_mut(Ino(5)).unwrap().files.push(b"c".to_vec());
    assert_eq!(inodes.get(Ino(5)).unwrap().files.len(), 3);
    let fresh = Inode::new(t, 1, 512);
    assert!(fresh.files.is_empty());
}
