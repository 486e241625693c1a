use dedup::{
    allocated_size, format_gain, plan_relink, relink, total_gain, update_mtime, Database,
    DedupError, Dev, EntryKind, FileMeta, FsOp, HashRequest, Ino, MTime, Sha256Value, WalkStep,
};

fn at(seconds: i64) -> MTime {
    MTime { seconds, nanos: 0 }
}

fn file(dev: u64, ino: u64, size: u64, seconds: i64, nlink: u64, blocks: u64) -> FileMeta {
    FileMeta { dev, ino, size, mtime: at(seconds), nlink, blocks }
}

fn req(ino: u64, path: &str) -> HashRequest {
    HashRequest { ino: Ino(ino), path: p(path) }
}

fn p(s: &str) -> Vec<u8> {
    s.as_bytes().to_vec()
}

const SAME: Sha256Value = Sha256Value(1, 2, 3, 4);

/// Walks one file and hands back `digest` for every hash it asks for.
fn add(db: &mut Database, path: &str, meta: FileMeta, digest_of: &dyn Fn(u64) -> Sha256Value) -> Vec<HashRequest> {
    let step = db.walk_entry(EntryKind::File, p(path), &meta).unwrap();
    let reqs = match step {
        WalkStep::Hash(reqs) => reqs,
        other => panic!("unexpected step {:?}", other),
    };
    for r in &reqs {
        db.insert_identical_file(Dev(meta.dev), r.ino, digest_of(r.ino.0)).unwrap();
    }
    reqs
}

#[test]
fn three_identical_files_become_one_group() {
    let mut db = Database::new();
    let same = |_: u64| SAME;
    assert_eq!(add(&mut db, "t/a", file(1, 11, 10, 300, 1, 8), &same), vec![]);
    assert_eq!(add(&mut db, "t/b", file(1, 12, 10, 200, 1, 8), &same), vec![req(11, "t/a"), req(12, "t/b")]);
    assert_eq!(add(&mut db, "t/c", file(1, 13, 10, 400, 1, 8), &same), vec![req(13, "t/c")]);
    let plans = plan_relink(&db);
    assert_eq!(plans.len(), 1);
    assert_eq!(plans[0].canonical, p("t/a"));
    assert_eq!(plans[0].links, vec![p("t/b"), p("t/c")]);
    assert_eq!(plans[0].mtime, at(200));
    assert_eq!(plans[0].gain, 2 * 4096);
    assert_eq!(total_gain(&plans), 8192);
    assert_eq!(format_gain(total_gain(&plans)), "8,192");
}

#[test]
fn equal_sizes_different_content_are_hashed_but_not_relinked() {
    let mut db = Database::new();
    let by_ino = |ino: u64| Sha256Value(ino, 0, 0, 0);
    assert_eq!(add(&mut db, "x", file(1, 21, 100, 0, 1, 8), &by_ino), vec![]);
    assert_eq!(add(&mut db, "y", file(1, 22, 100, 0, 1, 8), &by_ino), vec![req(21, "x"), req(22, "y")]);
    let plans = plan_relink(&db);
    assert!(plans.is_empty());
    assert_eq!(total_gain(&plans), 0);
    assert_eq!(format_gain(total_gain(&plans)), "0");
}

#[test]
fn unique_sizes_are_never_hashed() {
    let mut db = Database::new();
    let same = |_: u64| SAME;
    assert_eq!(add(&mut db, "a", file(1, 1, 5, 0, 1, 8), &same), vec![]);
    assert_eq!(add(&mut db, "b", file(1, 2, 6, 0, 1, 8), &same), vec![]);
    assert_eq!(add(&mut db, "c", file(1, 3, 7, 0, 1, 8), &same), vec![]);
    // a second size-6 file asks for both size-6 inodes only
    assert_eq!(add(&mut db, "d", file(1, 4, 6, 0, 1, 8), &same), vec![req(2, "b"), req(4, "d")]);
    assert!(plan_relink(&db).len() == 1);
}

#[test]
fn second_run_relinks_nothing() {
    // after consolidation a, b and c are three links of inode 11
    let mut db = Database::new();
    let same = |_: u64| SAME;
    assert_eq!(add(&mut db, "t/a", file(1, 11, 10, 200, 3, 8), &same), vec![]);
    assert_eq!(add(&mut db, "t/b", file(1, 11, 10, 200, 3, 8), &same), vec![]);
    assert_eq!(add(&mut db, "t/c", file(1, 11, 10, 200, 3, 8), &same), vec![]);
    assert!(plan_relink(&db).is_empty());
}

#[test]
fn canonical_gets_earliest_mtime() {
    let mut db = Database::new();
    let same = |_: u64| SAME;
    add(&mut db, "p", file(1, 1, 10, 50, 1, 8), &same);
    add(&mut db, "q", file(1, 2, 10, 20, 1, 8), &same);
    add(&mut db, "r", file(1, 3, 10, 30, 1, 8), &same);
    let plans = plan_relink(&db);
    assert_eq!(plans[0].mtime, at(20));
    let op = update_mtime(&plans[0].canonical, at(50), plans[0].mtime);
    assert_eq!(op, Some(FsOp::SetMtime { path: p("p"), mtime: at(20) }));
    assert_eq!(update_mtime(&plans[0].canonical, at(20), at(20)), None);
}

#[test]
fn nanoseconds_break_mtime_ties() {
    let mut db = Database::new();
    let same = |_: u64| SAME;
    let mut m1 = file(1, 1, 10, 20, 1, 8);
    m1.mtime.nanos = 9;
    let mut m2 = file(1, 2, 10, 20, 1, 8);
    m2.mtime.nanos = 3;
    add(&mut db, "p", m1, &same);
    add(&mut db, "q", m2, &same);
    assert_eq!(plan_relink(&db)[0].mtime, MTime { seconds: 20, nanos: 3 });
}

#[test]
fn inode_with_outside_link_adds_no_gain() {
    let mut db = Database::new();
    let same = |_: u64| SAME;
    add(&mut db, "a", file(1, 1, 10, 0, 1, 8), &same);
    // b has a second hard link outside the scanned tree
    add(&mut db, "b", file(1, 2, 10, 0, 2, 8), &same);
    add(&mut db, "c", file(1, 3, 10, 0, 1, 16), &same);
    let plans = plan_relink(&db);
    // b has the most links and becomes canonical; a and c are freed
    assert_eq!(plans[0].canonical, p("b"));
    assert_eq!(plans[0].links, vec![p("a"), p("c")]);
    assert_eq!(plans[0].gain, 4096 + 8192);
}

#[test]
fn partly_found_inode_is_relinked_but_not_counted() {
    let mut db = Database::new();
    let same = |_: u64| SAME;
    add(&mut db, "a", file(1, 1, 10, 0, 3, 8), &same);
    add(&mut db, "a2", file(1, 1, 10, 0, 3, 8), &same);
    add(&mut db, "b", file(1, 2, 10, 0, 2, 8), &same);
    let plans = plan_relink(&db);
    assert_eq!(plans[0].canonical, p("a"));
    assert_eq!(plans[0].links, vec![p("b")]);
    assert_eq!(plans[0].gain, 0);
}

#[test]
fn equal_link_counts_keep_discovery_order() {
    let mut db = Database::new();
    let same = |_: u64| SAME;
    add(&mut db, "first", file(1, 7, 10, 0, 2, 8), &same);
    add(&mut db, "second", file(1, 5, 10, 0, 2, 8), &same);
    let plans = plan_relink(&db);
    assert_eq!(plans[0].canonical, p("first"));
    assert_eq!(plans[0].links, vec![p("second")]);
}

#[test]
fn hard_link_of_known_inode_joins_its_paths() {
    let mut db = Database::new();
    let same = |_: u64| SAME;
    add(&mut db, "a", file(1, 1, 10, 0, 2, 8), &same);
    add(&mut db, "b", file(1, 2, 10, 0, 2, 8), &same);
    assert_eq!(add(&mut db, "b2", file(1, 2, 10, 0, 2, 8), &same), vec![]);
    let plans = plan_relink(&db);
    assert_eq!(plans[0].links, vec![p("b"), p("b2")]);
    assert_eq!(plans[0].gain, 4096);
}

#[test]
fn devices_are_kept_apart() {
    let mut db = Database::new();
    let same = |_: u64| SAME;
    assert_eq!(add(&mut db, "d1/a", file(1, 1, 10, 0, 1, 8), &same), vec![]);
    // same size and inode number on another device: nothing in common
    assert_eq!(add(&mut db, "d2/a", file(2, 1, 10, 0, 1, 8), &same), vec![]);
    assert_eq!(add(&mut db, "d2/b", file(2, 2, 10, 0, 1, 8), &same), vec![req(1, "d2/a"), req(2, "d2/b")]);
    let plans = plan_relink(&db);
    assert_eq!(plans.len(), 1);
    assert_eq!(plans[0].canonical, p("d2/a"));
}

#[test]
fn directory_is_entered_once() {
    let mut db = Database::new();
    let dir = file(1, 99, 4096, 0, 2, 8);
    assert_eq!(db.walk_entry(EntryKind::Dir, p("t"), &dir), Ok(WalkStep::Descend));
    // the same directory reached through another target
    assert_eq!(db.walk_entry(EntryKind::Dir, p("u/../t"), &dir), Ok(WalkStep::SkipDir));
    assert_eq!(db.enter_dir(Dev(1), Ino(99)), Ok(false));
    // the same inode number on another device is another directory
    assert_eq!(db.enter_dir(Dev(2), Ino(99)), Ok(true));
}

#[test]
fn other_entries_are_ignored() {
    let mut db = Database::new();
    let link = file(1, 5, 10, 0, 1, 0);
    assert_eq!(db.walk_entry(EntryKind::Other, p("l"), &link), Ok(WalkStep::Ignore));
    assert!(plan_relink(&db).is_empty());
}

#[test]
fn digest_for_unknown_inode_is_refused() {
    let mut db = Database::new();
    assert_eq!(db.insert_identical_file(Dev(1), Ino(3), SAME), Err(DedupError::UnknownInode));
    db.prepare_file(p("a"), &file(1, 3, 1, 0, 1, 1)).unwrap();
    assert_eq!(db.insert_identical_file(Dev(1), Ino(4), SAME), Err(DedupError::UnknownInode));
    assert_eq!(db.insert_identical_file(Dev(2), Ino(3), SAME), Err(DedupError::UnknownInode));
}

#[test]
fn digest_that_was_not_asked_for_is_refused() {
    let mut db = Database::new();
    // the only file of its size: no digest is due
    assert_eq!(db.prepare_file(p("a"), &file(1, 3, 1, 0, 1, 1)), Ok(vec![]));
    assert_eq!(db.insert_identical_file(Dev(1), Ino(3), SAME), Err(DedupError::NotRequested));
    let reqs = db.prepare_file(p("b"), &file(1, 4, 1, 0, 1, 1)).unwrap();
    assert_eq!(reqs, vec![req(3, "a"), req(4, "b")]);
    assert_eq!(db.insert_identical_file(Dev(1), Ino(3), SAME), Ok(()));
    assert_eq!(db.insert_identical_file(Dev(1), Ino(4), SAME), Ok(()));
    assert_eq!(plan_relink(&db).len(), 1);
}

#[test]
fn relink_across_devices_is_refused() {
    let r = relink(&p("o"), &p("d/l"), &p("d"), 1, 2, at(5));
    assert_eq!(r, Err(DedupError::DeviceMismatch { original_dev: 1, link_dev: 2 }));
}

#[test]
fn relink_removes_links_then_restores_directory_time() {
    let r = relink(&p("o"), &p("d/l"), &p("d"), 3, 3, at(5));
    assert_eq!(
        r,
        Ok(vec![
            FsOp::RemoveFile(p("d/l")),
            FsOp::HardLink { original: p("o"), link: p("d/l") },
            FsOp::SetMtime { path: p("d"), mtime: at(5) },
        ])
    );
}

#[test]
fn gain_is_grouped_by_thousands() {
    assert_eq!(format_gain(0), "0");
    assert_eq!(format_gain(999), "999");
    assert_eq!(format_gain(1000), "1,000");
    assert_eq!(format_gain(1234567), "1,234,567");
    assert_eq!(format_gain(1000001), "1,000,001");
    assert_eq!(format_gain(u64::MAX), "18,446,744,073,709,551,615");
}

#[test]
fn allocated_size_counts_blocks_and_saturates() {
    assert_eq!(allocated_size(0), 0);
    assert_eq!(allocated_size(8), 4096);
    assert_eq!(allocated_size(u64::MAX), u64::MAX);
    assert_eq!(allocated_size(u64::MAX / 512), (u64::MAX / 512) * 512);
}

#[test]
fn total_gain_saturates() {
    let mut db = Database::new();
    let same = |_: u64| SAME;
    add(&mut db, "a", file(1, 1, 10, 0, 1, u64::MAX), &same);
    add(&mut db, "b", file(1, 2, 10, 0, 1, u64::MAX), &same);
    add(&mut db, "c", file(1, 3, 10, 0, 1, u64::MAX), &same);
    let plans = plan_relink(&db);
    assert_eq!(plans[0].gain, u64::MAX);
    assert_eq!(total_gain(&plans), u64::MAX);
}

#[test]
fn second_digest_for_an_inode_is_refused() {
    let mut db = Database::new();
    db.prepare_file(p("a"), &file(1, 3, 1, 0, 1, 1)).unwrap();
    db.prepare_file(p("b"), &file(1, 4, 1, 0, 1, 1)).unwrap();
    assert_eq!(db.insert_identical_file(Dev(1), Ino(3), SAME), Ok(()));
    assert_eq!(db.insert_identical_file(Dev(1), Ino(3), SAME), Err(DedupError::AlreadyGrouped));
    assert_eq!(
        db.insert_identical_file(Dev(1), Ino(3), Sha256Value(9, 9, 9, 9)),
        Err(DedupError::AlreadyGrouped)
    );
}

#[test]
fn file_reached_twice_is_recorded_once() {
    let mut db = Database::new();
    let same = |_: u64| SAME;
    add(&mut db, "t/a", file(1, 1, 10, 0, 1, 8), &same);
    add(&mut db, "t/b", file(1, 2, 10, 0, 1, 8), &same);
    // t/b given again as a target of its own
    assert_eq!(add(&mut db, "t/b", file(1, 2, 10, 0, 1, 8), &same), vec![]);
    let plans = plan_relink(&db);
    assert_eq!(plans[0].links, vec![p("t/b")]);
    assert_eq!(plans[0].gain, 4096);
}

#[test]
fn names_that_are_not_utf8_are_handled() {
    let mut db = Database::new();
    let odd_a = vec![b'd', b'/', 0xff, 0xfe];
    let odd_b = vec![b'd', b'/', 0xc3, 0x28];
    assert_eq!(db.prepare_file(odd_a.clone(), &file(1, 1, 10, 0, 1, 8)), Ok(vec![]));
    let reqs = db.prepare_file(odd_b.clone(), &file(1, 2, 10, 0, 1, 8)).unwrap();
    assert_eq!(reqs, vec![HashRequest { ino: Ino(1), path: odd_a.clone() }, HashRequest { ino: Ino(2), path: odd_b.clone() }]);
    for r in &reqs {
        db.insert_identical_file(Dev(1), r.ino, SAME).unwrap();
    }
    let plans = plan_relink(&db);
    assert_eq!(plans[0].canonical, odd_a);
    assert_eq!(plans[0].links, vec![odd_b]);
}
