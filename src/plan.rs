use crate::models::{Database, Device, Ino, Inode, Inodes, MTime};
use crate::path::{copy_path, paths, PathBytes};
use crate::relink::{mtime_after, mtime_step};
use crate::scan::DeviceView;
use vstd::prelude::*;

verus! {

broadcast use vstd::laws_cmp::group_laws_cmp;

/// What consolidating one content group does.
#[derive(Debug, Clone, PartialEq, Eq)]
pub struct GroupPlan {
    /// The first path of the chosen inode; it keeps its inode.
    pub canonical: PathBytes,
    /// The earliest modification time among the group's inodes, for the canonical path.
    pub mtime: MTime,
    /// Every path of every other inode of the group, each to become a hard
    /// link to `canonical`.
    pub links: Vec<PathBytes>,
    /// Bytes freed by the group, saturated at `u64::MAX`.
    pub gain: u64,
}

/// A group plan as plain values.
pub struct PlanView {
    pub canonical: Seq<u8>,
    pub mtime: MTime,
    pub links: Seq<Seq<u8>>,
    pub gain: int,
}

impl View for GroupPlan {
    type V = PlanView;

    open spec fn view(&self) -> PlanView {
        PlanView {
            canonical: self.canonical@,
            mtime: self.mtime,
            links: paths(self.links@),
            gain: self.gain as int,
        }
    }
}

/// `x`, saturated at `u64::MAX`.
pub open spec fn sat(x: int) -> int {
    if x > u64::MAX {
        u64::MAX as int
    } else {
        x
    }
}

/// The position, among the first `n` inodes, of the first one with the most links.
pub open spec fn canonical_index(ms: Seq<Inode>, n: int) -> int
    decreases n,
{
    if n <= 1 {
        0
    } else {
        let b = canonical_index(ms, n - 1);
        if ms[n - 1].nlink > ms[b].nlink {
            n - 1
        } else {
            b
        }
    }
}

/// The earliest modification time among the first `n` inodes.
pub open spec fn min_mtime(ms: Seq<Inode>, n: int) -> MTime
    decreases n,
{
    if n <= 1 {
        ms[0].mtime
    } else {
        let m = min_mtime(ms, n - 1);
        if m.spec_le(ms[n - 1].mtime) {
            m
        } else {
            ms[n - 1].mtime
        }
    }
}

/// The paths of the first `n` inodes but the one at `c`, inode by inode.
pub open spec fn links_of(ms: Seq<Inode>, c: int, n: int) -> Seq<Seq<u8>>
    decreases n,
{
    if n <= 0 {
        Seq::empty()
    } else if n - 1 == c {
        links_of(ms, c, n - 1)
    } else {
        links_of(ms, c, n - 1) + paths(ms[n - 1].files@)
    }
}

/// Whether relinking every path found for `m` frees it: all its hard links were found.
pub open spec fn fully_found(m: Inode) -> bool {
    m.files@.len() == m.nlink
}

/// The allocated bytes of the first `n` inodes but the one at `c`, counting
/// only those all of whose links were found.
pub open spec fn gain_of(ms: Seq<Inode>, c: int, n: int) -> int
    decreases n,
{
    if n <= 0 {
        0
    } else if n - 1 != c && fully_found(ms[n - 1]) {
        gain_of(ms, c, n - 1) + ms[n - 1].realsize
    } else {
        gain_of(ms, c, n - 1)
    }
}

/// The inode records of a group's members.
pub open spec fn members(inodes: Map<u64, Inode>, inos: Seq<Ino>) -> Seq<Inode> {
    inos.map_values(|i: Ino| inodes[i.0])
}

/// The plan of a group whose members' records are `ms`.
pub open spec fn group_plan(ms: Seq<Inode>) -> PlanView {
    let c = canonical_index(ms, ms.len() as int);
    PlanView {
        canonical: ms[c].files@[0]@,
        mtime: min_mtime(ms, ms.len() as int),
        links: links_of(ms, c, ms.len() as int),
        gain: sat(gain_of(ms, c, ms.len() as int)),
    }
}

/// The plans of the first `n` groups of a device, for groups of two or more inodes.
pub open spec fn device_plans(dv: DeviceView, n: int) -> Seq<PlanView>
    decreases n,
{
    if n <= 0 {
        Seq::empty()
    } else if dv.groups[n - 1].1.len() >= 2 {
        device_plans(dv, n - 1).push(group_plan(members(dv.inodes, dv.groups[n - 1].1)))
    } else {
        device_plans(dv, n - 1)
    }
}

/// The plans of the first `n` devices of a database, in the order devices were met.
pub open spec fn database_plans(db: Database, n: int) -> Seq<PlanView>
    decreases n,
{
    if n <= 0 {
        Seq::empty()
    } else {
        let dv = db.devices.entries()[n - 1].1@;
        database_plans(db, n - 1) + device_plans(dv, dv.groups.len() as int)
    }
}

/// The plans of the whole database.
pub open spec fn plans(db: Database) -> Seq<PlanView> {
    database_plans(db, db.devices.entries().len() as int)
}

/// The sum of the gains of the first `n` plans.
pub open spec fn sum_gains(ps: Seq<PlanView>, n: int) -> int
    decreases n,
{
    if n <= 0 {
        0
    } else {
        sum_gains(ps, n - 1) + ps[n - 1].gain
    }
}

pub open spec fn views(ps: Seq<GroupPlan>) -> Seq<PlanView> {
    ps.map_values(|p: GroupPlan| p@)
}

fn add_saturating(a: u64, b: u64) -> (r: u64)
    ensures
        r == sat(a + b),
{
    if a > u64::MAX - b {
        u64::MAX
    } else {
        a + b
    }
}

/// Plans the consolidation of one group of two or more inodes.
pub fn plan_group(inodes: &Inodes, inos: &Vec<Ino>) -> (r: GroupPlan)
    requires
        inodes.wf(),
        inos@.len() >= 2,
        forall|j: int| 0 <= j < inos@.len() ==> #[trigger] inodes@.contains_key(inos@[j].0),
        forall|k: u64| #[trigger] inodes@.contains_key(k) ==> inodes@[k].files@.len() >= 1,
    ensures
        r@ == group_plan(members(inodes@, inos@)),
{
    let ghost ms = members(inodes@, inos@);
    let n = inos.len();
    let first = inodes.get(inos[0]).unwrap();
    let mut best: usize = 0;
    let mut best_nlink: u64 = first.nlink;
    let mut mtime: MTime = first.mtime;
    let mut i: usize = 1;
    while i < n
        invariant
            1 <= i <= n,
            n == inos@.len(),
            ms.len() == n,
            inodes.wf(),
            forall|j: int| 0 <= j < inos@.len() ==> #[trigger] inodes@.contains_key(inos@[j].0),
            ms == members(inodes@, inos@),
            best == canonical_index(ms, i as int),
            0 <= best < i,
            best_nlink == ms[best as int].nlink,
            mtime == min_mtime(ms, i as int),
        decreases n - i,
    {
        let m = inodes.get(inos[i]).unwrap();
        if m.nlink > best_nlink {
            best = i;
            best_nlink = m.nlink;
        }
        if !mtime.le(&m.mtime) {
            mtime = m.mtime;
        }
        i = i + 1;
    }
    let mut links: Vec<PathBytes> = Vec::new();
    let mut gain: u64 = 0;
    let mut i: usize = 0;
    while i < n
        invariant
            0 <= i <= n,
            n == inos@.len(),
            ms.len() == n,
            inodes.wf(),
            forall|j: int| 0 <= j < inos@.len() ==> #[trigger] inodes@.contains_key(inos@[j].0),
            ms == members(inodes@, inos@),
            0 <= best < n,
            paths(links@) == links_of(ms, best as int, i as int),
            gain == sat(gain_of(ms, best as int, i as int)),
        decreases n - i,
    {
        if i != best {
            let m = inodes.get(inos[i]).unwrap();
            let mut k: usize = 0;
            while k < m.files.len()
                invariant
                    0 <= k <= m.files@.len(),
                    paths(links@) == links_of(ms, best as int, i as int) + paths(
                        m.files@.subrange(0, k as int),
                    ),
                decreases m.files@.len() - k,
            {
                let ghost before = links@;
                links.push(copy_path(&m.files[k]));
                proof {
                    assert(paths(links@) =~= paths(before).push(m.files@[k as int]@));
                    assert(paths(m.files@.subrange(0, k + 1)) =~= paths(
                        m.files@.subrange(0, k as int),
                    ).push(m.files@[k as int]@));
                    assert(paths(links@) =~= links_of(ms, best as int, i as int) + paths(
                        m.files@.subrange(0, k + 1),
                    ));
                }
                k = k + 1;
            }
            proof {
                assert(m.files@.subrange(0, m.files@.len() as int) =~= m.files@);
                assert(ms[i as int] == *m);
            }
            if m.files.len() as u64 == m.nlink {
                gain = add_saturating(gain, m.realsize);
            }
        }
        i = i + 1;
    }
    let canonical = copy_path(&inodes.get(inos[best]).unwrap().files[0]);
    GroupPlan { canonical, mtime, links, gain }
}

/// Appends to `out` the plans of the device's groups of two or more inodes.
fn plan_device(device: &Device, out: &mut Vec<GroupPlan>)
    requires
        device.wf(),
    ensures
        views(final(out)@) == views(old(out)@) + device_plans(device@, device@.groups.len() as int),
{
    let ghost dv = device@;
    let n = device.identicals.map.len();
    let mut i: usize = 0;
    while i < n
        invariant
            0 <= i <= n,
            n == dv.groups.len(),
            dv == device@,
            device.wf(),
            views(out@) == views(old(out)@) + device_plans(dv, i as int),
        decreases n - i,
    {
        let group = &device.identicals.map.slot(i).1;
        assert(group.inos@ == dv.groups[i as int].1);
        if group.inos.len() >= 2 {
            proof {
                assert forall|j: int| 0 <= j < group.inos@.len() implies #[trigger] device.inodes@.contains_key(group.inos@[j].0) by {
                    assert(device.inodes@.contains_key(dv.groups[i as int].1[j].0));
                }
            }
            let p = plan_group(&device.inodes, &group.inos);
            let ghost prev = out@;
            out.push(p);
            proof {
                assert(views(out@) =~= views(prev).push(p@));
                assert(device_plans(dv, i + 1) == device_plans(dv, i as int).push(p@));
                assert((views(old(out)@) + device_plans(dv, i as int)).push(p@) =~= views(old(out)@)
                    + device_plans(dv, i as int).push(p@));
            }
        }
        i = i + 1;
    }
}

/// Plans the consolidation of every content group of two or more inodes,
/// device by device in the order devices were met, group by group in the
/// order digests first appeared.
pub fn plan_relink(db: &Database) -> (r: Vec<GroupPlan>)
    requires
        db.wf(),
    ensures
        views(r@) == plans(*db),
{
    let n = db.devices.len();
    let mut out: Vec<GroupPlan> = Vec::new();
    let mut i: usize = 0;
    while i < n
        invariant
            0 <= i <= n,
            n == db.devices.entries().len(),
            db.wf(),
            views(out@) == database_plans(*db, i as int),
        decreases n - i,
    {
        let entry = db.devices.slot(i);
        proof {
            assert(db.devices.index@.contains_key(db.devices.slots@[i as int].0));
            assert(db.devices.at(entry.0) == entry.1);
            assert(db.devices.contains(entry.0));
        }
        plan_device(&entry.1, &mut out);
        i = i + 1;
    }
    proof {
        assert(views(Seq::<GroupPlan>::empty()) =~= Seq::<PlanView>::empty());
    }
    out
}

/// The bytes reclaimed by carrying out `ps`, saturated at `u64::MAX`.
pub fn total_gain(ps: &Vec<GroupPlan>) -> (r: u64)
    ensures
        r == sat(sum_gains(views(ps@), ps@.len() as int)),
{
    let mut total: u64 = 0;
    let mut i: usize = 0;
    while i < ps.len()
        invariant
            0 <= i <= ps@.len(),
            total == sat(sum_gains(views(ps@), i as int)),
        decreases ps@.len() - i,
    {
        total = add_saturating(total, ps[i].gain);
        i = i + 1;
    }
    total
}

proof fn lemma_min_mtime(ms: Seq<Inode>, n: int)
    requires
        1 <= n <= ms.len(),
    ensures
        forall|j: int| 0 <= j < n ==> min_mtime(ms, n).spec_le(#[trigger] ms[j].mtime),
        exists|j: int| 0 <= j < n && min_mtime(ms, n) == ms[j].mtime,
    decreases n,
{
    if n > 1 {
        lemma_min_mtime(ms, n - 1);
        let m = min_mtime(ms, n - 1);
        if m.spec_le(ms[n - 1].mtime) {
            let j = choose|j: int| 0 <= j < n - 1 && m == ms[j].mtime;
            assert(0 <= j < n && min_mtime(ms, n) == ms[j].mtime);
        } else {
            assert(min_mtime(ms, n) == ms[n - 1].mtime);
        }
    } else {
        assert(min_mtime(ms, n) == ms[0].mtime);
    }
}

/// Once its time is set as planned, the canonical file of a group carries
/// the earliest modification time among the group's inodes: no later than
/// any of them, and equal to one of them.
pub proof fn lemma_canonical_mtime_is_earliest(ms: Seq<Inode>, current: MTime)
    requires
        ms.len() >= 1,
    ensures
        ({
            let p = group_plan(ms);
            let t = mtime_after(current, mtime_step(p.canonical, current, p.mtime));
            &&& forall|j: int| 0 <= j < ms.len() ==> t.spec_le(#[trigger] ms[j].mtime)
            &&& exists|j: int| 0 <= j < ms.len() && t == ms[j].mtime
        }),
{
    lemma_min_mtime(ms, ms.len() as int);
}

proof fn lemma_device_plans_empty(dv: DeviceView, n: int)
    requires
        n <= dv.groups.len(),
        forall|g: int| 0 <= g < dv.groups.len() ==> #[trigger] dv.groups[g].1.len() <= 1,
    ensures
        device_plans(dv, n) == Seq::<PlanView>::empty(),
    decreases n,
{
    if n > 0 {
        lemma_device_plans_empty(dv, n - 1);
    }
}

proof fn lemma_database_plans_empty(db: Database, n: int)
    requires
        n <= db.devices.entries().len(),
        forall|i: int, g: int|
            0 <= i < db.devices.entries().len() && 0 <= g < db.devices.entries()[i].1@.groups.len()
                ==> #[trigger] db.devices.entries()[i].1@.groups[g].1.len() <= 1,
    ensures
        database_plans(db, n) == Seq::<PlanView>::empty(),
    decreases n,
{
    if n > 0 {
        lemma_database_plans_empty(db, n - 1);
        let dv = db.devices.entries()[n - 1].1@;
        assert forall|g: int| 0 <= g < dv.groups.len() implies #[trigger] dv.groups[g].1.len() <= 1 by {
            assert(db.devices.entries()[n - 1].1@.groups[g].1.len() <= 1);
        }
        lemma_device_plans_empty(dv, dv.groups.len() as int);
        assert(database_plans(db, n) =~= Seq::<PlanView>::empty());
    }
}

/// Consolidating a tree a second time relinks nothing: after the first run
/// all files of identical content share one inode, so traversal puts a
/// single inode in each content group, and no group is planned.
pub proof fn lemma_second_run_relinks_nothing(db: Database)
    requires
        forall|i: int, g: int|
            0 <= i < db.devices.entries().len() && 0 <= g < db.devices.entries()[i].1@.groups.len()
                ==> #[trigger] db.devices.entries()[i].1@.groups[g].1.len() <= 1,
    ensures
        plans(db) == Seq::<PlanView>::empty(),
{
    lemma_database_plans_empty(db, db.devices.entries().len() as int);
}

/// The bytes freed by the first `n` groups of a device, without saturation.
pub open spec fn device_gain(dv: DeviceView, n: int) -> int
    decreases n,
{
    if n <= 0 {
        0
    } else if dv.groups[n - 1].1.len() >= 2 {
        let ms = members(dv.inodes, dv.groups[n - 1].1);
        device_gain(dv, n - 1) + gain_of(ms, canonical_index(ms, ms.len() as int), ms.len() as int)
    } else {
        device_gain(dv, n - 1)
    }
}

/// The bytes freed by the first `n` devices of a database, without saturation.
pub open spec fn database_gain(db: Database, n: int) -> int
    decreases n,
{
    if n <= 0 {
        0
    } else {
        let dv = db.devices.entries()[n - 1].1@;
        database_gain(db, n - 1) + device_gain(dv, dv.groups.len() as int)
    }
}

proof fn lemma_gain_of_nonneg(ms: Seq<Inode>, c: int, n: int)
    ensures
        gain_of(ms, c, n) >= 0,
    decreases n,
{
    if n > 0 {
        lemma_gain_of_nonneg(ms, c, n - 1);
    }
}

proof fn lemma_sum_gains_concat(a: Seq<PlanView>, b: Seq<PlanView>)
    ensures
        sum_gains(a + b, (a + b).len() as int) == sum_gains(a, a.len() as int) + sum_gains(
            b,
            b.len() as int,
        ),
    decreases b.len(),
{
    if b.len() == 0 {
        assert(a + b =~= a);
    } else {
        let b0 = b.subrange(0, b.len() - 1);
        lemma_sum_gains_concat(a, b0);
        assert((a + b).subrange(0, (a + b).len() - 1) =~= a + b0);
        lemma_sum_gains_prefix(a + b, (a + b).len() - 1);
        lemma_sum_gains_prefix(b, b.len() - 1);
    }
}

proof fn lemma_sum_gains_prefix(ps: Seq<PlanView>, n: int)
    requires
        0 <= n <= ps.len(),
    ensures
        sum_gains(ps.subrange(0, n), n) == sum_gains(ps, n),
    decreases n,
{
    if n > 0 {
        lemma_sum_gains_prefix(ps.subrange(0, n), n - 1);
        assert(ps.subrange(0, n).subrange(0, n - 1) =~= ps.subrange(0, n - 1));
        lemma_sum_gains_prefix(ps, n - 1);
    }
}

proof fn lemma_device_gain(dv: DeviceView, n: int)
    requires
        0 <= n <= dv.groups.len(),
        device_gain(dv, n) <= u64::MAX,
    ensures
        device_gain(dv, n) >= 0,
        sum_gains(device_plans(dv, n), device_plans(dv, n).len() as int) == device_gain(dv, n),
    decreases n,
{
    if n > 0 {
        if dv.groups[n - 1].1.len() >= 2 {
            let ms = members(dv.inodes, dv.groups[n - 1].1);
            lemma_gain_of_nonneg(ms, canonical_index(ms, ms.len() as int), ms.len() as int);
            lemma_device_gain_nonneg(dv, n - 1);
            lemma_device_gain(dv, n - 1);
            let prev = device_plans(dv, n - 1);
            let cur = device_plans(dv, n);
            assert(cur.subrange(0, prev.len() as int) =~= prev);
            lemma_sum_gains_prefix(cur, prev.len() as int);
        } else {
            lemma_device_gain(dv, n - 1);
        }
    }
}

proof fn lemma_device_gain_nonneg(dv: DeviceView, n: int)
    ensures
        device_gain(dv, n) >= 0,
    decreases n,
{
    if n > 0 {
        lemma_device_gain_nonneg(dv, n - 1);
        if dv.groups[n - 1].1.len() >= 2 {
            let ms = members(dv.inodes, dv.groups[n - 1].1);
            lemma_gain_of_nonneg(ms, canonical_index(ms, ms.len() as int), ms.len() as int);
        }
    }
}

proof fn lemma_database_gain(db: Database, n: int)
    requires
        0 <= n <= db.devices.entries().len(),
        database_gain(db, n) <= u64::MAX,
    ensures
        database_gain(db, n) >= 0,
        sum_gains(database_plans(db, n), database_plans(db, n).len() as int) == database_gain(db, n),
    decreases n,
{
    if n > 0 {
        let dv = db.devices.entries()[n - 1].1@;
        let m = dv.groups.len() as int;
        lemma_database_gain_nonneg(db, n - 1);
        lemma_device_gain_nonneg(dv, m);
        lemma_database_gain(db, n - 1);
        lemma_device_gain(dv, m);
        lemma_sum_gains_concat(database_plans(db, n - 1), device_plans(dv, m));
    }
}

proof fn lemma_database_gain_nonneg(db: Database, n: int)
    ensures
        database_gain(db, n) >= 0,
    decreases n,
{
    if n > 0 {
        lemma_database_gain_nonneg(db, n - 1);
        let dv = db.devices.entries()[n - 1].1@;
        lemma_device_gain_nonneg(dv, dv.groups.len() as int);
    }
}

/// The bytes reported as reclaimed are the sum, over every device and every
/// group of two or more inodes, of the allocated sizes of the non-canonical
/// inodes all of whose hard links were found; an inode with a link outside
/// the scanned trees adds nothing. This holds whenever that sum fits in a
/// `u64`; beyond, the report saturates.
pub proof fn lemma_total_gain_is_sum(db: Database, total: u64)
    requires
        database_gain(db, db.devices.entries().len() as int) <= u64::MAX,
        total == sat(sum_gains(plans(db), plans(db).len() as int)),
    ensures
        total == database_gain(db, db.devices.entries().len() as int),
{
    lemma_database_gain(db, db.devices.entries().len() as int);
}

} // verus!
