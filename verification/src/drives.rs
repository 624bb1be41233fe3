//! Device inventory and the reconciliation engine.
//!
//! [`collect_drives`] folds a stream of reported storage objects into
//! a drive list, finding or creating each drive by identity so that
//! the order of discovery (a drive before or after its blocks) does
//! not affect the result. [`reconcile`] then merges the mount table
//! into that list and orders everything deterministically.

use vstd::prelude::*;

use crate::mountpoints::{MountPoint, MountV};

verus! {

/// Mathematical model of a [`Block`].
#[verifier::ext_equal]
pub ghost struct BlockV {
    pub object_path: Seq<char>,
    pub dev: Seq<char>,
    pub label: Seq<char>,
    pub mount: Option<Seq<char>>,
    pub fstype: Seq<char>,
    pub mounted: bool,
    pub size: u64,
}

/// An addressable, potentially filesystem-bearing device of a drive.
/// `object_path` is the opaque handle back to the storage service,
/// used for actions; it is empty for synthetic blocks, which support
/// no actions.
pub struct Block {
    pub object_path: String,
    pub dev: String,
    pub label: String,
    pub mount: Option<String>,
    pub fstype: String,
    pub mounted: bool,
    pub size: u64,
}

impl View for Block {
    type V = BlockV;

    open spec fn view(&self) -> BlockV {
        BlockV {
            object_path: self.object_path@,
            dev: self.dev@,
            label: self.label@,
            mount: self.mount.deep_view(),
            fstype: self.fstype@,
            mounted: self.mounted,
            size: self.size,
        }
    }
}

impl DeepView for Block {
    type V = BlockV;

    open spec fn deep_view(&self) -> BlockV {
        self.view()
    }
}

impl Clone for Block {
    /// The clone is the very same block.
    fn clone(&self) -> (r: Self)
        ensures
            r == *self,
    {
        Block {
            object_path: self.object_path.clone(),
            dev: self.dev.clone(),
            label: self.label.clone(),
            mount: match &self.mount {
                Some(m) => Some(m.clone()),
                None => None,
            },
            fstype: self.fstype.clone(),
            mounted: self.mounted,
            size: self.size,
        }
    }
}

/// Mathematical model of a [`Drive`].
#[verifier::ext_equal]
pub ghost struct DriveV {
    pub id: Seq<char>,
    pub object_path: Seq<char>,
    pub model: Seq<char>,
    pub ejectable: bool,
    pub blocks: Seq<BlockV>,
}

/// A top-level storage device grouping the blocks it owns.
/// `object_path` is its identity: the merge and sort key.
pub struct Drive {
    pub id: String,
    pub object_path: String,
    pub model: String,
    pub ejectable: bool,
    pub blocks: Vec<Block>,
}

impl View for Drive {
    type V = DriveV;

    open spec fn view(&self) -> DriveV {
        DriveV {
            id: self.id@,
            object_path: self.object_path@,
            model: self.model@,
            ejectable: self.ejectable,
            blocks: self.blocks.deep_view(),
        }
    }
}

impl DeepView for Drive {
    type V = DriveV;

    open spec fn deep_view(&self) -> DriveV {
        self.view()
    }
}

impl Clone for Drive {
    /// The clone models the very same drive.
    fn clone(&self) -> (r: Self)
        ensures
            r@ == self@,
    {
        let blocks = self.blocks.clone();
        proof {
            assert(blocks.deep_view() =~= self.blocks.deep_view());
        }
        Drive {
            id: self.id.clone(),
            object_path: self.object_path.clone(),
            model: self.model.clone(),
            ejectable: self.ejectable,
            blocks,
        }
    }
}

/// Mathematical model of a [`ManagedObject`].
#[verifier::ext_equal]
pub ghost enum ObjectV {
    DriveObject { object_path: Seq<char>, id: Seq<char>, model: Seq<char>, ejectable: bool },
    BlockObject {
        object_path: Seq<char>,
        parent: Seq<char>,
        dev: Seq<char>,
        label: Seq<char>,
        fstype: Seq<char>,
        size: u64,
    },
    Unrecognized,
}

/// One object reported by the storage service, classified as
/// drive-bearing, block-bearing, or neither. An object missing a
/// required property is `Unrecognized` and is skipped, never fatal.
pub enum ManagedObject {
    DriveObject { object_path: String, id: String, model: String, ejectable: bool },
    BlockObject {
        object_path: String,
        parent: String,
        dev: String,
        label: String,
        fstype: String,
        size: u64,
    },
    Unrecognized,
}

impl View for ManagedObject {
    type V = ObjectV;

    open spec fn view(&self) -> ObjectV {
        match self {
            ManagedObject::DriveObject { object_path, id, model, ejectable } => {
                ObjectV::DriveObject {
                    object_path: object_path@,
                    id: id@,
                    model: model@,
                    ejectable: *ejectable,
                }
            },
            ManagedObject::BlockObject { object_path, parent, dev, label, fstype, size } => {
                ObjectV::BlockObject {
                    object_path: object_path@,
                    parent: parent@,
                    dev: dev@,
                    label: label@,
                    fstype: fstype@,
                    size: *size,
                }
            },
            ManagedObject::Unrecognized => ObjectV::Unrecognized,
        }
    }
}

impl DeepView for ManagedObject {
    type V = ObjectV;

    open spec fn deep_view(&self) -> ObjectV {
        self.view()
    }
}

impl Clone for ManagedObject {
    /// The clone reports the very same object.
    fn clone(&self) -> (r: Self)
        ensures
            r == *self,
    {
        match self {
            ManagedObject::DriveObject { object_path, id, model, ejectable } => {
                ManagedObject::DriveObject {
                    object_path: object_path.clone(),
                    id: id.clone(),
                    model: model.clone(),
                    ejectable: *ejectable,
                }
            },
            ManagedObject::BlockObject { object_path, parent, dev, label, fstype, size } => {
                ManagedObject::BlockObject {
                    object_path: object_path.clone(),
                    parent: parent.clone(),
                    dev: dev.clone(),
                    label: label.clone(),
                    fstype: fstype.clone(),
                    size: *size,
                }
            },
            ManagedObject::Unrecognized => ManagedObject::Unrecognized,
        }
    }
}

/// `i` is the first position in `drives` holding the identity `path`.
pub open spec fn is_first_drive(drives: Seq<DriveV>, path: Seq<char>, i: int) -> bool {
    &&& 0 <= i < drives.len()
    &&& drives[i].object_path == path
    &&& forall|k: int| 0 <= k < i ==> drives[k].object_path != path
}

/// The first position is unique.
pub proof fn lemma_first_drive_unique(drives: Seq<DriveV>, path: Seq<char>, i: int, j: int)
    requires
        is_first_drive(drives, path, i),
        is_first_drive(drives, path, j),
    ensures
        i == j,
{
}

/// Folds one reported object into the drive list: a drive-bearing
/// object fills in (or creates) the drive of its identity; a
/// block-bearing object attaches its block to the drive of its parent
/// identity, creating a placeholder drive when the block arrives
/// first; anything unrecognized is skipped.
pub open spec fn spec_apply_object(drives: Seq<DriveV>, o: ObjectV) -> Seq<DriveV> {
    match o {
        ObjectV::DriveObject { object_path, id, model, ejectable } => {
            if exists|i: int| is_first_drive(drives, object_path, i) {
                let i = choose|i: int| is_first_drive(drives, object_path, i);
                drives.update(i, DriveV { id, model, ejectable, ..drives[i] })
            } else {
                drives.push(
                    DriveV { id, object_path, model, ejectable, blocks: Seq::empty() },
                )
            }
        },
        ObjectV::BlockObject { object_path, parent, dev, label, fstype, size } => {
            let b = BlockV {
                object_path,
                dev,
                label,
                mount: None,
                fstype,
                mounted: false,
                size,
            };
            if exists|i: int| is_first_drive(drives, parent, i) {
                let i = choose|i: int| is_first_drive(drives, parent, i);
                drives.update(i, DriveV { blocks: drives[i].blocks.push(b), ..drives[i] })
            } else {
                drives.push(
                    DriveV {
                        id: Seq::empty(),
                        object_path: parent,
                        model: Seq::empty(),
                        ejectable: false,
                        blocks: seq![b],
                    },
                )
            }
        },
        ObjectV::Unrecognized => drives,
    }
}

/// The drive list that a sequence of reported objects denotes,
/// folded in report order.
pub open spec fn spec_collect_drives(objs: Seq<ObjectV>) -> Seq<DriveV>
    decreases objs.len(),
{
    if objs.len() == 0 {
        Seq::empty()
    } else {
        spec_apply_object(spec_collect_drives(objs.drop_last()), objs.last())
    }
}

/// Finds the first drive with the given identity, if any.
fn find_drive_x(drives: &Vec<Drive>, path: &String) -> (r: Option<usize>)
    ensures
        match r {
            Some(i) => is_first_drive(drives.deep_view(), path@, i as int),
            None => forall|k: int|
                0 <= k < drives.deep_view().len() ==> drives.deep_view()[k].object_path
                    != path@,
        },
{
    let mut i: usize = 0;
    while i < drives.len()
        invariant
            i <= drives.len(),
            forall|k: int| 0 <= k < i ==> drives.deep_view()[k].object_path != path@,
        decreases drives.len() - i,
    {
        let d = &drives[i];
        if d.object_path == *path {
            return Some(i);
        }
        i = i + 1;
    }
    None
}

/// Collects the drive list from the reported objects, resolving
/// blocks-before-drives arrival with a find-or-create merge by
/// identity.
pub fn collect_drives(objects: Vec<ManagedObject>) -> (r: Vec<Drive>)
    ensures
        r.deep_view() == spec_collect_drives(objects.deep_view()),
{
    let ghost ov = objects.deep_view();
    let mut drives: Vec<Drive> = Vec::new();
    let mut n: usize = 0;
    proof {
        assert(ov.take(0) =~= Seq::<ObjectV>::empty());
    }
    while n < objects.len()
        invariant
            n <= objects.len(),
            ov == objects.deep_view(),
            drives.deep_view() == spec_collect_drives(ov.take(n as int)),
        decreases objects.len() - n,
    {
        let ghost processed: int = n as int;
        let o = objects[n].clone();
        proof {
            assert(o.deep_view() == objects.deep_view()[processed]);
            assert(ov.take(processed + 1).drop_last() =~= ov.take(processed));
            assert(ov.take(processed + 1).last() == ov[processed]);
        }
        let ghost dv = drives.deep_view();
        match o {
            ManagedObject::DriveObject { object_path, id, model, ejectable } => {
                match find_drive_x(&drives, &object_path) {
                    Some(i) => {
                        proof {
                            let c = choose|k: int| is_first_drive(dv, object_path@, k);
                            lemma_first_drive_unique(dv, object_path@, i as int, c);
                        }
                        let mut d = drives.remove(i);
                        d.id = id;
                        d.model = model;
                        d.ejectable = ejectable;
                        drives.insert(i, d);
                        proof {
                            assert(drives.deep_view() =~= dv.update(
                                i as int,
                                DriveV { id: id@, model: model@, ejectable, ..dv[i as int] },
                            ));
                        }
                    },
                    None => {
                        proof {
                            assert(!exists|k: int| is_first_drive(dv, object_path@, k));
                        }
                        drives.push(
                            Drive { id, object_path, model, ejectable, blocks: Vec::new() },
                        );
                        proof {
                            assert(drives.deep_view() =~~= spec_apply_object(
                                dv,
                                ov[processed],
                            ));
                        }
                    },
                }
            },
            ManagedObject::BlockObject { object_path, parent, dev, label, fstype, size } => {
                let b = Block {
                    object_path,
                    dev,
                    label,
                    mount: None,
                    fstype,
                    mounted: false,
                    size,
                };
                match find_drive_x(&drives, &parent) {
                    Some(i) => {
                        proof {
                            let c = choose|k: int| is_first_drive(dv, parent@, k);
                            lemma_first_drive_unique(dv, parent@, i as int, c);
                        }
                        let ghost bv = b@;
                        let mut d = drives.remove(i);
                        d.blocks.push(b);
                        drives.insert(i, d);
                        proof {
                            assert(drives.deep_view() =~~= dv.update(
                                i as int,
                                DriveV { blocks: dv[i as int].blocks.push(bv), ..dv[i as int] },
                            ));
                        }
                    },
                    None => {
                        proof {
                            assert(!exists|k: int| is_first_drive(dv, parent@, k));
                        }
                        let ghost bv = b@;
                        let mut blocks: Vec<Block> = Vec::new();
                        blocks.push(b);
                        proof {
                            assert(blocks.deep_view() =~= seq![bv]);
                        }
                        drives.push(
                            Drive {
                                id: String::new(),
                                object_path: parent,
                                model: String::new(),
                                ejectable: false,
                                blocks,
                            },
                        );
                        proof {
                            assert(drives.deep_view() =~~= spec_apply_object(
                                dv,
                                ov[processed],
                            ));
                        }
                    },
                }
            },
            ManagedObject::Unrecognized => {},
        }
        n = n + 1;
    }
    proof {
        assert(ov.take(ov.len() as int) =~= ov);
    }
    drives
}

/// Some block of drive `d` carries the device path `dev`.
pub open spec fn drive_has_dev(d: DriveV, dev: Seq<char>) -> bool {
    exists|j: int| 0 <= j < d.blocks.len() && d.blocks[j].dev == dev
}

/// `(di, bi)` is the first block position across `drives` whose
/// device path is `dev`.
pub open spec fn is_first_match(drives: Seq<DriveV>, dev: Seq<char>, di: int, bi: int) -> bool {
    &&& 0 <= di < drives.len()
    &&& 0 <= bi < drives[di].blocks.len()
    &&& drives[di].blocks[bi].dev == dev
    &&& forall|k: int| 0 <= k < di ==> !drive_has_dev(#[trigger] drives[k], dev)
    &&& forall|k: int| 0 <= k < bi ==> drives[di].blocks[k].dev != dev
}

/// The first matching position is unique.
pub proof fn lemma_first_match_unique(
    drives: Seq<DriveV>,
    dev: Seq<char>,
    di: int,
    bi: int,
    ci: int,
    cj: int,
)
    requires
        is_first_match(drives, dev, di, bi),
        is_first_match(drives, dev, ci, cj),
    ensures
        di == ci,
        bi == cj,
{
    if di < ci {
        assert(drives[di].blocks[bi].dev == dev);
        assert(drive_has_dev(drives[di], dev));
        assert(false);
    }
    if ci < di {
        assert(drives[ci].blocks[cj].dev == dev);
        assert(drive_has_dev(drives[ci], dev));
        assert(false);
    }
}

/// The synthetic block standing for a mount entry that matched no
/// inventoried block: no action handle, no label, no size.
pub open spec fn synthetic_block(m: MountV) -> BlockV {
    BlockV {
        object_path: Seq::empty(),
        dev: m.dev,
        label: Seq::empty(),
        mount: m.path,
        fstype: m.fs,
        mounted: m.mounted,
        size: 0,
    }
}

/// Applies one mount entry: the first block whose device path equals
/// the entry's takes the entry's mount path and mounted flag; an
/// entry matching no block becomes a new synthetic block, appended
/// to the running fstab block list.
pub open spec fn spec_apply_mount(drives: Seq<DriveV>, fstab: Seq<BlockV>, m: MountV) -> (
    Seq<DriveV>,
    Seq<BlockV>,
) {
    if exists|di: int, bi: int| is_first_match(drives, m.dev, di, bi) {
        let (di, bi) = choose|di: int, bi: int| is_first_match(drives, m.dev, di, bi);
        let d = drives[di];
        let b = d.blocks[bi];
        (
            drives.update(
                di,
                DriveV {
                    blocks: d.blocks.update(
                        bi,
                        BlockV { mount: m.path, mounted: m.mounted, ..b },
                    ),
                    ..d
                },
            ),
            fstab,
        )
    } else {
        (drives, fstab.push(synthetic_block(m)))
    }
}

/// Applies a sequence of mount entries in order.
pub open spec fn spec_apply_mounts(
    drives: Seq<DriveV>,
    fstab: Seq<BlockV>,
    ms: Seq<MountV>,
) -> (Seq<DriveV>, Seq<BlockV>)
    decreases ms.len(),
{
    if ms.len() == 0 {
        (drives, fstab)
    } else {
        let p = spec_apply_mounts(drives, fstab, ms.drop_last());
        spec_apply_mount(p.0, p.1, ms.last())
    }
}

/// The synthetic drive grouping mount entries owned by no
/// inventoried drive.
pub open spec fn fstab_drive(blocks: Seq<BlockV>) -> DriveV {
    DriveV {
        id: "fstab"@,
        object_path: "fstab"@,
        model: "fstab"@,
        ejectable: false,
        blocks,
    }
}

/// A drive with its blocks sorted ascending by device path.
pub open spec fn sort_drive_blocks(d: DriveV) -> DriveV {
    DriveV { blocks: crate::order::spec_sort_blocks(d.blocks), ..d }
}

/// The reconciled snapshot: every mount entry applied to the
/// inventory, unmatched entries gathered under the synthetic
/// `"fstab"` drive (created only when needed), drives sorted
/// ascending by identity and each drive's blocks ascending by device
/// path.
pub open spec fn spec_reconcile(drives: Seq<DriveV>, ms: Seq<MountV>) -> Seq<DriveV> {
    let p = spec_apply_mounts(drives, Seq::empty(), ms);
    let all = if p.1.len() == 0 {
        p.0
    } else {
        p.0.push(fstab_drive(p.1))
    };
    crate::order::spec_sort_drives(all).map_values(|d: DriveV| sort_drive_blocks(d))
}

/// Determinism law: reconciliation is a function of its inputs; over
/// identical inputs, however they were enumerated, two passes yield
/// the identical ordered output.
pub proof fn lemma_reconcile_deterministic(
    d1: Seq<DriveV>,
    m1: Seq<MountV>,
    d2: Seq<DriveV>,
    m2: Seq<MountV>,
)
    requires
        d1 == d2,
        m1 == m2,
    ensures
        spec_reconcile(d1, m1) == spec_reconcile(d2, m2),
{
}

/// Ordering law: the reconciled snapshot's drives ascend by identity
/// and each drive's blocks ascend by device path.
pub proof fn lemma_reconcile_ordered(drives: Seq<DriveV>, ms: Seq<MountV>)
    ensures
        crate::order::drives_sorted(spec_reconcile(drives, ms)),
        forall|k: int|
            0 <= k < spec_reconcile(drives, ms).len() ==> crate::order::blocks_sorted(
                (#[trigger] spec_reconcile(drives, ms)[k]).blocks,
            ),
{
    let p = spec_apply_mounts(drives, Seq::empty(), ms);
    let all = if p.1.len() == 0 {
        p.0
    } else {
        p.0.push(fstab_drive(p.1))
    };
    crate::order::lemma_sort_drives_sorted(all);
    let s = crate::order::spec_sort_drives(all);
    let r = spec_reconcile(drives, ms);
    assert(r == s.map_values(|d: DriveV| sort_drive_blocks(d)));
    assert forall|i: int, j: int|
        #![trigger r[i], r[j]]
        0 <= i < j < r.len() implies crate::strutil::lex_le(
        r[i].object_path,
        r[j].object_path,
    ) by {
        assert(r[i] == sort_drive_blocks(s[i]));
        assert(r[j] == sort_drive_blocks(s[j]));
    }
    assert forall|k: int| 0 <= k < r.len() implies crate::order::blocks_sorted(
        (#[trigger] r[k]).blocks,
    ) by {
        assert(r[k] == sort_drive_blocks(s[k]));
        crate::order::lemma_sort_blocks_sorted(s[k].blocks);
    }
}

/// Wherever some block matches, a first matching position exists.
pub proof fn lemma_first_match_exists(drives: Seq<DriveV>, dev: Seq<char>, di: int, bi: int)
    requires
        0 <= di < drives.len(),
        0 <= bi < drives[di].blocks.len(),
        drives[di].blocks[bi].dev == dev,
    ensures
        exists|ci: int, cj: int| is_first_match(drives, dev, ci, cj),
    decreases di, bi,
{
    if exists|k: int| 0 <= k < di && drive_has_dev(#[trigger] drives[k], dev) {
        let k = choose|k: int| 0 <= k < di && drive_has_dev(#[trigger] drives[k], dev);
        let j = choose|j: int| 0 <= j < drives[k].blocks.len() && drives[k].blocks[j].dev == dev;
        lemma_first_match_exists(drives, dev, k, j);
    } else if exists|k: int| 0 <= k < bi && drives[di].blocks[k].dev == dev {
        let k = choose|k: int| 0 <= k < bi && drives[di].blocks[k].dev == dev;
        lemma_first_match_exists(drives, dev, di, k);
    } else {
        assert(is_first_match(drives, dev, di, bi));
    }
}

/// Matching law, matched side: a mount entry whose device path some
/// block carries lands on the first such block, which takes exactly
/// the entry's mount path and mounted flag; every other block, the
/// drives' own fields, and the synthetic block list stay as they
/// were.
pub proof fn lemma_apply_mount_matched(
    drives: Seq<DriveV>,
    fstab: Seq<BlockV>,
    m: MountV,
    di: int,
    bi: int,
)
    requires
        is_first_match(drives, m.dev, di, bi),
    ensures
        ({
            let r = spec_apply_mount(drives, fstab, m);
            &&& r.1 == fstab
            &&& r.0.len() == drives.len()
            &&& r.0[di] == DriveV {
                blocks: drives[di].blocks.update(
                    bi,
                    BlockV { mount: m.path, mounted: m.mounted, ..drives[di].blocks[bi] },
                ),
                ..drives[di]
            }
            &&& r.0[di].blocks[bi].mount == m.path
            &&& r.0[di].blocks[bi].mounted == m.mounted
            &&& r.0[di].blocks[bi].dev == m.dev
            &&& forall|k: int| 0 <= k < drives.len() && k != di ==> r.0[k] == drives[k]
            &&& forall|k: int|
                0 <= k < drives[di].blocks.len() && k != bi ==> r.0[di].blocks[k]
                    == drives[di].blocks[k]
        }),
{
    assert(exists|ci: int, cj: int| is_first_match(drives, m.dev, ci, cj));
    let (ci, cj) = choose|ci: int, cj: int| is_first_match(drives, m.dev, ci, cj);
    lemma_first_match_unique(drives, m.dev, di, bi, ci, cj);
}

/// Matching law, unmatched side: a mount entry whose device path no
/// block carries leaves every drive as it was and appends exactly one
/// new synthetic block holding the entry's device, mount path,
/// filesystem type and mounted flag.
pub proof fn lemma_apply_mount_unmatched(drives: Seq<DriveV>, fstab: Seq<BlockV>, m: MountV)
    requires
        forall|k: int| 0 <= k < drives.len() ==> !drive_has_dev(#[trigger] drives[k], m.dev),
    ensures
        ({
            let r = spec_apply_mount(drives, fstab, m);
            &&& r.0 == drives
            &&& r.1 == fstab.push(synthetic_block(m))
        }),
{
    assert forall|ci: int, cj: int| !is_first_match(drives, m.dev, ci, cj) by {
        if 0 <= ci < drives.len() && 0 <= cj < drives[ci].blocks.len() && drives[ci].blocks[cj].dev
            == m.dev {
            assert(drive_has_dev(drives[ci], m.dev));
        }
    }
}

/// Matching law, a whole table of unmatched entries: when no
/// inventoried block carries any entry's device path, the drives
/// come through untouched and the synthetic block list gains exactly
/// one block per entry, in entry order.
pub proof fn lemma_apply_mounts_unmatched(
    drives: Seq<DriveV>,
    fstab: Seq<BlockV>,
    ms: Seq<MountV>,
)
    requires
        forall|i: int, k: int|
            0 <= i < ms.len() && 0 <= k < drives.len() ==> !drive_has_dev(
                #[trigger] drives[k],
                (#[trigger] ms[i]).dev,
            ),
    ensures
        spec_apply_mounts(drives, fstab, ms).0 == drives,
        spec_apply_mounts(drives, fstab, ms).1 == fstab + ms.map_values(
            |m: MountV| synthetic_block(m),
        ),
    decreases ms.len(),
{
    if ms.len() == 0 {
        assert(fstab + ms.map_values(|m: MountV| synthetic_block(m)) =~= fstab);
    } else {
        lemma_apply_mounts_unmatched(drives, fstab, ms.drop_last());
        let p = spec_apply_mounts(drives, fstab, ms.drop_last());
        lemma_apply_mount_unmatched(drives, p.1, ms.last());
        assert(fstab + ms.map_values(|m: MountV| synthetic_block(m)) =~= (fstab
            + ms.drop_last().map_values(|m: MountV| synthetic_block(m))).push(
            synthetic_block(ms.last()),
        ));
    }
}

/// `b` differs from `a` at most in the blocks' mount state: the
/// drives' own fields and every block's identity, label, type and
/// size agree.
pub open spec fn same_shape(a: Seq<DriveV>, b: Seq<DriveV>) -> bool {
    &&& a.len() == b.len()
    &&& forall|k: int|
        0 <= k < a.len() ==> {
            &&& (#[trigger] b[k]).id == a[k].id
            &&& b[k].object_path == a[k].object_path
            &&& b[k].model == a[k].model
            &&& b[k].ejectable == a[k].ejectable
            &&& b[k].blocks.len() == a[k].blocks.len()
        }
    &&& forall|k: int, j: int|
        0 <= k < a.len() && 0 <= j < a[k].blocks.len() ==> {
            &&& (#[trigger] b[k].blocks[j]).object_path == a[k].blocks[j].object_path
            &&& b[k].blocks[j].dev == a[k].blocks[j].dev
            &&& b[k].blocks[j].label == a[k].blocks[j].label
            &&& b[k].blocks[j].fstype == a[k].blocks[j].fstype
            &&& b[k].blocks[j].size == a[k].blocks[j].size
        }
}

proof fn lemma_same_shape_trans(a: Seq<DriveV>, b: Seq<DriveV>, c: Seq<DriveV>)
    requires
        same_shape(a, b),
        same_shape(b, c),
    ensures
        same_shape(a, c),
{
    assert forall|k: int, j: int| 0 <= k < a.len() && 0 <= j < a[k].blocks.len() implies {
        &&& (#[trigger] c[k].blocks[j]).object_path == a[k].blocks[j].object_path
        &&& c[k].blocks[j].dev == a[k].blocks[j].dev
        &&& c[k].blocks[j].label == a[k].blocks[j].label
        &&& c[k].blocks[j].fstype == a[k].blocks[j].fstype
        &&& c[k].blocks[j].size == a[k].blocks[j].size
    } by {
        assert(b[k].blocks[j].dev == a[k].blocks[j].dev);
        assert(c[k].blocks[j].dev == b[k].blocks[j].dev);
    }
}

/// The first matching position reads only the blocks' device paths,
/// so it carries over between same-shape lists.
proof fn lemma_same_shape_first_match(
    a: Seq<DriveV>,
    b: Seq<DriveV>,
    dev: Seq<char>,
    di: int,
    bi: int,
)
    requires
        same_shape(a, b),
        is_first_match(a, dev, di, bi),
    ensures
        is_first_match(b, dev, di, bi),
{
    assert(b[di].blocks[bi].dev == a[di].blocks[bi].dev);
    assert forall|k: int| 0 <= k < di implies !drive_has_dev(#[trigger] b[k], dev) by {
        if drive_has_dev(b[k], dev) {
            let j = choose|j: int| 0 <= j < b[k].blocks.len() && b[k].blocks[j].dev == dev;
            assert(a[k].blocks[j].dev == b[k].blocks[j].dev);
            assert(drive_has_dev(a[k], dev));
        }
    }
    assert forall|k: int| 0 <= k < bi implies b[di].blocks[k].dev != dev by {
        assert(b[di].blocks[k].dev == a[di].blocks[k].dev);
    }
}

/// The merge changes only mount state: its result keeps the
/// inventory's shape.
pub proof fn lemma_apply_mounts_shape(drives: Seq<DriveV>, fstab: Seq<BlockV>, ms: Seq<MountV>)
    ensures
        same_shape(drives, spec_apply_mounts(drives, fstab, ms).0),
    decreases ms.len(),
{
    if ms.len() > 0 {
        lemma_apply_mounts_shape(drives, fstab, ms.drop_last());
        let q = spec_apply_mounts(drives, fstab, ms.drop_last());
        let m = ms.last();
        let r = spec_apply_mount(q.0, q.1, m);
        if exists|di: int, bi: int| is_first_match(q.0, m.dev, di, bi) {
            let (di, bi) = choose|di: int, bi: int| is_first_match(q.0, m.dev, di, bi);
            assert forall|k: int, j: int|
                0 <= k < q.0.len() && 0 <= j < q.0[k].blocks.len() implies {
                &&& (#[trigger] r.0[k].blocks[j]).object_path == q.0[k].blocks[j].object_path
                &&& r.0[k].blocks[j].dev == q.0[k].blocks[j].dev
                &&& r.0[k].blocks[j].label == q.0[k].blocks[j].label
                &&& r.0[k].blocks[j].fstype == q.0[k].blocks[j].fstype
                &&& r.0[k].blocks[j].size == q.0[k].blocks[j].size
            } by {
                if k == di && j == bi {
                }
            }
            assert(same_shape(q.0, r.0));
            lemma_same_shape_trans(drives, q.0, r.0);
        }
    }
}

/// Matching law for a whole table with pairwise-distinct devices:
/// every entry whose device path an inventoried block carries lands,
/// by the end of the merge, on the first such block, which then holds
/// exactly that entry's mount path and mounted flag.
pub proof fn lemma_apply_mounts_matched_entry(
    drives: Seq<DriveV>,
    ms: Seq<MountV>,
    i: int,
    di: int,
    bi: int,
)
    requires
        0 <= i < ms.len(),
        forall|i2: int, j2: int|
            0 <= i2 < j2 < ms.len() ==> (#[trigger] ms[i2]).dev != (#[trigger] ms[j2]).dev,
        is_first_match(drives, ms[i].dev, di, bi),
    ensures
        ({
            let p = spec_apply_mounts(drives, Seq::empty(), ms);
            &&& p.0[di].blocks[bi].mount == ms[i].path
            &&& p.0[di].blocks[bi].mounted == ms[i].mounted
            &&& p.0[di].blocks[bi].dev == ms[i].dev
        }),
    decreases ms.len(),
{
    let q = spec_apply_mounts(drives, Seq::empty(), ms.drop_last());
    let m = ms.last();
    lemma_apply_mounts_shape(drives, Seq::empty(), ms.drop_last());
    if i == ms.len() - 1 {
        lemma_same_shape_first_match(drives, q.0, m.dev, di, bi);
        lemma_apply_mount_matched(q.0, q.1, m, di, bi);
    } else {
        assert(forall|i2: int, j2: int|
            0 <= i2 < j2 < ms.drop_last().len() ==> (#[trigger] ms.drop_last()[i2]).dev != (
            #[trigger] ms.drop_last()[j2]).dev);
        assert(ms.drop_last()[i] == ms[i]);
        lemma_apply_mounts_matched_entry(drives, ms.drop_last(), i, di, bi);
        if exists|ci: int, cj: int| is_first_match(q.0, m.dev, ci, cj) {
            let (ci, cj) = choose|ci: int, cj: int| is_first_match(q.0, m.dev, ci, cj);
            lemma_apply_mount_matched(q.0, q.1, m, ci, cj);
            if ci == di && cj == bi {
                assert(q.0[di].blocks[bi].dev == ms[i].dev);
                assert(q.0[ci].blocks[cj].dev == m.dev);
                assert(ms[i].dev == ms[ms.len() - 1].dev);
                assert(false);
            }
            let p = spec_apply_mount(q.0, q.1, m);
            if ci != di {
                assert(p.0[di] == q.0[di]);
            } else {
                assert(p.0[di].blocks[bi] == q.0[di].blocks[bi]);
            }
        }
    }
}

/// Whether some inventoried block carries the entry's device path.
pub open spec fn matched_in(drives: Seq<DriveV>, m: MountV) -> bool {
    exists|k: int| 0 <= k < drives.len() && drive_has_dev(#[trigger] drives[k], m.dev)
}

/// The merge's synthetic block list: exactly one block per entry that
/// no inventoried block matches, in entry order.
pub open spec fn unmatched_entries(drives: Seq<DriveV>, ms: Seq<MountV>) -> Seq<BlockV> {
    ms.filter(|m: MountV| !matched_in(drives, m)).map_values(|m: MountV| synthetic_block(m))
}

/// Matching law, synthetic side: the merge appends to the synthetic
/// block list exactly one block per unmatched entry, in entry order —
/// no entry is lost, none duplicated, none invented.
pub proof fn lemma_apply_mounts_fstab(drives: Seq<DriveV>, fstab: Seq<BlockV>, ms: Seq<MountV>)
    ensures
        spec_apply_mounts(drives, fstab, ms).1 == fstab + unmatched_entries(drives, ms),
    decreases ms.len(),
{
    reveal(Seq::filter);
    let pred = |m2: MountV| !matched_in(drives, m2);
    if ms.len() == 0 {
        assert(fstab + unmatched_entries(drives, ms) =~= fstab);
    } else {
        lemma_apply_mounts_fstab(drives, fstab, ms.drop_last());
        lemma_apply_mounts_shape(drives, fstab, ms.drop_last());
        let q = spec_apply_mounts(drives, fstab, ms.drop_last());
        let m = ms.last();
        if exists|ci: int, cj: int| is_first_match(q.0, m.dev, ci, cj) {
            let (ci, cj) = choose|ci: int, cj: int| is_first_match(q.0, m.dev, ci, cj);
            assert(drives[ci].blocks[cj].dev == q.0[ci].blocks[cj].dev);
            assert(drive_has_dev(drives[ci], m.dev));
            assert(matched_in(drives, m));
            assert(ms.filter(pred) == ms.drop_last().filter(pred));
            assert(unmatched_entries(drives, ms) == unmatched_entries(drives, ms.drop_last()));
        } else {
            assert(!matched_in(drives, m)) by {
                if matched_in(drives, m) {
                    let k = choose|k: int|
                        0 <= k < drives.len() && drive_has_dev(#[trigger] drives[k], m.dev);
                    let j = choose|j: int|
                        0 <= j < drives[k].blocks.len() && drives[k].blocks[j].dev == m.dev;
                    assert(q.0[k].blocks[j].dev == drives[k].blocks[j].dev);
                    lemma_first_match_exists(q.0, m.dev, k, j);
                    assert(false);
                }
            }
            assert(ms.filter(pred) == ms.drop_last().filter(pred).push(m));
            assert(fstab + unmatched_entries(drives, ms) =~= (fstab + unmatched_entries(
                drives,
                ms.drop_last(),
            )).push(synthetic_block(m)));
        }
    }
}

/// Matching law at the snapshot: with unmatched entries present, the
/// reconciled snapshot holds the synthetic `"fstab"` drive carrying
/// exactly those entries' blocks, sorted by device path; with none,
/// the snapshot holds exactly as many drives as the inventory — no
/// synthetic drive appears.
pub proof fn lemma_reconcile_fstab(drives: Seq<DriveV>, ms: Seq<MountV>)
    ensures
        unmatched_entries(drives, ms).len() > 0 ==> spec_reconcile(drives, ms).contains(
            sort_drive_blocks(fstab_drive(unmatched_entries(drives, ms))),
        ),
        unmatched_entries(drives, ms).len() == 0 ==> spec_reconcile(drives, ms).len()
            == drives.len(),
{
    lemma_apply_mounts_fstab(drives, Seq::empty(), ms);
    let p = spec_apply_mounts(drives, Seq::empty(), ms);
    let u = unmatched_entries(drives, ms);
    assert(p.1 =~= u);
    let r = spec_reconcile(drives, ms);
    if u.len() > 0 {
        let all = p.0.push(fstab_drive(p.1));
        assert(all[all.len() - 1] == fstab_drive(u));
        assert(all.contains(fstab_drive(u)));
        crate::order::lemma_sort_drives_contains(all, fstab_drive(u));
        let s = crate::order::spec_sort_drives(all);
        let k = choose|k: int| 0 <= k < s.len() && s[k] == fstab_drive(u);
        crate::order::lemma_sort_drives_sorted(all);
        assert(r[k] == sort_drive_blocks(fstab_drive(u)));
        assert(r.contains(sort_drive_blocks(fstab_drive(u))));
    } else {
        crate::order::lemma_sort_drives_sorted(p.0);
        lemma_apply_mounts_shape(drives, Seq::empty(), ms);
    }
}

/// A block's well-formedness: a mounted block carries a mount path.
/// The converse is not required — a static entry may carry a path
/// while unmounted.
pub open spec fn block_wf(b: BlockV) -> bool {
    b.mounted ==> b.mount is Some
}

/// A mount entry's well-formedness, likewise.
pub open spec fn entry_wf(m: MountV) -> bool {
    m.mounted ==> m.path is Some
}

/// Every block of every drive is well-formed.
pub open spec fn drives_wf(ds: Seq<DriveV>) -> bool {
    forall|k: int, j: int|
        0 <= k < ds.len() && 0 <= j < ds[k].blocks.len() ==> block_wf(
            #[trigger] ds[k].blocks[j],
        )
}

/// Applying well-formed entries to well-formed drives keeps every
/// block, inventoried or synthetic, well-formed.
proof fn lemma_apply_mounts_wf(drives: Seq<DriveV>, fstab: Seq<BlockV>, ms: Seq<MountV>)
    requires
        drives_wf(drives),
        forall|j: int| 0 <= j < fstab.len() ==> block_wf(#[trigger] fstab[j]),
        forall|i: int| 0 <= i < ms.len() ==> entry_wf(#[trigger] ms[i]),
    ensures
        drives_wf(spec_apply_mounts(drives, fstab, ms).0),
        forall|j: int|
            0 <= j < spec_apply_mounts(drives, fstab, ms).1.len() ==> block_wf(
                #[trigger] spec_apply_mounts(drives, fstab, ms).1[j],
            ),
    decreases ms.len(),
{
    if ms.len() > 0 {
        lemma_apply_mounts_wf(drives, fstab, ms.drop_last());
        let p = spec_apply_mounts(drives, fstab, ms.drop_last());
        let m = ms.last();
        assert(entry_wf(m));
        let r = spec_apply_mount(p.0, p.1, m);
        if exists|di: int, bi: int| is_first_match(p.0, m.dev, di, bi) {
            let (di, bi) = choose|di: int, bi: int| is_first_match(p.0, m.dev, di, bi);
            assert forall|k: int, j: int|
                0 <= k < r.0.len() && 0 <= j < r.0[k].blocks.len() implies block_wf(
                #[trigger] r.0[k].blocks[j],
            ) by {
                if k == di && j == bi {
                } else {
                    assert(block_wf(p.0[k].blocks[j]));
                }
            }
        }
    }
}

/// Invariant law: a reconciled snapshot built from well-formed drives
/// and entries holds only well-formed blocks — wherever `mounted` is
/// set, a mount path is present.
pub proof fn lemma_reconcile_wf(drives: Seq<DriveV>, ms: Seq<MountV>)
    requires
        drives_wf(drives),
        forall|i: int| 0 <= i < ms.len() ==> entry_wf(#[trigger] ms[i]),
    ensures
        drives_wf(spec_reconcile(drives, ms)),
{
    lemma_apply_mounts_wf(drives, Seq::empty(), ms);
    let p = spec_apply_mounts(drives, Seq::empty(), ms);
    let all = if p.1.len() == 0 {
        p.0
    } else {
        p.0.push(fstab_drive(p.1))
    };
    assert(drives_wf(all));
    crate::order::lemma_sort_drives_sorted(all);
    let s = crate::order::spec_sort_drives(all);
    let r = spec_reconcile(drives, ms);
    assert(r == s.map_values(|d: DriveV| sort_drive_blocks(d)));
    assert forall|k: int, j: int|
        0 <= k < r.len() && 0 <= j < r[k].blocks.len() implies block_wf(
        #[trigger] r[k].blocks[j],
    ) by {
        assert(all.contains(s[k]));
        let n = choose|n: int| 0 <= n < all.len() && all[n] == s[k];
        assert(r[k] == sort_drive_blocks(s[k]));
        crate::order::lemma_sort_blocks_sorted(s[k].blocks);
        assert(s[k].blocks.contains(r[k].blocks[j]));
        let t = choose|t: int| 0 <= t < s[k].blocks.len() && s[k].blocks[t] == r[k].blocks[j];
        assert(block_wf(all[n].blocks[t]));
    }
}

/// Finds the first block across all drives with the given device
/// path, if any.
fn find_match_x(drives: &Vec<Drive>, dev: &String) -> (r: Option<(usize, usize)>)
    ensures
        match r {
            Some(p) => is_first_match(drives.deep_view(), dev@, p.0 as int, p.1 as int),
            None => forall|k: int|
                0 <= k < drives.deep_view().len() ==> !drive_has_dev(
                    #[trigger] drives.deep_view()[k],
                    dev@,
                ),
        },
{
    let ghost dv = drives.deep_view();
    let mut di: usize = 0;
    while di < drives.len()
        invariant
            di <= drives.len(),
            dv == drives.deep_view(),
            forall|k: int| 0 <= k < di ==> !drive_has_dev(#[trigger] dv[k], dev@),
        decreases drives.len() - di,
    {
        let d = &drives[di];
        let mut bi: usize = 0;
        while bi < d.blocks.len()
            invariant
                bi <= d.blocks.len(),
                di < drives.len(),
                dv == drives.deep_view(),
                d@ == dv[di as int],
                forall|k: int| 0 <= k < di ==> !drive_has_dev(#[trigger] dv[k], dev@),
                forall|k: int| 0 <= k < bi ==> dv[di as int].blocks[k].dev != dev@,
            decreases d.blocks.len() - bi,
        {
            let b = &d.blocks[bi];
            proof {
                assert(b@ == dv[di as int].blocks[bi as int]);
            }
            if b.dev == *dev {
                return Some((di, bi));
            }
            bi = bi + 1;
        }
        proof {
            assert(!drive_has_dev(dv[di as int], dev@));
        }
        di = di + 1;
    }
    None
}

/// Merges the mount entries into the drive inventory: each entry's
/// mount state lands on the block of its device path, entries owned
/// by no drive form the synthetic `"fstab"` drive, and the whole
/// result is ordered deterministically — drives ascending by
/// identity, blocks ascending by device path.
pub fn reconcile(drives: Vec<Drive>, mounts: Vec<MountPoint>) -> (r: Vec<Drive>)
    ensures
        r.deep_view() == spec_reconcile(drives.deep_view(), mounts.deep_view()),
{
    let ghost dv0 = drives.deep_view();
    let ghost mv = mounts.deep_view();
    let mut drives = drives;
    let mut fstab: Vec<Block> = Vec::new();
    let mut i: usize = 0;
    proof {
        assert(mv.take(0) =~= Seq::<MountV>::empty());
        assert(fstab.deep_view() =~= Seq::<BlockV>::empty());
    }
    while i < mounts.len()
        invariant
            i <= mounts.len(),
            mv == mounts.deep_view(),
            drives.deep_view() == spec_apply_mounts(
                dv0,
                Seq::<BlockV>::empty(),
                mv.take(i as int),
            ).0,
            fstab.deep_view() == spec_apply_mounts(
                dv0,
                Seq::<BlockV>::empty(),
                mv.take(i as int),
            ).1,
        decreases mounts.len() - i,
    {
        let m = mounts[i].clone();
        proof {
            assert(m@ == mounts.deep_view()[i as int]);
            assert(mv.take(i + 1int).drop_last() =~= mv.take(i as int));
            assert(mv.take(i + 1int).last() == mv[i as int]);
        }
        let ghost dcur = drives.deep_view();
        let ghost fcur = fstab.deep_view();
        match find_match_x(&drives, &m.dev) {
            Some((di, bi)) => {
                proof {
                    assert(is_first_match(dcur, m@.dev, di as int, bi as int));
                    assert(exists|ci: int, cj: int| is_first_match(dcur, m@.dev, ci, cj));
                    let (ci, cj) = choose|ci: int, cj: int|
                        is_first_match(dcur, m@.dev, ci, cj);
                    lemma_first_match_unique(dcur, m@.dev, di as int, bi as int, ci, cj);
                }
                let mut d = drives.remove(di);
                proof {
                    assert(d.blocks.deep_view() == dcur[di as int].blocks);
                }
                let mut b = d.blocks.remove(bi);
                b.mount = m.path;
                b.mounted = m.mounted;
                d.blocks.insert(bi, b);
                drives.insert(di, d);
                proof {
                    assert(drives.deep_view() =~~= dcur.update(
                        di as int,
                        DriveV {
                            blocks: dcur[di as int].blocks.update(
                                bi as int,
                                BlockV {
                                    mount: m@.path,
                                    mounted: m@.mounted,
                                    ..dcur[di as int].blocks[bi as int]
                                },
                            ),
                            ..dcur[di as int]
                        },
                    ));
                }
            },
            None => {
                proof {
                    assert forall|ci: int, cj: int| !is_first_match(dcur, m@.dev, ci, cj) by {
                        if 0 <= ci < dcur.len() && 0 <= cj < dcur[ci].blocks.len()
                            && dcur[ci].blocks[cj].dev == m@.dev {
                            assert(drive_has_dev(dcur[ci], m@.dev));
                        }
                    }
                }
                fstab.push(
                    Block {
                        object_path: String::new(),
                        dev: m.dev,
                        label: String::new(),
                        mount: m.path,
                        fstype: m.fs,
                        mounted: m.mounted,
                        size: 0,
                    },
                );
                proof {
                    assert(fstab.deep_view() =~~= spec_apply_mount(dcur, fcur, mv[i as int]).1);
                }
            },
        }
        i = i + 1;
    }
    proof {
        assert(mv.take(mounts.deep_view().len() as int) =~= mv);
    }
    let mut all = drives;
    if fstab.len() > 0 {
        let ghost fv = fstab.deep_view();
        let ghost av = all.deep_view();
        all.push(
            Drive {
                id: "fstab".to_owned(),
                object_path: "fstab".to_owned(),
                model: "fstab".to_owned(),
                ejectable: false,
                blocks: fstab,
            },
        );
        proof {
            assert(all.deep_view() =~~= av.push(fstab_drive(fv)));
        }
    }
    let sorted = crate::order::sort_drives(all);
    let ghost sv = sorted.deep_view();
    let mut out: Vec<Drive> = Vec::new();
    let mut j: usize = 0;
    proof {
        assert(out.deep_view() =~= sv.take(0).map_values(|d: DriveV| sort_drive_blocks(d)));
    }
    while j < sorted.len()
        invariant
            j <= sorted.len(),
            sv == sorted.deep_view(),
            out.deep_view() == sv.take(j as int).map_values(|d: DriveV| sort_drive_blocks(d)),
        decreases sorted.len() - j,
    {
        let d = sorted[j].clone();
        proof {
            assert(d@ == sorted.deep_view()[j as int]);
        }
        let ghost dvj = d@;
        let Drive { id, object_path, model, ejectable, blocks } = d;
        proof {
            assert(blocks.deep_view() == dvj.blocks);
        }
        let blocks = crate::order::sort_blocks(blocks);
        let nd = Drive { id, object_path, model, ejectable, blocks };
        proof {
            assert(nd@ =~~= sort_drive_blocks(dvj));
        }
        let ghost old_out = out.deep_view();
        out.push(nd);
        proof {
            assert(out.deep_view() =~~= old_out.push(sort_drive_blocks(sv[j as int])));
            assert(sv.take(j + 1int).map_values(|d: DriveV| sort_drive_blocks(d)) =~~= sv.take(
                j as int,
            ).map_values(|d: DriveV| sort_drive_blocks(d)).push(sort_drive_blocks(sv[j as int])));
        }
        j = j + 1;
    }
    proof {
        assert(sv.take(sv.len() as int) =~= sv);
        assert(out.deep_view() =~~= spec_reconcile(dv0, mv));
    }
    out
}

} // verus!
