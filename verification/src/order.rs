//! Deterministic ordering of the snapshot.
//!
//! Insertion sort, specified as a function so that the sorted result
//! is pinned exactly: drives ascend by identity, blocks by device
//! path. This removes any dependence on the storage service's and
//! the mount table's enumeration order.

use vstd::prelude::*;

use crate::drives::{Block, BlockV, Drive, DriveV};
use crate::strutil::{lemma_lex_le_total, lemma_lex_le_trans, lex_le, str_le};

verus! {

/// `d` inserted into `s` before the first drive it does not follow.
pub open spec fn spec_insert_drive(s: Seq<DriveV>, d: DriveV) -> Seq<DriveV>
    decreases s.len(),
{
    if s.len() == 0 {
        seq![d]
    } else if lex_le(d.object_path, s[0].object_path) {
        seq![d] + s
    } else {
        seq![s[0]] + spec_insert_drive(s.drop_first(), d)
    }
}

/// The drive list sorted ascending by identity.
pub open spec fn spec_sort_drives(s: Seq<DriveV>) -> Seq<DriveV>
    decreases s.len(),
{
    if s.len() == 0 {
        Seq::empty()
    } else {
        spec_insert_drive(spec_sort_drives(s.drop_last()), s.last())
    }
}

/// Drives ascend by identity.
pub open spec fn drives_sorted(s: Seq<DriveV>) -> bool {
    forall|i: int, j: int|
        #![trigger s[i], s[j]]
        0 <= i < j < s.len() ==> lex_le(s[i].object_path, s[j].object_path)
}

/// `b` inserted into `s` before the first block it does not follow.
pub open spec fn spec_insert_block(s: Seq<BlockV>, b: BlockV) -> Seq<BlockV>
    decreases s.len(),
{
    if s.len() == 0 {
        seq![b]
    } else if lex_le(b.dev, s[0].dev) {
        seq![b] + s
    } else {
        seq![s[0]] + spec_insert_block(s.drop_first(), b)
    }
}

/// The block list sorted ascending by device path.
pub open spec fn spec_sort_blocks(s: Seq<BlockV>) -> Seq<BlockV>
    decreases s.len(),
{
    if s.len() == 0 {
        Seq::empty()
    } else {
        spec_insert_block(spec_sort_blocks(s.drop_last()), s.last())
    }
}

/// Blocks ascend by device path.
pub open spec fn blocks_sorted(s: Seq<BlockV>) -> bool {
    forall|i: int, j: int|
        #![trigger s[i], s[j]]
        0 <= i < j < s.len() ==> lex_le(s[i].dev, s[j].dev)
}

/// Inserting into a sorted drive list keeps it sorted, adds one
/// drive, and introduces no drive but `d`.
pub proof fn lemma_insert_drive_sorted(s: Seq<DriveV>, d: DriveV)
    requires
        drives_sorted(s),
    ensures
        drives_sorted(spec_insert_drive(s, d)),
        spec_insert_drive(s, d).len() == s.len() + 1,
        forall|k: int|
            0 <= k < s.len() + 1 ==> #[trigger] spec_insert_drive(s, d)[k] == d || s.contains(
                spec_insert_drive(s, d)[k],
            ),
    decreases s.len(),
{
    let r = spec_insert_drive(s, d);
    if s.len() == 0 {
    } else if lex_le(d.object_path, s[0].object_path) {
        assert forall|i: int, j: int|
            #![trigger r[i], r[j]]
            0 <= i < j < r.len() implies lex_le(r[i].object_path, r[j].object_path) by {
            if i == 0 {
                if j > 1 {
                    lemma_lex_le_trans(d.object_path, s[0].object_path, s[j - 1].object_path);
                }
            }
        }
        assert forall|k: int| 0 <= k < s.len() + 1 implies #[trigger] r[k] == d || s.contains(
            r[k],
        ) by {
            if k >= 1 {
                assert(r[k] == s[k - 1]);
                assert(s.contains(r[k]));
            }
        }
    } else {
        lemma_lex_le_total(d.object_path, s[0].object_path);
        assert(drives_sorted(s.drop_first()));
        lemma_insert_drive_sorted(s.drop_first(), d);
        let rr = spec_insert_drive(s.drop_first(), d);
        assert forall|k: int| 0 <= k < s.len() + 1 implies #[trigger] r[k] == d || s.contains(
            r[k],
        ) by {
            if k == 0 {
                assert(r[0] == s[0]);
                assert(s.contains(s[0]));
            } else {
                assert(r[k] == rr[k - 1]);
                if rr[k - 1] == d {
                } else {
                    assert(s.drop_first().contains(rr[k - 1]));
                    let m = choose|m: int|
                        0 <= m < s.drop_first().len() && s.drop_first()[m] == rr[k - 1];
                    assert(s[m + 1] == rr[k - 1]);
                    assert(s.contains(r[k]));
                }
            }
        }
        assert forall|i: int, j: int|
            #![trigger r[i], r[j]]
            0 <= i < j < r.len() implies lex_le(r[i].object_path, r[j].object_path) by {
            if i == 0 {
                if rr[j - 1] == d {
                } else {
                    assert(s.drop_first().contains(rr[j - 1]));
                    let m = choose|m: int|
                        0 <= m < s.drop_first().len() && s.drop_first()[m] == rr[j - 1];
                    assert(s[m + 1] == rr[j - 1]);
                }
            } else {
                assert(rr[i - 1] == r[i] && rr[j - 1] == r[j]);
            }
        }
    }
}

/// The sorted drive list is sorted, is a rearrangement in length,
/// and holds only drives of the input.
pub proof fn lemma_sort_drives_sorted(s: Seq<DriveV>)
    ensures
        drives_sorted(spec_sort_drives(s)),
        spec_sort_drives(s).len() == s.len(),
        forall|k: int|
            0 <= k < s.len() ==> s.contains(#[trigger] spec_sort_drives(s)[k]),
    decreases s.len(),
{
    let r = spec_sort_drives(s);
    if s.len() > 0 {
        lemma_sort_drives_sorted(s.drop_last());
        lemma_insert_drive_sorted(spec_sort_drives(s.drop_last()), s.last());
        assert forall|k: int| 0 <= k < s.len() implies s.contains(#[trigger] r[k]) by {
            if r[k] == s.last() {
                assert(s.contains(s.last()));
            } else {
                assert(spec_sort_drives(s.drop_last()).contains(r[k]));
                let m = choose|m: int|
                    0 <= m < spec_sort_drives(s.drop_last()).len() && spec_sort_drives(
                        s.drop_last(),
                    )[m] == r[k];
                assert(s.drop_last().contains(r[k]));
                let n = choose|n: int| 0 <= n < s.drop_last().len() && s.drop_last()[n] == r[k];
                assert(s[n] == r[k]);
                assert(s.contains(r[k]));
            }
        }
    }
}

/// As [`lemma_insert_drive_sorted`], for blocks.
pub proof fn lemma_insert_block_sorted(s: Seq<BlockV>, b: BlockV)
    requires
        blocks_sorted(s),
    ensures
        blocks_sorted(spec_insert_block(s, b)),
        spec_insert_block(s, b).len() == s.len() + 1,
        forall|k: int|
            0 <= k < s.len() + 1 ==> #[trigger] spec_insert_block(s, b)[k] == b || s.contains(
                spec_insert_block(s, b)[k],
            ),
    decreases s.len(),
{
    let r = spec_insert_block(s, b);
    if s.len() == 0 {
    } else if lex_le(b.dev, s[0].dev) {
        assert forall|i: int, j: int|
            #![trigger r[i], r[j]]
            0 <= i < j < r.len() implies lex_le(r[i].dev, r[j].dev) by {
            if i == 0 {
                if j > 1 {
                    lemma_lex_le_trans(b.dev, s[0].dev, s[j - 1].dev);
                }
            }
        }
        assert forall|k: int| 0 <= k < s.len() + 1 implies #[trigger] r[k] == b || s.contains(
            r[k],
        ) by {
            if k >= 1 {
                assert(r[k] == s[k - 1]);
                assert(s.contains(r[k]));
            }
        }
    } else {
        lemma_lex_le_total(b.dev, s[0].dev);
        assert(blocks_sorted(s.drop_first()));
        lemma_insert_block_sorted(s.drop_first(), b);
        let rr = spec_insert_block(s.drop_first(), b);
        assert forall|k: int| 0 <= k < s.len() + 1 implies #[trigger] r[k] == b || s.contains(
            r[k],
        ) by {
            if k == 0 {
                assert(r[0] == s[0]);
                assert(s.contains(s[0]));
            } else {
                assert(r[k] == rr[k - 1]);
                if rr[k - 1] == b {
                } else {
                    assert(s.drop_first().contains(rr[k - 1]));
                    let m = choose|m: int|
                        0 <= m < s.drop_first().len() && s.drop_first()[m] == rr[k - 1];
                    assert(s[m + 1] == rr[k - 1]);
                    assert(s.contains(r[k]));
                }
            }
        }
        assert forall|i: int, j: int|
            #![trigger r[i], r[j]]
            0 <= i < j < r.len() implies lex_le(r[i].dev, r[j].dev) by {
            if i == 0 {
                if rr[j - 1] == b {
                } else {
                    assert(s.drop_first().contains(rr[j - 1]));
                    let m = choose|m: int|
                        0 <= m < s.drop_first().len() && s.drop_first()[m] == rr[j - 1];
                    assert(s[m + 1] == rr[j - 1]);
                }
            } else {
                assert(rr[i - 1] == r[i] && rr[j - 1] == r[j]);
            }
        }
    }
}

/// As [`lemma_sort_drives_sorted`], for blocks.
pub proof fn lemma_sort_blocks_sorted(s: Seq<BlockV>)
    ensures
        blocks_sorted(spec_sort_blocks(s)),
        spec_sort_blocks(s).len() == s.len(),
        forall|k: int|
            0 <= k < s.len() ==> s.contains(#[trigger] spec_sort_blocks(s)[k]),
    decreases s.len(),
{
    let r = spec_sort_blocks(s);
    if s.len() > 0 {
        lemma_sort_blocks_sorted(s.drop_last());
        lemma_insert_block_sorted(spec_sort_blocks(s.drop_last()), s.last());
        assert forall|k: int| 0 <= k < s.len() implies s.contains(#[trigger] r[k]) by {
            if r[k] == s.last() {
                assert(s.contains(s.last()));
            } else {
                assert(spec_sort_blocks(s.drop_last()).contains(r[k]));
                let m = choose|m: int|
                    0 <= m < spec_sort_blocks(s.drop_last()).len() && spec_sort_blocks(
                        s.drop_last(),
                    )[m] == r[k];
                assert(s.drop_last().contains(r[k]));
                let n = choose|n: int| 0 <= n < s.drop_last().len() && s.drop_last()[n] == r[k];
                assert(s[n] == r[k]);
                assert(s.contains(r[k]));
            }
        }
    }
}

/// Insertion neither loses nor invents drives.
pub proof fn lemma_insert_drive_contains(s: Seq<DriveV>, d: DriveV, x: DriveV)
    ensures
        spec_insert_drive(s, d).contains(x) <==> (x == d || s.contains(x)),
    decreases s.len(),
{
    let r = spec_insert_drive(s, d);
    if s.len() == 0 {
        assert(r.contains(x) ==> x == d) by {
            if r.contains(x) {
                let k = choose|k: int| 0 <= k < r.len() && r[k] == x;
            }
        }
        assert(x == d ==> r.contains(x)) by {
            if x == d {
                assert(r[0] == x);
            }
        }
    } else if lex_le(d.object_path, s[0].object_path) {
        assert(r.contains(x) ==> (x == d || s.contains(x))) by {
            if r.contains(x) {
                let k = choose|k: int| 0 <= k < r.len() && r[k] == x;
                if k > 0 {
                    assert(s[k - 1] == x);
                }
            }
        }
        assert((x == d || s.contains(x)) ==> r.contains(x)) by {
            if x == d {
                assert(r[0] == x);
            } else if s.contains(x) {
                let k = choose|k: int| 0 <= k < s.len() && s[k] == x;
                assert(r[k + 1] == x);
            }
        }
    } else {
        lemma_insert_drive_contains(s.drop_first(), d, x);
        let rr = spec_insert_drive(s.drop_first(), d);
        assert(r.contains(x) ==> (x == d || s.contains(x))) by {
            if r.contains(x) {
                let k = choose|k: int| 0 <= k < r.len() && r[k] == x;
                if k == 0 {
                    assert(s[0] == x);
                    assert(s.contains(x));
                } else {
                    assert(rr[k - 1] == x);
                    assert(rr.contains(x));
                    if !(x == d) {
                        let t = choose|t: int|
                            0 <= t < s.drop_first().len() && s.drop_first()[t] == x;
                        assert(s[t + 1] == x);
                        assert(s.contains(x));
                    }
                }
            }
        }
        assert((x == d || s.contains(x)) ==> r.contains(x)) by {
            if x == d {
                assert(rr.contains(x));
                let t = choose|t: int| 0 <= t < rr.len() && rr[t] == x;
                assert(r[t + 1] == x);
            } else if s.contains(x) {
                let k = choose|k: int| 0 <= k < s.len() && s[k] == x;
                if k == 0 {
                    assert(r[0] == x);
                } else {
                    assert(s.drop_first()[k - 1] == x);
                    assert(s.drop_first().contains(x));
                    assert(rr.contains(x));
                    let t = choose|t: int| 0 <= t < rr.len() && rr[t] == x;
                    assert(r[t + 1] == x);
                }
            }
        }
    }
}

/// Sorting neither loses nor invents drives.
pub proof fn lemma_sort_drives_contains(s: Seq<DriveV>, x: DriveV)
    ensures
        spec_sort_drives(s).contains(x) <==> s.contains(x),
    decreases s.len(),
{
    if s.len() > 0 {
        lemma_sort_drives_contains(s.drop_last(), x);
        lemma_insert_drive_contains(spec_sort_drives(s.drop_last()), s.last(), x);
        assert(s.contains(x) <==> (x == s.last() || s.drop_last().contains(x))) by {
            if s.contains(x) {
                let k = choose|k: int| 0 <= k < s.len() && s[k] == x;
                if k < s.len() - 1 {
                    assert(s.drop_last()[k] == x);
                }
            }
            if s.drop_last().contains(x) {
                let k = choose|k: int| 0 <= k < s.drop_last().len() && s.drop_last()[k] == x;
                assert(s[k] == x);
            }
            if x == s.last() {
                assert(s[s.len() - 1] == x);
            }
        }
    }
}

/// Insertion is a rearrangement: the result holds the input's drives
/// plus `d`, with multiplicity.
pub proof fn lemma_insert_drive_multiset(s: Seq<DriveV>, d: DriveV)
    ensures
        spec_insert_drive(s, d).to_multiset() == s.to_multiset().insert(d),
    decreases s.len(),
{
    broadcast use vstd::seq_lib::group_to_multiset_ensures;
    broadcast use vstd::multiset::group_multiset_axioms;

    if s.len() == 0 {
        assert(spec_insert_drive(s, d) =~= s.push(d));
    } else if lex_le(d.object_path, s[0].object_path) {
        vstd::seq_lib::lemma_multiset_commutative(seq![d], s);
        assert(seq![d] =~= Seq::<DriveV>::empty().push(d));
        assert(spec_insert_drive(s, d).to_multiset() =~= s.to_multiset().insert(d));
    } else {
        lemma_insert_drive_multiset(s.drop_first(), d);
        vstd::seq_lib::lemma_multiset_commutative(
            seq![s[0]],
            spec_insert_drive(s.drop_first(), d),
        );
        assert(seq![s[0]] =~= Seq::<DriveV>::empty().push(s[0]));
        assert(s.remove(0) =~= s.drop_first());
        assert(s.contains(s[0]));
        assert(s.to_multiset().count(s[0]) > 0);
        assert(spec_insert_drive(s, d).to_multiset() =~= s.to_multiset().insert(d));
    }
}

/// The sorted drive list is a rearrangement of the input: the same
/// drives, with multiplicity — sorting loses nothing and invents
/// nothing.
pub proof fn lemma_sort_drives_multiset(s: Seq<DriveV>)
    ensures
        spec_sort_drives(s).to_multiset() == s.to_multiset(),
    decreases s.len(),
{
    broadcast use vstd::seq_lib::group_to_multiset_ensures;

    if s.len() > 0 {
        lemma_sort_drives_multiset(s.drop_last());
        lemma_insert_drive_multiset(spec_sort_drives(s.drop_last()), s.last());
        assert(s =~= s.drop_last().push(s.last()));
        assert(spec_sort_drives(s).to_multiset() =~= s.to_multiset());
    }
}

/// As [`lemma_insert_drive_multiset`], for blocks.
pub proof fn lemma_insert_block_multiset(s: Seq<BlockV>, b: BlockV)
    ensures
        spec_insert_block(s, b).to_multiset() == s.to_multiset().insert(b),
    decreases s.len(),
{
    broadcast use vstd::seq_lib::group_to_multiset_ensures;
    broadcast use vstd::multiset::group_multiset_axioms;

    if s.len() == 0 {
        assert(spec_insert_block(s, b) =~= s.push(b));
    } else if lex_le(b.dev, s[0].dev) {
        vstd::seq_lib::lemma_multiset_commutative(seq![b], s);
        assert(seq![b] =~= Seq::<BlockV>::empty().push(b));
        assert(spec_insert_block(s, b).to_multiset() =~= s.to_multiset().insert(b));
    } else {
        lemma_insert_block_multiset(s.drop_first(), b);
        vstd::seq_lib::lemma_multiset_commutative(
            seq![s[0]],
            spec_insert_block(s.drop_first(), b),
        );
        assert(seq![s[0]] =~= Seq::<BlockV>::empty().push(s[0]));
        assert(s.remove(0) =~= s.drop_first());
        assert(s.contains(s[0]));
        assert(s.to_multiset().count(s[0]) > 0);
        assert(spec_insert_block(s, b).to_multiset() =~= s.to_multiset().insert(b));
    }
}

/// As [`lemma_sort_drives_multiset`], for blocks.
pub proof fn lemma_sort_blocks_multiset(s: Seq<BlockV>)
    ensures
        spec_sort_blocks(s).to_multiset() == s.to_multiset(),
    decreases s.len(),
{
    broadcast use vstd::seq_lib::group_to_multiset_ensures;

    if s.len() > 0 {
        lemma_sort_blocks_multiset(s.drop_last());
        lemma_insert_block_multiset(spec_sort_blocks(s.drop_last()), s.last());
        assert(s =~= s.drop_last().push(s.last()));
        assert(spec_sort_blocks(s).to_multiset() =~= s.to_multiset());
    }
}

/// No two drives share an identity.
pub open spec fn distinct_ids(s: Seq<DriveV>) -> bool {
    forall|i: int, j: int|
        #![trigger s[i], s[j]]
        0 <= i < j < s.len() ==> s[i].object_path != s[j].object_path
}

/// A value sitting at two positions counts at least twice.
proof fn lemma_two_positions_count(s: Seq<DriveV>, i: int, j: int)
    requires
        0 <= i < j < s.len(),
        s[i] == s[j],
    ensures
        s.to_multiset().count(s[i]) >= 2,
{
    broadcast use vstd::seq_lib::group_to_multiset_ensures;
    broadcast use vstd::multiset::group_multiset_axioms;

    let r = s.remove(i);
    assert(r[j - 1] == s[j]);
    assert(r.contains(s[i]));
    assert(r.to_multiset() =~= s.to_multiset().remove(s[i]));
    assert(r.to_multiset().count(s[i]) > 0);
}

/// A count of at least two puts the value at two positions.
proof fn lemma_count_two_positions(s: Seq<DriveV>, x: DriveV) -> (r: (int, int))
    requires
        s.to_multiset().count(x) >= 2,
    ensures
        0 <= r.0 < r.1 < s.len(),
        s[r.0] == x,
        s[r.1] == x,
{
    broadcast use vstd::seq_lib::group_to_multiset_ensures;
    broadcast use vstd::multiset::group_multiset_axioms;

    assert(s.contains(x));
    let p = choose|p: int| 0 <= p < s.len() && s[p] == x;
    let rest = s.remove(p);
    assert(rest.to_multiset() =~= s.to_multiset().remove(x));
    assert(rest.to_multiset().count(x) > 0);
    assert(rest.contains(x));
    let q = choose|q: int| 0 <= q < rest.len() && rest[q] == x;
    if q < p {
        assert(s[q] == x);
        (q, p)
    } else {
        assert(s[q + 1] == x);
        (p, q + 1)
    }
}

/// Distinct identities carry over to any rearrangement.
proof fn lemma_distinct_ids_multiset(a: Seq<DriveV>, b: Seq<DriveV>)
    requires
        a.to_multiset() == b.to_multiset(),
        distinct_ids(a),
    ensures
        distinct_ids(b),
{
    broadcast use vstd::seq_lib::group_to_multiset_ensures;
    broadcast use vstd::multiset::group_multiset_axioms;

    assert forall|i: int, j: int|
        #![trigger b[i], b[j]]
        0 <= i < j < b.len() implies b[i].object_path != b[j].object_path by {
        if b[i].object_path == b[j].object_path {
            if b[i] == b[j] {
                lemma_two_positions_count(b, i, j);
                let (p, q) = lemma_count_two_positions(a, b[i]);
                assert(a[p].object_path == a[q].object_path);
            } else {
                assert(b.contains(b[i]));
                assert(b.contains(b[j]));
                assert(a.to_multiset().count(b[i]) > 0);
                assert(a.to_multiset().count(b[j]) > 0);
                assert(a.contains(b[i]));
                assert(a.contains(b[j]));
                let p = choose|p: int| 0 <= p < a.len() && a[p] == b[i];
                let q = choose|q: int| 0 <= q < a.len() && a[q] == b[j];
                assert(p != q);
                assert(a[p].object_path == a[q].object_path);
            }
        }
    }
}

/// Two sorted drive lists holding the same drives, with pairwise
/// distinct identities, are one and the same list.
proof fn lemma_sorted_unique(a: Seq<DriveV>, b: Seq<DriveV>)
    requires
        drives_sorted(a),
        drives_sorted(b),
        a.to_multiset() == b.to_multiset(),
        distinct_ids(a),
    ensures
        a == b,
    decreases a.len(),
{
    broadcast use vstd::seq_lib::group_to_multiset_ensures;
    broadcast use vstd::multiset::group_multiset_axioms;

    assert(a.len() == a.to_multiset().len());
    assert(b.len() == b.to_multiset().len());
    if a.len() == 0 {
        assert(a =~= b);
    } else {
        assert(a.contains(a[0]));
        assert(b.to_multiset().count(a[0]) > 0);
        assert(b.contains(a[0]));
        let j = choose|j: int| 0 <= j < b.len() && b[j] == a[0];
        assert(b.contains(b[0]));
        assert(a.to_multiset().count(b[0]) > 0);
        assert(a.contains(b[0]));
        let i = choose|i: int| 0 <= i < a.len() && a[i] == b[0];
        if j == 0 {
            assert(a[0] == b[0]);
        } else {
            assert(lex_le(b[0].object_path, b[j].object_path));
            assert(lex_le(a[0].object_path, a[i].object_path) || i == 0);
            if i == 0 {
                assert(a[0] == b[0]);
            } else {
                crate::strutil::lemma_lex_le_antisym(a[0].object_path, b[0].object_path);
                assert(a[i].object_path == a[0].object_path);
                assert(false);
            }
        }
        assert(a[0] == b[0]);
        let ta = a.drop_first();
        let tb = b.drop_first();
        assert(a.remove(0) =~= ta);
        assert(b.remove(0) =~= tb);
        assert(ta.to_multiset() =~= a.to_multiset().remove(a[0]));
        assert(tb.to_multiset() =~= b.to_multiset().remove(b[0]));
        assert(ta.to_multiset() == tb.to_multiset());
        assert(drives_sorted(ta)) by {
            assert(forall|i2: int, j2: int|
                #![trigger ta[i2], ta[j2]]
                0 <= i2 < j2 < ta.len() ==> lex_le(a[i2 + 1].object_path, a[j2 + 1].object_path));
        }
        assert(drives_sorted(tb)) by {
            assert(forall|i2: int, j2: int|
                #![trigger tb[i2], tb[j2]]
                0 <= i2 < j2 < tb.len() ==> lex_le(b[i2 + 1].object_path, b[j2 + 1].object_path));
        }
        assert(distinct_ids(ta)) by {
            assert(forall|i2: int, j2: int|
                #![trigger ta[i2], ta[j2]]
                0 <= i2 < j2 < ta.len() ==> a[i2 + 1].object_path != a[j2 + 1].object_path);
        }
        lemma_sorted_unique(ta, tb);
        assert forall|k: int| 0 <= k < a.len() implies a[k] == b[k] by {
            if k > 0 {
                assert(a[k] == ta[k - 1]);
                assert(b[k] == tb[k - 1]);
            }
        }
        assert(a =~= b);
    }
}

/// Determinism over enumeration order: two discoveries of the same
/// drives — equal as multisets, however the service enumerated them —
/// with pairwise distinct identities sort to the identical list.
pub proof fn lemma_sort_drives_order_insensitive(a: Seq<DriveV>, b: Seq<DriveV>)
    requires
        a.to_multiset() == b.to_multiset(),
        distinct_ids(a),
    ensures
        spec_sort_drives(a) == spec_sort_drives(b),
{
    lemma_sort_drives_multiset(a);
    lemma_sort_drives_multiset(b);
    lemma_sort_drives_sorted(a);
    lemma_sort_drives_sorted(b);
    lemma_distinct_ids_multiset(a, spec_sort_drives(a));
    lemma_sorted_unique(spec_sort_drives(a), spec_sort_drives(b));
}

/// Where the first position goes: the insertion spec places `d` at
/// the first index whose drive it precedes.
proof fn lemma_insert_drive_at(s: Seq<DriveV>, d: DriveV, idx: int)
    requires
        0 <= idx <= s.len(),
        forall|k: int| 0 <= k < idx ==> !lex_le(d.object_path, #[trigger] s[k].object_path),
        idx < s.len() ==> lex_le(d.object_path, s[idx].object_path),
    ensures
        spec_insert_drive(s, d) == s.insert(idx, d),
    decreases s.len(),
{
    if idx == 0 {
        if s.len() == 0 {
            assert(spec_insert_drive(s, d) =~= s.insert(0, d));
        } else {
            assert(seq![d] + s =~= s.insert(0, d));
        }
    } else {
        lemma_insert_drive_at(s.drop_first(), d, idx - 1);
        assert(seq![s[0]] + s.drop_first().insert(idx - 1, d) =~= s.insert(idx, d));
    }
}

/// As [`lemma_insert_drive_at`], for blocks.
proof fn lemma_insert_block_at(s: Seq<BlockV>, b: BlockV, idx: int)
    requires
        0 <= idx <= s.len(),
        forall|k: int| 0 <= k < idx ==> !lex_le(b.dev, #[trigger] s[k].dev),
        idx < s.len() ==> lex_le(b.dev, s[idx].dev),
    ensures
        spec_insert_block(s, b) == s.insert(idx, b),
    decreases s.len(),
{
    if idx == 0 {
        if s.len() == 0 {
            assert(spec_insert_block(s, b) =~= s.insert(0, b));
        } else {
            assert(seq![b] + s =~= s.insert(0, b));
        }
    } else {
        lemma_insert_block_at(s.drop_first(), b, idx - 1);
        assert(seq![s[0]] + s.drop_first().insert(idx - 1, b) =~= s.insert(idx, b));
    }
}

/// Inserts a drive at its place in an ascending drive list.
fn insert_drive_x(v: Vec<Drive>, d: Drive) -> (r: Vec<Drive>)
    ensures
        r.deep_view() == spec_insert_drive(v.deep_view(), d@),
{
    let ghost s = v.deep_view();
    let mut v = v;
    let mut idx: usize = 0;
    while idx < v.len()
        invariant
            idx <= v.len(),
            s == v.deep_view(),
            forall|k: int| 0 <= k < idx ==> !lex_le(d@.object_path, #[trigger] s[k].object_path),
        ensures
            idx <= v.len(),
            s == v.deep_view(),
            forall|k: int| 0 <= k < idx ==> !lex_le(d@.object_path, #[trigger] s[k].object_path),
            idx < v.len() ==> lex_le(d@.object_path, s[idx as int].object_path),
        decreases v.len() - idx,
    {
        let e = &v[idx];
        if str_le(d.object_path.as_str(), e.object_path.as_str()) {
            break;
        }
        idx = idx + 1;
    }
    proof {
        lemma_insert_drive_at(s, d@, idx as int);
    }
    let ghost dv = d@;
    v.insert(idx, d);
    proof {
        assert(v.deep_view() =~~= s.insert(idx as int, dv));
    }
    v
}

/// Inserts a block at its place in an ascending block list.
fn insert_block_x(v: Vec<Block>, b: Block) -> (r: Vec<Block>)
    ensures
        r.deep_view() == spec_insert_block(v.deep_view(), b@),
{
    let ghost s = v.deep_view();
    let mut v = v;
    let mut idx: usize = 0;
    while idx < v.len()
        invariant
            idx <= v.len(),
            s == v.deep_view(),
            forall|k: int| 0 <= k < idx ==> !lex_le(b@.dev, #[trigger] s[k].dev),
        ensures
            idx <= v.len(),
            s == v.deep_view(),
            forall|k: int| 0 <= k < idx ==> !lex_le(b@.dev, #[trigger] s[k].dev),
            idx < v.len() ==> lex_le(b@.dev, s[idx as int].dev),
        decreases v.len() - idx,
    {
        let e = &v[idx];
        if str_le(b.dev.as_str(), e.dev.as_str()) {
            break;
        }
        idx = idx + 1;
    }
    proof {
        lemma_insert_block_at(s, b@, idx as int);
    }
    let ghost bv = b@;
    v.insert(idx, b);
    proof {
        assert(v.deep_view() =~~= s.insert(idx as int, bv));
    }
    v
}

/// Sorts the drive list ascending by identity.
pub fn sort_drives(v: Vec<Drive>) -> (r: Vec<Drive>)
    ensures
        r.deep_view() == spec_sort_drives(v.deep_view()),
{
    let ghost vv = v.deep_view();
    let mut out: Vec<Drive> = Vec::new();
    let mut i: usize = 0;
    proof {
        assert(vv.take(0) =~= Seq::<DriveV>::empty());
    }
    while i < v.len()
        invariant
            i <= v.len(),
            vv == v.deep_view(),
            out.deep_view() == spec_sort_drives(vv.take(i as int)),
        decreases v.len() - i,
    {
        let d = v[i].clone();
        proof {
            assert(d@ == v.deep_view()[i as int]);
            assert(vv.take(i + 1int).drop_last() =~= vv.take(i as int));
            assert(vv.take(i + 1int).last() == vv[i as int]);
        }
        out = insert_drive_x(out, d);
        i = i + 1;
    }
    proof {
        assert(vv.take(vv.len() as int) =~= vv);
    }
    out
}

/// Sorts the block list ascending by device path.
pub fn sort_blocks(v: Vec<Block>) -> (r: Vec<Block>)
    ensures
        r.deep_view() == spec_sort_blocks(v.deep_view()),
{
    let ghost vv = v.deep_view();
    let mut out: Vec<Block> = Vec::new();
    let mut i: usize = 0;
    proof {
        assert(vv.take(0) =~= Seq::<BlockV>::empty());
    }
    while i < v.len()
        invariant
            i <= v.len(),
            vv == v.deep_view(),
            out.deep_view() == spec_sort_blocks(vv.take(i as int)),
        decreases v.len() - i,
    {
        let b = v[i].clone();
        proof {
            assert(b@ == v.deep_view()[i as int]);
            assert(vv.take(i + 1int).drop_last() =~= vv.take(i as int));
            assert(vv.take(i + 1int).last() == vv[i as int]);
        }
        out = insert_block_x(out, b);
        i = i + 1;
    }
    proof {
        assert(vv.take(vv.len() as int) =~= vv);
    }
    out
}

} // verus!
