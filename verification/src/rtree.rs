//! The R-tree engine: bottom-up bulk loading of bounding boxes and
//! intersection queries over the packed hierarchy.
//!
//! Leaf boxes sit first in one flat node array; each further level packs
//! runs of `node_size` nodes under one parent whose box is the exact union
//! of its children's, until a single root remains.  Position in the flat
//! array and the per-level bounds encode the hierarchy; no node holds a
//! pointer.

use vstd::prelude::*;
use crate::kdtree::{
    lemma_range_value_from,
    lemma_subrange_multiset_transitive,
    lemma_subrange_multiset_transitive_hi,
    lemma_swap_subrange_multiset,
};
use vstd::arithmetic::div_mod::{
    lemma_div_pos_is_pos,
    lemma_fundamental_div_mod,
    lemma_mod_bound,
};

verus! {

/// An axis-aligned bounding box: min x, min y, max x, max y.
pub type BBox = (i32, i32, i32, i32);

/// Two boxes intersect, edges included.
pub open spec fn box_intersects(a: BBox, b: BBox) -> bool {
    a.0 <= b.2 && b.0 <= a.2 && a.1 <= b.3 && b.1 <= a.3
}

/// The first box contains the second.
pub open spec fn box_contains(a: BBox, b: BBox) -> bool {
    a.0 <= b.0 && a.1 <= b.1 && b.2 <= a.2 && b.3 <= a.3
}

/// The smallest box holding both arguments.
pub open spec fn box_union(a: BBox, b: BBox) -> BBox {
    (
        if a.0 <= b.0 {
            a.0
        } else {
            b.0
        },
        if a.1 <= b.1 {
            a.1
        } else {
            b.1
        },
        if a.2 >= b.2 {
            a.2
        } else {
            b.2
        },
        if a.3 >= b.3 {
            a.3
        } else {
            b.3
        },
    )
}

/// The union of the boxes at positions `lo` through `hi`.
pub open spec fn union_of(s: Seq<BBox>, lo: int, hi: int) -> BBox
    decreases hi - lo,
{
    if hi <= lo {
        s[lo]
    } else {
        box_union(union_of(s, lo, hi - 1), s[hi])
    }
}

/// A union contains each box it was built from.
pub proof fn lemma_union_contains(s: Seq<BBox>, lo: int, hi: int, i: int)
    requires
        lo <= i <= hi,
    ensures
        box_contains(union_of(s, lo, hi), s[i]),
    decreases hi - lo,
{
    if hi > lo && i < hi {
        lemma_union_contains(s, lo, hi - 1, i);
    }
}

/// A range union only reads the range: it is unchanged when the sequence
/// grows or changes elsewhere.
proof fn lemma_union_frame(s1: Seq<BBox>, s2: Seq<BBox>, lo: int, hi: int)
    requires
        lo <= hi,
        forall|j: int| lo <= j <= hi ==> s2[j] == s1[j],
    ensures
        union_of(s2, lo, hi) == union_of(s1, lo, hi),
    decreases hi - lo,
{
    if hi > lo {
        lemma_union_frame(s1, s2, lo, hi - 1);
    }
}

/// First node of the `t`-th run of `nsi` nodes after `base`.
pub open spec fn run_lo(base: int, nsi: int, t: int) -> int {
    base + t * nsi
}

/// Last node of the `t`-th run of `nsi` nodes after `base`, clipped to
/// `count` nodes in all.
pub open spec fn run_hi(base: int, count: int, nsi: int, t: int) -> int {
    base + (if (t + 1) * nsi <= count {
        (t + 1) * nsi
    } else {
        count
    }) - 1
}

/// Intersect two boxes, executable form.
fn intersects_exec(a: BBox, b: BBox) -> (r: bool)
    ensures
        r == box_intersects(a, b),
{
    a.0 <= b.2 && b.0 <= a.2 && a.1 <= b.3 && b.1 <= a.3
}

/// Union two boxes, executable form.
fn union_exec(a: BBox, b: BBox) -> (r: BBox)
    ensures
        r == box_union(a, b),
{
    (
        if a.0 <= b.0 {
            a.0
        } else {
            b.0
        },
        if a.1 <= b.1 {
            a.1
        } else {
            b.1
        },
        if a.2 >= b.2 {
            a.2
        } else {
            b.2
        },
        if a.3 >= b.3 {
            a.3
        } else {
            b.3
        },
    )
}

/// One leaf while the tree is being packed: its box and its original
/// index.
pub type LeafEntry = (BBox, u32);

/// The ordering key of the packing heuristic: boxes are packed by the
/// horizontal position of their centre, so that siblings lie near one
/// another.
pub open spec fn center_key(b: BBox) -> int {
    b.0 + b.2
}

/// A range of leaves is in heuristic order: centre keys never decrease.
pub open spec fn leaves_sorted(s: Seq<LeafEntry>, lo: int, hi: int) -> bool {
    forall|i: int, j: int|
        #![trigger s[i], s[j]]
        lo <= i <= j <= hi ==> center_key(s[i].0) <= center_key(s[j].0)
}

/// Swap the leaves at two positions.
fn swap_leaf_entries(v: &mut Vec<LeafEntry>, a: usize, b: usize)
    requires
        a < old(v)@.len(),
        b < old(v)@.len(),
    ensures
        final(v)@ == old(v)@.update(a as int, old(v)@[b as int]).update(
            b as int,
            old(v)@[a as int],
        ),
{
    let ea = v[a];
    let eb = v[b];
    v.set(a, eb);
    v.set(b, ea);
    proof {
        assert(final(v)@ =~= old(v)@.update(a as int, old(v)@[b as int]).update(
            b as int,
            old(v)@[a as int],
        ));
    }
}

/// Partition a range of leaves around the centre key of its last entry.
fn partition_leaves(v: &mut Vec<LeafEntry>, lo: usize, hi: usize) -> (p: usize)
    requires
        lo <= hi,
        hi < old(v)@.len(),
    ensures
        lo <= p <= hi,
        final(v)@.len() == old(v)@.len(),
        forall|k: int|
            0 <= k < old(v)@.len() && !(lo <= k <= hi) ==> final(v)@[k] == old(v)@[k],
        final(v)@.subrange(lo as int, hi as int + 1).to_multiset() == old(v)@.subrange(
            lo as int,
            hi as int + 1,
        ).to_multiset(),
        forall|k: int|
            lo <= k <= p ==> center_key((#[trigger] final(v)@[k]).0) <= center_key(
                final(v)@[p as int].0,
            ),
        forall|k: int|
            p <= k <= hi ==> center_key(final(v)@[p as int].0) <= center_key(
                (#[trigger] final(v)@[k]).0,
            ),
{
    let e_hi = v[hi];
    let pivot: i64 = e_hi.0 .0 as i64 + e_hi.0 .2 as i64;
    let mut i = lo;
    let mut j = lo;
    while j < hi
        invariant
            lo <= i <= j <= hi < v@.len(),
            v@.len() == old(v)@.len(),
            pivot == center_key(v@[hi as int].0),
            forall|k: int| 0 <= k < old(v)@.len() && !(lo <= k <= hi) ==> v@[k] == old(v)@[k],
            v@.subrange(lo as int, hi as int + 1).to_multiset() == old(v)@.subrange(
                lo as int,
                hi as int + 1,
            ).to_multiset(),
            forall|k: int| lo <= k < i ==> center_key((#[trigger] v@[k]).0) < pivot,
            forall|k: int| i <= k < j ==> pivot <= center_key((#[trigger] v@[k]).0),
        decreases hi - j,
    {
        let e_j = v[j];
        let c: i64 = e_j.0 .0 as i64 + e_j.0 .2 as i64;
        if c < pivot {
            let ghost pre = v@;
            swap_leaf_entries(v, i, j);
            proof {
                lemma_swap_subrange_multiset(pre, i as int, j as int, lo as int, hi as int);
            }
            i += 1;
        }
        j += 1;
    }
    let ghost pre = v@;
    swap_leaf_entries(v, i, hi);
    proof {
        lemma_swap_subrange_multiset(pre, i as int, hi as int, lo as int, hi as int);
    }
    i
}

/// Sort a range of leaves by centre key, rearranging only.
fn sort_leaves(v: &mut Vec<LeafEntry>, lo: usize, hi: usize)
    requires
        lo <= hi,
        hi < old(v)@.len(),
    ensures
        final(v)@.len() == old(v)@.len(),
        forall|k: int|
            0 <= k < old(v)@.len() && !(lo <= k <= hi) ==> final(v)@[k] == old(v)@[k],
        final(v)@.subrange(lo as int, hi as int + 1).to_multiset() == old(v)@.subrange(
            lo as int,
            hi as int + 1,
        ).to_multiset(),
        leaves_sorted(final(v)@, lo as int, hi as int),
    decreases hi - lo,
{
    if hi <= lo {
        return ;
    }
    let ghost s0 = v@;
    let p = partition_leaves(v, lo, hi);
    let ghost s1 = v@;
    if p > lo {
        sort_leaves(v, lo, p - 1);
    }
    let ghost s2 = v@;
    proof {
        if p > lo {
            lemma_subrange_multiset_transitive(s0, s1, s2, lo as int, hi as int, p as int);
        } else {
            assert(s2 =~= s1);
        }
    }
    if p < hi {
        sort_leaves(v, p + 1, hi);
    }
    let ghost s3 = v@;
    proof {
        if p < hi {
            lemma_subrange_multiset_transitive_hi(s0, s2, s3, lo as int, hi as int, p as int);
        } else {
            assert(s3 =~= s2);
            assert(s3.subrange(lo as int, hi as int + 1).to_multiset() == s0.subrange(
                lo as int,
                hi as int + 1,
            ).to_multiset());
        }
        let pi = p as int;
        assert(s3[pi] == s1[pi]);
        assert forall|i: int, j: int|
            #![trigger s3[i], s3[j]]
            lo <= i <= j <= hi implies center_key(s3[i].0) <= center_key(s3[j].0) by {
            if i < pi {
                let ji = lemma_range_value_from(s1, s2, lo as int, pi - 1, i);
                assert(s3[i] == s2[i]);
                assert(center_key(s1[ji].0) <= center_key(s1[pi].0));
            }
            if j > pi {
                let jj = lemma_range_value_from(s2, s3, pi + 1, hi as int, j);
                assert(s2[jj] == s1[jj]);
                assert(center_key(s1[pi].0) <= center_key(s1[jj].0));
            }
        }
    }
}

/// A rearrangement of leaves that each carried their own insertion index
/// still carries pairwise-distinct indices.
proof fn lemma_permuted_leaf_ids_distinct(pairs0: Seq<LeafEntry>, pairs: Seq<LeafEntry>)
    requires
        pairs0.len() == pairs.len(),
        pairs0.len() <= 0xFFFF_FFFF,
        forall|t: int| 0 <= t < pairs0.len() ==> (#[trigger] pairs0[t]).1 == t as u32,
        pairs0.subrange(0, pairs0.len() as int).to_multiset() == pairs.subrange(
            0,
            pairs.len() as int,
        ).to_multiset(),
    ensures
        forall|t1: int, t2: int|
            #![trigger pairs[t1], pairs[t2]]
            0 <= t1 < pairs.len() && 0 <= t2 < pairs.len() && t1 != t2 ==> pairs[t1].1
                != pairs[t2].1,
{
    let n = pairs0.len() as int;
    assert(pairs0.subrange(0, n) =~= pairs0);
    assert(pairs.subrange(0, n) =~= pairs);
    assert forall|t1: int, t2: int|
        0 <= t1 < pairs0.len() && 0 <= t2 < pairs0.len() && t1 != t2 implies pairs0[t1]
        != pairs0[t2] by {
        assert(pairs0[t1].1 == t1 as u32);
        assert(pairs0[t2].1 == t2 as u32);
    }
    assert(pairs0.no_duplicates());
    pairs0.lemma_multiset_has_no_duplicates();
    pairs.lemma_multiset_has_no_duplicates_conv();
    assert forall|t1: int, t2: int|
        #![trigger pairs[t1], pairs[t2]]
        0 <= t1 < pairs.len() && 0 <= t2 < pairs.len() && t1 != t2 implies pairs[t1].1
        != pairs[t2].1 by {
        if pairs[t1].1 == pairs[t2].1 {
            let s1 = crate::kdtree::lemma_range_value_from(pairs0, pairs, 0, n - 1, t1);
            let s2 = crate::kdtree::lemma_range_value_from(pairs0, pairs, 0, n - 1, t2);
            assert(pairs0[s1].1 == s1 as u32);
            assert(pairs0[s2].1 == s2 as u32);
            assert(s1 == s2);
            assert(pairs[t1] == pairs[t2]);
            assert(false);
        }
    }
}

/// An owned, packed R-tree: the flat node array, the leaf index array, and
/// the per-level starts and counts, leaves first.
pub struct OwnedRTree {
    boxes: Vec<BBox>,
    ids: Vec<u32>,
    levels: Vec<(usize, usize)>,
    node_size: u16,
}

impl OwnedRTree {
    /// The flat node array.
    pub closed spec fn spec_boxes(self) -> Seq<BBox> {
        self.boxes@
    }

    /// The original index of each leaf, in packed leaf order.
    pub closed spec fn spec_ids(self) -> Seq<u32> {
        self.ids@
    }

    /// Start and count of each level in the node array, leaves first.
    pub closed spec fn spec_levels(self) -> Seq<(usize, usize)> {
        self.levels@
    }

    /// The packing granularity.
    pub closed spec fn spec_node_size(self) -> u16 {
        self.node_size
    }

    /// The number of indexed boxes.
    pub open spec fn spec_num_items(self) -> int {
        self.spec_ids().len() as int
    }

    /// Every internal node's stored box is the exact union of its
    /// children's stored boxes: the run of `node_size` nodes below it,
    /// clipped to that level.
    pub open spec fn bounding_invariant(self) -> bool {
        forall|l: int, k: int|
            0 <= l < self.spec_levels().len() - 1 && 0 <= k < self.spec_levels()[l + 1].1
                ==> #[trigger] self.spec_boxes()[self.spec_levels()[l + 1].0 + k] == union_of(
                self.spec_boxes(),
                run_lo(
                    self.spec_levels()[l].0 as int,
                    self.spec_node_size() as int,
                    k,
                ),
                run_hi(
                    self.spec_levels()[l].0 as int,
                    self.spec_levels()[l].1 as int,
                    self.spec_node_size() as int,
                    k,
                ),
            )
    }

    /// Every parent's run of children is non-empty: it starts inside the
    /// level below.
    pub open spec fn children_exist(self) -> bool {
        forall|l: int, k: int|
            0 <= l < self.spec_levels().len() - 1 && 0 <= k < self.spec_levels()[l + 1].1
                ==> #[trigger] run_lo(self.spec_levels()[l].0 as int, self.spec_node_size() as int, k)
                < self.spec_levels()[l].0 + self.spec_levels()[l].1
    }

    /// Structural well-formedness: the levels tile the node array from the
    /// leaves up to a lone root, every parent's children exist, and the
    /// bounding invariant holds.
    pub open spec fn wf(self) -> bool {
        let levels = self.spec_levels();
        let ns = self.spec_node_size() as int;
        &&& 2 <= self.spec_node_size()
        &&& 1 <= levels.len()
        &&& levels[0].0 == 0
        &&& levels[0].1 == self.spec_ids().len()
        &&& self.spec_ids().len() <= 0xFFFF_FFFF
        &&& forall|l: int|
            0 <= l < levels.len() - 1 ==> (#[trigger] levels[l + 1]).0 == levels[l].0 + levels[l].1
        &&& self.spec_boxes().len() == levels.last().0 + levels.last().1
        &&& levels.last().1 <= 1
        &&& forall|l: int| 0 <= l < levels.len() - 1 ==> (#[trigger] levels[l]).1 > 1
        &&& forall|l: int|
            0 <= l < levels.len() - 1 ==> (#[trigger] levels[l]).1 <= levels[l + 1].1 * ns
        &&& self.children_exist()
        &&& self.bounding_invariant()
    }

    /// The number of indexed boxes.
    pub fn num_items(&self) -> (r: u32)
        requires
            self.wf(),
        ensures
            r == self.spec_num_items(),
    {
        self.ids.len() as u32
    }

    /// The number of nodes over all levels.
    pub fn num_nodes(&self) -> (r: usize)
        ensures
            r == self.spec_boxes().len(),
    {
        self.boxes.len()
    }

    /// The stored box of the node at a flat position.
    pub fn node_box(&self, i: usize) -> (r: BBox)
        requires
            i < self.spec_boxes().len(),
        ensures
            r == self.spec_boxes()[i as int],
    {
        self.boxes[i]
    }

    /// The original index of the leaf at a packed leaf position.
    pub fn leaf_id(&self, i: usize) -> (r: u32)
        requires
            i < self.spec_ids().len(),
        ensures
            r == self.spec_ids()[i as int],
    {
        self.ids[i]
    }

    /// How many levels the hierarchy has.
    pub fn level_count(&self) -> (r: usize)
        ensures
            r == self.spec_levels().len(),
    {
        self.levels.len()
    }

    /// Start and count of one level.
    pub fn level_bounds(&self, l: usize) -> (r: (usize, usize))
        requires
            l < self.spec_levels().len(),
        ensures
            r == self.spec_levels()[l as int],
    {
        self.levels[l]
    }

    /// Up to `k` leaves nearest to the query point, each reported as its
    /// stored original index paired with the squared distance from the
    /// point to its box (zero inside the box).
    ///
    /// Exactly `min(k, num_items)` candidates are reported, and every
    /// reported candidate lies at least as near as every leaf whose index
    /// goes unreported.
    pub fn neighbors(&self, qx: i32, qy: i32, k: usize) -> (r: Vec<(u32, u128)>)
        requires
            self.wf(),
        ensures
            r@.len() == (if k as int <= self.spec_num_items() {
                k as int
            } else {
                self.spec_num_items()
            }),
            forall|j: int|
                0 <= j < r@.len() ==> #[trigger] leaf_candidates(
                    self.spec_boxes(),
                    self.spec_ids(),
                    qx,
                    qy,
                ).to_multiset().contains(r@[j]),
            forall|j: int, i: int|
                0 <= j < r@.len() && 0 <= i < self.spec_num_items() && (forall|j2: int|
                    0 <= j2 < r@.len() ==> (#[trigger] r@[j2]).0 != self.spec_ids()[i])
                    ==> (#[trigger] r@[j]).1 as int <= box_point_dist_sq(
                    #[trigger] self.spec_boxes()[i],
                    qx,
                    qy,
                ),
            self.spec_ids().no_duplicates() ==> forall|j1: int, j2: int|
                #![trigger r@[j1], r@[j2]]
                0 <= j1 < r@.len() && 0 <= j2 < r@.len() && j1 != j2 ==> r@[j1].0 != r@[j2].0,
    {
        let ghost gboxes = self.spec_boxes();
        let ghost gids = self.spec_ids();
        let n = self.ids.len();
        let kk = if k <= n {
            k
        } else {
            n
        };
        proof {
            lemma_levels_within(
                self.spec_levels(),
                gboxes.len() as int,
                0,
                self.spec_node_size() as int,
            );
        }
        let mut cands: Vec<Candidate> = Vec::new();
        let mut i: usize = 0;
        while i < n
            invariant
                self.wf(),
                gboxes == self.spec_boxes(),
                gids == self.spec_ids(),
                n == gids.len(),
                n <= gboxes.len(),
                i <= n,
                cands@.len() == i,
                forall|t: int|
                    0 <= t < i ==> (#[trigger] cands@[t]).1 == gids[t] && cands@[t].0 as int
                        == box_point_dist_sq(gboxes[t], qx, qy),
            decreases n - i,
        {
            let d = box_point_dist_sq_exec(self.boxes[i], qx, qy);
            let id = self.ids[i];
            cands.push((d, id));
            i += 1;
        }
        if kk == 0 {
            let r: Vec<(u32, u128)> = Vec::new();
            return r;
        }
        let ghost cands0 = cands@;
        if kk < n {
            select_candidates(&mut cands, kk - 1, 0, n - 1);
        }
        proof {
            assert(cands0.subrange(0, n as int) =~= cands0);
            assert(cands@.subrange(0, n as int) =~= cands@);
        }
        let mut r: Vec<(u32, u128)> = Vec::new();
        let mut j: usize = 0;
        while j < kk
            invariant
                j <= kk <= n,
                n == cands@.len(),
                r@.len() == j,
                forall|t: int|
                    0 <= t < j ==> #[trigger] r@[t] == (cands@[t].1, cands@[t].0),
            decreases kk - j,
        {
            let c = cands[j];
            r.push((c.1, c.0));
            j += 1;
        }
        proof {
            lemma_neighbors_reported(r@, cands0, cands@, gboxes, gids, qx, qy);
            if gids.no_duplicates() {
                lemma_neighbors_distinct(r@, cands0, cands@, gids);
            }
            assert forall|j2: int, i2: int|
                0 <= j2 < r@.len() && 0 <= i2 < n && (forall|j3: int|
                    0 <= j3 < r@.len() ==> (#[trigger] r@[j3]).0 != gids[i2]) implies (
            #[trigger] r@[j2]).1 as int <= box_point_dist_sq(#[trigger] gboxes[i2], qx, qy) by {
                // where leaf i2's candidate ended up after selection
                let t = crate::kdtree::lemma_range_value_from(cands@, cands0, 0, n as int - 1, i2);
                if t < kk {
                    assert(r@[t] == (cands@[t].1, cands@[t].0));
                    assert(r@[t].0 == gids[i2]);
                    assert(false);
                } else {
                    assert(kk < n);
                    assert(cands@[j2].0 <= cands@[kk as int - 1].0);
                    assert(cands@[kk as int - 1].0 <= cands@[t].0);
                    assert(cands@[t] == cands0[i2]);
                }
            }
        }
        r
    }
}

/// Collects bounding boxes and bulk-loads an owned R-tree.
pub struct RTreeBuilder {
    leaves: Vec<BBox>,
    node_size: u16,
}

impl RTreeBuilder {
    /// The configured packing granularity.
    pub closed spec fn spec_node_size(self) -> u16 {
        self.node_size
    }

    /// The boxes added so far, in insertion order.
    pub closed spec fn spec_leaves(self) -> Seq<BBox> {
        self.leaves@
    }

    /// Start a builder; a node size below 2 is a caller defect.
    pub fn new(node_size: u16) -> (r: Self)
        requires
            2 <= node_size,
        ensures
            r.spec_node_size() == node_size,
            r.spec_leaves().len() == 0,
    {
        RTreeBuilder { leaves: Vec::new(), node_size }
    }

    /// Add one bounding box; it receives the next original index.
    pub fn add(&mut self, min_x: i32, min_y: i32, max_x: i32, max_y: i32)
        requires
            old(self).spec_leaves().len() < 0xFFFF_FFFF,
        ensures
            final(self).spec_node_size() == old(self).spec_node_size(),
            final(self).spec_leaves() == old(self).spec_leaves().push(
                (min_x, min_y, max_x, max_y),
            ),
    {
        self.leaves.push((min_x, min_y, max_x, max_y));
    }

    /// Pack the collected boxes bottom-up: order the leaves by the packing
    /// heuristic, then group each run of `node_size` nodes under a parent
    /// holding the exact union of the run, level by level until one root
    /// remains.
    ///
    /// The leaves are rearranged only: the multiset of (box, original
    /// index) pairs is unchanged, and the packed leaves stand in heuristic
    /// order.
    #[verifier::rlimit(100)]
    pub fn finish(self) -> (r: OwnedRTree)
        requires
            2 <= self.spec_node_size(),
            self.spec_leaves().len() <= 0xFFFF_FFFF,
        ensures
            r.wf(),
            r.spec_node_size() == self.spec_node_size(),
            r.spec_num_items() == self.spec_leaves().len(),
            Seq::new(
                self.spec_leaves().len(),
                |i: int| (r.spec_boxes()[i], r.spec_ids()[i]),
            ).to_multiset() == Seq::new(
                self.spec_leaves().len(),
                |i: int| (self.spec_leaves()[i], i as u32),
            ).to_multiset(),
            forall|i: int, j: int|
                #![trigger r.spec_boxes()[i], r.spec_boxes()[j]]
                0 <= i <= j < self.spec_leaves().len() ==> center_key(r.spec_boxes()[i])
                    <= center_key(r.spec_boxes()[j]),
            r.spec_ids().no_duplicates(),
    {
        let node_size = self.node_size;
        let leaves = self.leaves;
        let ns = node_size as usize;
        let ghost nsi = node_size as int;
        let n = leaves.len();
        let ghost leaves0 = leaves@;
        let ghost pairs0 = Seq::new(n as nat, |t: int| (leaves0[t], t as u32));
        let mut entries: Vec<LeafEntry> = Vec::new();
        let mut i: usize = 0;
        while i < n
            invariant
                i <= n,
                n == leaves@.len(),
                leaves0 == leaves@,
                entries@.len() == i,
                forall|t: int| 0 <= t < i ==> entries@[t] == (leaves0[t], t as u32),
            decreases n - i,
        {
            entries.push((leaves[i], i as u32));
            i += 1;
        }
        proof {
            assert(entries@ =~= pairs0);
        }
        if n >= 1 {
            let ghost pre = entries@;
            sort_leaves(&mut entries, 0, n - 1);
            proof {
                assert(pre.subrange(0, n as int) =~= pre);
                assert(entries@.subrange(0, n as int) =~= entries@);
            }
        }
        assert(entries@.to_multiset() == pairs0.to_multiset());
        assert(leaves_sorted(entries@, 0, n as int - 1));
        let mut boxes: Vec<BBox> = Vec::new();
        let mut ids: Vec<u32> = Vec::new();
        let mut i: usize = 0;
        while i < n
            invariant
                i <= n,
                n == entries@.len(),
                entries@.to_multiset() == pairs0.to_multiset(),
                boxes@.len() == i,
                ids@.len() == i,
                forall|t: int|
                    0 <= t < i ==> boxes@[t] == (#[trigger] entries@[t]).0 && ids@[t]
                        == entries@[t].1,
            decreases n - i,
        {
            let e = entries[i];
            boxes.push(e.0);
            ids.push(e.1);
            i += 1;
        }
        proof {
            assert(Seq::new(n as nat, |t: int| (boxes@[t], ids@[t])) =~= entries@);
            assert forall|i2: int, j2: int|
                #![trigger boxes@[i2], boxes@[j2]]
                0 <= i2 <= j2 < n implies center_key(boxes@[i2]) <= center_key(boxes@[j2]) by {
                assert(entries@[i2].0 == boxes@[i2]);
                assert(entries@[j2].0 == boxes@[j2]);
            }
        }
        let ghost sorted0 = boxes@;
        let mut levels: Vec<(usize, usize)> = Vec::new();
        levels.push((0, n));
        let mut start: usize = 0;
        let mut count: usize = n;
        while count > 1
            invariant
                2 <= ns < 65536,
                nsi == ns as int,
                n == sorted0.len(),
                levels@.len() >= 1,
                levels@.last() == ((start, count)),
                levels@[0] == ((0usize, n)),
                boxes@.len() == start + count,
                n <= start + count,
                forall|j: int| 0 <= j < n ==> boxes@[j] == sorted0[j],
                forall|l: int|
                    0 <= l < levels@.len() - 1 ==> (#[trigger] levels@[l + 1]).0 == levels@[l].0
                        + levels@[l].1,
                forall|l: int| 0 <= l < levels@.len() - 1 ==> (#[trigger] levels@[l]).1 > 1,
                forall|l: int|
                    0 <= l < levels@.len() - 1 ==> (#[trigger] levels@[l]).1 <= levels@[l + 1].1
                        * nsi,
                forall|l: int, k: int|
                    0 <= l < levels@.len() - 1 && 0 <= k < levels@[l + 1].1 ==> #[trigger] run_lo(
                        levels@[l].0 as int,
                        nsi,
                        k,
                    ) < levels@[l].0 + levels@[l].1,
                forall|l: int, k: int|
                    0 <= l < levels@.len() - 1 && 0 <= k < levels@[l + 1].1
                        ==> #[trigger] boxes@[levels@[l + 1].0 + k] == union_of(
                        boxes@,
                        run_lo(levels@[l].0 as int, nsi, k),
                        run_hi(levels@[l].0 as int, levels@[l].1 as int, nsi, k),
                    ),
            decreases count,
        {
            let ghost old_boxes = boxes@;
            let ghost old_levels = levels@;
            let new_start = boxes.len();
            let k = build_level(&mut boxes, start, count, ns);
            levels.push((new_start, k));
            start = new_start;
            count = k;
            proof {
                assert(levels@ =~= old_levels.push((start, count)));
                lemma_level_push(old_boxes, boxes@, old_levels, levels@, nsi, k);
            }
        }
        let r = OwnedRTree { boxes, ids, levels, node_size };
        proof {
            assert(Seq::new(n as nat, |t: int| (r.spec_boxes()[t], r.spec_ids()[t])) =~= Seq::new(
                n as nat,
                |t: int| (sorted0[t], ids@[t]),
            ));
            assert forall|i2: int, j2: int|
                #![trigger r.spec_boxes()[i2], r.spec_boxes()[j2]]
                0 <= i2 <= j2 < n implies center_key(r.spec_boxes()[i2]) <= center_key(
                r.spec_boxes()[j2],
            ) by {
                assert(r.spec_boxes()[i2] == sorted0[i2]);
                assert(r.spec_boxes()[j2] == sorted0[j2]);
            }
            lemma_permuted_leaf_ids_distinct(pairs0, entries@);
            assert forall|t1: int, t2: int|
                0 <= t1 < r.spec_ids().len() && 0 <= t2 < r.spec_ids().len() && t1
                    != t2 implies r.spec_ids()[t1] != r.spec_ids()[t2] by {
                assert(r.spec_ids()[t1] == entries@[t1].1);
                assert(r.spec_ids()[t2] == entries@[t2].1);
            }
            assert(r.spec_ids().no_duplicates());
        }
        r
    }
}

/// Append one parent per run of `node_size` nodes over the `count` nodes
/// starting at `start`, each parent holding the exact union of its run;
/// return the number of parents.
#[verifier::rlimit(60)]
fn build_level(boxes: &mut Vec<BBox>, start: usize, count: usize, ns: usize) -> (k: usize)
    requires
        2 <= ns < 65536,
        count > 1,
        old(boxes)@.len() == start + count,
    ensures
        1 <= k < count,
        count <= k * (ns as int),
        final(boxes)@.len() == old(boxes)@.len() + k,
        forall|t: int| 0 <= t < old(boxes)@.len() ==> final(boxes)@[t] == old(boxes)@[t],
        forall|t: int|
            0 <= t < k ==> #[trigger] run_lo(start as int, ns as int, t) < start + count,
        forall|t: int|
            0 <= t < k ==> #[trigger] final(boxes)@[start + count + t] == union_of(
                final(boxes)@,
                run_lo(start as int, ns as int, t),
                run_hi(start as int, count as int, ns as int, t),
            ),
{
    let ghost nsi = ns as int;
    let new_start = boxes.len();
    let mut k: usize = 0;
    let mut j: usize = 0;
    while j < count
        invariant
            2 <= ns < 65536,
            nsi == ns as int,
            old(boxes)@.len() == new_start,
            new_start == start + count,
            count > 1,
            boxes@.len() == new_start + k,
            k <= j <= count,
            j as int == (if k * nsi <= count { k * nsi } else { count as int }),
            k == 0 || (k - 1) * nsi < count,
            forall|t: int| 0 <= t < new_start ==> boxes@[t] == old(boxes)@[t],
            forall|t: int| 0 <= t < k ==> #[trigger] run_lo(start as int, nsi, t) < start + count,
            forall|t: int|
                0 <= t < k ==> #[trigger] boxes@[new_start + t] == union_of(
                    boxes@,
                    run_lo(start as int, nsi, t),
                    run_hi(start as int, count as int, nsi, t),
                ),
        decreases count - j,
    {
        let hi = if count - j > ns {
            j + ns
        } else {
            count
        };
        let ghost pre_boxes = boxes@;
        let mut acc = boxes[start + j];
        let mut t = j + 1;
        while t < hi
            invariant
                j < t <= hi <= count,
                new_start == start + count,
                boxes@ == pre_boxes,
                boxes@.len() >= new_start,
                acc == union_of(boxes@, start + j, start + t - 1),
            decreases hi - t,
        {
            acc = union_exec(acc, boxes[start + t]);
            t += 1;
        }
        boxes.push(acc);
        proof {
            assert((k + 1) * nsi == k * nsi + nsi) by (nonlinear_arith);
            lemma_union_frame(pre_boxes, boxes@, start as int + j, start as int + hi - 1);
            assert(boxes@[new_start as int + k] == union_of(
                boxes@,
                start as int + j,
                start as int + hi - 1,
            ));
            assert forall|t2: int| 0 <= t2 < k + 1 implies #[trigger] run_lo(
                start as int,
                nsi,
                t2,
            ) < start + count by {
                if t2 == k {
                    assert(j == k * nsi);
                }
            }
            assert forall|t2: int| 0 <= t2 < k + 1 implies #[trigger] boxes@[new_start + t2]
                == union_of(
                boxes@,
                run_lo(start as int, nsi, t2),
                run_hi(start as int, count as int, nsi, t2),
            ) by {
                assert((t2 + 1) * nsi == t2 * nsi + nsi) by (nonlinear_arith);
                if t2 < k {
                    assert(boxes@[new_start + t2] == pre_boxes[new_start + t2]);
                    lemma_union_frame(
                        pre_boxes,
                        boxes@,
                        run_lo(start as int, nsi, t2),
                        run_hi(start as int, count as int, nsi, t2),
                    );
                } else {
                    assert(run_lo(start as int, nsi, t2) == start + j);
                    assert(run_hi(start as int, count as int, nsi, t2) == start + hi - 1);
                }
            }
        }
        j = hi;
        k += 1;
    }
    proof {
        assert(k >= 1);
        assert((k - 1) * nsi >= 2 * (k - 1)) by (nonlinear_arith)
            requires
                nsi >= 2 && k >= 1,
        ;
        assert(k * nsi >= count);
        assert(k < count);
    }
    k
}

/// Appending a freshly built parent level keeps every structural fact of
/// the level table: starts tile the node array, lower levels stay oversized,
/// children exist, and every parent box is the exact union of its run.
proof fn lemma_level_push(
    old_boxes: Seq<BBox>,
    boxes: Seq<BBox>,
    old_levels: Seq<(usize, usize)>,
    levels: Seq<(usize, usize)>,
    nsi: int,
    k: usize,
)
    requires
        nsi >= 2,
        old_levels.len() >= 1,
        old_boxes.len() <= usize::MAX,
        levels == old_levels.push(((old_boxes.len() as usize, k))),
        old_levels.last().0 + old_levels.last().1 == old_boxes.len(),
        old_levels.last().1 > 1,
        1 <= k < old_levels.last().1,
        old_levels.last().1 <= k * nsi,
        boxes.len() == old_boxes.len() + k,
        forall|t: int| 0 <= t < old_boxes.len() ==> boxes[t] == old_boxes[t],
        forall|t: int|
            0 <= t < k ==> #[trigger] run_lo(old_levels.last().0 as int, nsi, t)
                < old_levels.last().0 + old_levels.last().1,
        forall|t: int|
            0 <= t < k ==> #[trigger] boxes[old_boxes.len() + t] == union_of(
                boxes,
                run_lo(old_levels.last().0 as int, nsi, t),
                run_hi(old_levels.last().0 as int, old_levels.last().1 as int, nsi, t),
            ),
        forall|l: int|
            0 <= l < old_levels.len() - 1 ==> (#[trigger] old_levels[l + 1]).0 == old_levels[l].0
                + old_levels[l].1,
        forall|l: int| 0 <= l < old_levels.len() - 1 ==> (#[trigger] old_levels[l]).1 > 1,
        forall|l: int|
            0 <= l < old_levels.len() - 1 ==> (#[trigger] old_levels[l]).1 <= old_levels[l + 1].1
                * nsi,
        forall|l: int, k2: int|
            0 <= l < old_levels.len() - 1 && 0 <= k2 < old_levels[l + 1].1 ==> #[trigger] run_lo(
                old_levels[l].0 as int,
                nsi,
                k2,
            ) < old_levels[l].0 + old_levels[l].1,
        forall|l: int, k2: int|
            0 <= l < old_levels.len() - 1 && 0 <= k2 < old_levels[l + 1].1
                ==> #[trigger] old_boxes[old_levels[l + 1].0 + k2] == union_of(
                old_boxes,
                run_lo(old_levels[l].0 as int, nsi, k2),
                run_hi(old_levels[l].0 as int, old_levels[l].1 as int, nsi, k2),
            ),
    ensures
        forall|l: int|
            0 <= l < levels.len() - 1 ==> (#[trigger] levels[l + 1]).0 == levels[l].0
                + levels[l].1,
        forall|l: int| 0 <= l < levels.len() - 1 ==> (#[trigger] levels[l]).1 > 1,
        forall|l: int|
            0 <= l < levels.len() - 1 ==> (#[trigger] levels[l]).1 <= levels[l + 1].1 * nsi,
        forall|l: int, k2: int|
            0 <= l < levels.len() - 1 && 0 <= k2 < levels[l + 1].1 ==> #[trigger] run_lo(
                levels[l].0 as int,
                nsi,
                k2,
            ) < levels[l].0 + levels[l].1,
        forall|l: int, k2: int|
            0 <= l < levels.len() - 1 && 0 <= k2 < levels[l + 1].1
                ==> #[trigger] boxes[levels[l + 1].0 + k2] == union_of(
                boxes,
                run_lo(levels[l].0 as int, nsi, k2),
                run_hi(levels[l].0 as int, levels[l].1 as int, nsi, k2),
            ),
{
    let last = old_levels.len() - 1;
    assert forall|l: int|
        0 <= l < levels.len() - 1 implies (#[trigger] levels[l + 1]).0 == levels[l].0
        + levels[l].1 && levels[l].1 > 1 && levels[l].1 <= levels[l + 1].1 * nsi by {
        if l < last {
            assert(levels[l] == old_levels[l]);
            assert(levels[l + 1] == old_levels[l + 1]);
            assert(old_levels[l + 1].0 == old_levels[l].0 + old_levels[l].1);
            assert(old_levels[l].1 > 1);
            assert(old_levels[l].1 <= old_levels[l + 1].1 * nsi);
        } else {
            assert(levels[l] == old_levels[last]);
            assert(levels[l + 1] == ((old_boxes.len() as usize, k)));
            assert(levels[l + 1].0 == old_boxes.len());
            assert(levels[l].1 <= k * nsi);
        }
    }
    assert forall|l: int, k2: int|
        0 <= l < levels.len() - 1 && 0 <= k2 < levels[l + 1].1 implies #[trigger] run_lo(
        levels[l].0 as int,
        nsi,
        k2,
    ) < levels[l].0 + levels[l].1 by {
        if l < last {
            assert(levels[l] == old_levels[l]);
            assert(levels[l + 1] == old_levels[l + 1]);
            assert(run_lo(old_levels[l].0 as int, nsi, k2) < old_levels[l].0 + old_levels[l].1);
        } else {
            assert(levels[l] == old_levels[last]);
            assert(levels[l + 1] == ((old_boxes.len() as usize, k)));
            assert(run_lo(old_levels[last].0 as int, nsi, k2) < old_levels[last].0
                + old_levels[last].1);
        }
    }
    assert forall|l: int, k2: int|
        0 <= l < levels.len() - 1 && 0 <= k2 < levels[l + 1].1 implies #[trigger] boxes[levels[l
        + 1].0 + k2] == union_of(
        boxes,
        run_lo(levels[l].0 as int, nsi, k2),
        run_hi(levels[l].0 as int, levels[l].1 as int, nsi, k2),
    ) by {
        assert((k2 + 1) * nsi == k2 * nsi + nsi) by (nonlinear_arith);
        if l < last {
            assert(levels[l] == old_levels[l]);
            assert(levels[l + 1] == old_levels[l + 1]);
            assert(old_boxes[old_levels[l + 1].0 + k2] == union_of(
                old_boxes,
                run_lo(old_levels[l].0 as int, nsi, k2),
                run_hi(old_levels[l].0 as int, old_levels[l].1 as int, nsi, k2),
            ));
            assert(old_levels[l].0 + old_levels[l].1 <= old_boxes.len()) by {
                lemma_levels_within(old_levels, old_boxes.len() as int, l, nsi);
            }
            assert(boxes[levels[l + 1].0 + k2] == old_boxes[old_levels[l + 1].0 + k2]) by {
                lemma_levels_within(old_levels, old_boxes.len() as int, l + 1, nsi);
            }
            lemma_union_frame(
                old_boxes,
                boxes,
                run_lo(old_levels[l].0 as int, nsi, k2),
                run_hi(old_levels[l].0 as int, old_levels[l].1 as int, nsi, k2),
            );
        } else {
            assert(levels[l] == old_levels[last]);
            assert(levels[l + 1] == ((old_boxes.len() as usize, k)));
            assert(boxes[old_boxes.len() + k2] == union_of(
                boxes,
                run_lo(old_levels[last].0 as int, nsi, k2),
                run_hi(old_levels[last].0 as int, old_levels[last].1 as int, nsi, k2),
            ));
        }
    }
}

/// Every level's nodes lie inside the node array prefix that ends where the
/// last level ends.
proof fn lemma_levels_within(levels: Seq<(usize, usize)>, total: int, l: int, nsi: int)
    requires
        levels.len() >= 1,
        0 <= l < levels.len(),
        levels.last().0 + levels.last().1 == total,
        forall|l2: int|
            0 <= l2 < levels.len() - 1 ==> (#[trigger] levels[l2 + 1]).0 == levels[l2].0
                + levels[l2].1,
    ensures
        levels[l].0 + levels[l].1 <= total,
    decreases levels.len() - l,
{
    if l < levels.len() - 1 {
        lemma_levels_within(levels, total, l + 1, nsi);
        assert(levels[l + 1].0 == levels[l].0 + levels[l].1);
    }
}

/// Every reported value is the stored original index of some leaf whose box
/// intersects the query box.
pub open spec fn reported_from_intersecting(
    res: Seq<u32>,
    boxes: Seq<BBox>,
    ids: Seq<u32>,
    q: BBox,
) -> bool {
    forall|j: int|
        #![trigger res[j]]
        0 <= j < res.len() ==> exists|i: int|
            #![trigger ids[i]]
            0 <= i < ids.len() && box_intersects(boxes[i], q) && res[j] == ids[i]
}

/// The candidate pair of each leaf: its stored original index and the
/// squared distance from the query point to its box.
pub open spec fn leaf_candidates(boxes: Seq<BBox>, ids: Seq<u32>, qx: i32, qy: i32) -> Seq<
    (u32, u128),
> {
    Seq::new(ids.len(), |i: int| (ids[i], box_point_dist_sq(boxes[i], qx, qy) as u128))
}

/// A result copied from the nearest prefix of a rearrangement of the
/// leaves' candidates reports only real leaves with their real distances.
proof fn lemma_neighbors_reported(
    res: Seq<(u32, u128)>,
    cands0: Seq<Candidate>,
    cands: Seq<Candidate>,
    boxes: Seq<BBox>,
    ids: Seq<u32>,
    qx: i32,
    qy: i32,
)
    requires
        cands0.len() == ids.len(),
        cands.len() == ids.len(),
        res.len() <= cands.len(),
        forall|t: int|
            0 <= t < cands0.len() ==> (#[trigger] cands0[t]).1 == ids[t] && cands0[t].0 as int
                == box_point_dist_sq(boxes[t], qx, qy),
        forall|t: int| 0 <= t < res.len() ==> #[trigger] res[t] == (cands[t].1, cands[t].0),
        cands0.subrange(0, cands0.len() as int).to_multiset() == cands.subrange(
            0,
            cands.len() as int,
        ).to_multiset(),
    ensures
        forall|j: int|
            0 <= j < res.len() ==> #[trigger] leaf_candidates(boxes, ids, qx, qy).to_multiset()
                .contains(res[j]),
{
    broadcast use vstd::seq_lib::group_to_multiset_ensures;

    let lc = leaf_candidates(boxes, ids, qx, qy);
    assert forall|j: int| 0 <= j < res.len() implies #[trigger] lc.to_multiset().contains(
        res[j],
    ) by {
        let t = crate::kdtree::lemma_range_value_from(
            cands0,
            cands,
            0,
            cands0.len() as int - 1,
            j,
        );
        assert(cands[j] == cands0[t]);
        assert(cands0[t].1 == ids[t]);
        assert(cands0[t].0 as int == box_point_dist_sq(boxes[t], qx, qy));
        assert(cands0[t].0 == box_point_dist_sq(boxes[t], qx, qy) as u128);
        assert(lc[t] == res[j]);
        assert(lc.contains(res[j]));
    }
}

/// Candidates copied from distinct positions of a rearrangement of the
/// leaves' candidates carry distinct indices, as long as the stored leaf
/// indices are pairwise distinct.
proof fn lemma_neighbors_distinct(
    res: Seq<(u32, u128)>,
    cands0: Seq<Candidate>,
    cands: Seq<Candidate>,
    ids: Seq<u32>,
)
    requires
        cands0.len() == ids.len(),
        cands.len() == ids.len(),
        res.len() <= cands.len(),
        forall|t: int| 0 <= t < cands0.len() ==> (#[trigger] cands0[t]).1 == ids[t],
        forall|t: int| 0 <= t < res.len() ==> #[trigger] res[t] == (cands[t].1, cands[t].0),
        cands0.subrange(0, cands0.len() as int).to_multiset() == cands.subrange(
            0,
            cands.len() as int,
        ).to_multiset(),
        ids.no_duplicates(),
    ensures
        forall|j1: int, j2: int|
            #![trigger res[j1], res[j2]]
            0 <= j1 < res.len() && 0 <= j2 < res.len() && j1 != j2 ==> res[j1].0 != res[j2].0,
{
    let n = cands0.len() as int;
    assert(cands0.subrange(0, n) =~= cands0);
    assert(cands.subrange(0, n) =~= cands);
    assert forall|t1: int, t2: int|
        0 <= t1 < cands0.len() && 0 <= t2 < cands0.len() && t1 != t2 implies cands0[t1]
        != cands0[t2] by {
        assert(cands0[t1].1 == ids[t1]);
        assert(cands0[t2].1 == ids[t2]);
    }
    assert(cands0.no_duplicates());
    cands0.lemma_multiset_has_no_duplicates();
    cands.lemma_multiset_has_no_duplicates_conv();
    assert forall|j1: int, j2: int|
        #![trigger res[j1], res[j2]]
        0 <= j1 < res.len() && 0 <= j2 < res.len() && j1 != j2 implies res[j1].0 != res[j2].0 by {
        if res[j1].0 == res[j2].0 {
            let t1 = crate::kdtree::lemma_range_value_from(cands0, cands, 0, n - 1, j1);
            let t2 = crate::kdtree::lemma_range_value_from(cands0, cands, 0, n - 1, j2);
            assert(ids[t1] == ids[t2]);
            assert(t1 == t2);
            assert(cands[j1] == cands[j2]);
            assert(false);
        }
    }
}

/// Stack entries of the intersection traversal name existing nodes: a level
/// and a position inside it.
pub open spec fn rt_stack_wf(st: Seq<(usize, usize)>, levels: Seq<(usize, usize)>) -> bool {
    forall|k: int|
        0 <= k < st.len() ==> (#[trigger] st[k]).0 < levels.len() && st[k].1 < levels[st[k].0 as int].1
}

/// An upper bound on the number of nodes in a subtree rooted at a level.
pub open spec fn rt_cap(nsi: int, level: int) -> int
    decreases level,
{
    if level <= 0 {
        1
    } else {
        1 + nsi * rt_cap(nsi, level - 1)
    }
}

/// Termination measure of the intersection traversal.
pub open spec fn rt_weight(st: Seq<(usize, usize)>, nsi: int) -> int
    decreases st.len(),
{
    if st.len() == 0 {
        0
    } else {
        rt_weight(st.drop_last(), nsi) + rt_cap(nsi, st.last().0 as int)
    }
}

proof fn lemma_rt_cap_pos(nsi: int, level: int)
    requires
        nsi >= 2,
    ensures
        rt_cap(nsi, level) >= 1,
    decreases (if level >= 0 { level } else { 0 }),
{
    if level > 0 {
        lemma_rt_cap_pos(nsi, level - 1);
        assert(nsi * rt_cap(nsi, level - 1) >= 0) by (nonlinear_arith)
            requires
                nsi >= 2 && rt_cap(nsi, level - 1) >= 1,
        ;
    }
}

proof fn lemma_rt_weight_nonneg(st: Seq<(usize, usize)>, nsi: int)
    requires
        nsi >= 2,
    ensures
        rt_weight(st, nsi) >= 0,
    decreases st.len(),
{
    if st.len() > 0 {
        lemma_rt_weight_nonneg(st.drop_last(), nsi);
        lemma_rt_cap_pos(nsi, st.last().0 as int);
    }
}

proof fn lemma_rt_weight_push(st: Seq<(usize, usize)>, e: (usize, usize), nsi: int)
    ensures
        rt_weight(st.push(e), nsi) == rt_weight(st, nsi) + rt_cap(nsi, e.0 as int),
{
    assert(st.push(e).drop_last() =~= st);
    assert(st.push(e).last() == e);
}

proof fn lemma_rt_contains_push(s: Seq<u32>, x: u32, y: u32)
    requires
        s.contains(y),
    ensures
        s.push(x).contains(y),
{
    let i = choose|i: int| 0 <= i < s.len() && s[i] == y;
    assert(s.push(x)[i] == y);
}

/// Reporting a leaf whose box intersects the query keeps the result sound.
proof fn lemma_report_rt(
    res_old: Seq<u32>,
    res_new: Seq<u32>,
    boxes: Seq<BBox>,
    ids: Seq<u32>,
    i: int,
    q: BBox,
)
    requires
        reported_from_intersecting(res_old, boxes, ids, q),
        0 <= i < ids.len(),
        box_intersects(boxes[i], q),
        res_new == res_old.push(ids[i]),
    ensures
        reported_from_intersecting(res_new, boxes, ids, q),
        forall|v: u32| res_old.contains(v) ==> res_new.contains(v),
        res_new.contains(ids[i]),
{
    assert forall|j: int| #![trigger res_new[j]] 0 <= j < res_new.len() implies exists|t: int|
        #![trigger ids[t]]
        0 <= t < ids.len() && box_intersects(boxes[t], q) && res_new[j] == ids[t] by {
        if j < res_old.len() {
            assert(res_new[j] == res_old[j]);
        } else {
            assert(res_new[j] == ids[i]);
        }
    }
    assert forall|v: u32| res_old.contains(v) implies res_new.contains(v) by {
        lemma_seq_contains_push(res_old, ids[i], v);
    }
    assert(res_new[res_old.len() as int] == ids[i]);
}

/// A packed leaf position whose subtree is still waiting on the traversal
/// stack: some stack entry is its ancestor.
pub open spec fn rt_covered(st: Seq<(usize, usize)>, nsi: int, i: int) -> bool {
    exists|k: int| 0 <= k < st.len() && anc(nsi, (#[trigger] st[k]).0 as int, i) == st[k].1
}

impl OwnedRTree {
    /// Every original index whose box intersects the query box, edges
    /// included: exactly the indices a brute-force scan of the leaf boxes
    /// would report, in traversal order.
    pub fn search(&self, min_x: i32, min_y: i32, max_x: i32, max_y: i32) -> (r: Vec<u32>)
        requires
            self.wf(),
        ensures
            reported_from_intersecting(
                r@,
                self.spec_boxes(),
                self.spec_ids(),
                (min_x, min_y, max_x, max_y),
            ),
            forall|i: int|
                0 <= i < self.spec_num_items() && box_intersects(
                    #[trigger] self.spec_boxes()[i],
                    (min_x, min_y, max_x, max_y),
                ) ==> r@.contains(self.spec_ids()[i]),
    {
        let q = (min_x, min_y, max_x, max_y);
        let ghost gboxes = self.spec_boxes();
        let ghost gids = self.spec_ids();
        let ghost glevels = self.spec_levels();
        let ghost nsi = self.spec_node_size() as int;
        let mut result: Vec<u32> = Vec::new();
        let n = self.ids.len();
        if n == 0 {
            return result;
        }
        let ns = self.node_size as usize;
        let top_level = self.levels.len() - 1;
        proof {
            if glevels.len() > 1 {
                assert(glevels[glevels.len() - 2].1 > 1);
                assert(glevels[glevels.len() - 2].1 <= glevels[glevels.len() - 1].1 * nsi);
                if glevels.last().1 == 0 {
                    assert(glevels[glevels.len() - 1].1 * nsi == 0) by (nonlinear_arith)
                        requires
                            glevels[glevels.len() - 1].1 == 0,
                    ;
                }
            }
            assert(glevels.last().1 == 1);
        }
        let mut stack: Vec<(usize, usize)> = Vec::new();
        stack.push((top_level, 0));
        proof {
            assert(stack@[0] == ((top_level, 0usize)));
            assert forall|i: int| 0 <= i < n implies rt_covered(stack@, nsi, i) by {
                self.lemma_anc_bounded(top_level as int, i);
                assert(anc(nsi, stack@[0].0 as int, i) == stack@[0].1);
            }
        }
        while stack.len() != 0
            invariant
                self.wf(),
                gboxes == self.spec_boxes(),
                gids == self.spec_ids(),
                glevels == self.spec_levels(),
                nsi == self.spec_node_size() as int,
                ns == self.spec_node_size() as usize,
                n == gids.len(),
                n == glevels[0].1,
                rt_stack_wf(stack@, glevels),
                reported_from_intersecting(result@, gboxes, gids, q),
                forall|i: int|
                    0 <= i < n && box_intersects(#[trigger] gboxes[i], q) ==> result@.contains(
                        gids[i],
                    ) || rt_covered(stack@, nsi, i),
            decreases rt_weight(stack@, nsi),
        {
            let ghost st_popped = stack@;
            proof {
                lemma_rt_weight_nonneg(st_popped.drop_last(), nsi);
                lemma_rt_cap_pos(nsi, st_popped.last().0 as int);
            }
            let top = stack.pop().unwrap();
            let level = top.0;
            let pos = top.1;
            let ghost st0 = stack@;
            proof {
                assert(st0 =~= st_popped.drop_last());
                assert(top == st_popped[st_popped.len() - 1]);
                assert(rt_weight(st_popped, nsi) == rt_weight(st0, nsi) + rt_cap(
                    nsi,
                    level as int,
                ));
                lemma_levels_within(glevels, gboxes.len() as int, level as int, nsi);
                assert forall|i: int|
                    0 <= i < n && box_intersects(#[trigger] gboxes[i], q) implies result@.contains(
                    gids[i],
                ) || rt_covered(st0, nsi, i) || anc(nsi, level as int, i) == pos as int by {
                    if !result@.contains(gids[i]) {
                        assert(rt_covered(st_popped, nsi, i));
                        let k = choose|k: int|
                            0 <= k < st_popped.len() && anc(
                                nsi,
                                (#[trigger] st_popped[k]).0 as int,
                                i,
                            ) == st_popped[k].1;
                        if k < st_popped.len() - 1 {
                            assert(st0[k] == st_popped[k]);
                            assert(rt_covered(st0, nsi, i));
                        }
                    }
                }
            }
            if level == 0 {
                let b = self.boxes[pos];
                let hit = intersects_exec(b, q);
                if hit {
                    let ghost old_res = result@;
                    let id = self.ids[pos];
                    result.push(id);
                    proof {
                        lemma_report_rt(old_res, result@, gboxes, gids, pos as int, q);
                    }
                }
                proof {
                    assert forall|i: int|
                        0 <= i < n && box_intersects(#[trigger] gboxes[i], q) implies result@
                        .contains(gids[i]) || rt_covered(stack@, nsi, i) by {
                        if anc(nsi, 0, i) == pos as int {
                            assert(i == pos as int);
                            assert(result@.contains(gids[i]));
                        }
                    }
                }
            } else {
                let cl = self.levels[level - 1];
                let cstart = cl.0;
                let ccount = cl.1;
                proof {
                    assert(run_lo(glevels[level - 1].0 as int, nsi, pos as int) < glevels[level
                        - 1].0 + glevels[level - 1].1);
                    lemma_levels_within(glevels, gboxes.len() as int, level as int - 1, nsi);
                    lemma_rt_cap_pos(nsi, level as int - 1);
                }
                let base = pos * ns;
                let ghost w0 = rt_weight(stack@, nsi);
                let mut t: usize = 0;
                while t < ns && t < ccount - base
                    invariant
                        self.wf(),
                        gboxes == self.spec_boxes(),
                        gids == self.spec_ids(),
                        glevels == self.spec_levels(),
                        nsi == self.spec_node_size() as int,
                        ns == self.spec_node_size() as usize,
                        n == gids.len(),
                        n == glevels[0].1,
                        1 <= level < glevels.len(),
                        cstart == glevels[level - 1].0,
                        ccount == glevels[level - 1].1,
                        cstart + ccount <= gboxes.len(),
                        base == pos * ns,
                        base < ccount,
                        t <= ns,
                        rt_cap(nsi, level as int - 1) >= 1,
                        rt_stack_wf(stack@, glevels),
                        reported_from_intersecting(result@, gboxes, gids, q),
                        forall|i: int|
                            0 <= i < n && box_intersects(#[trigger] gboxes[i], q) ==> result@
                                .contains(gids[i]) || rt_covered(stack@, nsi, i) || anc(
                                nsi,
                                level as int,
                                i,
                            ) == pos as int,
                        forall|c: int|
                            base <= c < base + t && box_intersects(
                                #[trigger] gboxes[cstart + c],
                                q,
                            ) ==> stack@.contains((((level - 1) as usize, c as usize))),
                        rt_weight(stack@, nsi) <= w0 + t * rt_cap(nsi, level as int - 1),
                    decreases ns - t,
                {
                    let child = base + t;
                    let cb = self.boxes[cstart + child];
                    if intersects_exec(cb, q) {
                        let ghost st_before = stack@;
                        stack.push((level - 1, child));
                        proof {
                            lemma_rt_weight_push(st_before, (((level - 1) as usize, child)), nsi);
                            assert forall|k2: int| 0 <= k2 < stack@.len() implies (
                            #[trigger] stack@[k2]).0 < glevels.len() && stack@[k2].1
                                < glevels[stack@[k2].0 as int].1 by {
                                if k2 < st_before.len() {
                                    assert(stack@[k2] == st_before[k2]);
                                }
                            }
                            assert forall|i: int|
                                0 <= i < n && box_intersects(
                                    #[trigger] gboxes[i],
                                    q,
                                ) && !result@.contains(gids[i]) && rt_covered(
                                st_before,
                                nsi,
                                i,
                            ) implies rt_covered(stack@, nsi, i) by {
                                let k = choose|k: int|
                                    0 <= k < st_before.len() && anc(
                                        nsi,
                                        (#[trigger] st_before[k]).0 as int,
                                        i,
                                    ) == st_before[k].1;
                                assert(stack@[k] == st_before[k]);
                            }
                            assert forall|c: int|
                                base <= c < base + t + 1 && box_intersects(
                                    #[trigger] gboxes[cstart + c],
                                    q,
                                ) implies stack@.contains(
                                (((level - 1) as usize, c as usize)),
                            ) by {
                                if c < base + t {
                                    lemma_seq_contains_push(
                                        st_before,
                                        (((level - 1) as usize, child)),
                                        (((level - 1) as usize, c as usize)),
                                    );
                                } else {
                                    assert(stack@[st_before.len() as int] == (((level - 1) as usize,
                                    child)));
                                }
                            }
                        }
                    } else {
                        proof {
                            assert forall|c: int|
                                base <= c < base + t + 1 && box_intersects(
                                    #[trigger] gboxes[cstart + c],
                                    q,
                                ) implies stack@.contains(
                                (((level - 1) as usize, c as usize)),
                            ) by {}
                        }
                    }
                    proof {
                        assert((t + 1) * rt_cap(nsi, level as int - 1) == t * rt_cap(
                            nsi,
                            level as int - 1,
                        ) + rt_cap(nsi, level as int - 1)) by (nonlinear_arith);
                    }
                    t += 1;
                }
                proof {
                    assert(t * rt_cap(nsi, level as int - 1) <= ns * rt_cap(
                        nsi,
                        level as int - 1,
                    )) by (nonlinear_arith)
                        requires
                            t <= ns && rt_cap(nsi, level as int - 1) >= 1,
                    ;
                    assert(rt_cap(nsi, level as int) == 1 + nsi * rt_cap(nsi, level as int - 1));
                    assert(rt_weight(stack@, nsi) < rt_weight(st_popped, nsi));
                    // Every leaf of the popped subtree that intersects is
                    // now under some pushed child: its next ancestor's box
                    // contains its own, so that child's box intersects too.
                    assert forall|i: int|
                        0 <= i < n && box_intersects(#[trigger] gboxes[i], q) implies result@
                        .contains(gids[i]) || rt_covered(stack@, nsi, i) by {
                        if !result@.contains(gids[i]) && !rt_covered(stack@, nsi, i) {
                            assert(anc(nsi, level as int, i) == pos as int);
                            let a = anc(nsi, level as int - 1, i);
                            self.lemma_ancestor_contains(level as int - 1, i);
                            lemma_fundamental_div_mod(a, nsi);
                            lemma_mod_bound(a, nsi);
                            assert((pos as int) * nsi <= a < (pos as int) * nsi + nsi)
                                by (nonlinear_arith)
                                requires
                                    nsi >= 2 && pos as int == a / nsi && a == nsi * (a / nsi) + a
                                        % nsi && 0 <= a % nsi < nsi,
                            ;
                            assert(box_intersects(gboxes[cstart + a], q));
                            assert(base <= a < base + t);
                            assert(stack@.contains((((level - 1) as usize, a as usize))));
                            let k = choose|k: int|
                                0 <= k < stack@.len() && stack@[k] == (((level - 1) as usize,
                                a as usize));
                            assert(anc(nsi, (stack@[k]).0 as int, i) == stack@[k].1);
                            assert(rt_covered(stack@, nsi, i));
                            assert(false);
                        }
                    }
                }
            }
            proof {
                lemma_rt_weight_nonneg(stack@, nsi);
            }
        }
        result
    }
}

/// The bounding invariant in containment form: an internal node's stored
/// box contains the stored box of each of its children, so anything that
/// intersects a child's box intersects the parent's.
pub proof fn lemma_parent_contains_child(t: OwnedRTree, l: int, k: int, c: int)
    requires
        t.wf(),
        0 <= l < t.spec_levels().len() - 1,
        0 <= k < t.spec_levels()[l + 1].1,
        run_lo(t.spec_levels()[l].0 as int, t.spec_node_size() as int, k) <= c <= run_hi(
            t.spec_levels()[l].0 as int,
            t.spec_levels()[l].1 as int,
            t.spec_node_size() as int,
            k,
        ),
    ensures
        box_contains(
            t.spec_boxes()[t.spec_levels()[l + 1].0 + k],
            t.spec_boxes()[c],
        ),
{
    lemma_union_contains(
        t.spec_boxes(),
        run_lo(t.spec_levels()[l].0 as int, t.spec_node_size() as int, k),
        run_hi(
            t.spec_levels()[l].0 as int,
            t.spec_levels()[l].1 as int,
            t.spec_node_size() as int,
            k,
        ),
        c,
    );
}

/// The position, inside level `l`, of the ancestor of leaf `i` there: each
/// level up divides the position by the node size.
pub open spec fn anc(nsi: int, l: int, i: int) -> int
    decreases l,
{
    if l <= 0 {
        i
    } else {
        anc(nsi, l - 1, i) / nsi
    }
}

proof fn lemma_seq_contains_push<A>(s: Seq<A>, x: A, y: A)
    requires
        s.contains(y),
    ensures
        s.push(x).contains(y),
{
    let i = choose|i: int| 0 <= i < s.len() && s[i] == y;
    assert(s.push(x)[i] == y);
}

impl OwnedRTree {
    /// Every leaf has an ancestor inside each level.
    proof fn lemma_anc_bounded(self, l: int, i: int)
        requires
            self.wf(),
            0 <= i < self.spec_levels()[0].1,
            0 <= l < self.spec_levels().len(),
        ensures
            0 <= anc(self.spec_node_size() as int, l, i) < self.spec_levels()[l].1,
        decreases l,
    {
        let nsi = self.spec_node_size() as int;
        if l > 0 {
            self.lemma_anc_bounded(l - 1, i);
            let a = anc(nsi, l - 1, i);
            assert(self.spec_levels()[l - 1].1 <= self.spec_levels()[l].1 * nsi);
            lemma_div_pos_is_pos(a, nsi);
            if a / nsi >= self.spec_levels()[l].1 {
                lemma_fundamental_div_mod(a, nsi);
                lemma_mod_bound(a, nsi);
                assert(nsi * (a / nsi) >= nsi * (self.spec_levels()[l].1 as int))
                    by (nonlinear_arith)
                    requires
                        nsi >= 2 && a / nsi >= self.spec_levels()[l].1 as int,
                ;
                assert(nsi * (self.spec_levels()[l].1 as int) == (self.spec_levels()[l].1 as int)
                    * nsi) by (nonlinear_arith);
                assert(false);
            }
        }
    }

    /// The stored box of a leaf's ancestor at any level contains the leaf's
    /// stored box: the bounding invariant, chained up the hierarchy.
    pub proof fn lemma_ancestor_contains(self, l: int, i: int)
        requires
            self.wf(),
            0 <= i < self.spec_levels()[0].1,
            0 <= l < self.spec_levels().len(),
        ensures
            0 <= anc(self.spec_node_size() as int, l, i) < self.spec_levels()[l].1,
            box_contains(
                self.spec_boxes()[self.spec_levels()[l].0 + anc(
                    self.spec_node_size() as int,
                    l,
                    i,
                )],
                self.spec_boxes()[i],
            ),
        decreases l,
    {
        let nsi = self.spec_node_size() as int;
        self.lemma_anc_bounded(l, i);
        if l == 0 {
            assert(self.spec_levels()[0].0 == 0);
        } else {
            self.lemma_ancestor_contains(l - 1, i);
            let a = anc(nsi, l - 1, i);
            let p = anc(nsi, l, i);
            lemma_fundamental_div_mod(a, nsi);
            lemma_mod_bound(a, nsi);
            assert(p * nsi <= a < p * nsi + nsi) by (nonlinear_arith)
                requires
                    nsi >= 2 && p == a / nsi && a == nsi * p + a % nsi && 0 <= a % nsi < nsi,
            ;
            assert((p + 1) * nsi == p * nsi + nsi) by (nonlinear_arith);
            lemma_parent_contains_child(self, l - 1, p, self.spec_levels()[l - 1].0 + a);
        }
    }
}

/// The intersection query agrees with a brute-force linear scan of the
/// boxes as they were added: original index `k` is reported exactly when
/// the `k`-th added box intersects the query box.
pub proof fn lemma_search_matches_brute_force(
    orig: Seq<BBox>,
    boxes: Seq<BBox>,
    ids: Seq<u32>,
    res: Seq<u32>,
    q: BBox,
    k: int,
)
    requires
        ids.len() == orig.len(),
        orig.len() <= boxes.len(),
        orig.len() <= 0xFFFF_FFFF,
        Seq::new(orig.len(), |i: int| (boxes[i], ids[i])).to_multiset() == Seq::new(
            orig.len(),
            |i: int| (orig[i], i as u32),
        ).to_multiset(),
        reported_from_intersecting(res, boxes, ids, q),
        forall|i: int|
            0 <= i < ids.len() && box_intersects(#[trigger] boxes[i], q) ==> res.contains(ids[i]),
        0 <= k < orig.len(),
    ensures
        res.contains(k as u32) <==> box_intersects(orig[k], q),
{
    let n = orig.len() as int;
    let pairs_packed = Seq::new(orig.len(), |i: int| (boxes[i], ids[i]));
    let pairs_orig = Seq::new(orig.len(), |i: int| (orig[i], i as u32));
    assert(pairs_packed.subrange(0, n) =~= pairs_packed);
    assert(pairs_orig.subrange(0, n) =~= pairs_orig);
    if box_intersects(orig[k], q) {
        let j = crate::kdtree::lemma_range_value_from(pairs_packed, pairs_orig, 0, n - 1, k);
        assert(pairs_orig[k] == pairs_packed[j]);
        assert(boxes[j] == orig[k] && ids[j] == k as u32);
        assert(res.contains(ids[j]));
    }
    if res.contains(k as u32) {
        let j = choose|j: int| 0 <= j < res.len() && res[j] == k as u32;
        assert(res[j] == k as u32);
        let i = choose|i: int|
            0 <= i < ids.len() && box_intersects(boxes[i], q) && res[j] == ids[i];
        let j2 = crate::kdtree::lemma_range_value_from(pairs_orig, pairs_packed, 0, n - 1, i);
        assert(pairs_packed[i] == pairs_orig[j2]);
        assert(ids[i] == j2 as u32);
        assert(j2 == k);
        assert(orig[k] == boxes[i]);
    }
}

/// A candidate while nearest leaves are being selected: its squared
/// distance to the query point and its stored original index.
pub type Candidate = (u128, u32);

/// Distance from a query coordinate to a span along one axis: zero inside
/// the span.
pub open spec fn axis_gap(lo: i32, hi: i32, q: i32) -> int {
    if q < lo {
        lo - q
    } else if q > hi {
        q - hi
    } else {
        0
    }
}

/// Squared distance from a query point to the nearest point of a box.
pub open spec fn box_point_dist_sq(b: BBox, qx: i32, qy: i32) -> int {
    axis_gap(b.0, b.2, qx) * axis_gap(b.0, b.2, qx) + axis_gap(b.1, b.3, qy) * axis_gap(
        b.1,
        b.3,
        qy,
    )
}

/// Compute one axis gap; it is never negative and fits 64 bits.
fn axis_gap_exec(lo: i32, hi: i32, q: i32) -> (r: u64)
    ensures
        r as int == axis_gap(lo, hi, q),
{
    if q < lo {
        (lo as i64 - q as i64) as u64
    } else if q > hi {
        (q as i64 - hi as i64) as u64
    } else {
        0
    }
}

/// Compute the squared point-to-box distance; it always fits 128 bits.
fn box_point_dist_sq_exec(b: BBox, qx: i32, qy: i32) -> (r: u128)
    ensures
        r as int == box_point_dist_sq(b, qx, qy),
{
    let gx = axis_gap_exec(b.0, b.2, qx);
    let gy = axis_gap_exec(b.1, b.3, qy);
    proof {
        assert((gx as int) * (gx as int) < 0x10000000000000000) by (nonlinear_arith)
            requires
                gx <= 0xFFFFFFFFu64,
        ;
        assert((gy as int) * (gy as int) < 0x10000000000000000) by (nonlinear_arith)
            requires
                gy <= 0xFFFFFFFFu64,
        ;
    }
    (gx as u128) * (gx as u128) + (gy as u128) * (gy as u128)
}

/// Swap the candidates at two positions.
fn swap_candidates(v: &mut Vec<Candidate>, a: usize, b: usize)
    requires
        a < old(v)@.len(),
        b < old(v)@.len(),
    ensures
        final(v)@ == old(v)@.update(a as int, old(v)@[b as int]).update(
            b as int,
            old(v)@[a as int],
        ),
{
    let ea = v[a];
    let eb = v[b];
    v.set(a, eb);
    v.set(b, ea);
    proof {
        assert(final(v)@ =~= old(v)@.update(a as int, old(v)@[b as int]).update(
            b as int,
            old(v)@[a as int],
        ));
    }
}

/// Partition a range of candidates around its last entry's distance.
fn partition_candidates(v: &mut Vec<Candidate>, lo: usize, hi: usize) -> (p: usize)
    requires
        lo <= hi,
        hi < old(v)@.len(),
    ensures
        lo <= p <= hi,
        final(v)@.len() == old(v)@.len(),
        forall|t: int| 0 <= t < old(v)@.len() && !(lo <= t <= hi) ==> final(v)@[t] == old(v)@[t],
        final(v)@.subrange(lo as int, hi as int + 1).to_multiset() == old(v)@.subrange(
            lo as int,
            hi as int + 1,
        ).to_multiset(),
        forall|t: int|
            lo <= t <= p ==> (#[trigger] final(v)@[t]).0 <= final(v)@[p as int].0,
        forall|t: int|
            p <= t <= hi ==> final(v)@[p as int].0 <= (#[trigger] final(v)@[t]).0,
{
    let pivot = v[hi].0;
    let mut i = lo;
    let mut j = lo;
    while j < hi
        invariant
            lo <= i <= j <= hi < v@.len(),
            v@.len() == old(v)@.len(),
            pivot == v@[hi as int].0,
            forall|t: int| 0 <= t < old(v)@.len() && !(lo <= t <= hi) ==> v@[t] == old(v)@[t],
            v@.subrange(lo as int, hi as int + 1).to_multiset() == old(v)@.subrange(
                lo as int,
                hi as int + 1,
            ).to_multiset(),
            forall|t: int| lo <= t < i ==> (#[trigger] v@[t]).0 < pivot,
            forall|t: int| i <= t < j ==> pivot <= (#[trigger] v@[t]).0,
        decreases hi - j,
    {
        if v[j].0 < pivot {
            let ghost pre = v@;
            swap_candidates(v, i, j);
            proof {
                lemma_swap_subrange_multiset(pre, i as int, j as int, lo as int, hi as int);
            }
            i += 1;
        }
        j += 1;
    }
    let ghost pre = v@;
    swap_candidates(v, i, hi);
    proof {
        lemma_swap_subrange_multiset(pre, i as int, hi as int, lo as int, hi as int);
    }
    i
}

/// Move the rank-`k` candidate by distance into position `k`, with
/// nearer-or-equal candidates below it and farther-or-equal ones above it.
/// The range is rearranged only.
fn select_candidates(v: &mut Vec<Candidate>, k: usize, lo: usize, hi: usize)
    requires
        lo <= k <= hi,
        hi < old(v)@.len(),
    ensures
        final(v)@.len() == old(v)@.len(),
        forall|t: int| 0 <= t < old(v)@.len() && !(lo <= t <= hi) ==> final(v)@[t] == old(v)@[t],
        final(v)@.subrange(lo as int, hi as int + 1).to_multiset() == old(v)@.subrange(
            lo as int,
            hi as int + 1,
        ).to_multiset(),
        forall|t: int|
            lo <= t <= k ==> (#[trigger] final(v)@[t]).0 <= final(v)@[k as int].0,
        forall|t: int|
            k <= t <= hi ==> final(v)@[k as int].0 <= (#[trigger] final(v)@[t]).0,
    decreases hi - lo,
{
    if lo >= hi {
        return ;
    }
    let ghost s0 = v@;
    let p = partition_candidates(v, lo, hi);
    let ghost s1 = v@;
    if k < p {
        select_candidates(v, k, lo, p - 1);
        proof {
            let s2 = v@;
            assert(s2[p as int] == s1[p as int]);
            assert forall|t: int| k <= t <= hi implies s2[k as int].0
                <= (#[trigger] s2[t]).0 by {
                if t > p as int - 1 {
                    let j = lemma_range_value_from(s1, s2, lo as int, p as int - 1, k as int);
                    assert(s1[j].0 <= s1[p as int].0);
                    assert(s2[t] == s1[t]);
                    assert(s1[p as int].0 <= s1[t].0);
                }
            }
            lemma_subrange_multiset_transitive(s0, s1, s2, lo as int, hi as int, p as int);
        }
    } else if k > p {
        select_candidates(v, k, p + 1, hi);
        proof {
            let s2 = v@;
            assert(s2[p as int] == s1[p as int]);
            assert forall|t: int| lo <= t <= k implies (#[trigger] s2[t]).0
                <= s2[k as int].0 by {
                if t < p as int + 1 {
                    assert(s2[t] == s1[t]);
                    assert(s1[t].0 <= s1[p as int].0);
                    let j = lemma_range_value_from(s1, s2, p as int + 1, hi as int, k as int);
                    assert(s1[p as int].0 <= s1[j].0);
                }
            }
            lemma_subrange_multiset_transitive_hi(s0, s1, s2, lo as int, hi as int, p as int);
        }
    }
}

} // verus!
