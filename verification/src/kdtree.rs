//! The KD-tree engine.
//!
//! A builder collects points, partitions them into a cache-friendly packed
//! order, and writes the single contiguous buffer described in
//! [`crate::layout`].  An owned tree holds that buffer; a reference tree
//! borrows and validates a buffer built elsewhere.  Both expose the same
//! read-only queries.
//!
//! The packed content is modelled as a sequence of entries `(x, y, id)`:
//! the coordinates stored at a packed position together with the original
//! insertion index stored for it in the position-index array.

use vstd::prelude::*;
use crate::codec::{
    encode_i32,
    decode_i32,
    i32_of_u32,
    read_u16_le,
    read_u32_le,
    u16_le_spec,
    u32_le_spec,
    write_u16_le,
    write_u32_le,
};
use crate::coord::CoordType;
use crate::error::GeoIndexError;
use crate::layout::{
    HEADER_SIZE,
    KDTreeMetadata,
    MAGIC,
    VERSION,
    spec_coords_byte_start,
    spec_data_buffer_length,
    spec_indices_byte_size,
    spec_pad_byte_size,
    spec_valid_buffer,
    spec_valid_header,
    spec_validate,
};

verus! {

/// One packed item: its two coordinates and its original insertion index.
pub type Entry = (i32, i32, u32);

/// The original index stored in the position-index array at packed position
/// `i`.
pub open spec fn spec_index_at(data: Seq<u8>, num_items: u32, i: int) -> u32 {
    if (num_items as nat) < 65536 {
        u16_le_spec(data[HEADER_SIZE + 2 * i], data[HEADER_SIZE + 2 * i + 1]) as u32
    } else {
        u32_le_spec(
            data[HEADER_SIZE + 4 * i],
            data[HEADER_SIZE + 4 * i + 1],
            data[HEADER_SIZE + 4 * i + 2],
            data[HEADER_SIZE + 4 * i + 3],
        )
    }
}

/// The `j`-th coordinate element of the coordinate array (elements are
/// interleaved `x0, y0, x1, y1, ...`).
pub open spec fn spec_coord_at(data: Seq<u8>, num_items: u32, j: int) -> i32 {
    let s = spec_coords_byte_start(num_items as nat) + 4 * j;
    i32_of_u32(u32_le_spec(data[s], data[s + 1], data[s + 2], data[s + 3]))
}

/// The packed content of a buffer, entry by entry.
pub open spec fn spec_buffer_entries(data: Seq<u8>, num_items: u32) -> Seq<Entry> {
    Seq::new(
        num_items as nat,
        |i: int|
            (
                spec_coord_at(data, num_items, 2 * i),
                spec_coord_at(data, num_items, 2 * i + 1),
                spec_index_at(data, num_items, i),
            ),
    )
}

/// The coordinate of an entry on the splitting axis: x on axis 0, y on
/// axis 1.
pub open spec fn axis_coord(e: Entry, axis: int) -> i32 {
    if axis == 0 {
        e.0
    } else {
        e.1
    }
}

/// Appending bytes to a buffer never changes what its existing header,
/// index, or coordinate positions decode to.
pub proof fn lemma_decode_prefix_stable(d1: Seq<u8>, d2: Seq<u8>, m: KDTreeMetadata)
    requires
        d1.len() <= d2.len(),
        forall|j: int| 0 <= j < d1.len() ==> d1[j] == d2[j],
    ensures
        d1.len() >= HEADER_SIZE && spec_valid_header(d1, m) ==> spec_valid_header(d2, m),
        forall|t: int|
            0 <= t && ((m.num_items as nat) < 65536 ==> HEADER_SIZE + 2 * (t + 1) <= d1.len()) && (
            (m.num_items as nat) >= 65536 ==> HEADER_SIZE + 4 * (t + 1) <= d1.len())
                ==> #[trigger] spec_index_at(d2, m.num_items, t) == spec_index_at(
                d1,
                m.num_items,
                t,
            ),
        forall|t: int|
            0 <= t && spec_coords_byte_start(m.num_items as nat) + 4 * (t + 1) <= d1.len()
                ==> #[trigger] spec_coord_at(d2, m.num_items, t) == spec_coord_at(
                d1,
                m.num_items,
                t,
            ),
{
    assert forall|t: int|
        0 <= t && ((m.num_items as nat) < 65536 ==> HEADER_SIZE + 2 * (t + 1) <= d1.len()) && ((
        m.num_items as nat) >= 65536 ==> HEADER_SIZE + 4 * (t + 1)
            <= d1.len()) implies #[trigger] spec_index_at(d2, m.num_items, t) == spec_index_at(
        d1,
        m.num_items,
        t,
    ) by {
        if (m.num_items as nat) < 65536 {
            assert(HEADER_SIZE + 2 * t + 1 < d1.len());
        } else {
            assert(HEADER_SIZE + 4 * t + 3 < d1.len());
        }
    }
    assert forall|t: int|
        0 <= t && spec_coords_byte_start(m.num_items as nat) + 4 * (t + 1)
            <= d1.len() implies #[trigger] spec_coord_at(d2, m.num_items, t) == spec_coord_at(
        d1,
        m.num_items,
        t,
    ) by {
        assert(spec_coords_byte_start(m.num_items as nat) + 4 * t + 3 < d1.len());
    }
}

/// The packed order the builder produces, stated over a whole range of
/// packed positions: below the middle of an oversized range every entry's
/// splitting-axis coordinate is at most the middle one's, above it at least,
/// and both halves are packed the same way with the axes swapped.  Ranges no
/// longer than the node size are traversal leaves and stay unordered.
pub open spec fn kd_sorted_range(
    s: Seq<Entry>,
    lo: int,
    hi: int,
    axis: int,
    node_size: int,
) -> bool
    decreases hi - lo,
{
    if node_size < 2 || hi - lo <= node_size {
        true
    } else {
        let m = lo + (hi - lo) / 2;
        &&& forall|k: int|
            lo <= k <= m ==> #[trigger] axis_coord(s[k], axis) <= axis_coord(s[m], axis)
        &&& forall|k: int|
            m <= k <= hi ==> axis_coord(s[m], axis) <= #[trigger] axis_coord(s[k], axis)
        &&& kd_sorted_range(s, lo, m - 1, 1 - axis, node_size)
        &&& kd_sorted_range(s, m + 1, hi, 1 - axis, node_size)
    }
}

/// A whole tree in packed order: its full position range is packed, starting
/// on the x axis.
pub open spec fn kd_sorted(s: Seq<Entry>, node_size: int) -> bool {
    kd_sorted_range(s, 0, s.len() - 1, 0, node_size)
}

/// Packedness of a range depends only on the entries inside the range.
proof fn lemma_kd_sorted_frame(
    s1: Seq<Entry>,
    s2: Seq<Entry>,
    lo: int,
    hi: int,
    axis: int,
    node_size: int,
)
    requires
        kd_sorted_range(s1, lo, hi, axis, node_size),
        forall|k: int| lo <= k <= hi ==> s2[k] == s1[k],
    ensures
        kd_sorted_range(s2, lo, hi, axis, node_size),
    decreases hi - lo,
{
    if !(node_size < 2 || hi - lo <= node_size) {
        let m = lo + (hi - lo) / 2;
        lemma_kd_sorted_frame(s1, s2, lo, m - 1, 1 - axis, node_size);
        lemma_kd_sorted_frame(s1, s2, m + 1, hi, 1 - axis, node_size);
    }
}

/// Swapping two elements of a sequence leaves its multiset unchanged.
pub(crate) proof fn lemma_swap_seq_multiset<A>(s: Seq<A>, a: int, b: int)
    requires
        0 <= a < s.len(),
        0 <= b < s.len(),
    ensures
        s.update(a, s[b]).update(b, s[a]).to_multiset() == s.to_multiset(),
{
    broadcast use vstd::seq_lib::group_to_multiset_ensures;
    broadcast use vstd::multiset::group_multiset_axioms;

    if a == b {
        assert(s.update(a, s[b]).update(b, s[a]) =~= s);
    } else {
        let s1 = s.update(a, s[b]);
        let s2 = s1.update(b, s[a]);
        vstd::seq_lib::to_multiset_update(s, a, s[b]);
        vstd::seq_lib::to_multiset_update(s1, b, s[a]);
        assert(s1[b] == s[b]);
        assert(s.contains(s[a]));
        assert(s.to_multiset().count(s[a]) > 0);
        assert(s.contains(s[b]));
        assert(s.to_multiset().count(s[b]) > 0);
        assert(s2.to_multiset() =~= s.to_multiset());
    }
}

/// Swapping two elements inside a range leaves the range's multiset
/// unchanged.
pub(crate) proof fn lemma_swap_subrange_multiset<A>(s: Seq<A>, a: int, b: int, lo: int, hi: int)
    requires
        0 <= lo <= a <= hi < s.len(),
        lo <= b <= hi,
    ensures
        s.update(a, s[b]).update(b, s[a]).subrange(lo, hi + 1).to_multiset() == s.subrange(
            lo,
            hi + 1,
        ).to_multiset(),
{
    let sub = s.subrange(lo, hi + 1);
    let s2 = s.update(a, s[b]).update(b, s[a]);
    assert(s2.subrange(lo, hi + 1) =~= sub.update(a - lo, sub[b - lo]).update(b - lo, sub[a - lo]));
    lemma_swap_seq_multiset(sub, a - lo, b - lo);
}

/// A value inside a range whose multiset is unchanged already stood
/// somewhere in that range before: this names where.
pub(crate) proof fn lemma_range_value_from<A>(s1: Seq<A>, s2: Seq<A>, lo: int, hi: int, i: int) -> (j:
    int)
    requires
        0 <= lo,
        hi < s1.len(),
        hi < s2.len(),
        s1.subrange(lo, hi + 1).to_multiset() == s2.subrange(lo, hi + 1).to_multiset(),
        lo <= i <= hi,
    ensures
        lo <= j <= hi,
        s2[i] == s1[j],
{
    broadcast use vstd::seq_lib::group_to_multiset_ensures;

    let sub2 = s2.subrange(lo, hi + 1);
    let sub1 = s1.subrange(lo, hi + 1);
    assert(sub2[i - lo] == s2[i]);
    assert(sub2.contains(s2[i]));
    assert(sub2.to_multiset().count(s2[i]) > 0);
    assert(sub1.contains(s2[i]));
    let k = choose|k: int| 0 <= k < sub1.len() && sub1[k] == s2[i];
    assert(sub1[k] == s1[lo + k]);
    lo + k
}

/// Swap the entries at two packed positions.
fn swap_entries(entries: &mut Vec<Entry>, a: usize, b: usize)
    requires
        a < old(entries)@.len(),
        b < old(entries)@.len(),
    ensures
        final(entries)@ == old(entries)@.update(a as int, old(entries)@[b as int]).update(
            b as int,
            old(entries)@[a as int],
        ),
{
    let ea = entries[a];
    let eb = entries[b];
    entries.set(a, eb);
    entries.set(b, ea);
    proof {
        assert(final(entries)@ =~= old(entries)@.update(a as int, old(entries)@[b as int]).update(
            b as int,
            old(entries)@[a as int],
        ));
    }
}

/// Partition a range around its last entry's splitting-axis coordinate.
///
/// Afterwards the returned position holds that entry; everything at or left
/// of it compares at most equal on the axis, everything at or right of it at
/// least equal.  The range is rearranged only: its multiset of entries and
/// everything outside it are unchanged.
fn partition(entries: &mut Vec<Entry>, lo: usize, hi: usize, axis: usize) -> (p: usize)
    requires
        axis <= 1,
        lo <= hi,
        hi < old(entries)@.len(),
    ensures
        lo <= p <= hi,
        final(entries)@.len() == old(entries)@.len(),
        forall|k: int|
            0 <= k < old(entries)@.len() && !(lo <= k <= hi) ==> final(entries)@[k] == old(
                entries,
            )@[k],
        final(entries)@.subrange(lo as int, hi as int + 1).to_multiset() == old(
            entries,
        )@.subrange(lo as int, hi as int + 1).to_multiset(),
        forall|k: int|
            lo <= k <= p ==> #[trigger] axis_coord(final(entries)@[k], axis as int) <= axis_coord(
                final(entries)@[p as int],
                axis as int,
            ),
        forall|k: int|
            p <= k <= hi ==> axis_coord(final(entries)@[p as int], axis as int)
                <= #[trigger] axis_coord(final(entries)@[k], axis as int),
{
    let e_hi = entries[hi];
    let pivot = if axis == 0 {
        e_hi.0
    } else {
        e_hi.1
    };
    let mut i = lo;
    let mut j = lo;
    while j < hi
        invariant
            axis <= 1,
            lo <= i <= j <= hi < entries@.len(),
            entries@.len() == old(entries)@.len(),
            pivot == axis_coord(entries@[hi as int], axis as int),
            forall|k: int|
                0 <= k < old(entries)@.len() && !(lo <= k <= hi) ==> entries@[k] == old(
                    entries,
                )@[k],
            entries@.subrange(lo as int, hi as int + 1).to_multiset() == old(entries)@.subrange(
                lo as int,
                hi as int + 1,
            ).to_multiset(),
            forall|k: int|
                lo <= k < i ==> #[trigger] axis_coord(entries@[k], axis as int) < pivot,
            forall|k: int|
                i <= k < j ==> pivot <= #[trigger] axis_coord(entries@[k], axis as int),
        decreases hi - j,
    {
        let e_j = entries[j];
        let c = if axis == 0 {
            e_j.0
        } else {
            e_j.1
        };
        if c < pivot {
            let ghost pre = entries@;
            swap_entries(entries, i, j);
            proof {
                lemma_swap_subrange_multiset(pre, i as int, j as int, lo as int, hi as int);
            }
            i += 1;
        }
        j += 1;
    }
    let ghost pre = entries@;
    swap_entries(entries, i, hi);
    proof {
        lemma_swap_subrange_multiset(pre, i as int, hi as int, lo as int, hi as int);
    }
    i
}

/// Move the rank-`k` entry of a range (by splitting-axis coordinate) into
/// position `k`, with smaller-or-equal coordinates below it and
/// larger-or-equal ones above it.  The range is rearranged only.
fn select(entries: &mut Vec<Entry>, k: usize, lo: usize, hi: usize, axis: usize)
    requires
        axis <= 1,
        lo <= k <= hi,
        hi < old(entries)@.len(),
    ensures
        final(entries)@.len() == old(entries)@.len(),
        forall|t: int|
            0 <= t < old(entries)@.len() && !(lo <= t <= hi) ==> final(entries)@[t] == old(
                entries,
            )@[t],
        final(entries)@.subrange(lo as int, hi as int + 1).to_multiset() == old(
            entries,
        )@.subrange(lo as int, hi as int + 1).to_multiset(),
        forall|t: int|
            lo <= t <= k ==> #[trigger] axis_coord(final(entries)@[t], axis as int) <= axis_coord(
                final(entries)@[k as int],
                axis as int,
            ),
        forall|t: int|
            k <= t <= hi ==> axis_coord(final(entries)@[k as int], axis as int)
                <= #[trigger] axis_coord(final(entries)@[t], axis as int),
    decreases hi - lo,
{
    if lo >= hi {
        return ;
    }
    let ghost s0 = entries@;
    let p = partition(entries, lo, hi, axis);
    let ghost s1 = entries@;
    if k < p {
        select(entries, k, lo, p - 1, axis);
        proof {
            let s2 = entries@;
            // Entries from p on are untouched by the recursive call.
            assert(s2[p as int] == s1[p as int]);
            assert forall|t: int| k <= t <= hi implies axis_coord(s2[k as int], axis as int)
                <= #[trigger] axis_coord(s2[t], axis as int) by {
                if t > p as int - 1 {
                    // k's entry came from the partitioned left part, so it
                    // is still bounded by the pivot at p.
                    let j = lemma_range_value_from(s1, s2, lo as int, p as int - 1, k as int);
                    assert(axis_coord(s1[j], axis as int) <= axis_coord(s1[p as int], axis as int));
                    assert(s2[t] == s1[t]);
                    assert(axis_coord(s1[p as int], axis as int) <= axis_coord(
                        s1[t],
                        axis as int,
                    ));
                }
            }
            // Multisets compose across the split at p.
            lemma_subrange_multiset_transitive(s0, s1, s2, lo as int, hi as int, p as int);
        }
    } else if k > p {
        select(entries, k, p + 1, hi, axis);
        proof {
            let s2 = entries@;
            assert(s2[p as int] == s1[p as int]);
            assert forall|t: int| lo <= t <= k implies #[trigger] axis_coord(
                s2[t],
                axis as int,
            ) <= axis_coord(s2[k as int], axis as int) by {
                if t < p as int + 1 {
                    assert(s2[t] == s1[t]);
                    assert(axis_coord(s1[t], axis as int) <= axis_coord(s1[p as int], axis as int));
                    let j = lemma_range_value_from(s1, s2, p as int + 1, hi as int, k as int);
                    assert(axis_coord(s1[p as int], axis as int) <= axis_coord(
                        s1[j],
                        axis as int,
                    ));
                }
            }
            lemma_subrange_multiset_transitive_hi(s0, s1, s2, lo as int, hi as int, p as int);
        }
    }
}

/// A range's multiset is unchanged when first the whole range is rearranged
/// and then only its part left of `p`.
pub(crate) proof fn lemma_subrange_multiset_transitive<A>(
    s0: Seq<A>,
    s1: Seq<A>,
    s2: Seq<A>,
    lo: int,
    hi: int,
    p: int,
)
    requires
        0 <= lo <= p <= hi < s0.len(),
        s0.len() == s1.len() == s2.len(),
        s1.subrange(lo, hi + 1).to_multiset() == s0.subrange(lo, hi + 1).to_multiset(),
        p > lo,
        s2.subrange(lo, p).to_multiset() == s1.subrange(lo, p).to_multiset(),
        forall|t: int| p <= t <= hi ==> s2[t] == s1[t],
    ensures
        s2.subrange(lo, hi + 1).to_multiset() == s0.subrange(lo, hi + 1).to_multiset(),
{
    broadcast use vstd::seq_lib::group_to_multiset_ensures;

    assert(s1.subrange(lo, hi + 1) =~= s1.subrange(lo, p) + s1.subrange(p, hi + 1));
    assert(s2.subrange(lo, hi + 1) =~= s2.subrange(lo, p) + s2.subrange(p, hi + 1));
    assert(s2.subrange(p, hi + 1) =~= s1.subrange(p, hi + 1));
    vstd::seq_lib::lemma_multiset_commutative(s1.subrange(lo, p), s1.subrange(p, hi + 1));
    vstd::seq_lib::lemma_multiset_commutative(s2.subrange(lo, p), s2.subrange(p, hi + 1));
    assert(s2.subrange(lo, hi + 1).to_multiset() =~= s1.subrange(lo, hi + 1).to_multiset());
}

/// A range's multiset is unchanged when first the whole range is rearranged
/// and then only its part right of `p`.
pub(crate) proof fn lemma_subrange_multiset_transitive_hi<A>(
    s0: Seq<A>,
    s1: Seq<A>,
    s2: Seq<A>,
    lo: int,
    hi: int,
    p: int,
)
    requires
        0 <= lo <= p <= hi < s0.len(),
        s0.len() == s1.len() == s2.len(),
        s1.subrange(lo, hi + 1).to_multiset() == s0.subrange(lo, hi + 1).to_multiset(),
        p < hi,
        s2.subrange(p + 1, hi + 1).to_multiset() == s1.subrange(p + 1, hi + 1).to_multiset(),
        forall|t: int| lo <= t <= p ==> s2[t] == s1[t],
    ensures
        s2.subrange(lo, hi + 1).to_multiset() == s0.subrange(lo, hi + 1).to_multiset(),
{
    broadcast use vstd::seq_lib::group_to_multiset_ensures;

    assert(s1.subrange(lo, hi + 1) =~= s1.subrange(lo, p + 1) + s1.subrange(p + 1, hi + 1));
    assert(s2.subrange(lo, hi + 1) =~= s2.subrange(lo, p + 1) + s2.subrange(p + 1, hi + 1));
    assert(s2.subrange(lo, p + 1) =~= s1.subrange(lo, p + 1));
    vstd::seq_lib::lemma_multiset_commutative(s1.subrange(lo, p + 1), s1.subrange(p + 1, hi + 1));
    vstd::seq_lib::lemma_multiset_commutative(s2.subrange(lo, p + 1), s2.subrange(p + 1, hi + 1));
    assert(s2.subrange(lo, hi + 1).to_multiset() =~= s1.subrange(lo, hi + 1).to_multiset());
}

/// Pack a range of entries: median-partition it around its middle position
/// on the range's splitting axis, then pack both halves on the other axis,
/// until ranges reach the node size.  The range is rearranged only.
fn kd_sort_range(entries: &mut Vec<Entry>, lo: usize, hi: usize, axis: usize, node_size: u16)
    requires
        axis <= 1,
        2 <= node_size,
        lo <= hi,
        hi < old(entries)@.len(),
    ensures
        final(entries)@.len() == old(entries)@.len(),
        forall|t: int|
            0 <= t < old(entries)@.len() && !(lo <= t <= hi) ==> final(entries)@[t] == old(
                entries,
            )@[t],
        final(entries)@.subrange(lo as int, hi as int + 1).to_multiset() == old(
            entries,
        )@.subrange(lo as int, hi as int + 1).to_multiset(),
        kd_sorted_range(final(entries)@, lo as int, hi as int, axis as int, node_size as int),
    decreases hi - lo,
{
    if hi - lo <= node_size as usize {
        return ;
    }
    let ghost s0 = entries@;
    let m = lo + (hi - lo) / 2;
    select(entries, m, lo, hi, axis);
    let ghost s1 = entries@;
    kd_sort_range(entries, lo, m - 1, 1 - axis, node_size);
    let ghost s2 = entries@;
    proof {
        lemma_subrange_multiset_transitive(s0, s1, s2, lo as int, hi as int, m as int);
    }
    kd_sort_range(entries, m + 1, hi, 1 - axis, node_size);
    let ghost s3 = entries@;
    proof {
        lemma_subrange_multiset_transitive_hi(s0, s2, s3, lo as int, hi as int, m as int);
        let mi = m as int;
        let ax = axis as int;
        assert(s3[mi] == s1[mi]);
        // Bounds against the middle survive both recursive rearrangements.
        assert forall|k: int| lo <= k <= mi implies #[trigger] axis_coord(s3[k], ax)
            <= axis_coord(s3[mi], ax) by {
            if k < mi {
                assert(s3[k] == s2[k]);
                let j = lemma_range_value_from(s1, s2, lo as int, mi - 1, k);
                assert(axis_coord(s1[j], ax) <= axis_coord(s1[mi], ax));
            }
        }
        assert forall|k: int| mi <= k <= hi implies axis_coord(s3[mi], ax)
            <= #[trigger] axis_coord(s3[k], ax) by {
            if k > mi {
                let j = lemma_range_value_from(s2, s3, mi + 1, hi as int, k);
                assert(s2[j] == s1[j]);
                assert(axis_coord(s1[mi], ax) <= axis_coord(s1[j], ax));
            }
        }
        // The halves stay packed: the left one was untouched by the right
        // recursion.
        lemma_kd_sorted_frame(s2, s3, lo as int, mi - 1, 1 - ax, node_size as int);
    }
}

/// Collects points and bulk-builds an owned KD-tree.
///
/// Construction is write-once: points are added in their original order and
/// packed when [`KDTreeBuilder::finish`] runs.
pub struct KDTreeBuilder {
    entries: Vec<Entry>,
    node_size: u16,
}

impl KDTreeBuilder {
    /// The configured partition granularity.
    pub closed spec fn spec_node_size(self) -> u16 {
        self.node_size
    }

    /// The points added so far, each paired with its insertion index.
    pub closed spec fn spec_entries(self) -> Seq<Entry> {
        self.entries@
    }

    /// Each collected entry carries its own insertion index, and the node
    /// size lies in its valid range.
    pub open spec fn wf(self) -> bool {
        &&& 2 <= self.spec_node_size()
        &&& forall|i: int|
            0 <= i < self.spec_entries().len() ==> (#[trigger] self.spec_entries()[i]).2 as int
                == i
    }

    /// Start a builder.
    ///
    /// A node size below 2 is a caller defect; a `u16` bounds it at 65535
    /// from above.
    pub fn new(node_size: u16) -> (r: Self)
        requires
            2 <= node_size,
        ensures
            r.wf(),
            r.spec_entries().len() == 0,
            r.spec_node_size() == node_size,
    {
        KDTreeBuilder { entries: Vec::new(), node_size }
    }

    /// Add one point; it receives the next insertion index.
    pub fn add(&mut self, x: i32, y: i32)
        requires
            old(self).wf(),
            old(self).spec_entries().len() < 0xFFFF_FFFF,
        ensures
            final(self).wf(),
            final(self).spec_node_size() == old(self).spec_node_size(),
            final(self).spec_entries() == old(self).spec_entries().push(
                (x, y, old(self).spec_entries().len() as u32),
            ),
    {
        let id = self.entries.len() as u32;
        self.entries.push((x, y, id));
    }

    /// Pack the collected points and write the buffer.
    ///
    /// The result holds exactly the collected entries, rearranged: the
    /// multiset of `(x, y, id)` triples is unchanged.
    pub fn finish(self) -> (r: OwnedKDTree)
        requires
            self.wf(),
            self.spec_entries().len() <= 0xFFFF_FFFF,
            spec_data_buffer_length(self.spec_entries().len(), CoordType::Int32) <= usize::MAX,
        ensures
            r.wf(),
            r.spec_metadata().num_items as nat == self.spec_entries().len(),
            r.spec_metadata().node_size == self.spec_node_size(),
            r.spec_metadata().coord_type == CoordType::Int32,
            r.spec_entries().to_multiset() == self.spec_entries().to_multiset(),
            kd_sorted(r.spec_entries(), self.spec_node_size() as int),
            ids_of(r.spec_entries()).no_duplicates(),
    {
        let ghost orig = self.entries@;
        let mut entries = self.entries;
        let node_size = self.node_size;
        let num_items = entries.len() as u32;
        let metadata = KDTreeMetadata::new(num_items, node_size, CoordType::Int32);
        if entries.len() >= 1 {
            let hi = entries.len() - 1;
            kd_sort_range(&mut entries, 0, hi, 0, node_size);
            proof {
                assert(entries@.subrange(0, orig.len() as int) =~= entries@);
                assert(orig.subrange(0, orig.len() as int) =~= orig);
                assert forall|i: int| 0 <= i < entries@.len() implies (#[trigger] entries@[i]).2
                    < num_items by {
                    let j = lemma_range_value_from(orig, entries@, 0, orig.len() - 1, i);
                }
            }
        } else {
            proof {
                assert(entries@ =~= orig);
                assert(entries@.to_multiset() =~= orig.to_multiset());
            }
        }
        let buffer = serialize(&entries, metadata);
        let r = OwnedKDTree { buffer, metadata };
        proof {
            lemma_index_permutation(orig, r.spec_entries());
            assert forall|i: int, j: int|
                0 <= i < ids_of(r.spec_entries()).len() && 0 <= j < ids_of(
                    r.spec_entries(),
                ).len() && i != j implies ids_of(r.spec_entries())[i] != ids_of(
                r.spec_entries(),
            )[j] by {
                assert(ids_of(r.spec_entries())[i] == r.spec_entries()[i].2);
                assert(ids_of(r.spec_entries())[j] == r.spec_entries()[j].2);
            }
            assert(ids_of(r.spec_entries()).no_duplicates());
        }
        r
    }
}

/// Write the packed buffer for a sequence of entries: header, index array,
/// alignment padding, coordinate array.
fn serialize(entries: &Vec<Entry>, m: KDTreeMetadata) -> (r: Vec<u8>)
    requires
        m.coord_type == CoordType::Int32,
        entries@.len() == m.num_items as nat,
        m.spec_buffer_length() <= usize::MAX,
        forall|i: int| 0 <= i < entries@.len() ==> (#[trigger] entries@[i]).2 < m.num_items,
    ensures
        spec_valid_buffer(r@, m),
        spec_buffer_entries(r@, m.num_items) == entries@,
{
    let ghost n: nat = m.num_items as nat;
    let mut buf: Vec<u8> = Vec::new();
    buf.push(MAGIC);
    buf.push(16 * VERSION + m.coord_type.tag());
    let (ns0, ns1) = write_u16_le(m.node_size);
    buf.push(ns0);
    buf.push(ns1);
    let (ni0, ni1, ni2, ni3) = write_u32_le(m.num_items);
    buf.push(ni0);
    buf.push(ni1);
    buf.push(ni2);
    buf.push(ni3);
    assert(spec_valid_header(buf@, m));
    assert(buf@.len() == HEADER_SIZE);

    let wide = m.num_items >= 65536;
    let num = entries.len();
    let mut i: usize = 0;
    while i < num
        invariant
            num == entries@.len(),
            entries@.len() == n,
            n == m.num_items as nat,
            m.coord_type == CoordType::Int32,
            wide == (m.num_items >= 65536),
            0 <= i <= num,
            n < 65536 ==> buf@.len() == HEADER_SIZE + 2 * i,
            n >= 65536 ==> buf@.len() == HEADER_SIZE + 4 * i,
            spec_data_buffer_length(n, CoordType::Int32) <= usize::MAX,
            spec_valid_header(buf@, m),
            forall|j: int| 0 <= j < entries@.len() ==> (#[trigger] entries@[j]).2 < m.num_items,
            forall|t: int|
                0 <= t < i ==> #[trigger] spec_index_at(buf@, m.num_items, t) == entries@[t].2,
        decreases num - i,
    {
        let ghost old_buf = buf@;
        let id = entries[i].2;
        if !wide {
            let (b0, b1) = write_u16_le(id as u16);
            buf.push(b0);
            buf.push(b1);
        } else {
            let (b0, b1, b2, b3) = write_u32_le(id);
            buf.push(b0);
            buf.push(b1);
            buf.push(b2);
            buf.push(b3);
        }
        proof {
            lemma_decode_prefix_stable(old_buf, buf@, m);
            assert(spec_index_at(buf@, m.num_items, i as int) == entries@[i as int].2);
        }
        i += 1;
    }
    assert(buf@.len() == HEADER_SIZE + spec_indices_byte_size(n));

    let ghost after_indices = buf@;
    let mut p: usize = 0;
    let pad = m.pad_byte_size();
    while p < pad
        invariant
            pad == spec_pad_byte_size(n),
            n == m.num_items as nat,
            m.coord_type == CoordType::Int32,
            0 <= p <= pad,
            buf@.len() == HEADER_SIZE + spec_indices_byte_size(n) + p,
            spec_valid_header(buf@, m),
            forall|t: int|
                0 <= t < n ==> #[trigger] spec_index_at(buf@, m.num_items, t) == entries@[t].2,
            entries@.len() == n,
        decreases pad - p,
    {
        let ghost old_buf = buf@;
        buf.push(0);
        proof {
            lemma_decode_prefix_stable(old_buf, buf@, m);
        }
        p += 1;
    }
    assert(buf@.len() == spec_coords_byte_start(n));

    let mut i: usize = 0;
    while i < num
        invariant
            num == entries@.len(),
            entries@.len() == n,
            n == m.num_items as nat,
            m.coord_type == CoordType::Int32,
            0 <= i <= num,
            buf@.len() == spec_coords_byte_start(n) + 8 * i,
            spec_data_buffer_length(n, CoordType::Int32) <= usize::MAX,
            spec_valid_header(buf@, m),
            forall|t: int|
                0 <= t < n ==> #[trigger] spec_index_at(buf@, m.num_items, t) == entries@[t].2,
            forall|t: int|
                0 <= t < i ==> #[trigger] spec_coord_at(buf@, m.num_items, 2 * t) == entries@[t].0
                    && spec_coord_at(buf@, m.num_items, 2 * t + 1) == entries@[t].1,
        decreases num - i,
    {
        let ghost old_buf = buf@;
        let x = entries[i].0;
        let y = entries[i].1;
        let (x0, x1, x2, x3) = write_u32_le(encode_i32(x));
        buf.push(x0);
        buf.push(x1);
        buf.push(x2);
        buf.push(x3);
        let (y0, y1, y2, y3) = write_u32_le(encode_i32(y));
        buf.push(y0);
        buf.push(y1);
        buf.push(y2);
        buf.push(y3);
        proof {
            lemma_decode_prefix_stable(old_buf, buf@, m);
            crate::codec::lemma_i32_roundtrip(x);
            crate::codec::lemma_i32_roundtrip(y);
            assert(spec_coord_at(buf@, m.num_items, 2 * (i as int)) == entries@[i as int].0);
            assert(spec_coord_at(buf@, m.num_items, 2 * (i as int) + 1) == entries@[i as int].1);
            assert forall|t: int| 0 <= t < i + 1 implies #[trigger] spec_coord_at(
                buf@,
                m.num_items,
                2 * t,
            ) == entries@[t].0 && spec_coord_at(buf@, m.num_items, 2 * t + 1)
                == entries@[t].1 by {
                if t < i {
                    assert(spec_coords_byte_start(n) + 4 * (2 * t + 1) <= old_buf.len());
                    assert(spec_coords_byte_start(n) + 4 * (2 * t + 1 + 1) <= old_buf.len());
                    assert(spec_coord_at(buf@, m.num_items, 2 * t) == spec_coord_at(
                        old_buf,
                        m.num_items,
                        2 * t,
                    ));
                    assert(spec_coord_at(buf@, m.num_items, 2 * t + 1) == spec_coord_at(
                        old_buf,
                        m.num_items,
                        2 * t + 1,
                    ));
                }
            }
        }
        i += 1;
    }
    assert(buf@.len() == m.spec_buffer_length());
    proof {
        assert(spec_buffer_entries(buf@, m.num_items) =~= entries@);
    }
    buf
}

/// An owned KD-tree: exclusively holds the buffer it built.
#[derive(Debug, Clone, PartialEq)]
pub struct OwnedKDTree {
    buffer: Vec<u8>,
    metadata: KDTreeMetadata,
}

impl OwnedKDTree {
    /// The metadata this tree was built with.
    pub closed spec fn spec_metadata(self) -> KDTreeMetadata {
        self.metadata
    }

    /// The bytes of the packed buffer.
    pub closed spec fn spec_buffer(self) -> Seq<u8> {
        self.buffer@
    }

    /// The buffer matches its metadata and holds 32-bit signed coordinates.
    pub open spec fn wf(self) -> bool {
        &&& spec_valid_buffer(self.spec_buffer(), self.spec_metadata())
        &&& self.spec_metadata().coord_type == CoordType::Int32
    }

    /// The packed entries of this tree.
    pub open spec fn spec_entries(self) -> Seq<Entry> {
        spec_buffer_entries(self.spec_buffer(), self.spec_metadata().num_items)
    }

    /// Consume this tree, returning the underlying buffer.
    pub fn into_inner(self) -> (r: Vec<u8>)
        ensures
            r@ == self.spec_buffer(),
    {
        self.buffer
    }

    /// Borrow the underlying buffer.
    pub fn as_bytes(&self) -> (r: &[u8])
        ensures
            r@ == self.spec_buffer(),
    {
        self.buffer.as_slice()
    }

    /// The number of indexed points.
    pub fn num_items(&self) -> (r: u32)
        ensures
            r == self.spec_metadata().num_items,
    {
        self.metadata.num_items
    }

    /// The partition granularity the tree was built with.
    pub fn node_size(&self) -> (r: u16)
        ensures
            r == self.spec_metadata().node_size,
    {
        self.metadata.node_size
    }

    /// View this owned tree as a reference tree over its own buffer.
    pub fn as_kdtree_ref<'a>(&'a self) -> (r: KDTreeRef<'a>)
        requires
            self.wf(),
        ensures
            r.wf(),
            r.spec_metadata() == self.spec_metadata(),
            r.spec_entries() == self.spec_entries(),
    {
        KDTreeRef { data: self.buffer.as_slice(), metadata: self.metadata }
    }

    /// Range query over the owned buffer; same contract as
    /// [`KDTreeRef::range`].
    pub fn range(&self, min_x: i32, min_y: i32, max_x: i32, max_y: i32) -> (r: Vec<u32>)
        requires
            self.wf(),
        ensures
            reported_from_box(r@, self.spec_entries(), min_x, min_y, max_x, max_y),
            self.spec_metadata().node_size >= 2 && kd_sorted(
                self.spec_entries(),
                self.spec_metadata().node_size as int,
            ) ==> box_complete(r@, self.spec_entries(), min_x, min_y, max_x, max_y),
            ids_of(self.spec_entries()).no_duplicates() ==> r@.no_duplicates(),
    {
        self.as_kdtree_ref().range(min_x, min_y, max_x, max_y)
    }

    /// Radius query (squared radius) over the owned buffer; same contract
    /// as [`KDTreeRef::within_sq`].
    pub fn within_sq(&self, qx: i32, qy: i32, r2: u128) -> (r: Vec<u32>)
        requires
            self.wf(),
        ensures
            reported_from_circle(r@, self.spec_entries(), qx, qy, r2 as int),
            self.spec_metadata().node_size >= 2 && kd_sorted(
                self.spec_entries(),
                self.spec_metadata().node_size as int,
            ) ==> circle_complete(r@, self.spec_entries(), qx, qy, r2 as int),
            ids_of(self.spec_entries()).no_duplicates() ==> r@.no_duplicates(),
    {
        self.as_kdtree_ref().within_sq(qx, qy, r2)
    }

    /// Radius query for a whole-number radius; same contract as
    /// [`KDTreeRef::within`].
    pub fn within(&self, qx: i32, qy: i32, r: i32) -> (res: Vec<u32>)
        requires
            self.wf(),
            r >= 0,
        ensures
            reported_from_circle(res@, self.spec_entries(), qx, qy, r * r),
            self.spec_metadata().node_size >= 2 && kd_sorted(
                self.spec_entries(),
                self.spec_metadata().node_size as int,
            ) ==> circle_complete(res@, self.spec_entries(), qx, qy, r * r),
            ids_of(self.spec_entries()).no_duplicates() ==> res@.no_duplicates(),
    {
        self.as_kdtree_ref().within(qx, qy, r)
    }
}

/// A read-only KD-tree over a borrowed buffer.
///
/// The buffer is validated once, when the reference is made; the caller must
/// keep the bytes alive and unchanged for as long as the reference is used,
/// which the borrow already enforces inside one address space.
#[derive(Debug, Clone, PartialEq)]
pub struct KDTreeRef<'a> {
    data: &'a [u8],
    metadata: KDTreeMetadata,
}

impl<'a> KDTreeRef<'a> {
    /// The metadata read from the buffer's header.
    pub closed spec fn spec_metadata(self) -> KDTreeMetadata {
        self.metadata
    }

    /// The borrowed bytes.
    pub closed spec fn spec_data(self) -> Seq<u8> {
        self.data@
    }

    /// The buffer matches its metadata and holds 32-bit signed coordinates.
    pub open spec fn wf(self) -> bool {
        &&& spec_valid_buffer(self.spec_data(), self.spec_metadata())
        &&& self.spec_metadata().coord_type == CoordType::Int32
    }

    /// The packed entries of this tree.
    pub open spec fn spec_entries(self) -> Seq<Entry> {
        spec_buffer_entries(self.spec_data(), self.spec_metadata().num_items)
    }

    /// Validate an external byte buffer and borrow it as a KD-tree of
    /// 32-bit signed coordinates.
    ///
    /// The checks and their error kinds are those of
    /// [`KDTreeMetadata::try_new_from_slice`]; the reference is returned
    /// exactly when they all pass.
    pub fn try_new(data: &'a [u8]) -> (r: Result<Self, GeoIndexError>)
        ensures
            r is Ok <==> spec_validate(data@, CoordType::Int32) is Ok,
            r is Ok ==> r->Ok_0.wf() && r->Ok_0.spec_data() == data@ && r->Ok_0.spec_metadata()
                == spec_validate(data@, CoordType::Int32)->Ok_0,
            r is Err ==> r->Err_0 == spec_validate(data@, CoordType::Int32)->Err_0,
    {
        match KDTreeMetadata::try_new_from_slice(data, CoordType::Int32) {
            Ok(metadata) => Ok(KDTreeRef { data, metadata }),
            Err(e) => Err(e),
        }
    }

    /// The number of indexed points.
    pub fn num_items(&self) -> (r: u32)
        ensures
            r == self.spec_metadata().num_items,
    {
        self.metadata.num_items
    }

    /// The partition granularity recorded in the header.
    pub fn node_size(&self) -> (r: u16)
        ensures
            r == self.spec_metadata().node_size,
    {
        self.metadata.node_size
    }

    /// The original insertion index stored at packed position `i`.
    pub fn index_at(&self, i: usize) -> (r: u32)
        requires
            self.wf(),
            i < self.spec_metadata().num_items,
        ensures
            r == spec_index_at(self.spec_data(), self.spec_metadata().num_items, i as int),
    {
        let dlen = self.data.len();
        proof {
            assert(dlen == self.spec_metadata().spec_buffer_length());
            assert(spec_indices_byte_size(self.metadata.num_items as nat)
                <= self.spec_metadata().spec_buffer_length());
        }
        if self.metadata.num_items < 65536 {
            let p = HEADER_SIZE + 2 * i;
            read_u16_le(self.data[p], self.data[p + 1]) as u32
        } else {
            let p = HEADER_SIZE + 4 * i;
            read_u32_le(self.data[p], self.data[p + 1], self.data[p + 2], self.data[p + 3])
        }
    }

    /// The `j`-th coordinate element (`x` of point `i` at `2 * i`, `y` at
    /// `2 * i + 1`).
    pub fn coord_at(&self, j: usize) -> (r: i32)
        requires
            self.wf(),
            j < 2 * self.spec_metadata().num_items,
        ensures
            r == spec_coord_at(self.spec_data(), self.spec_metadata().num_items, j as int),
    {
        let dlen = self.data.len();
        proof {
            assert(dlen == self.spec_metadata().spec_buffer_length());
            assert(self.spec_metadata().spec_buffer_length() == spec_coords_byte_start(
                self.metadata.num_items as nat,
            ) + (self.metadata.num_items as nat) * 8);
        }
        let start = self.metadata.coords_byte_start();
        let p = start + 4 * j;
        decode_i32(
            read_u32_le(self.data[p], self.data[p + 1], self.data[p + 2], self.data[p + 3]),
        )
    }

    /// The whole entry at packed position `i`: coordinates and original
    /// index.
    pub fn entry_at(&self, i: usize) -> (e: Entry)
        requires
            self.wf(),
            i < self.spec_metadata().num_items,
        ensures
            e == self.spec_entries()[i as int],
    {
        let dlen = self.data.len();
        proof {
            assert(dlen == self.spec_metadata().spec_buffer_length());
            assert(self.spec_metadata().spec_buffer_length() == spec_coords_byte_start(
                self.metadata.num_items as nat,
            ) + (self.metadata.num_items as nat) * 8);
        }
        let x = self.coord_at(2 * i);
        let y = self.coord_at(2 * i + 1);
        let id = self.index_at(i);
        (x, y, id)
    }

    /// All packed entries, decoded into a vector.
    pub fn entries_vec(&self) -> (r: Vec<Entry>)
        requires
            self.wf(),
        ensures
            r@ == self.spec_entries(),
    {
        let n = self.metadata.num_items;
        let mut r: Vec<Entry> = Vec::new();
        let mut i: u32 = 0;
        while i < n
            invariant
                self.wf(),
                n == self.spec_metadata().num_items,
                0 <= i <= n,
                r@.len() == i,
                forall|t: int| 0 <= t < i ==> r@[t] == self.spec_entries()[t],
            decreases n - i,
        {
            let e = self.entry_at(i as usize);
            r.push(e);
            i += 1;
        }
        proof {
            assert(r@ =~= self.spec_entries());
        }
        r
    }

    /// Every original index whose point lies in the box, bounds inclusive.
    ///
    /// Whatever buffer the reference was opened over, every reported index
    /// belongs to a point inside the box.  Over a buffer in the packed order
    /// the builder writes — any node size of at least 2 — the result is
    /// complete: it holds the index of every point inside the box, in some
    /// traversal order.  Each packed position is visited at most once, so
    /// whenever the stored ids are pairwise distinct — the builder makes
    /// them so — the result holds no duplicates.
    #[verifier::rlimit(100)]
    pub fn range(&self, min_x: i32, min_y: i32, max_x: i32, max_y: i32) -> (r: Vec<u32>)
        requires
            self.wf(),
        ensures
            reported_from_box(r@, self.spec_entries(), min_x, min_y, max_x, max_y),
            self.spec_metadata().node_size >= 2 && kd_sorted(
                self.spec_entries(),
                self.spec_metadata().node_size as int,
            ) ==> box_complete(r@, self.spec_entries(), min_x, min_y, max_x, max_y),
            ids_of(self.spec_entries()).no_duplicates() ==> r@.no_duplicates(),
    {
        let ghost entries = self.spec_entries();
        let ghost ns_int = self.spec_metadata().node_size as int;
        let ghost sorted = self.spec_metadata().node_size >= 2 && kd_sorted(entries, ns_int);
        let ghost mut srcs: Seq<int> = Seq::empty();
        let mut result: Vec<u32> = Vec::new();
        let n32 = self.metadata.num_items;
        if n32 == 0 {
            return result;
        }
        let n = n32 as usize;
        let ghost nn = n as int;
        let node_size = self.metadata.node_size as usize;
        let mut stack: Vec<(usize, usize, usize)> = Vec::new();
        stack.push((0, n - 1, 0));
        proof {
            assert(stack@[0] == (0usize, (n - 1) as usize, 0usize));
            assert(stack_wf(stack@, nn));
            if sorted {
                assert(kd_sorted_range(entries, 0, nn - 1, 0, ns_int));
                assert(stack_sorted(stack@, entries, ns_int));
            }
            assert forall|i: int| 0 <= i < nn implies covered(stack@, i) by {
                assert(stack@[0].0 <= i <= stack@[0].1);
            }
        }
        while stack.len() != 0
            invariant
                self.wf(),
                entries == self.spec_entries(),
                nn == self.spec_metadata().num_items as int,
                entries.len() == nn,
                n == self.spec_metadata().num_items as usize,
                node_size == self.spec_metadata().node_size as usize,
                ns_int == self.spec_metadata().node_size as int,
                sorted == (self.spec_metadata().node_size >= 2 && kd_sorted(entries, ns_int)),
                stack_wf(stack@, nn),
                sorted ==> stack_sorted(stack@, entries, ns_int),
                reported_from_box(result@, entries, min_x, min_y, max_x, max_y),
                results_from(result@, srcs, entries),
                srcs_distinct(srcs),
                srcs_dead(srcs, stack@),
                stack_disjoint(stack@),
                sorted ==> forall|i: int|
                    0 <= i < nn && in_box(#[trigger] entries[i], min_x, min_y, max_x, max_y)
                        ==> result@.contains(entries[i].2) || covered(stack@, i),
            decreases stack_weight(stack@),
        {
            let ghost st_popped = stack@;
            proof {
                lemma_stack_weight_nonneg(st_popped.drop_last());
            }
            let top = stack.pop().unwrap();
            let left = top.0;
            let right = top.1;
            let axis = top.2;
            let ghost st0 = stack@;
            proof {
                assert(st0 =~= st_popped.drop_last());
                assert(top == st_popped[st_popped.len() - 1]);
                assert(stack_weight(st_popped) == stack_weight(st0) + 2 * (top.1 - top.0) + 3);
                assert forall|k: int| 0 <= k < st0.len() implies ((#[trigger] st0[k]).1 < left
                    || right < st0[k].0) by {
                    assert(st0[k] == st_popped[k]);
                    assert(st_popped[st_popped.len() - 1] == top);
                }
                assert forall|j: int| 0 <= j < srcs.len() implies !(left <= #[trigger] srcs[j]
                    <= right) by {
                    assert(st_popped[st_popped.len() - 1] == top);
                }
                assert(srcs_dead(srcs, st0)) by {
                    assert forall|j: int, k: int|
                        #![trigger srcs[j], st0[k]]
                        0 <= j < srcs.len() && 0 <= k < st0.len() implies !(st0[k].0 <= srcs[j]
                        <= st0[k].1) by {
                        assert(st0[k] == st_popped[k]);
                    }
                }
                assert(stack_disjoint(st0)) by {
                    assert forall|k1: int, k2: int|
                        #![trigger st0[k1], st0[k2]]
                        0 <= k1 < k2 < st0.len() implies st0[k1].1 < st0[k2].0 || st0[k2].1
                        < st0[k1].0 by {
                        assert(st0[k1] == st_popped[k1]);
                        assert(st0[k2] == st_popped[k2]);
                    }
                }
                if sorted {
                    assert forall|i: int|
                        0 <= i < nn && in_box(
                            #[trigger] entries[i],
                            min_x,
                            min_y,
                            max_x,
                            max_y,
                        ) implies result@.contains(entries[i].2) || covered(st0, i) || (left as int
                        <= i <= right as int) by {
                        if !result@.contains(entries[i].2) {
                            assert(covered(st_popped, i));
                            let k = choose|k: int|
                                0 <= k < st_popped.len() && (#[trigger] st_popped[k]).0 <= i
                                    <= st_popped[k].1;
                            if k < st_popped.len() - 1 {
                                assert(st0[k] == st_popped[k]);
                                assert(covered(st0, i));
                            }
                        }
                    }
                }
            }
            if right - left <= node_size {
                let mut pos = left;
                while pos <= right
                    invariant
                        self.wf(),
                        entries == self.spec_entries(),
                        nn == self.spec_metadata().num_items as int,
                        entries.len() == nn,
                        left <= pos <= right + 1,
                        right < nn,
                        stack@ == st0,
                        stack_wf(stack@, nn),
                        sorted ==> stack_sorted(stack@, entries, ns_int),
                        reported_from_box(result@, entries, min_x, min_y, max_x, max_y),
                        results_from(result@, srcs, entries),
                        srcs_distinct(srcs),
                        srcs_dead(srcs, stack@),
                        stack_disjoint(stack@),
                        forall|k: int|
                            0 <= k < stack@.len() ==> ((#[trigger] stack@[k]).1 < left || right
                                < stack@[k].0),
                        forall|j: int|
                            0 <= j < srcs.len() ==> !(pos <= #[trigger] srcs[j] <= right),
                        sorted ==> forall|i: int|
                            0 <= i < nn && in_box(
                                #[trigger] entries[i],
                                min_x,
                                min_y,
                                max_x,
                                max_y,
                            ) ==> result@.contains(entries[i].2) || covered(stack@, i) || (pos
                                <= i <= right),
                    decreases right + 1 - pos,
                {
                    let e = self.entry_at(pos);
                    if min_x <= e.0 && e.0 <= max_x && min_y <= e.1 && e.1 <= max_y {
                        let ghost old_res = result@;
                        let ghost old_srcs = srcs;
                        result.push(e.2);
                        proof {
                            lemma_report_box(
                                old_res,
                                result@,
                                entries,
                                pos as int,
                                min_x,
                                min_y,
                                max_x,
                                max_y,
                            );
                            srcs = srcs.push(pos as int);
                            lemma_record_emit(
                                old_res,
                                result@,
                                old_srcs,
                                srcs,
                                entries,
                                pos as int,
                                stack@,
                            );
                        }
                    }
                    pos += 1;
                }
            } else {
                let m = left + (right - left) / 2;
                let e = self.entry_at(m);
                let ghost srcs0 = srcs;
                if min_x <= e.0 && e.0 <= max_x && min_y <= e.1 && e.1 <= max_y {
                    let ghost old_res = result@;
                    result.push(e.2);
                    proof {
                        lemma_report_box(
                            old_res,
                            result@,
                            entries,
                            m as int,
                            min_x,
                            min_y,
                            max_x,
                            max_y,
                        );
                        srcs = srcs.push(m as int);
                        lemma_record_emit(
                            old_res,
                            result@,
                            srcs0,
                            srcs,
                            entries,
                            m as int,
                            stack@,
                        );
                    }
                }
                proof {
                    // Whether or not the middle was reported, the only
                    // recorded position inside the popped range is the
                    // middle one, and nothing recorded lies in a waiting
                    // range.
                    assert forall|j: int| 0 <= j < srcs.len() implies (#[trigger] srcs[j]
                        == m as int || !(left <= srcs[j] <= right)) by {
                        if j < srcs0.len() {
                            assert(srcs[j] == srcs0[j]);
                        }
                    }
                    assert(srcs_dead(srcs, st0)) by {
                        assert forall|j: int, k: int|
                            #![trigger srcs[j], st0[k]]
                            0 <= j < srcs.len() && 0 <= k < st0.len() implies !(st0[k].0 <= srcs[j]
                            <= st0[k].1) by {
                            if j < srcs0.len() {
                                assert(srcs[j] == srcs0[j]);
                            }
                        }
                    }
                }
                let c = if axis == 0 {
                    e.0
                } else {
                    e.1
                };
                let lo_bound = if axis == 0 {
                    min_x
                } else {
                    min_y
                };
                let hi_bound = if axis == 0 {
                    max_x
                } else {
                    max_y
                };
                let ghost st_before = stack@;
                let push_left = lo_bound <= c && m > left;
                let push_right = c <= hi_bound;
                if push_left {
                    stack.push((left, m - 1, 1 - axis));
                }
                let ghost st_mid = stack@;
                if push_right {
                    stack.push((m + 1, right, 1 - axis));
                }
                proof {
                    let mi = m as int;
                    let ax = axis as int;
                    // Weight strictly drops: both children together weigh
                    // one less than the popped range.
                    if push_left {
                        lemma_stack_weight_push(st_before, (left, (m - 1) as usize, (1 - axis) as usize));
                    }
                    if push_right {
                        lemma_stack_weight_push(st_mid, ((m + 1) as usize, right, (1 - axis) as usize));
                    }
                    lemma_stack_weight_nonneg(st0);
                    // Stack shape and packedness of the pushed halves.
                    assert forall|k: int| 0 <= k < stack@.len() implies (#[trigger] stack@[k]).0
                        <= stack@[k].1 < nn && stack@[k].2 <= 1 by {
                        if k < st0.len() {
                            assert(stack@[k] == st0[k]);
                        }
                    }
                    // Recorded positions stay outside every waiting range,
                    // and the waiting ranges stay pairwise disjoint.
                    assert forall|j: int, k: int|
                        #![trigger srcs[j], stack@[k]]
                        0 <= j < srcs.len() && 0 <= k < stack@.len() implies !(stack@[k].0
                        <= srcs[j] <= stack@[k].1) by {
                        if k < st0.len() {
                            assert(stack@[k] == st0[k]);
                        } else {
                            if j < srcs0.len() {
                                assert(srcs[j] == srcs0[j]);
                            }
                            if push_left && k == st0.len() {
                                assert(stack@[k] == (left, (m - 1) as usize, (1 - axis) as usize));
                            } else {
                                assert(push_right);
                                assert(k == st_mid.len());
                                assert(stack@[k] == ((m + 1) as usize, right, (1 - axis) as usize));
                            }
                        }
                    }
                    assert(srcs_dead(srcs, stack@));
                    assert forall|k1: int, k2: int|
                        #![trigger stack@[k1], stack@[k2]]
                        0 <= k1 < k2 < stack@.len() implies stack@[k1].1 < stack@[k2].0
                        || stack@[k2].1 < stack@[k1].0 by {
                        if k2 < st0.len() {
                            assert(stack@[k1] == st0[k1]);
                            assert(stack@[k2] == st0[k2]);
                        } else if k1 < st0.len() {
                            assert(stack@[k1] == st0[k1]);
                            if push_left && k2 == st0.len() {
                                assert(stack@[k2] == (left, (m - 1) as usize, (1 - axis) as usize));
                            } else {
                                assert(push_right);
                                assert(k2 == st_mid.len());
                                assert(stack@[k2] == ((m + 1) as usize, right, (1 - axis) as usize));
                            }
                        } else {
                            assert(push_left && push_right);
                            assert(k1 == st0.len() && k2 == st_mid.len());
                            assert(stack@[k1] == (left, (m - 1) as usize, (1 - axis) as usize));
                            assert(stack@[k2] == ((m + 1) as usize, right, (1 - axis) as usize));
                        }
                    }
                    assert(stack_disjoint(stack@));
                    if sorted {
                        assert(kd_sorted_range(entries, left as int, right as int, ax, ns_int));
                        assert(mi == left + (right - left as int) / 2);
                        assert forall|k: int| 0 <= k < stack@.len() implies kd_sorted_range(
                            entries,
                            (#[trigger] stack@[k]).0 as int,
                            stack@[k].1 as int,
                            stack@[k].2 as int,
                            ns_int,
                        ) by {
                            if k < st0.len() {
                                assert(stack@[k] == st0[k]);
                            }
                        }
                        // Every in-box position of the popped range is
                        // reported or still covered; pruned halves hold no
                        // in-box positions.
                        assert forall|i: int|
                            0 <= i < nn && in_box(
                                #[trigger] entries[i],
                                min_x,
                                min_y,
                                max_x,
                                max_y,
                            ) implies result@.contains(entries[i].2) || covered(stack@, i) by {
                            if result@.contains(entries[i].2) {
                            } else if covered(st0, i) {
                                let k = choose|k: int|
                                    0 <= k < st0.len() && (#[trigger] st0[k]).0 <= i <= st0[k].1;
                                assert(stack@[k] == st0[k]);
                                assert(covered(stack@, i));
                            } else if left <= i <= right {
                                if i == mi {
                                    assert(result@.contains(entries[i].2));
                                } else if i < mi {
                                    assert(axis_coord(entries[i], ax) <= axis_coord(
                                        entries[mi],
                                        ax,
                                    ));
                                    assert(left < m);
                                    assert(push_left);
                                    if push_right {
                                        assert(stack@[st_mid.len() as int - 1]
                                            == st_mid[st_mid.len() - 1]);
                                    }
                                    assert(st_mid[st_mid.len() - 1]
                                        == (left, (m - 1) as usize, (1 - axis) as usize));
                                    assert(covered(stack@, i));
                                } else {
                                    assert(axis_coord(entries[mi], ax) <= axis_coord(
                                        entries[i],
                                        ax,
                                    ));
                                    assert(push_right);
                                    assert(stack@[stack@.len() - 1]
                                        == ((m + 1) as usize, right, (1 - axis) as usize));
                                    assert(covered(stack@, i));
                                }
                            }
                        }
                    }
                }
            }
        }
        proof {
            if ids_of(entries).no_duplicates() {
                lemma_distinct_sources_distinct_ids(result@, srcs, entries);
            }
        }
        result
    }

    /// Every original index whose point lies within squared Euclidean
    /// distance `r2` of `(qx, qy)`, boundary included.
    ///
    /// Whatever buffer the reference was opened over, every reported index
    /// belongs to a point within the circle.  Over a buffer in the packed
    /// order the builder writes, the result also holds the index of every
    /// point within the circle.  Each packed position is visited at most
    /// once, so whenever the stored ids are pairwise distinct — the builder
    /// makes them so — the result holds no duplicates.
    #[verifier::rlimit(100)]
    pub fn within_sq(&self, qx: i32, qy: i32, r2: u128) -> (r: Vec<u32>)
        requires
            self.wf(),
        ensures
            reported_from_circle(r@, self.spec_entries(), qx, qy, r2 as int),
            self.spec_metadata().node_size >= 2 && kd_sorted(
                self.spec_entries(),
                self.spec_metadata().node_size as int,
            ) ==> circle_complete(r@, self.spec_entries(), qx, qy, r2 as int),
            ids_of(self.spec_entries()).no_duplicates() ==> r@.no_duplicates(),
    {
        let ghost entries = self.spec_entries();
        let ghost ns_int = self.spec_metadata().node_size as int;
        let ghost sorted = self.spec_metadata().node_size >= 2 && kd_sorted(entries, ns_int);
        let ghost rr = r2 as int;
        let ghost mut srcs: Seq<int> = Seq::empty();
        let mut result: Vec<u32> = Vec::new();
        let n32 = self.metadata.num_items;
        if n32 == 0 {
            return result;
        }
        let n = n32 as usize;
        let ghost nn = n as int;
        let node_size = self.metadata.node_size as usize;
        let mut stack: Vec<(usize, usize, usize)> = Vec::new();
        stack.push((0, n - 1, 0));
        proof {
            assert(stack@[0] == (0usize, (n - 1) as usize, 0usize));
            assert(stack_wf(stack@, nn));
            if sorted {
                assert(kd_sorted_range(entries, 0, nn - 1, 0, ns_int));
                assert(stack_sorted(stack@, entries, ns_int));
            }
            assert forall|i: int| 0 <= i < nn implies covered(stack@, i) by {
                assert(stack@[0].0 <= i <= stack@[0].1);
            }
        }
        while stack.len() != 0
            invariant
                self.wf(),
                entries == self.spec_entries(),
                nn == self.spec_metadata().num_items as int,
                entries.len() == nn,
                n == self.spec_metadata().num_items as usize,
                node_size == self.spec_metadata().node_size as usize,
                ns_int == self.spec_metadata().node_size as int,
                sorted == (self.spec_metadata().node_size >= 2 && kd_sorted(entries, ns_int)),
                rr == r2 as int,
                stack_wf(stack@, nn),
                sorted ==> stack_sorted(stack@, entries, ns_int),
                reported_from_circle(result@, entries, qx, qy, rr),
                results_from(result@, srcs, entries),
                srcs_distinct(srcs),
                srcs_dead(srcs, stack@),
                stack_disjoint(stack@),
                sorted ==> forall|i: int|
                    0 <= i < nn && in_circle(#[trigger] entries[i], qx, qy, rr)
                        ==> result@.contains(entries[i].2) || covered(stack@, i),
            decreases stack_weight(stack@),
        {
            let ghost st_popped = stack@;
            proof {
                lemma_stack_weight_nonneg(st_popped.drop_last());
            }
            let top = stack.pop().unwrap();
            let left = top.0;
            let right = top.1;
            let axis = top.2;
            let ghost st0 = stack@;
            proof {
                assert(st0 =~= st_popped.drop_last());
                assert(top == st_popped[st_popped.len() - 1]);
                assert(stack_weight(st_popped) == stack_weight(st0) + 2 * (top.1 - top.0) + 3);
                assert forall|k: int| 0 <= k < st0.len() implies ((#[trigger] st0[k]).1 < left
                    || right < st0[k].0) by {
                    assert(st0[k] == st_popped[k]);
                    assert(st_popped[st_popped.len() - 1] == top);
                }
                assert forall|j: int| 0 <= j < srcs.len() implies !(left <= #[trigger] srcs[j]
                    <= right) by {
                    assert(st_popped[st_popped.len() - 1] == top);
                }
                assert(srcs_dead(srcs, st0)) by {
                    assert forall|j: int, k: int|
                        #![trigger srcs[j], st0[k]]
                        0 <= j < srcs.len() && 0 <= k < st0.len() implies !(st0[k].0 <= srcs[j]
                        <= st0[k].1) by {
                        assert(st0[k] == st_popped[k]);
                    }
                }
                assert(stack_disjoint(st0)) by {
                    assert forall|k1: int, k2: int|
                        #![trigger st0[k1], st0[k2]]
                        0 <= k1 < k2 < st0.len() implies st0[k1].1 < st0[k2].0 || st0[k2].1
                        < st0[k1].0 by {
                        assert(st0[k1] == st_popped[k1]);
                        assert(st0[k2] == st_popped[k2]);
                    }
                }
                if sorted {
                    assert forall|i: int|
                        0 <= i < nn && in_circle(#[trigger] entries[i], qx, qy, rr) implies result@
                        .contains(entries[i].2) || covered(st0, i) || (left as int <= i
                        <= right as int) by {
                        if !result@.contains(entries[i].2) {
                            assert(covered(st_popped, i));
                            let k = choose|k: int|
                                0 <= k < st_popped.len() && (#[trigger] st_popped[k]).0 <= i
                                    <= st_popped[k].1;
                            if k < st_popped.len() - 1 {
                                assert(st0[k] == st_popped[k]);
                                assert(covered(st0, i));
                            }
                        }
                    }
                }
            }
            if right - left <= node_size {
                let mut pos = left;
                while pos <= right
                    invariant
                        self.wf(),
                        entries == self.spec_entries(),
                        nn == self.spec_metadata().num_items as int,
                        entries.len() == nn,
                        rr == r2 as int,
                        left <= pos <= right + 1,
                        right < nn,
                        stack@ == st0,
                        stack_wf(stack@, nn),
                        sorted ==> stack_sorted(stack@, entries, ns_int),
                        reported_from_circle(result@, entries, qx, qy, rr),
                        results_from(result@, srcs, entries),
                        srcs_distinct(srcs),
                        srcs_dead(srcs, stack@),
                        stack_disjoint(stack@),
                        forall|k: int|
                            0 <= k < stack@.len() ==> ((#[trigger] stack@[k]).1 < left || right
                                < stack@[k].0),
                        forall|j: int|
                            0 <= j < srcs.len() ==> !(pos <= #[trigger] srcs[j] <= right),
                        sorted ==> forall|i: int|
                            0 <= i < nn && in_circle(#[trigger] entries[i], qx, qy, rr)
                                ==> result@.contains(entries[i].2) || covered(stack@, i) || (pos
                                <= i <= right),
                    decreases right + 1 - pos,
                {
                    let e = self.entry_at(pos);
                    if dist_sq_exec(e.0, e.1, qx, qy) <= r2 {
                        let ghost old_res = result@;
                        let ghost old_srcs = srcs;
                        result.push(e.2);
                        proof {
                            lemma_report_circle(old_res, result@, entries, pos as int, qx, qy, rr);
                            srcs = srcs.push(pos as int);
                            lemma_record_emit(
                                old_res,
                                result@,
                                old_srcs,
                                srcs,
                                entries,
                                pos as int,
                                stack@,
                            );
                        }
                    }
                    pos += 1;
                }
            } else {
                let m = left + (right - left) / 2;
                let e = self.entry_at(m);
                let ghost srcs0 = srcs;
                if dist_sq_exec(e.0, e.1, qx, qy) <= r2 {
                    let ghost old_res = result@;
                    result.push(e.2);
                    proof {
                        lemma_report_circle(old_res, result@, entries, m as int, qx, qy, rr);
                        srcs = srcs.push(m as int);
                        lemma_record_emit(
                            old_res,
                            result@,
                            srcs0,
                            srcs,
                            entries,
                            m as int,
                            stack@,
                        );
                    }
                }
                proof {
                    // Whether or not the middle was reported, the only
                    // recorded position inside the popped range is the
                    // middle one, and nothing recorded lies in a waiting
                    // range.
                    assert forall|j: int| 0 <= j < srcs.len() implies (#[trigger] srcs[j]
                        == m as int || !(left <= srcs[j] <= right)) by {
                        if j < srcs0.len() {
                            assert(srcs[j] == srcs0[j]);
                        }
                    }
                    assert(srcs_dead(srcs, st0)) by {
                        assert forall|j: int, k: int|
                            #![trigger srcs[j], st0[k]]
                            0 <= j < srcs.len() && 0 <= k < st0.len() implies !(st0[k].0 <= srcs[j]
                            <= st0[k].1) by {
                            if j < srcs0.len() {
                                assert(srcs[j] == srcs0[j]);
                            }
                        }
                    }
                }
                let c = if axis == 0 {
                    e.0
                } else {
                    e.1
                };
                let axis_q = if axis == 0 {
                    qx
                } else {
                    qy
                };
                let ax_sq = sq_diff_exec(c, axis_q);
                let ghost st_before = stack@;
                let push_left = !(c < axis_q && ax_sq > r2) && m > left;
                let push_right = !(axis_q < c && ax_sq > r2);
                if push_left {
                    stack.push((left, m - 1, 1 - axis));
                }
                let ghost st_mid = stack@;
                if push_right {
                    stack.push((m + 1, right, 1 - axis));
                }
                proof {
                    let mi = m as int;
                    let ax = axis as int;
                    if push_left {
                        lemma_stack_weight_push(st_before, (left, (m - 1) as usize, (1 - axis) as usize));
                    }
                    if push_right {
                        lemma_stack_weight_push(st_mid, ((m + 1) as usize, right, (1 - axis) as usize));
                    }
                    lemma_stack_weight_nonneg(st0);
                    assert forall|k: int| 0 <= k < stack@.len() implies (#[trigger] stack@[k]).0
                        <= stack@[k].1 < nn && stack@[k].2 <= 1 by {
                        if k < st0.len() {
                            assert(stack@[k] == st0[k]);
                        }
                    }
                    // Recorded positions stay outside every waiting range,
                    // and the waiting ranges stay pairwise disjoint.
                    assert forall|j: int, k: int|
                        #![trigger srcs[j], stack@[k]]
                        0 <= j < srcs.len() && 0 <= k < stack@.len() implies !(stack@[k].0
                        <= srcs[j] <= stack@[k].1) by {
                        if k < st0.len() {
                            assert(stack@[k] == st0[k]);
                        } else {
                            if j < srcs0.len() {
                                assert(srcs[j] == srcs0[j]);
                            }
                            if push_left && k == st0.len() {
                                assert(stack@[k] == (left, (m - 1) as usize, (1 - axis) as usize));
                            } else {
                                assert(push_right);
                                assert(k == st_mid.len());
                                assert(stack@[k] == ((m + 1) as usize, right, (1 - axis) as usize));
                            }
                        }
                    }
                    assert(srcs_dead(srcs, stack@));
                    assert forall|k1: int, k2: int|
                        #![trigger stack@[k1], stack@[k2]]
                        0 <= k1 < k2 < stack@.len() implies stack@[k1].1 < stack@[k2].0
                        || stack@[k2].1 < stack@[k1].0 by {
                        if k2 < st0.len() {
                            assert(stack@[k1] == st0[k1]);
                            assert(stack@[k2] == st0[k2]);
                        } else if k1 < st0.len() {
                            assert(stack@[k1] == st0[k1]);
                            if push_left && k2 == st0.len() {
                                assert(stack@[k2] == (left, (m - 1) as usize, (1 - axis) as usize));
                            } else {
                                assert(push_right);
                                assert(k2 == st_mid.len());
                                assert(stack@[k2] == ((m + 1) as usize, right, (1 - axis) as usize));
                            }
                        } else {
                            assert(push_left && push_right);
                            assert(k1 == st0.len() && k2 == st_mid.len());
                            assert(stack@[k1] == (left, (m - 1) as usize, (1 - axis) as usize));
                            assert(stack@[k2] == ((m + 1) as usize, right, (1 - axis) as usize));
                        }
                    }
                    assert(stack_disjoint(stack@));
                    if sorted {
                        assert(kd_sorted_range(entries, left as int, right as int, ax, ns_int));
                        assert(mi == left + (right - left as int) / 2);
                        assert forall|k: int| 0 <= k < stack@.len() implies kd_sorted_range(
                            entries,
                            (#[trigger] stack@[k]).0 as int,
                            stack@[k].1 as int,
                            stack@[k].2 as int,
                            ns_int,
                        ) by {
                            if k < st0.len() {
                                assert(stack@[k] == st0[k]);
                            }
                        }
                        assert forall|i: int|
                            0 <= i < nn && in_circle(
                                #[trigger] entries[i],
                                qx,
                                qy,
                                rr,
                            ) implies result@.contains(entries[i].2) || covered(stack@, i) by {
                            if result@.contains(entries[i].2) {
                            } else if covered(st0, i) {
                                let k = choose|k: int|
                                    0 <= k < st0.len() && (#[trigger] st0[k]).0 <= i <= st0[k].1;
                                assert(stack@[k] == st0[k]);
                                assert(covered(stack@, i));
                            } else if left <= i <= right {
                                if i == mi {
                                    assert(result@.contains(entries[i].2));
                                } else if i < mi {
                                    let p_ax = axis_coord(entries[i], ax);
                                    assert(p_ax <= axis_coord(entries[mi], ax));
                                    // A pruned left half holds no point of
                                    // the circle: its axis coordinates all
                                    // fall short of the query by more than
                                    // the radius.
                                    if c < axis_q && ax_sq > r2 {
                                        lemma_sq_bounds(p_ax - axis_q, c - axis_q);
                                        if ax == 0 {
                                            lemma_sq_bounds(entries[i].1 - qy, 0);
                                        } else {
                                            lemma_sq_bounds(entries[i].0 - qx, 0);
                                        }
                                        assert(dist_sq(entries[i].0, entries[i].1, qx, qy) > rr);
                                        assert(false);
                                    }
                                    assert(left < m);
                                    assert(push_left);
                                    if push_right {
                                        assert(stack@[st_mid.len() as int - 1]
                                            == st_mid[st_mid.len() - 1]);
                                    }
                                    assert(st_mid[st_mid.len() - 1]
                                        == (left, (m - 1) as usize, (1 - axis) as usize));
                                    assert(covered(stack@, i));
                                } else {
                                    let p_ax = axis_coord(entries[i], ax);
                                    assert(axis_coord(entries[mi], ax) <= p_ax);
                                    if axis_q < c && ax_sq > r2 {
                                        lemma_sq_bounds(p_ax - axis_q, c - axis_q);
                                        if ax == 0 {
                                            lemma_sq_bounds(entries[i].1 - qy, 0);
                                        } else {
                                            lemma_sq_bounds(entries[i].0 - qx, 0);
                                        }
                                        assert(dist_sq(entries[i].0, entries[i].1, qx, qy) > rr);
                                        assert(false);
                                    }
                                    assert(push_right);
                                    assert(stack@[stack@.len() - 1]
                                        == ((m + 1) as usize, right, (1 - axis) as usize));
                                    assert(covered(stack@, i));
                                }
                            }
                        }
                    }
                }
            }
        }
        proof {
            if ids_of(entries).no_duplicates() {
                lemma_distinct_sources_distinct_ids(result@, srcs, entries);
            }
        }
        result
    }

    /// Every original index whose point lies within Euclidean distance `r`
    /// of `(qx, qy)`, boundary included: the radius query for a whole-number
    /// radius.
    pub fn within(&self, qx: i32, qy: i32, r: i32) -> (res: Vec<u32>)
        requires
            self.wf(),
            r >= 0,
        ensures
            reported_from_circle(res@, self.spec_entries(), qx, qy, r * r),
            self.spec_metadata().node_size >= 2 && kd_sorted(
                self.spec_entries(),
                self.spec_metadata().node_size as int,
            ) ==> circle_complete(res@, self.spec_entries(), qx, qy, r * r),
            ids_of(self.spec_entries()).no_duplicates() ==> res@.no_duplicates(),
    {
        let r64 = r as u64;
        proof {
            assert((r64 as int) * (r64 as int) <= 0x4000000000000000) by (nonlinear_arith)
                requires
                    r64 <= 0x80000000u64,
            ;
        }
        let r2: u128 = (r64 as u128) * (r64 as u128);
        self.within_sq(qx, qy, r2)
    }
}

/// A point lies inside an axis-aligned box, bounds inclusive.
pub open spec fn in_box(e: Entry, min_x: i32, min_y: i32, max_x: i32, max_y: i32) -> bool {
    min_x <= e.0 <= max_x && min_y <= e.1 <= max_y
}

/// The square of the difference of two coordinates.
pub open spec fn sq_diff(a: i32, b: i32) -> int {
    (a - b) * (a - b)
}

/// Squared Euclidean distance between two points.
pub open spec fn dist_sq(x1: i32, y1: i32, x2: i32, y2: i32) -> int {
    sq_diff(x1, x2) + sq_diff(y1, y2)
}

/// Compute the square of a coordinate difference; it always fits 128 bits.
fn sq_diff_exec(a: i32, b: i32) -> (r: u128)
    ensures
        r as int == sq_diff(a, b),
{
    let d: i64 = a as i64 - b as i64;
    let ad: u64 = if d < 0 {
        (-d) as u64
    } else {
        d as u64
    };
    proof {
        assert((ad as int) * (ad as int) < 0x100000000000000000000000000000000) by (nonlinear_arith)
            requires
                ad <= 0xFFFFFFFFFFFFFFFFu64,
        ;
    }
    let r: u128 = (ad as u128) * (ad as u128);
    proof {
        assert((ad as int) * (ad as int) == (d as int) * (d as int)) by (nonlinear_arith)
            requires
                (ad as int == d as int) || (ad as int == 0 - (d as int)),
        ;
    }
    r
}

/// Compute the squared distance between two points; it always fits 128 bits.
fn dist_sq_exec(x1: i32, y1: i32, x2: i32, y2: i32) -> (r: u128)
    ensures
        r as int == dist_sq(x1, y1, x2, y2),
{
    let sx = sq_diff_exec(x1, x2);
    let sy = sq_diff_exec(y1, y2);
    proof {
        assert(sq_diff(x1, x2) < 0x10000000000000000) by (nonlinear_arith)
            requires
                -0xFFFFFFFF <= x1 - x2 <= 0xFFFFFFFF,
        ;
        assert(sq_diff(y1, y2) < 0x10000000000000000) by (nonlinear_arith)
            requires
                -0xFFFFFFFF <= y1 - y2 <= 0xFFFFFFFF,
        ;
    }
    sx + sy
}

/// A square is never negative, and squares grow with the distance from
/// zero: the facts the radius traversal prunes with.
proof fn lemma_sq_bounds(a: int, b: int)
    ensures
        a * a >= 0,
        0 <= b <= a ==> a * a >= b * b,
        a <= b <= 0 ==> a * a >= b * b,
{
    assert(a * a >= 0) by (nonlinear_arith);
    assert(0 <= b <= a ==> a * a >= b * b) by (nonlinear_arith);
    assert(a <= b <= 0 ==> a * a >= b * b) by (nonlinear_arith);
}

/// A point lies within the circle of squared radius `r2` around a query
/// point, boundary included.
pub open spec fn in_circle(e: Entry, qx: i32, qy: i32, r2: int) -> bool {
    dist_sq(e.0, e.1, qx, qy) <= r2
}

/// Every reported value is the stored original index of some entry inside
/// the box.
pub open spec fn reported_from_box(
    res: Seq<u32>,
    entries: Seq<Entry>,
    min_x: i32,
    min_y: i32,
    max_x: i32,
    max_y: i32,
) -> bool {
    forall|j: int|
        #![trigger res[j]]
        0 <= j < res.len() ==> exists|i: int|
            #![trigger entries[i]]
            0 <= i < entries.len() && in_box(entries[i], min_x, min_y, max_x, max_y) && res[j]
                == entries[i].2
}

/// The stored original index of every entry inside the box is reported.
pub open spec fn box_complete(
    res: Seq<u32>,
    entries: Seq<Entry>,
    min_x: i32,
    min_y: i32,
    max_x: i32,
    max_y: i32,
) -> bool {
    forall|i: int|
        0 <= i < entries.len() && in_box(#[trigger] entries[i], min_x, min_y, max_x, max_y)
            ==> res.contains(entries[i].2)
}

/// Every reported value is the stored original index of some entry within
/// the circle.
pub open spec fn reported_from_circle(
    res: Seq<u32>,
    entries: Seq<Entry>,
    qx: i32,
    qy: i32,
    r2: int,
) -> bool {
    forall|j: int|
        #![trigger res[j]]
        0 <= j < res.len() ==> exists|i: int|
            #![trigger entries[i]]
            0 <= i < entries.len() && in_circle(entries[i], qx, qy, r2) && res[j] == entries[i].2
}

/// The stored original index of every entry within the circle is reported.
pub open spec fn circle_complete(
    res: Seq<u32>,
    entries: Seq<Entry>,
    qx: i32,
    qy: i32,
    r2: int,
) -> bool {
    forall|i: int|
        0 <= i < entries.len() && in_circle(#[trigger] entries[i], qx, qy, r2) ==> res.contains(
            entries[i].2,
        )
}

/// Each reported value is the stored id of the packed position recorded
/// for it.
pub open spec fn results_from(res: Seq<u32>, srcs: Seq<int>, entries: Seq<Entry>) -> bool {
    &&& srcs.len() == res.len()
    &&& forall|j: int|
        0 <= j < srcs.len() ==> 0 <= #[trigger] srcs[j] < entries.len() && res[j]
            == entries[srcs[j]].2
}

/// No packed position is recorded twice.
pub open spec fn srcs_distinct(srcs: Seq<int>) -> bool {
    forall|j1: int, j2: int|
        #![trigger srcs[j1], srcs[j2]]
        0 <= j1 < srcs.len() && 0 <= j2 < srcs.len() && j1 != j2 ==> srcs[j1] != srcs[j2]
}

/// No recorded position still lies in a range waiting on the stack.
pub open spec fn srcs_dead(srcs: Seq<int>, st: Seq<(usize, usize, usize)>) -> bool {
    forall|j: int, k: int|
        #![trigger srcs[j], st[k]]
        0 <= j < srcs.len() && 0 <= k < st.len() ==> !(st[k].0 <= srcs[j] <= st[k].1)
}

/// Ranges waiting on the stack are pairwise disjoint.
pub open spec fn stack_disjoint(st: Seq<(usize, usize, usize)>) -> bool {
    forall|k1: int, k2: int|
        #![trigger st[k1], st[k2]]
        0 <= k1 < k2 < st.len() ==> st[k1].1 < st[k2].0 || st[k2].1 < st[k1].0
}

/// Recording a fresh packed position, one in no waiting range, keeps the
/// record exact, duplicate-free, and dead.
proof fn lemma_record_emit(
    res_old: Seq<u32>,
    res_new: Seq<u32>,
    srcs_old: Seq<int>,
    srcs_new: Seq<int>,
    entries: Seq<Entry>,
    p: int,
    st: Seq<(usize, usize, usize)>,
)
    requires
        results_from(res_old, srcs_old, entries),
        srcs_distinct(srcs_old),
        srcs_dead(srcs_old, st),
        0 <= p < entries.len(),
        res_new == res_old.push(entries[p].2),
        srcs_new == srcs_old.push(p),
        forall|j: int| 0 <= j < srcs_old.len() ==> #[trigger] srcs_old[j] != p,
        forall|k: int| 0 <= k < st.len() ==> !((#[trigger] st[k]).0 <= p <= st[k].1),
    ensures
        results_from(res_new, srcs_new, entries),
        srcs_distinct(srcs_new),
        srcs_dead(srcs_new, st),
{
    assert forall|j: int| 0 <= j < srcs_new.len() implies 0 <= #[trigger] srcs_new[j]
        < entries.len() && res_new[j] == entries[srcs_new[j]].2 by {
        if j < srcs_old.len() {
            assert(srcs_new[j] == srcs_old[j]);
            assert(res_new[j] == res_old[j]);
        } else {
            assert(srcs_new[j] == p);
            assert(res_new[j] == entries[p].2);
        }
    }
    assert forall|j1: int, j2: int|
        #![trigger srcs_new[j1], srcs_new[j2]]
        0 <= j1 < srcs_new.len() && 0 <= j2 < srcs_new.len() && j1 != j2 implies srcs_new[j1]
        != srcs_new[j2] by {
        if j1 < srcs_old.len() && j2 < srcs_old.len() {
            assert(srcs_new[j1] == srcs_old[j1]);
            assert(srcs_new[j2] == srcs_old[j2]);
        } else if j1 < srcs_old.len() {
            assert(srcs_new[j1] == srcs_old[j1]);
            assert(srcs_new[j2] == p);
        } else {
            assert(srcs_new[j1] == p);
            assert(srcs_new[j2] == srcs_old[j2]);
        }
    }
    assert forall|j: int, k: int|
        #![trigger srcs_new[j], st[k]]
        0 <= j < srcs_new.len() && 0 <= k < st.len() implies !(st[k].0 <= srcs_new[j]
        <= st[k].1) by {
        if j < srcs_old.len() {
            assert(srcs_new[j] == srcs_old[j]);
        } else {
            assert(srcs_new[j] == p);
        }
    }
}

/// A duplicate-free record of packed positions reports duplicate-free ids,
/// as long as the stored ids themselves are pairwise distinct.
proof fn lemma_distinct_sources_distinct_ids(res: Seq<u32>, srcs: Seq<int>, entries: Seq<Entry>)
    requires
        results_from(res, srcs, entries),
        srcs_distinct(srcs),
        ids_of(entries).no_duplicates(),
    ensures
        res.no_duplicates(),
{
    assert forall|j1: int, j2: int|
        0 <= j1 < res.len() && 0 <= j2 < res.len() && j1 != j2 implies res[j1] != res[j2] by {
        if res[j1] == res[j2] {
            assert(srcs[j1] != srcs[j2]);
            assert(ids_of(entries)[srcs[j1]] == entries[srcs[j1]].2);
            assert(ids_of(entries)[srcs[j2]] == entries[srcs[j2]].2);
            assert(false);
        }
    }
}

/// A packed position is still waiting on the traversal stack.
pub open spec fn covered(st: Seq<(usize, usize, usize)>, i: int) -> bool {
    exists|k: int| 0 <= k < st.len() && (#[trigger] st[k]).0 <= i <= st[k].1
}

/// Stack entries are ranges of packed positions with an axis bit.
pub open spec fn stack_wf(st: Seq<(usize, usize, usize)>, n: int) -> bool {
    forall|k: int| 0 <= k < st.len() ==> (#[trigger] st[k]).0 <= st[k].1 < n && st[k].2 <= 1
}

/// Every range on the stack is packed for its recorded axis.
pub open spec fn stack_sorted(
    st: Seq<(usize, usize, usize)>,
    entries: Seq<Entry>,
    node_size: int,
) -> bool {
    forall|k: int|
        0 <= k < st.len() ==> kd_sorted_range(
            entries,
            (#[trigger] st[k]).0 as int,
            st[k].1 as int,
            st[k].2 as int,
            node_size,
        )
}

/// Termination measure of the traversal: an oversized range splits into two
/// parts whose weights sum below its own.
pub open spec fn stack_weight(st: Seq<(usize, usize, usize)>) -> int
    decreases st.len(),
{
    if st.len() == 0 {
        0
    } else {
        stack_weight(st.drop_last()) + 2 * (st.last().1 - st.last().0) + 3
    }
}

proof fn lemma_stack_weight_nonneg(st: Seq<(usize, usize, usize)>)
    requires
        forall|k: int| 0 <= k < st.len() ==> (#[trigger] st[k]).0 <= st[k].1,
    ensures
        stack_weight(st) >= 0,
    decreases st.len(),
{
    if st.len() > 0 {
        assert(st[st.len() - 1].0 <= st[st.len() - 1].1);
        lemma_stack_weight_nonneg(st.drop_last());
    }
}

proof fn lemma_stack_weight_push(st: Seq<(usize, usize, usize)>, e: (usize, usize, usize))
    ensures
        stack_weight(st.push(e)) == stack_weight(st) + 2 * (e.1 - e.0) + 3,
{
    assert(st.push(e).drop_last() =~= st);
    assert(st.push(e).last() == e);
}

proof fn lemma_contains_push(s: Seq<u32>, x: u32, y: u32)
    requires
        s.contains(y),
    ensures
        s.push(x).contains(y),
{
    let i = choose|i: int| 0 <= i < s.len() && s[i] == y;
    assert(s.push(x)[i] == y);
}

/// Reporting an entry that lies in the box keeps the result sound, keeps
/// everything already reported, and reports that entry.
proof fn lemma_report_box(
    res_old: Seq<u32>,
    res_new: Seq<u32>,
    entries: Seq<Entry>,
    i: int,
    min_x: i32,
    min_y: i32,
    max_x: i32,
    max_y: i32,
)
    requires
        reported_from_box(res_old, entries, min_x, min_y, max_x, max_y),
        0 <= i < entries.len(),
        in_box(entries[i], min_x, min_y, max_x, max_y),
        res_new == res_old.push(entries[i].2),
    ensures
        reported_from_box(res_new, entries, min_x, min_y, max_x, max_y),
        forall|v: u32| res_old.contains(v) ==> res_new.contains(v),
        res_new.contains(entries[i].2),
{
    assert forall|j: int| #![trigger res_new[j]] 0 <= j < res_new.len() implies exists|t: int|
        #![trigger entries[t]]
        0 <= t < entries.len() && in_box(entries[t], min_x, min_y, max_x, max_y) && res_new[j]
            == entries[t].2 by {
        if j < res_old.len() {
            assert(res_new[j] == res_old[j]);
        } else {
            assert(res_new[j] == entries[i].2);
        }
    }
    assert forall|v: u32| res_old.contains(v) implies res_new.contains(v) by {
        lemma_contains_push(res_old, entries[i].2, v);
    }
    assert(res_new[res_old.len() as int] == entries[i].2);
}

/// Reporting an entry that lies in the circle keeps the result sound, keeps
/// everything already reported, and reports that entry.
proof fn lemma_report_circle(
    res_old: Seq<u32>,
    res_new: Seq<u32>,
    entries: Seq<Entry>,
    i: int,
    qx: i32,
    qy: i32,
    r2: int,
)
    requires
        reported_from_circle(res_old, entries, qx, qy, r2),
        0 <= i < entries.len(),
        in_circle(entries[i], qx, qy, r2),
        res_new == res_old.push(entries[i].2),
    ensures
        reported_from_circle(res_new, entries, qx, qy, r2),
        forall|v: u32| res_old.contains(v) ==> res_new.contains(v),
        res_new.contains(entries[i].2),
{
    assert forall|j: int| #![trigger res_new[j]] 0 <= j < res_new.len() implies exists|t: int|
        #![trigger entries[t]]
        0 <= t < entries.len() && in_circle(entries[t], qx, qy, r2) && res_new[j]
            == entries[t].2 by {
        if j < res_old.len() {
            assert(res_new[j] == res_old[j]);
        } else {
            assert(res_new[j] == entries[i].2);
        }
    }
    assert forall|v: u32| res_old.contains(v) implies res_new.contains(v) by {
        lemma_contains_push(res_old, entries[i].2, v);
    }
    assert(res_new[res_old.len() as int] == entries[i].2);
}

/// Opening an owned tree's buffer as a reference reproduces its metadata
/// and its coordinate and index content exactly.
pub proof fn lemma_ref_reproduces_owned(t: OwnedKDTree, r: KDTreeRef)
    requires
        t.wf(),
        r.wf(),
        r.spec_data() == t.spec_buffer(),
    ensures
        r.spec_metadata() == t.spec_metadata(),
        r.spec_entries() == t.spec_entries(),
{
    let d = t.spec_buffer();
    assert(u16_le_spec(d[2], d[3]) == t.spec_metadata().node_size);
    assert(u32_le_spec(d[4], d[5], d[6], d[7]) == r.spec_metadata().num_items);
}

/// A buffer an owned tree built validates back to exactly the metadata it
/// was built with: opening it as a reference succeeds.
pub proof fn lemma_built_buffer_validates(t: OwnedKDTree)
    requires
        t.wf(),
    ensures
        spec_validate(t.spec_buffer(), CoordType::Int32) == Ok::<KDTreeMetadata, GeoIndexError>(
            t.spec_metadata(),
        ),
{
    let d = t.spec_buffer();
    assert(d[1] == 21);
}

/// Corruption is detected, each kind by its own error: truncating a valid
/// buffer by one byte is a length mismatch, flipping its magic byte is a
/// format error, and flipping its version nibble is a version mismatch.
pub proof fn lemma_corruption_detected(d: Seq<u8>, m: KDTreeMetadata, b: u8, v: u8)
    requires
        spec_valid_buffer(d, m),
        b != MAGIC,
        v <= 15,
        v != VERSION,
    ensures
        spec_validate(d, m.coord_type) == Ok::<KDTreeMetadata, GeoIndexError>(m),
        spec_validate(d.take(d.len() - 1), m.coord_type) == Err::<KDTreeMetadata, GeoIndexError>(
            GeoIndexError::LengthMismatch,
        ),
        spec_validate(d.update(0, b), m.coord_type) == Err::<KDTreeMetadata, GeoIndexError>(
            GeoIndexError::InvalidFormat,
        ),
        spec_validate(
            d.update(1, (16 * v + m.coord_type.spec_tag()) as u8),
            m.coord_type,
        ) == Err::<KDTreeMetadata, GeoIndexError>(GeoIndexError::VersionMismatch),
{
    let tg = m.coord_type.spec_tag();
    assert(tg <= 8);
    let u = d[1];
    assert(u == 16 + tg);
    assert(u / 16 == 1 && u % 16 == tg) by (bit_vector)
        requires
            u == 16 + tg && tg <= 8,
    ;
    // The intact buffer validates to its own metadata.
    assert(spec_validate(d, m.coord_type) == Ok::<KDTreeMetadata, GeoIndexError>(m));
    // One byte shorter: the header still reads the same, but the length no
    // longer matches what the header implies.
    let t = d.take(d.len() - 1);
    if t.len() >= HEADER_SIZE {
        assert(t[0] == d[0] && t[1] == d[1] && t[2] == d[2] && t[3] == d[3] && t[4] == d[4] && t[5]
            == d[5] && t[6] == d[6] && t[7] == d[7]);
        assert(t.len() != m.spec_buffer_length());
    }
    // A flipped magic byte is refused before anything else is read.
    assert(d.update(0, b)[0] == b);
    // A flipped version nibble still carries the right magic and decodes to
    // the flipped version.
    let w = (16 * v + tg) as u8;
    assert(w / 16 == v && w % 16 == tg) by (bit_vector)
        requires
            w == 16 * v + tg && v <= 15 && tg <= 8,
    ;
    assert(d.update(1, w)[0] == d[0]);
    assert(d.update(1, w)[1] == w);
}

/// The stored original indices of a sequence of entries, in packed order.
pub open spec fn ids_of(s: Seq<Entry>) -> Seq<u32> {
    Seq::new(s.len(), |i: int| s[i].2)
}

/// The position-index array of a packed rearrangement of entries that each
/// carry their own insertion index is a permutation of the insertion
/// indices: every original index appears, none twice, and each packed entry
/// is exactly the original entry its stored index names.
pub proof fn lemma_index_permutation(orig: Seq<Entry>, packed: Seq<Entry>)
    requires
        packed.to_multiset() == orig.to_multiset(),
        forall|i: int| 0 <= i < orig.len() ==> (#[trigger] orig[i]).2 as int == i,
    ensures
        packed.len() == orig.len(),
        forall|i: int|
            0 <= i < packed.len() ==> (#[trigger] packed[i]).2 < orig.len() && packed[i] == orig[
                packed[i].2 as int
            ],
        forall|k: int| 0 <= k < orig.len() ==> #[trigger] ids_of(packed).contains(k as u32),
        forall|i: int, j: int|
            0 <= i < packed.len() && 0 <= j < packed.len() && i != j ==> (#[trigger] packed[i]).2
                != (#[trigger] packed[j]).2,
{
    broadcast use vstd::seq_lib::group_to_multiset_ensures;

    let n = orig.len() as int;
    assert(packed.len() == packed.to_multiset().len());
    assert(orig.len() == orig.to_multiset().len());
    assert(packed.subrange(0, n) =~= packed);
    assert(orig.subrange(0, n) =~= orig);
    assert forall|i: int| 0 <= i < packed.len() implies (#[trigger] packed[i]).2 < orig.len()
        && packed[i] == orig[packed[i].2 as int] by {
        let j = lemma_range_value_from(orig, packed, 0, n - 1, i);
    }
    assert forall|k: int| 0 <= k < orig.len() implies #[trigger] ids_of(packed).contains(
        k as u32,
    ) by {
        let j = lemma_range_value_from(packed, orig, 0, n - 1, k);
        assert((packed[j]).2 as int == k);
        assert(ids_of(packed)[j] == k as u32);
    }
    assert forall|i: int, j: int|
        0 <= i < orig.len() && 0 <= j < orig.len() && i != j implies orig[i] != orig[j] by {
        assert(orig[i].2 as int == i);
        assert(orig[j].2 as int == j);
    }
    assert(orig.no_duplicates());
    orig.lemma_multiset_has_no_duplicates();
    packed.lemma_multiset_has_no_duplicates_conv();
    assert forall|i: int, j: int|
        0 <= i < packed.len() && 0 <= j < packed.len() && i != j implies (#[trigger] packed[i]).2
        != (#[trigger] packed[j]).2 by {
        if packed[i].2 == packed[j].2 {
            assert(packed[i] == orig[packed[i].2 as int]);
            assert(packed[j] == orig[packed[j].2 as int]);
            assert(packed[i] == packed[j]);
            assert(false);
        }
    }
}

/// The range query agrees with a brute-force linear scan of the original
/// points: original index `k` is reported exactly when the original point
/// `k` lies in the box.
pub proof fn lemma_range_matches_brute_force(
    orig: Seq<Entry>,
    packed: Seq<Entry>,
    res: Seq<u32>,
    min_x: i32,
    min_y: i32,
    max_x: i32,
    max_y: i32,
    k: int,
)
    requires
        packed.to_multiset() == orig.to_multiset(),
        forall|i: int| 0 <= i < orig.len() ==> (#[trigger] orig[i]).2 as int == i,
        reported_from_box(res, packed, min_x, min_y, max_x, max_y),
        box_complete(res, packed, min_x, min_y, max_x, max_y),
        0 <= k < orig.len(),
    ensures
        res.contains(k as u32) <==> in_box(orig[k], min_x, min_y, max_x, max_y),
{
    broadcast use vstd::seq_lib::group_to_multiset_ensures;

    let n = orig.len() as int;
    assert(packed.len() == packed.to_multiset().len());
    assert(orig.len() == orig.to_multiset().len());
    assert(packed.subrange(0, n) =~= packed);
    assert(orig.subrange(0, n) =~= orig);
    if in_box(orig[k], min_x, min_y, max_x, max_y) {
        let j = lemma_range_value_from(packed, orig, 0, n - 1, k);
        assert(in_box(packed[j], min_x, min_y, max_x, max_y));
        assert(res.contains(packed[j].2));
        assert(packed[j].2 == k as u32);
    }
    if res.contains(k as u32) {
        let j = choose|j: int| 0 <= j < res.len() && res[j] == k as u32;
        assert(res[j] == k as u32);
        let i = choose|i: int|
            0 <= i < packed.len() && in_box(packed[i], min_x, min_y, max_x, max_y) && res[j]
                == packed[i].2;
        let j2 = lemma_range_value_from(orig, packed, 0, n - 1, i);
        assert(packed[i] == orig[j2]);
        assert(orig[j2].2 as int == j2);
        assert(j2 == k);
    }
}

/// The radius query agrees with a brute-force linear scan of the original
/// points: original index `k` is reported exactly when the original point
/// `k` lies within the squared radius, boundary included.
pub proof fn lemma_within_matches_brute_force(
    orig: Seq<Entry>,
    packed: Seq<Entry>,
    res: Seq<u32>,
    qx: i32,
    qy: i32,
    r2: int,
    k: int,
)
    requires
        packed.to_multiset() == orig.to_multiset(),
        forall|i: int| 0 <= i < orig.len() ==> (#[trigger] orig[i]).2 as int == i,
        reported_from_circle(res, packed, qx, qy, r2),
        circle_complete(res, packed, qx, qy, r2),
        0 <= k < orig.len(),
    ensures
        res.contains(k as u32) <==> in_circle(orig[k], qx, qy, r2),
{
    broadcast use vstd::seq_lib::group_to_multiset_ensures;

    let n = orig.len() as int;
    assert(packed.len() == packed.to_multiset().len());
    assert(orig.len() == orig.to_multiset().len());
    assert(packed.subrange(0, n) =~= packed);
    assert(orig.subrange(0, n) =~= orig);
    if in_circle(orig[k], qx, qy, r2) {
        let j = lemma_range_value_from(packed, orig, 0, n - 1, k);
        assert(in_circle(packed[j], qx, qy, r2));
        assert(res.contains(packed[j].2));
        assert(packed[j].2 == k as u32);
    }
    if res.contains(k as u32) {
        let j = choose|j: int| 0 <= j < res.len() && res[j] == k as u32;
        assert(res[j] == k as u32);
        let i = choose|i: int|
            0 <= i < packed.len() && in_circle(packed[i], qx, qy, r2) && res[j] == packed[i].2;
        let j2 = lemma_range_value_from(orig, packed, 0, n - 1, i);
        assert(packed[i] == orig[j2]);
        assert(orig[j2].2 as int == j2);
        assert(j2 == k);
    }
}

} // verus!
