//! Morton codes of centroids, and sorting primitive records by the bits of a
//! key.

use vstd::prelude::*;
use crate::geometry::Bounds3i;
use crate::bvh::common::BVHPrimitiveInfo;
use crate::bvh::partition::{
    lemma_rearranged_same,
    lemma_rearranged_twice,
    lemma_rearranged_widen,
    lemma_swap_rearranges,
    occurs,
    rearranged,
    swap_infos,
    CENTROID_MAX,
    CENTROID_MIN,
};

verus! {

/// The number of cells along each axis into which centroids are sorted for
/// their Morton code.
pub const MORTON_CELLS: u32 = 1024;

/// The number of bits of a Morton code: ten for each axis.
pub const MORTON_BITS: u32 = 30;

/// The number of leading bits of a Morton code that primitives of one treelet
/// share.
pub const TREELET_BITS: u32 = 12;

/// The number of bits of a Morton code below those that a treelet shares:
/// `MORTON_BITS - TREELET_BITS`.
pub const TREELET_SHIFT: u32 = 18;

/// The number of values that the leading bits of a Morton code can take: two
/// to the power of `TREELET_BITS`.
pub const MAX_TREELETS: usize = 4096;

/// The cell of the centroid coordinate `c` among `MORTON_CELLS` equal parts of
/// the stretch from `lo` to `hi`; the last cell also takes `hi` itself, and a
/// stretch without length has the single cell 0.
pub open spec fn cell_of(c: int, lo: int, hi: int) -> int {
    if hi <= lo {
        0
    } else {
        let v = (MORTON_CELLS * (c - lo)) / (hi - lo);
        if v < 0 {
            0
        } else if v >= MORTON_CELLS {
            MORTON_CELLS - 1
        } else {
            v
        }
    }
}

/// The cell of the centroid coordinate `c`.
pub fn morton_cell(c: i64, lo: i64, hi: i64) -> (v: u32)
    requires
        CENTROID_MIN <= c <= CENTROID_MAX,
        CENTROID_MIN <= lo <= CENTROID_MAX,
        CENTROID_MIN <= hi <= CENTROID_MAX,
    ensures
        v == cell_of(c as int, lo as int, hi as int),
        v < MORTON_CELLS,
{
    if hi <= lo {
        return 0;
    }
    let num: i64 = (MORTON_CELLS as i64) * (c - lo);
    let den: i64 = hi - lo;
    if num < 0 {
        proof {
            lemma_negative_ratio(num as int, den as int);
        }
        return 0;
    }
    let q: i64 = num / den;
    proof {
        lemma_ratio_bound(num as int, den as int);
    }
    if q >= MORTON_CELLS as i64 {
        MORTON_CELLS - 1
    } else {
        q as u32
    }
}

/// A negative number divided by a positive one is negative.
proof fn lemma_negative_ratio(num: int, den: int)
    by (nonlinear_arith)
    requires
        num < 0,
        den > 0,
    ensures
        num / den < 0,
{
}

/// A number that is not negative, divided by a positive one, gives a number
/// that is not negative and not larger.
proof fn lemma_ratio_bound(num: int, den: int)
    by (nonlinear_arith)
    requires
        num >= 0,
        den > 0,
    ensures
        0 <= num / den <= num,
{
}

/// The ten low bits of `v`, each moved to three times its place: bit `i`
/// stands at bit `3 * i`, with two clear bits above it.
pub open spec fn spread3(v: u32) -> u32 {
    (v & 0x1) | ((v & 0x2) << 2) | ((v & 0x4) << 4) | ((v & 0x8) << 6) | ((v & 0x10) << 8) | ((v
        & 0x20) << 10) | ((v & 0x40) << 12) | ((v & 0x80) << 14) | ((v & 0x100) << 16) | ((v
        & 0x200) << 18)
}

/// The bits of `x`, `y` and `z` in turn: bit `i` of `x` at bit `3 * i`, that
/// of `y` one above, that of `z` two above.
pub open spec fn interleave(x: u32, y: u32, z: u32) -> u32 {
    (spread3(z) << 2) | (spread3(y) << 1) | spread3(x)
}

/// The ten low bits of `x`, spread to every third bit.
pub fn left_shift3(x: u32) -> (r: u32)
    requires
        x < MORTON_CELLS,
    ensures
        r == spread3(x),
        r <= 0x9249249,
{
    let a = (x | (x << 16)) & 0x30000ff;
    let b = (a | (a << 8)) & 0x300f00f;
    let c = (b | (b << 4)) & 0x30c30c3;
    let r = (c | (c << 2)) & 0x9249249;
    assert(r == spread3(x) && r <= 0x9249249) by (bit_vector)
        requires
            x < 1024,
            a == (x | (x << 16)) & 0x30000ff,
            b == (a | (a << 8)) & 0x300f00f,
            c == (b | (b << 4)) & 0x30c30c3,
            r == (c | (c << 2)) & 0x9249249,
    ;
    r
}

/// The Morton code of the cell `(x, y, z)`.
pub fn encode_morton3(x: u32, y: u32, z: u32) -> (r: u32)
    requires
        x < MORTON_CELLS,
        y < MORTON_CELLS,
        z < MORTON_CELLS,
    ensures
        r == interleave(x, y, z),
        r < 0x4000_0000,
{
    let sx = left_shift3(x);
    let sy = left_shift3(y);
    let sz = left_shift3(z);
    let r = (sz << 2) | (sy << 1) | sx;
    assert(r < 0x4000_0000) by (bit_vector)
        requires
            sx <= 0x9249249,
            sy <= 0x9249249,
            sz <= 0x9249249,
            r == (sz << 2) | (sy << 1) | sx,
    ;
    r
}

/// The Morton code of a record: of the cell of its centroid within the box
/// `cb` of all centroids.
pub open spec fn code_of(info: BVHPrimitiveInfo, cb: Bounds3i) -> u32 {
    interleave(
        cell_of(info.centroid.x as int, cb.p_min.x as int, cb.p_max.x as int) as u32,
        cell_of(info.centroid.y as int, cb.p_min.y as int, cb.p_max.y as int) as u32,
        cell_of(info.centroid.z as int, cb.p_min.z as int, cb.p_max.z as int) as u32,
    )
}

/// The Morton code of a record.
pub fn morton_code(info: &BVHPrimitiveInfo, cb: &Bounds3i) -> (r: u32)
    requires
        info.wf(),
        cb.within(CENTROID_MAX),
    ensures
        r == code_of(*info, *cb),
        r < 0x4000_0000,
{
    let x = morton_cell(info.centroid.x, cb.p_min.x, cb.p_max.x);
    let y = morton_cell(info.centroid.y, cb.p_min.y, cb.p_max.y);
    let z = morton_cell(info.centroid.z, cb.p_min.z, cb.p_max.z);
    encode_morton3(x, y, z)
}

/// Bit `bit` of `k` is clear.
pub open spec fn bit_clear(k: u32, bit: u32) -> bool {
    (k >> bit) & 1 == 0
}

/// Each key is that of the record at its position.
pub open spec fn attached(
    infos: Seq<BVHPrimitiveInfo>,
    keys: Seq<u32>,
    f: spec_fn(BVHPrimitiveInfo) -> u32,
) -> bool {
    &&& keys.len() == infos.len()
    &&& forall|i: int| 0 <= i < keys.len() ==> #[trigger] keys[i] == f(infos[i])
}

/// The keys from `start` up to `end` agree above their low `shift` bits.
pub open spec fn uniform(keys: Seq<u32>, start: int, end: int, shift: u32) -> bool {
    forall|i: int, j: int|
        start <= i < end && start <= j < end ==> (#[trigger] keys[i]) >> shift == (
        #[trigger] keys[j]) >> shift
}

/// No key from `start` up to `end` exceeds a later one above their low `low`
/// bits.
pub open spec fn sorted_above(keys: Seq<u32>, start: int, end: int, low: u32) -> bool {
    forall|i: int, j: int|
        start <= i < j < end ==> (#[trigger] keys[i]) >> low <= (#[trigger] keys[j]) >> low
}

/// Rearranges the records from `start` up to `end`, and their keys with them,
/// so that those whose key has bit `bit` clear come first, and returns the
/// position of the first record whose key has the bit set.
pub fn partition_by_bit(
    infos: &mut Vec<BVHPrimitiveInfo>,
    keys: &mut Vec<u32>,
    start: usize,
    end: usize,
    bit: u32,
    Ghost(f): Ghost<spec_fn(BVHPrimitiveInfo) -> u32>,
) -> (mid: usize)
    requires
        start <= end <= old(infos).len(),
        attached(old(infos)@, old(keys)@, f),
        bit < 32,
    ensures
        start <= mid <= end,
        rearranged(final(infos)@, old(infos)@, start as int, end as int),
        attached(final(infos)@, final(keys)@, f),
        forall|p: int| start <= p < mid ==> bit_clear(#[trigger] final(keys)@[p], bit),
        forall|p: int| mid <= p < end ==> !bit_clear(#[trigger] final(keys)@[p], bit),
{
    let mut i: usize = start;
    let mut j: usize = end;
    proof {
        lemma_rearranged_same(infos@, start as int, end as int);
    }
    while i < j
        invariant
            start <= i <= j <= end <= infos.len(),
            bit < 32,
            attached(infos@, keys@, f),
            rearranged(infos@, old(infos)@, start as int, end as int),
            forall|p: int| start <= p < i ==> bit_clear(#[trigger] keys@[p], bit),
            forall|p: int| j <= p < end ==> !bit_clear(#[trigger] keys@[p], bit),
        decreases j - i,
    {
        if (keys[i] >> bit) & 1 == 0 {
            i = i + 1;
        } else {
            j = j - 1;
            let ghost before = infos@;
            swap_infos(infos, i, j);
            let a = keys[i];
            let b = keys[j];
            keys[i] = b;
            keys[j] = a;
            proof {
                lemma_swap_rearranges(
                    before,
                    infos@,
                    old(infos)@,
                    start as int,
                    end as int,
                    i as int,
                    j as int,
                );
            }
        }
    }
    i
}

/// Two keys that agree above bit `bit` and in bit `bit` agree from bit `bit`
/// on.
proof fn lemma_same_bit(a: u32, b: u32, bit: u32, above: u32)
    by (bit_vector)
    requires
        bit < 31,
        above == bit + 1,
        a >> above == b >> above,
        (a >> bit) & 1 == (b >> bit) & 1,
    ensures
        a >> bit == b >> bit,
{
}

/// Of two keys that agree above bit `bit`, the one with bit `bit` clear is
/// the smaller from bit `bit` on.
proof fn lemma_clear_below_set(a: u32, b: u32, bit: u32, above: u32)
    by (bit_vector)
    requires
        bit < 31,
        above == bit + 1,
        a >> above == b >> above,
        (a >> bit) & 1 == 0,
        (b >> bit) & 1 != 0,
    ensures
        a >> bit < b >> bit,
{
}

/// Keys that are in order from bit `bit` on are in order from a lower bit on.
proof fn lemma_order_kept(a: u32, b: u32, bit: u32, low: u32)
    by (bit_vector)
    requires
        low <= bit < 32,
        a >> bit < b >> bit,
    ensures
        a >> low <= b >> low,
{
}

/// After records were rearranged within a range, each key in the range is a
/// key that stood in the range before.
pub proof fn lemma_keys_drawn(
    infos: Seq<BVHPrimitiveInfo>,
    keys: Seq<u32>,
    old_infos: Seq<BVHPrimitiveInfo>,
    old_keys: Seq<u32>,
    f: spec_fn(BVHPrimitiveInfo) -> u32,
    start: int,
    end: int,
    p: int,
) -> (q: int)
    requires
        rearranged(infos, old_infos, start, end),
        attached(infos, keys, f),
        attached(old_infos, old_keys, f),
        start <= p < end,
    ensures
        start <= q < end,
        keys[p] == old_keys[q],
{
    assert(occurs(old_infos, start, end, infos[p]));
    let q = choose|q: int| start <= q < end && #[trigger] old_infos[q] == infos[p];
    q
}

/// Keys of rearranged records agree above `shift` bits if the keys agreed
/// before.
pub proof fn lemma_uniform_kept(
    infos: Seq<BVHPrimitiveInfo>,
    keys: Seq<u32>,
    old_infos: Seq<BVHPrimitiveInfo>,
    old_keys: Seq<u32>,
    f: spec_fn(BVHPrimitiveInfo) -> u32,
    start: int,
    end: int,
    shift: u32,
)
    requires
        rearranged(infos, old_infos, start, end),
        attached(infos, keys, f),
        attached(old_infos, old_keys, f),
        uniform(old_keys, start, end, shift),
    ensures
        uniform(keys, start, end, shift),
{
    assert forall|i: int, j: int| start <= i < end && start <= j < end implies (
    #[trigger] keys[i]) >> shift == (#[trigger] keys[j]) >> shift by {
        let qi = lemma_keys_drawn(infos, keys, old_infos, old_keys, f, start, end, i);
        let qj = lemma_keys_drawn(infos, keys, old_infos, old_keys, f, start, end, j);
        assert(old_keys[qi] >> shift == old_keys[qj] >> shift);
    }
}

/// After a range of keys that agree above bit `bit` was divided by bit `bit`,
/// each side agrees from bit `bit` on, and the first side lies below the
/// second.
pub proof fn lemma_sides(keys: Seq<u32>, start: int, mid: int, end: int, bit: u32)
    requires
        bit < 31,
        start <= mid <= end,
        uniform(keys, start, end, (bit + 1) as u32),
        forall|p: int| start <= p < mid ==> bit_clear(#[trigger] keys[p], bit),
        forall|p: int| mid <= p < end ==> !bit_clear(#[trigger] keys[p], bit),
    ensures
        uniform(keys, start, mid, bit),
        uniform(keys, mid, end, bit),
        forall|i: int, j: int|
            start <= i < mid && mid <= j < end ==> (#[trigger] keys[i]) >> bit < (
            #[trigger] keys[j]) >> bit,
{
    assert forall|i: int, j: int| start <= i < mid && start <= j < mid implies (
    #[trigger] keys[i]) >> bit == (#[trigger] keys[j]) >> bit by {
        assert(bit_clear(keys[i], bit) && bit_clear(keys[j], bit));
        lemma_same_bit(keys[i], keys[j], bit, (bit + 1) as u32);
    }
    assert forall|i: int, j: int| mid <= i < end && mid <= j < end implies (
    #[trigger] keys[i]) >> bit == (#[trigger] keys[j]) >> bit by {
        assert(!bit_clear(keys[i], bit) && !bit_clear(keys[j], bit));
        lemma_one_bit(keys[i], bit);
        lemma_one_bit(keys[j], bit);
        lemma_same_bit(keys[i], keys[j], bit, (bit + 1) as u32);
    }
    assert forall|i: int, j: int| start <= i < mid && mid <= j < end implies (
    #[trigger] keys[i]) >> bit < (#[trigger] keys[j]) >> bit by {
        assert(bit_clear(keys[i], bit) && !bit_clear(keys[j], bit));
        lemma_clear_below_set(keys[i], keys[j], bit, (bit + 1) as u32);
    }
}

/// A bit is zero or one.
proof fn lemma_one_bit(a: u32, bit: u32)
    by (bit_vector)
    requires
        bit < 32,
    ensures
        (a >> bit) & 1 == 0 || (a >> bit) & 1 == 1,
{
}

/// Sorts the records from `start` up to `end`, and their keys with them, by
/// the bits of their keys from bit `bit` down to bit `low`, dividing the range
/// by one bit after the other.
///
/// The keys of the range agree above bit `bit`.
#[verifier::rlimit(40)]
pub fn sort_by_bits(
    infos: &mut Vec<BVHPrimitiveInfo>,
    keys: &mut Vec<u32>,
    start: usize,
    end: usize,
    bit: u32,
    low: u32,
    Ghost(f): Ghost<spec_fn(BVHPrimitiveInfo) -> u32>,
)
    requires
        start <= end <= old(infos).len(),
        attached(old(infos)@, old(keys)@, f),
        low <= bit < 31,
        uniform(old(keys)@, start as int, end as int, (bit + 1) as u32),
    ensures
        rearranged(final(infos)@, old(infos)@, start as int, end as int),
        attached(final(infos)@, final(keys)@, f),
        sorted_above(final(keys)@, start as int, end as int, low),
    decreases bit - low,
{
    if end - start <= 1 {
        proof {
            lemma_rearranged_same(infos@, start as int, end as int);
        }
        return ;
    }
    let mid = partition_by_bit(infos, keys, start, end, bit, Ghost(f));
    let ghost divided = infos@;
    let ghost divided_keys = keys@;
    proof {
        lemma_uniform_kept(
            divided,
            divided_keys,
            old(infos)@,
            old(keys)@,
            f,
            start as int,
            end as int,
            (bit + 1) as u32,
        );
        lemma_sides(divided_keys, start as int, mid as int, end as int, bit);
    }
    if bit > low {
        sort_by_bits(infos, keys, start, mid, bit - 1, low, Ghost(f));
        let ghost first = infos@;
        let ghost first_keys = keys@;
        proof {
            lemma_rearranged_widen(first, divided, start as int, mid as int, start as int, end as int);
            lemma_keys_unmoved(first, first_keys, divided, divided_keys, f, start as int, mid as int);
        }
        sort_by_bits(infos, keys, mid, end, bit - 1, low, Ghost(f));
        proof {
            lemma_rearranged_widen(infos@, first, mid as int, end as int, start as int, end as int);
            lemma_rearranged_twice(infos@, first, divided, start as int, end as int);
            lemma_rearranged_twice(infos@, divided, old(infos)@, start as int, end as int);
            lemma_keys_unmoved(infos@, keys@, first, first_keys, f, mid as int, end as int);
            assert forall|i: int, j: int| start <= i < j < end implies (#[trigger] keys@[i]) >> low
                <= (#[trigger] keys@[j]) >> low by {
                if j < mid {
                    assert(keys@[i] == first_keys[i] && keys@[j] == first_keys[j]);
                } else if i >= mid {
                } else {
                    assert(keys@[i] == first_keys[i]);
                    let qi = lemma_keys_drawn(
                        first,
                        first_keys,
                        divided,
                        divided_keys,
                        f,
                        start as int,
                        mid as int,
                        i,
                    );
                    let qj = lemma_keys_drawn(
                        infos@,
                        keys@,
                        first,
                        first_keys,
                        f,
                        mid as int,
                        end as int,
                        j,
                    );
                    assert(first_keys[qj] == divided_keys[qj]);
                    assert(divided_keys[qi] >> bit < divided_keys[qj] >> bit);
                    lemma_order_kept(divided_keys[qi], divided_keys[qj], bit, low);
                }
            }
        }
    } else {
        proof {
            lemma_rearranged_twice(infos@, divided, old(infos)@, start as int, end as int);
            assert forall|i: int, j: int| start <= i < j < end implies (#[trigger] keys@[i]) >> low
                <= (#[trigger] keys@[j]) >> low by {
                if j < mid {
                } else if i >= mid {
                } else {
                }
            }
        }
    }
}

/// Keys stay with their records: outside a range in which records were
/// rearranged, the keys are what they were.
pub proof fn lemma_keys_unmoved(
    infos: Seq<BVHPrimitiveInfo>,
    keys: Seq<u32>,
    old_infos: Seq<BVHPrimitiveInfo>,
    old_keys: Seq<u32>,
    f: spec_fn(BVHPrimitiveInfo) -> u32,
    start: int,
    end: int,
)
    requires
        rearranged(infos, old_infos, start, end),
        attached(infos, keys, f),
        attached(old_infos, old_keys, f),
    ensures
        forall|p: int| 0 <= p < keys.len() && !(start <= p < end) ==> #[trigger] keys[p] == old_keys[p],
{
    assert forall|p: int| 0 <= p < keys.len() && !(start <= p < end) implies #[trigger] keys[p]
        == old_keys[p] by {
        assert(infos[p] == old_infos[p]);
    }
}

} // verus!
