use vstd::prelude::*;
use crate::octree::node::{OctreeNode, insert_path, get_path, child_index, trunc_rem, lemma_rem_half};

verus! {

/// `n` is a power of two.
pub open spec fn is_pow2(n: int) -> bool
    decreases n,
{
    if n <= 0 {
        false
    } else if n == 1 {
        true
    } else {
        n % 2 == 0 && is_pow2(n / 2)
    }
}

/// Of two powers of two, the smaller is at most half the larger.
proof fn lemma_pow2_gap(a: int, b: int)
    requires
        is_pow2(a),
        is_pow2(b),
        a < b,
    ensures
        2 * a <= b,
    decreases b,
{
    if b > 1 {
        if a == 1 {
        } else {
            lemma_pow2_gap(a / 2, b / 2);
        }
    }
}

/// When each coordinate of one position either equals the other's or both are at least
/// half the edge, `get` descends the same way from both.
proof fn lemma_get_path_saturated(x1: int, y1: int, z1: int, x2: int, y2: int, z2: int, size: int)
    requires
        1 <= size <= i32::MAX,
        is_pow2(size),
        x1 == x2 || (x1 >= size / 2 && x2 >= size / 2),
        y1 == y2 || (y1 >= size / 2 && y2 >= size / 2),
        z1 == z2 || (z1 >= size / 2 && z2 >= size / 2),
    ensures
        get_path(x1, y1, z1, size) == get_path(x2, y2, z2, size),
    decreases size,
{
    if size > 1 {
        let half = size / 2;
        assert(((half as i32) as int) == half);
        assert(child_index(x1, y1, z1, half) == child_index(x2, y2, z2, half));
        lemma_get_path_saturated(x1, y1, z1, x2, y2, z2, half);
    }
}

/// A coordinate whose successor is a power of two, reduced by half the edge, is again
/// such a coordinate, and `get` cannot tell the two apart below that level.
proof fn lemma_reduce_all_ones(c: int, size: int)
    requires
        2 <= size,
        is_pow2(size),
        0 <= c < size,
        is_pow2(c + 1),
    ensures
        is_pow2(c % (size / 2) + 1),
        0 <= c % (size / 2) < size / 2,
        c == c % (size / 2) || (c >= size / 4 && c % (size / 2) >= size / 4),
{
    let half = size / 2;
    assert(size == 2 * half);
    assert(half / 2 == size / 4);
    if c >= half {
        if c + 1 < size {
            lemma_pow2_gap(c + 1, size);
        }
        assert(c == size - 1);
        vstd::arithmetic::div_mod::lemma_fundamental_div_mod_converse(c, half, 1, half - 1);
        assert(c % half == half - 1);
        assert(is_pow2(half));
    } else {
        vstd::arithmetic::div_mod::lemma_small_mod(c as nat, half as nat);
    }
}

/// For an edge that is a power of two, `insert` and `get` descend through the same
/// octants wherever every coordinate is one less than a power of two (0, 1, 3, 7, ...).
pub proof fn lemma_paths_agree(x: int, y: int, z: int, size: int)
    requires
        1 <= size <= i32::MAX,
        is_pow2(size),
        0 <= x < size,
        0 <= y < size,
        0 <= z < size,
        is_pow2(x + 1),
        is_pow2(y + 1),
        is_pow2(z + 1),
    ensures
        insert_path(x, y, z, size) == get_path(x, y, z, size),
    decreases size,
{
    if size > 1 {
        let half = size / 2;
        assert(is_pow2(half));
        lemma_reduce_all_ones(x, size);
        lemma_reduce_all_ones(y, size);
        lemma_reduce_all_ones(z, size);
        assert(trunc_rem(x, half) == x % half);
        assert(trunc_rem(y, half) == y % half);
        assert(trunc_rem(z, half) == z % half);
        lemma_paths_agree(x % half, y % half, z % half, half);
        assert(half / 2 == size / 4);
        lemma_get_path_saturated(x % half, y % half, z % half, x, y, z, half);
        assert(((half as i32) as int) == half);
        let tail = insert_path(x % half, y % half, z % half, half);
        assert(insert_path(x, y, z, size) == seq![child_index(x, y, z, half)] + tail);
        assert(get_path(x, y, z, size) == seq![child_index(x, y, z, half)] + get_path(x, y, z, half));
    }
}

/// What a read gives back of a write: after `insert` has stored `data` at (x, y, z) in a
/// node of edge `size`, `get` at the same position finds `data`, wherever `insert` and
/// `get` descend through the same octants (see `lemma_paths_agree`).
pub proof fn lemma_get_after_insert<T>(
    before: OctreeNode<T>,
    after: OctreeNode<T>,
    x: int,
    y: int,
    z: int,
    size: int,
    data: T,
)
    requires
        forall|p: Seq<int>|
            #[trigger] after.at_path(p) == if p == insert_path(x, y, z, size) {
                Some(data)
            } else {
                before.at_path(p)
            },
        get_path(x, y, z, size) == insert_path(x, y, z, size),
    ensures
        after.at_path(get_path(x, y, z, size)) == Some(data),
{
    assert(after.at_path(insert_path(x, y, z, size)) == Some(data));
}

/// A write leaves every other position alone: after `insert` at (x, y, z), what `get`
/// finds at a position whose octants differ from those `insert` went through is what
/// it found there before.
pub proof fn lemma_get_elsewhere_after_insert<T>(
    before: OctreeNode<T>,
    after: OctreeNode<T>,
    x: int,
    y: int,
    z: int,
    size: int,
    data: T,
    a: int,
    b: int,
    c: int,
)
    requires
        forall|p: Seq<int>|
            #[trigger] after.at_path(p) == if p == insert_path(x, y, z, size) {
                Some(data)
            } else {
                before.at_path(p)
            },
        get_path(a, b, c, size) != insert_path(x, y, z, size),
    ensures
        after.at_path(get_path(a, b, c, size)) == before.at_path(get_path(a, b, c, size)),
{
    assert(after.at_path(get_path(a, b, c, size)) == before.at_path(get_path(a, b, c, size)));
}

/// For an edge that is a power of two, distinct cells of the cube are stored along
/// distinct paths, so an insert at one cell never changes what another cell holds.
pub proof fn lemma_insert_paths_distinct(
    x1: int,
    y1: int,
    z1: int,
    x2: int,
    y2: int,
    z2: int,
    size: int,
)
    requires
        is_pow2(size),
        0 <= x1 < size,
        0 <= y1 < size,
        0 <= z1 < size,
        0 <= x2 < size,
        0 <= y2 < size,
        0 <= z2 < size,
        insert_path(x1, y1, z1, size) == insert_path(x2, y2, z2, size),
    ensures
        x1 == x2 && y1 == y2 && z1 == z2,
    decreases size,
{
    if size > 1 {
        let half = size / 2;
        assert(is_pow2(half));
        assert(size == 2 * half);
        lemma_rem_half(x1, half);
        lemma_rem_half(y1, half);
        lemma_rem_half(z1, half);
        lemma_rem_half(x2, half);
        lemma_rem_half(y2, half);
        lemma_rem_half(z2, half);
        let t1 = insert_path(trunc_rem(x1, half), trunc_rem(y1, half), trunc_rem(z1, half), half);
        let t2 = insert_path(trunc_rem(x2, half), trunc_rem(y2, half), trunc_rem(z2, half), half);
        let p1 = seq![child_index(x1, y1, z1, half)] + t1;
        let p2 = seq![child_index(x2, y2, z2, half)] + t2;
        assert(p1[0] == p2[0]);
        assert(p1.drop_first() =~= t1);
        assert(p2.drop_first() =~= t2);
        lemma_insert_paths_distinct(
            trunc_rem(x1, half),
            trunc_rem(y1, half),
            trunc_rem(z1, half),
            trunc_rem(x2, half),
            trunc_rem(y2, half),
            trunc_rem(z2, half),
            half,
        );
    }
}

} // verus!
