use vstd::prelude::*;
use crate::ivec3::IVec3;
use crate::octree::bbs::{IAabb, spec_intersects, spec_cube, spec_contains};
use crate::octree::laws::is_pow2;
use crate::octree::iter_commons::{
    spec_child_origin, cube_in_range, lemma_child_in_range, get_child_origin,
};

verus! {

/// Remainder as Rust's `%` computes it on signed integers: the result takes the sign
/// of the dividend.
pub open spec fn trunc_rem(a: int, b: int) -> int {
    if a >= 0 {
        a % b
    } else {
        -((-a) % b)
    }
}

/// The octant (0..8) that a node-local coordinate falls into, for a node whose
/// children have edge length `half`: bit 0 for x, bit 1 for y, bit 2 for z.
pub open spec fn child_index(x: int, y: int, z: int, half: int) -> int {
    (if x >= half { 1int } else { 0int }) + (if y >= half { 2int } else { 0int }) + (if z
        >= half {
        4int
    } else {
        0int
    })
}

/// The octants that `insert` descends through: at each level the coordinates are
/// reduced to the child's local frame by the remainder.
pub open spec fn insert_path(x: int, y: int, z: int, size: int) -> Seq<int>
    decreases size,
{
    if size <= 1 {
        seq![]
    } else {
        let half = size / 2;
        seq![child_index(x, y, z, half)] + insert_path(
            trunc_rem(x, half),
            trunc_rem(y, half),
            trunc_rem(z, half),
            half,
        )
    }
}

/// The octants that `get` descends through: the coordinates are handed down
/// unchanged, and each level compares them with its own half size (taken as an `i32`).
pub open spec fn get_path(x: int, y: int, z: int, size: int) -> Seq<int>
    decreases size,
{
    if size <= 1 {
        seq![]
    } else {
        let half = size / 2;
        seq![child_index(x, y, z, (half as i32) as int)] + get_path(x, y, z, half)
    }
}

/// A node of an octree. A node either is a leaf, which may hold data, or has
/// exactly eight children, one per octant.
pub struct OctreeNode<T> {
    data: Option<T>,
    children: Option<Vec<OctreeNode<T>>>,
}

/// The data stored at the end of each path in `s`, taken as one sequence in order.
pub closed spec fn seq_all_data<T>(s: Seq<OctreeNode<T>>) -> Seq<T>
    decreases s,
{
    if s.len() == 0 {
        seq![]
    } else {
        seq_all_data(s.drop_last()) + s.last().all_data()
    }
}

/// Every node in `s` is well formed.
pub closed spec fn seq_wf<T>(s: Seq<OctreeNode<T>>) -> bool
    decreases s,
{
    if s.len() == 0 {
        true
    } else {
        seq_wf(s.drop_last()) && s.last().wf()
    }
}

pub proof fn lemma_seq_wf<T>(s: Seq<OctreeNode<T>>)
    ensures
        seq_wf(s) <==> forall|i: int| 0 <= i < s.len() ==> #[trigger] s[i].wf(),
    decreases s.len(),
{
    if s.len() > 0 {
        assert(seq_wf(s) == (seq_wf(s.drop_last()) && s.last().wf()));
        lemma_seq_wf(s.drop_last());
        if forall|i: int| 0 <= i < s.len() ==> #[trigger] s[i].wf() {
            assert forall|i: int| 0 <= i < s.drop_last().len() implies #[trigger] s.drop_last()[i].wf() by {
                assert(s.drop_last()[i] == s[i]);
            }
        }
        if seq_wf(s) {
            assert forall|i: int| 0 <= i < s.len() implies #[trigger] s[i].wf() by {
                if i < s.len() - 1 {
                    assert(s.drop_last()[i] == s[i]);
                }
            }
        }
    }
}

/// Every node in `s` fits a cube of edge `size`.
pub closed spec fn seq_fits<T>(s: Seq<OctreeNode<T>>, size: int) -> bool
    decreases s,
{
    if s.len() == 0 {
        true
    } else {
        seq_fits(s.drop_last(), size) && s.last().fits(size)
    }
}

pub proof fn lemma_seq_fits<T>(s: Seq<OctreeNode<T>>, size: int)
    ensures
        seq_fits(s, size) <==> forall|i: int| 0 <= i < s.len() ==> #[trigger] s[i].fits(size),
    decreases s.len(),
{
    if s.len() > 0 {
        assert(seq_fits(s, size) == (seq_fits(s.drop_last(), size) && s.last().fits(size)));
        lemma_seq_fits(s.drop_last(), size);
        if forall|i: int| 0 <= i < s.len() ==> #[trigger] s[i].fits(size) {
            assert forall|i: int| 0 <= i < s.drop_last().len() implies #[trigger] s.drop_last()[i].fits(size) by {
                assert(s.drop_last()[i] == s[i]);
            }
        }
        if seq_fits(s, size) {
            assert forall|i: int| 0 <= i < s.len() implies #[trigger] s[i].fits(size) by {
                if i < s.len() - 1 {
                    assert(s.drop_last()[i] == s[i]);
                }
            }
        }
    }
}

impl<T> OctreeNode<T> {
    /// Every inner node has exactly eight children.
    pub closed spec fn wf(self) -> bool
        decreases self,
    {
        match self.children {
            None => true,
            Some(ch) => ch@.len() == 8 && seq_wf(ch@),
        }
    }

    /// The node can stand for a cube of edge `size`: only a node of edge two or more
    /// has children, and each child fits half the edge.
    pub closed spec fn fits(self, size: int) -> bool
        decreases self,
    {
        match self.children {
            None => true,
            Some(ch) => size >= 2 && seq_fits(ch@, size / 2),
        }
    }

    /// The children of the node, if it has any.
    pub closed spec fn children_view(self) -> Option<Seq<OctreeNode<T>>> {
        match self.children {
            Some(ch) => Some(ch@),
            None => None,
        }
    }

    pub closed spec fn spec_is_leaf(self) -> bool {
        self.children is None
    }

    /// A leaf that holds nothing.
    pub closed spec fn is_empty_leaf(self) -> bool {
        self.children is None && self.data is None
    }

    /// What a node holds at the end of a path of octant indices: the data of the
    /// node reached, or `None` where the path leaves the tree.
    pub closed spec fn at_path(self, path: Seq<int>) -> Option<T>
        decreases self, path.len(),
    {
        if path.len() == 0 {
            self.data
        } else {
            match self.children {
                None => None,
                Some(ch) => {
                    if 0 <= path[0] < ch@.len() {
                        ch@[path[0]].at_path(path.drop_first())
                    } else {
                        None
                    }
                },
            }
        }
    }

    /// The data held by the leaves below this node, in depth-first order, octant 0 first.
    pub closed spec fn all_data(self) -> Seq<T>
        decreases self,
    {
        match self.children {
            None => match self.data {
                Some(d) => seq![d],
                None => seq![],
            },
            Some(ch) => seq_all_data(ch@),
        }
    }

    pub fn new() -> (r: Self)
        ensures
            r.is_empty_leaf(),
    {
        OctreeNode { data: None, children: None }
    }

    /// An empty leaf is well formed, holds no data and yields `None` on every path.
    pub proof fn lemma_empty_leaf(self)
        requires
            self.is_empty_leaf(),
        ensures
            self.wf(),
            forall|size: int| #[trigger] self.fits(size),
            self.spec_is_leaf(),
            self.all_data() == Seq::<T>::empty(),
            forall|p: Seq<int>| #[trigger] self.at_path(p) is None,
    {
        assert forall|p: Seq<int>| #[trigger] self.at_path(p) is None by {
            reveal_with_fuel(OctreeNode::at_path, 2);
        }
    }

    pub fn is_leaf(&self) -> (r: bool)
        ensures
            r == self.spec_is_leaf(),
    {
        self.children.is_none()
    }

    /// Eight fresh, empty nodes.
    pub fn default_children(&self) -> (r: Vec<OctreeNode<T>>)
        ensures
            r@.len() == 8,
            forall|i: int| 0 <= i < 8 ==> #[trigger] r@[i].is_empty_leaf(),
    {
        let mut v: Vec<OctreeNode<T>> = Vec::new();
        for k in 0..8
            invariant
                v@.len() == k,
                forall|i: int| 0 <= i < k ==> #[trigger] v@[i].is_empty_leaf(),
        {
            v.push(OctreeNode::new());
        }
        v
    }
}

impl<T> OctreeNode<T> {
    /// Stores `data` at the node-local position (x, y, z) of a node of edge length
    /// `size`, creating children on the way down where there are none.
    pub fn insert(&mut self, x: i32, y: i32, z: i32, size: usize, data: T)
        requires
            old(self).wf(),
            1 <= size <= i32::MAX,
            x < size,
            y < size,
            z < size,
        ensures
            final(self).wf(),
            old(self).fits(size as int) ==> final(self).fits(size as int),
            size > 1 ==> !final(self).spec_is_leaf(),
            size == 1 ==> final(self).children_view() == old(self).children_view(),
            insert_shape(*old(self), *final(self), insert_path(x as int, y as int, z as int, size as int)),
            forall|p: Seq<int>|
                #[trigger] final(self).at_path(p) == if p == insert_path(
                    x as int,
                    y as int,
                    z as int,
                    size as int,
                ) {
                    Some(data)
                } else {
                    old(self).at_path(p)
                },
        decreases size,
    {
        if size == 1 {
            self.data = Some(data);
            proof {
                assert forall|p: Seq<int>| #[trigger] self.at_path(p) == if p == insert_path(
                    x as int,
                    y as int,
                    z as int,
                    size as int,
                ) {
                    Some(data)
                } else {
                    old(self).at_path(p)
                } by {
                    if p.len() == 0 {
                        assert(p =~= insert_path(x as int, y as int, z as int, size as int));
                    }
                }
                assert forall|p: Seq<int>| #[trigger] self.leaf_at(p) == old(self).leaf_at(p) by {}
                assert forall|p: Seq<int>| #[trigger] self.inner_at(p) == old(self).inner_at(p) by {}
            }
            return;
        }
        let half = (size / 2) as i32;
        let index = get_child_index(x, y, z, half);
        let ghost before = *self;
        if self.children.is_none() {
            let fresh = self.default_children();
            proof {
                assert forall|i: int| 0 <= i < 8 implies #[trigger] fresh@[i].wf() by {
                    fresh@[i].lemma_empty_leaf();
                }
            }
            proof {
                lemma_seq_wf(fresh@);
                assert forall|i: int| 0 <= i < 8 implies #[trigger] fresh@[i].fits(half as int) by {
                    fresh@[i].lemma_empty_leaf();
                }
                lemma_seq_fits(fresh@, half as int);
            }
            self.children = Some(fresh);
        }
        let ghost mid = *self;
        let mut ch = self.children.take().unwrap();
        proof {
            assert(mid.children == Some(ch));
            lemma_seq_wf(ch@);
            lemma_seq_fits(ch@, half as int);

            assert forall|i: int| 0 <= i < 8 implies #[trigger] ch@[i].wf() && (before.children
                is None ==> ch@[i].is_empty_leaf()) by {
                if before.children is None {
                    ch@[i].lemma_empty_leaf();
                }
            }
        }
        let ghost ch_before = ch@;
        ch[index].insert(x % half, y % half, z % half, half as usize, data);
        self.children = Some(ch);
        proof {
            let ghost ipath = insert_path(x as int, y as int, z as int, size as int);
            let ghost tail = insert_path(
                trunc_rem(x as int, half as int),
                trunc_rem(y as int, half as int),
                trunc_rem(z as int, half as int),
                half as int,
            );
            assert(ipath =~= seq![index as int] + tail);
            assert(ch@ =~= ch_before.update(index as int, ch@[index as int]));
            lemma_insert_shape_step(before, *self, ch_before, index as int, tail);
            assert forall|i: int| 0 <= i < 8 implies #[trigger] ch@[i].wf() by {
                if i != index {
                    assert(ch@[i] == ch_before[i]);
                }
            }
            lemma_seq_wf(ch@);
            if before.fits(size as int) {
                assert forall|i: int| 0 <= i < 8 implies #[trigger] ch@[i].fits(half as int) by {
                    if i != index {
                        assert(ch@[i] == ch_before[i]);
                    }
                }
                lemma_seq_fits(ch@, half as int);
            }
            assert forall|p: Seq<int>| #[trigger] self.at_path(p) == if p == ipath {
                Some(data)
            } else {
                before.at_path(p)
            } by {
                if p.len() == 0 {
                    assert(p != ipath);
                    assert(self.data == before.data);
                } else if p[0] == index as int {
                    assert(self.at_path(p) == ch@[index as int].at_path(p.drop_first()));
                    if p.drop_first() == tail {
                        assert(p =~= seq![index as int] + p.drop_first());
                    } else {
                        assert(p != ipath) by {
                            if p == ipath {
                                assert(p.drop_first() =~= tail);
                            }
                        }
                        if before.children is None {
                            ch_before[index as int].lemma_empty_leaf();
                            assert(before.at_path(p) is None);
                        } else {
                            assert(before.at_path(p) == ch_before[index as int].at_path(
                                p.drop_first(),
                            ));
                        }
                    }
                } else if 0 <= p[0] < 8 {
                    assert(p != ipath);
                    assert(ch@[p[0]] == ch_before[p[0]]);
                    assert(self.at_path(p) == ch@[p[0]].at_path(p.drop_first()));
                    if before.children is None {
                        ch_before[p[0]].lemma_empty_leaf();
                        assert(before.at_path(p) is None);
                    } else {
                        assert(before.at_path(p) == ch_before[p[0]].at_path(p.drop_first()));
                    }
                } else {
                    assert(p != ipath);
                }
            }
        }
    }
}

/// `dst` is a clone of `src`: both absent, or both present with the value cloned.
pub open spec fn opt_cloned<T: Clone>(src: Option<T>, dst: Option<T>) -> bool {
    match (src, dst) {
        (None, None) => true,
        (Some(a), Some(b)) => cloned(a, b),
        _ => false,
    }
}

/// `dst` holds clones of the elements of `src`, in the same order.
pub open spec fn seq_cloned<T: Clone>(src: Seq<T>, dst: Seq<T>) -> bool {
    src.len() == dst.len() && forall|i: int| 0 <= i < src.len() ==> cloned(src[i], #[trigger] dst[i])
}

pub proof fn lemma_seq_cloned_append<T: Clone>(a: Seq<T>, b: Seq<T>, c: Seq<T>, d: Seq<T>)
    requires
        seq_cloned(a, c),
        seq_cloned(b, d),
    ensures
        seq_cloned(a + b, c + d),
{
    assert forall|i: int| 0 <= i < (a + b).len() implies cloned((a + b)[i], #[trigger] (c + d)[i]) by {
        if i < a.len() {
            assert(cloned(a[i], c[i]));
        } else {
            assert(cloned(b[i - a.len()], d[i - a.len()]));
        }
    }
}

/// The data of a node as a sequence: one element for a leaf holding data, none otherwise.
pub open spec fn data_seq<T>(data: Option<T>) -> Seq<T> {
    match data {
        Some(d) => seq![d],
        None => seq![],
    }
}

impl<T: Clone> OctreeNode<T> {
    /// What the node holds at node-local (x, y, z), found along `get_path`.
    fn lookup(&self, x: i32, y: i32, z: i32, size: usize) -> (r: Option<T>)
        requires
            self.wf(),
            size >= 1,
        ensures
            opt_cloned(self.at_path(get_path(x as int, y as int, z as int, size as int)), r),
        decreases size,
    {
        if size == 1 {
            proof {
                assert(get_path(x as int, y as int, z as int, size as int) =~= Seq::<int>::empty());
            }
            return match &self.data {
                Some(d) => Some(d.clone()),
                None => None,
            };
        }
        let half = size / 2;
        let index = get_child_index(x, y, z, half as i32);
        proof {
            let gp = get_path(x as int, y as int, z as int, size as int);
            let tail = get_path(x as int, y as int, z as int, half as int);
            assert(gp =~= seq![index as int] + tail);
            assert(gp.drop_first() =~= tail);
        }
        match &self.children {
            None => None,
            Some(children) => {
                proof {
                    lemma_seq_wf(children@);
                }
                children[index].lookup(x, y, z, half)
            },
        }
    }

    /// What the node holds at node-local (x, y, z). The coordinates are handed down
    /// unchanged while the node size halves, so the lookup follows `get_path`.
    pub fn get(&mut self, x: i32, y: i32, z: i32, size: usize) -> (r: Option<T>)
        requires
            old(self).wf(),
            size >= 1,
        ensures
            *final(self) == *old(self),
            opt_cloned(old(self).at_path(get_path(x as int, y as int, z as int, size as int)), r),
    {
        self.lookup(x, y, z, size)
    }

    /// Appends clones of the data held by the leaves below this node, depth first.
    pub fn traverse_depth_first(&self, res: &mut Vec<T>)
        requires
            self.wf(),
        ensures
            final(res)@.len() == old(res)@.len() + self.all_data().len(),
            final(res)@.subrange(0, old(res)@.len() as int) == old(res)@,
            seq_cloned(self.all_data(), final(res)@.subrange(old(res)@.len() as int, final(res)@.len() as int)),
        decreases self,
    {
        let ghost start = res@;
        match &self.children {
            None => {
                match &self.data {
                    Some(d) => {
                        res.push(d.clone());
                        proof {
                            assert(res@.subrange(0, start.len() as int) =~= start);
                            assert(res@.subrange(start.len() as int, res@.len() as int) =~= seq![res@.last()]);
                        }
                    },
                    None => {
                        proof {
                            assert(res@.subrange(0, start.len() as int) =~= start);
                            assert(res@.subrange(start.len() as int, res@.len() as int) =~= Seq::<T>::empty());
                        }
                    },
                }
            },
            Some(ch) => {
                proof {
                    lemma_seq_wf(ch@);
                }
                let mut i: usize = 0;
                while i < 8
                    invariant
                        0 <= i <= 8,
                        self.children == Some(*ch),
                        ch@.len() == 8,
                        forall|j: int| 0 <= j < 8 ==> #[trigger] ch@[j].wf(),
                        res@.len() == start.len() + seq_all_data(ch@.take(i as int)).len(),
                        res@.subrange(0, start.len() as int) == start,
                        seq_cloned(seq_all_data(ch@.take(i as int)), res@.subrange(start.len() as int, res@.len() as int)),
                    decreases 8 - i,
                {
                    let ghost before = res@;
                    proof {
                        assert(decreases_to!(*self => self.children));
                        assert(decreases_to!(self.children => self.children->0));
                        assert(decreases_to!(*ch => ch@));
                        assert(decreases_to!(ch@ => ch@[i as int]));
                        assert(decreases_to!(*self => ch@[i as int]));
                    }
                    ch[i].traverse_depth_first(res);
                    proof {
                        let prev = seq_all_data(ch@.take(i as int));
                        let cur = ch@[i as int].all_data();
                        assert(ch@.take(i as int + 1).drop_last() =~= ch@.take(i as int));
                        assert(seq_all_data(ch@.take(i as int + 1)) == prev + cur);
                        assert(res@.subrange(0, start.len() as int) =~= before.subrange(0, start.len() as int));
                        assert(before.subrange(start.len() as int, before.len() as int) + res@.subrange(before.len() as int, res@.len() as int)
                            =~= res@.subrange(start.len() as int, res@.len() as int));
                        lemma_seq_cloned_append(prev, cur, before.subrange(start.len() as int, before.len() as int), res@.subrange(before.len() as int, res@.len() as int));
                    }
                    i = i + 1;
                }
                proof {
                    assert(ch@.take(8) =~= ch@);
                }
            },
        }
    }
}

/// The data in the subtrees of the first `n` children (octant order) that meet `region`.
pub closed spec fn children_region_data<T>(
    ch: Seq<OctreeNode<T>>,
    n: int,
    size: int,
    origin: IVec3,
    region: IAabb,
) -> Seq<T>
    decreases ch, n,
{
    if n <= 0 || n > ch.len() {
        seq![]
    } else {
        children_region_data(ch, n - 1, size, origin, region) + ch[n - 1].region_data(
            size / 2,
            spec_child_origin(origin, size, n - 1),
            region,
        )
    }
}

/// As `children_region_data`, with the children taken from the last to the first.
pub closed spec fn children_region_data_rev<T>(
    ch: Seq<OctreeNode<T>>,
    n: int,
    size: int,
    origin: IVec3,
    region: IAabb,
) -> Seq<T>
    decreases ch, n,
{
    if n <= 0 || n > ch.len() {
        seq![]
    } else {
        ch[n - 1].region_data_rev(size / 2, spec_child_origin(origin, size, n - 1), region)
            + children_region_data_rev(ch, n - 1, size, origin, region)
    }
}

/// The corners of the empty leaves below the first `n` children that meet `region`,
/// the children taken from the last to the first.
pub closed spec fn children_empty_leaves<T>(
    ch: Seq<OctreeNode<T>>,
    n: int,
    size: int,
    origin: IVec3,
    region: IAabb,
) -> Seq<IVec3>
    decreases ch, n,
{
    if n <= 0 || n > ch.len() {
        seq![]
    } else {
        ch[n - 1].empty_leaves(size / 2, spec_child_origin(origin, size, n - 1), region)
            + children_empty_leaves(ch, n - 1, size, origin, region)
    }
}

/// The values that a sequence of references points at.
pub open spec fn deref_seq<T>(refs: Seq<&T>) -> Seq<T> {
    refs.map_values(|r: &T| *r)
}

impl<T> OctreeNode<T> {
    /// The data held by the leaves whose cubes meet `region`, for this node standing
    /// for the cube of edge `size` at `origin`; children in octant order.
    pub closed spec fn region_data(self, size: int, origin: IVec3, region: IAabb) -> Seq<T>
        decreases self, 0int,
    {
        if !spec_intersects(spec_cube(origin, size), region) {
            seq![]
        } else {
            match self.children {
                None => data_seq(self.data),
                Some(ch) => children_region_data(ch@, 8, size, origin, region),
            }
        }
    }

    /// As `region_data`, with the children of each node taken from the last to the first.
    pub closed spec fn region_data_rev(self, size: int, origin: IVec3, region: IAabb) -> Seq<T>
        decreases self, 0int,
    {
        if !spec_intersects(spec_cube(origin, size), region) {
            seq![]
        } else {
            match self.children {
                None => data_seq(self.data),
                Some(ch) => children_region_data_rev(ch@, 8, size, origin, region),
            }
        }
    }

    /// The minimum corners of the leaves without data whose cubes meet `region`, the
    /// children of each node taken from the last to the first.
    pub closed spec fn empty_leaves(self, size: int, origin: IVec3, region: IAabb) -> Seq<IVec3>
        decreases self, 0int,
    {
        if !spec_intersects(spec_cube(origin, size), region) {
            seq![]
        } else {
            match self.children {
                None => if self.data is None {
                    seq![origin]
                } else {
                    seq![]
                },
                Some(ch) => children_empty_leaves(ch@, 8, size, origin, region),
            }
        }
    }
}

impl<T: Clone> OctreeNode<T> {
    /// Appends clones of the data held by the leaves whose cubes meet `region`; the node
    /// stands for the cube of edge `size` whose minimum corner is `origin`.
    pub fn query_region_traverse(&self, size: usize, origin: &IVec3, region: &IAabb, res: &mut Vec<T>)
        requires
            self.wf(),
            self.fits(size as int),
            cube_in_range(*origin, size as int),
        ensures
            final(res)@.len() == old(res)@.len() + self.region_data(size as int, *origin, *region).len(),
            final(res)@.subrange(0, old(res)@.len() as int) == old(res)@,
            seq_cloned(
                self.region_data(size as int, *origin, *region),
                final(res)@.subrange(old(res)@.len() as int, final(res)@.len() as int),
            ),
        decreases self,
    {
        let ghost start = res@;
        let current_boundary = IAabb::new(origin, size);
        if !current_boundary.intersects(region) {
            proof {
                assert(res@.subrange(0, start.len() as int) =~= start);
                assert(res@.subrange(start.len() as int, res@.len() as int) =~= Seq::<T>::empty());
            }
            return;
        }
        match &self.children {
            None => {
                match &self.data {
                    Some(d) => {
                        res.push(d.clone());
                        proof {
                            assert(res@.subrange(0, start.len() as int) =~= start);
                            assert(res@.subrange(start.len() as int, res@.len() as int) =~= seq![res@.last()]);
                        }
                    },
                    None => {
                        proof {
                            assert(res@.subrange(0, start.len() as int) =~= start);
                            assert(res@.subrange(start.len() as int, res@.len() as int) =~= Seq::<T>::empty());
                        }
                    },
                }
            },
            Some(ch) => {
                proof {
                    lemma_seq_wf(ch@);
                    lemma_seq_fits(ch@, size as int / 2);
                }
                let mut i: usize = 0;
                while i < 8
                    invariant
                        0 <= i <= 8,
                        self.children == Some(*ch),
                        size >= 2,
                        cube_in_range(*origin, size as int),
                        ch@.len() == 8,
                        forall|j: int| 0 <= j < 8 ==> #[trigger] ch@[j].wf(),
                        forall|j: int| 0 <= j < 8 ==> #[trigger] ch@[j].fits(size as int / 2),
                        res@.len() == start.len() + children_region_data(ch@, i as int, size as int, *origin, *region).len(),
                        res@.subrange(0, start.len() as int) == start,
                        seq_cloned(
                            children_region_data(ch@, i as int, size as int, *origin, *region),
                            res@.subrange(start.len() as int, res@.len() as int),
                        ),
                    decreases 8 - i,
                {
                    let ghost before = res@;
                    proof {
                        lemma_child_in_range(*origin, size as int, i as int);
                        assert(decreases_to!(*self => self.children));
                        assert(decreases_to!(self.children => self.children->0));
                        assert(decreases_to!(*ch => ch@));
                        assert(decreases_to!(ch@ => ch@[i as int]));
                    }
                    let child_origin = get_child_origin(origin, size, i);
                    ch[i].query_region_traverse(size / 2, &child_origin, region, res);
                    proof {
                        let prev = children_region_data(ch@, i as int, size as int, *origin, *region);
                        let cur = ch@[i as int].region_data(size as int / 2, child_origin, *region);
                        assert(children_region_data(ch@, i as int + 1, size as int, *origin, *region) == prev + cur);
                        assert(res@.subrange(0, start.len() as int) =~= before.subrange(0, start.len() as int));
                        assert(before.subrange(start.len() as int, before.len() as int) + res@.subrange(before.len() as int, res@.len() as int)
                            =~= res@.subrange(start.len() as int, res@.len() as int));
                        lemma_seq_cloned_append(prev, cur, before.subrange(start.len() as int, before.len() as int), res@.subrange(before.len() as int, res@.len() as int));
                    }
                    i = i + 1;
                }
            },
        }
    }
}

impl<T> OctreeNode<T> {
    /// Appends references to the data held by the leaves whose cubes meet `region`,
    /// visiting the children of each node from the last to the first.
    pub fn collect_region_refs<'a>(&'a self, size: usize, origin: &IVec3, region: &IAabb, res: &mut Vec<&'a T>)
        requires
            self.wf(),
            self.fits(size as int),
            cube_in_range(*origin, size as int),
        ensures
            final(res)@.len() == old(res)@.len() + self.region_data_rev(size as int, *origin, *region).len(),
            final(res)@.subrange(0, old(res)@.len() as int) == old(res)@,
            deref_seq(final(res)@.subrange(old(res)@.len() as int, final(res)@.len() as int))
                == self.region_data_rev(size as int, *origin, *region),
        decreases self,
    {
        let ghost start = res@;
        let current_boundary = IAabb::new(origin, size);
        if !current_boundary.intersects(region) {
            proof {
                assert(res@.subrange(0, start.len() as int) =~= start);
                assert(deref_seq(res@.subrange(start.len() as int, res@.len() as int)) =~= Seq::<T>::empty());
            }
            return;
        }
        match &self.children {
            None => {
                match &self.data {
                    Some(d) => {
                        res.push(d);
                        proof {
                            assert(res@.subrange(0, start.len() as int) =~= start);
                            assert(deref_seq(res@.subrange(start.len() as int, res@.len() as int)) =~= seq![*d]);
                        }
                    },
                    None => {
                        proof {
                            assert(res@.subrange(0, start.len() as int) =~= start);
                            assert(deref_seq(res@.subrange(start.len() as int, res@.len() as int)) =~= Seq::<T>::empty());
                        }
                    },
                }
            },
            Some(ch) => {
                proof {
                    lemma_seq_wf(ch@);
                    lemma_seq_fits(ch@, size as int / 2);
                }
                let mut k: usize = 8;
                while k > 0
                    invariant
                        0 <= k <= 8,
                        self.children == Some(*ch),
                        size >= 2,
                        cube_in_range(*origin, size as int),
                        ch@.len() == 8,
                        forall|j: int| 0 <= j < 8 ==> #[trigger] ch@[j].wf(),
                        forall|j: int| 0 <= j < 8 ==> #[trigger] ch@[j].fits(size as int / 2),
                        res@.len() >= start.len(),
                        res@.subrange(0, start.len() as int) == start,
                        deref_seq(res@.subrange(start.len() as int, res@.len() as int))
                            + children_region_data_rev(ch@, k as int, size as int, *origin, *region)
                            == children_region_data_rev(ch@, 8, size as int, *origin, *region),
                    decreases k,
                {
                    let ghost before = res@;
                    let i = k - 1;
                    proof {
                        lemma_child_in_range(*origin, size as int, i as int);
                        assert(decreases_to!(*self => self.children));
                        assert(decreases_to!(self.children => self.children->0));
                        assert(decreases_to!(*ch => ch@));
                        assert(decreases_to!(ch@ => ch@[i as int]));
                    }
                    let child_origin = get_child_origin(origin, size, i);
                    ch[i].collect_region_refs(size / 2, &child_origin, region, res);
                    proof {
                        let cur = ch@[i as int].region_data_rev(size as int / 2, child_origin, *region);
                        assert(children_region_data_rev(ch@, k as int, size as int, *origin, *region)
                            == cur + children_region_data_rev(ch@, i as int, size as int, *origin, *region));
                        assert(res@.subrange(0, start.len() as int) =~= before.subrange(0, start.len() as int));
                        assert(res@.subrange(start.len() as int, res@.len() as int) =~= before.subrange(start.len() as int, before.len() as int)
                            + res@.subrange(before.len() as int, res@.len() as int));
                        assert(deref_seq(res@.subrange(start.len() as int, res@.len() as int)) =~=
                            deref_seq(before.subrange(start.len() as int, before.len() as int)) + cur);
                    }
                    k = i;
                }
            },
        }
    }

    /// Appends the minimum corners of the leaves without data whose cubes meet `region`,
    /// visiting the children of each node from the last to the first.
    pub fn collect_empty_leaves(&self, size: usize, origin: &IVec3, region: &IAabb, res: &mut Vec<IVec3>)
        requires
            self.wf(),
            self.fits(size as int),
            cube_in_range(*origin, size as int),
        ensures
            final(res)@ == old(res)@ + self.empty_leaves(size as int, *origin, *region),
        decreases self,
    {
        let ghost start = res@;
        let current_boundary = IAabb::new(origin, size);
        if !current_boundary.intersects(region) {
            proof {
                assert(res@ =~= start + Seq::<IVec3>::empty());
            }
            return;
        }
        match &self.children {
            None => {
                if self.data.is_none() {
                    res.push(*origin);
                } else {
                    proof {
                        assert(res@ =~= start + Seq::<IVec3>::empty());
                    }
                }
            },
            Some(ch) => {
                proof {
                    lemma_seq_wf(ch@);
                    lemma_seq_fits(ch@, size as int / 2);
                }
                let mut k: usize = 8;
                while k > 0
                    invariant
                        0 <= k <= 8,
                        self.children == Some(*ch),
                        size >= 2,
                        cube_in_range(*origin, size as int),
                        ch@.len() == 8,
                        forall|j: int| 0 <= j < 8 ==> #[trigger] ch@[j].wf(),
                        forall|j: int| 0 <= j < 8 ==> #[trigger] ch@[j].fits(size as int / 2),
                        res@.len() >= start.len(),
                        res@.subrange(0, start.len() as int) == start,
                        res@.subrange(start.len() as int, res@.len() as int) + children_empty_leaves(ch@, k as int, size as int, *origin, *region)
                            == children_empty_leaves(ch@, 8, size as int, *origin, *region),
                    decreases k,
                {
                    let ghost before = res@;
                    let i = k - 1;
                    proof {
                        lemma_child_in_range(*origin, size as int, i as int);
                        assert(decreases_to!(*self => self.children));
                        assert(decreases_to!(self.children => self.children->0));
                        assert(decreases_to!(*ch => ch@));
                        assert(decreases_to!(ch@ => ch@[i as int]));
                    }
                    let child_origin = get_child_origin(origin, size, i);
                    ch[i].collect_empty_leaves(size / 2, &child_origin, region, res);
                    proof {
                        let cur = ch@[i as int].empty_leaves(size as int / 2, child_origin, *region);
                        assert(children_empty_leaves(ch@, k as int, size as int, *origin, *region)
                            == cur + children_empty_leaves(ch@, i as int, size as int, *origin, *region));
                        assert(res@.subrange(0, start.len() as int) =~= before.subrange(0, start.len() as int));
                        assert(res@.subrange(start.len() as int, res@.len() as int) =~= before.subrange(start.len() as int, before.len() as int) + cur);
                    }
                    k = i;
                }
                proof {
                    assert(res@ =~= res@.subrange(0, start.len() as int) + res@.subrange(start.len() as int, res@.len() as int));
                }
            },
        }
    }
}

/// When every node after the first holds nothing, the data of the sequence is that of
/// its first node.
proof fn lemma_all_data_first_only<T>(s: Seq<OctreeNode<T>>)
    requires
        s.len() >= 1,
        forall|i: int| 1 <= i < s.len() ==> #[trigger] s[i].is_empty_leaf(),
    ensures
        seq_all_data(s) == s[0].all_data(),
    decreases s.len(),
{
    assert(seq_all_data(s) == seq_all_data(s.drop_last()) + s.last().all_data());
    if s.len() == 1 {
        assert(seq_all_data(s.drop_last()) == Seq::<T>::empty()) by {
            assert(s.drop_last().len() == 0);
        }
        assert(s.last() == s[0]);
        assert(seq_all_data(s) =~= s[0].all_data());
    } else {
        s.last().lemma_empty_leaf();
        assert forall|i: int| 1 <= i < s.drop_last().len() implies #[trigger] s.drop_last()[i].is_empty_leaf() by {
            assert(s.drop_last()[i] == s[i]);
        }
        lemma_all_data_first_only(s.drop_last());
        assert(s.drop_last()[0] == s[0]);
        assert(seq_all_data(s) =~= s[0].all_data());
    }
}

/// When every child after the first holds nothing, a region query over the children
/// only sees the first.
proof fn lemma_region_first_only<T>(ch: Seq<OctreeNode<T>>, n: int, size: int, origin: IVec3, region: IAabb)
    requires
        1 <= n <= ch.len(),
        forall|i: int| 1 <= i < ch.len() ==> #[trigger] ch[i].is_empty_leaf(),
    ensures
        children_region_data(ch, n, size, origin, region)
            == ch[0].region_data(size / 2, spec_child_origin(origin, size, 0), region),
        children_region_data_rev(ch, n, size, origin, region)
            == ch[0].region_data_rev(size / 2, spec_child_origin(origin, size, 0), region),
    decreases n,
{
    if n == 1 {
        assert(children_region_data(ch, 0, size, origin, region) == Seq::<T>::empty());
        assert(children_region_data_rev(ch, 0, size, origin, region) == Seq::<T>::empty());
        assert(children_region_data(ch, 1, size, origin, region) =~= ch[0].region_data(
            size / 2,
            spec_child_origin(origin, size, 0),
            region,
        ));
        assert(children_region_data_rev(ch, 1, size, origin, region) =~= ch[0].region_data_rev(
            size / 2,
            spec_child_origin(origin, size, 0),
            region,
        ));
    } else {
        lemma_region_first_only(ch, n - 1, size, origin, region);
        let c = ch[n - 1];
        let o = spec_child_origin(origin, size, n - 1);
        assert(c.is_empty_leaf());
        assert(c.region_data(size / 2, o, region) =~= Seq::<T>::empty());
        assert(c.region_data_rev(size / 2, o, region) =~= Seq::<T>::empty());
        assert(children_region_data(ch, n, size, origin, region) =~= children_region_data(
            ch,
            n - 1,
            size,
            origin,
            region,
        ));
        assert(children_region_data_rev(ch, n, size, origin, region) =~= children_region_data_rev(
            ch,
            n - 1,
            size,
            origin,
            region,
        ));
    }
}

impl<T> OctreeNode<T> {
    /// A node of twice the edge that holds this node as its first child (the octant at
    /// the minimum corner) and seven empty children.
    pub fn grown(self) -> (r: Self)
        ensures
            self.wf() ==> r.wf(),
            forall|size: int| size >= 1 && #[trigger] self.fits(size) ==> r.fits(2 * size),
            !r.spec_is_leaf(),
            forall|p: Seq<int>|
                #[trigger] r.at_path(p) == if p.len() > 0 && p[0] == 0 {
                    self.at_path(p.drop_first())
                } else {
                    None
                },
            r.all_data() == self.all_data(),
            forall|p: Seq<int>|
                #[trigger] r.leaf_at(p) == if p.len() == 0 {
                    false
                } else if p[0] == 0 {
                    self.leaf_at(p.drop_first())
                } else {
                    p.len() == 1 && 0 < p[0] < 8
                },
            forall|p: Seq<int>|
                #[trigger] r.inner_at(p) == if p.len() == 0 {
                    true
                } else if p[0] == 0 {
                    self.inner_at(p.drop_first())
                } else {
                    false
                },
            forall|size: int, origin: IVec3, region: IAabb|
                #![trigger r.region_data(2 * size, origin, region)]
                #![trigger r.region_data_rev(2 * size, origin, region)]
                cube_in_range(origin, 2 * size) ==> r.region_data(2 * size, origin, region)
                    == self.region_data(size, origin, region) && r.region_data_rev(
                    2 * size,
                    origin,
                    region,
                ) == self.region_data_rev(size, origin, region),
    {
        let holder = OctreeNode::<T>::new();
        let mut children = holder.default_children();
        let ghost fresh = children@;
        let ghost old_root = self;
        children[0] = self;
        let r = OctreeNode { data: None, children: Some(children) };
        proof {
            assert(children@ == fresh.update(0, old_root));
            assert forall|i: int| 1 <= i < 8 implies #[trigger] children@[i].is_empty_leaf() by {
                assert(children@[i] == fresh[i]);
            }
            if old_root.wf() {
                assert forall|i: int| 0 <= i < 8 implies #[trigger] children@[i].wf() by {
                    if i > 0 {
                        children@[i].lemma_empty_leaf();
                    }
                }
                lemma_seq_wf(children@);
            }
            assert forall|size: int| size >= 1 && #[trigger] old_root.fits(size) implies r.fits(2 * size) by {
                assert forall|i: int| 0 <= i < 8 implies #[trigger] children@[i].fits(size) by {
                    if i > 0 {
                        children@[i].lemma_empty_leaf();
                    }
                }
                lemma_seq_fits(children@, size);
                assert((2 * size) / 2 == size);
            }
            assert forall|p: Seq<int>| #[trigger] r.at_path(p) == if p.len() > 0 && p[0] == 0 {
                old_root.at_path(p.drop_first())
            } else {
                None
            } by {
                if p.len() > 0 && p[0] == 0 {
                    assert(children@[0] == old_root);
                    assert(r.at_path(p) == children@[0].at_path(p.drop_first()));
                } else if p.len() > 0 && 0 < p[0] < 8 {
                    children@[p[0]].lemma_empty_leaf();
                    assert(r.at_path(p) == children@[p[0]].at_path(p.drop_first()));
                }
            }
            assert forall|p: Seq<int>|
                #[trigger] r.leaf_at(p) == if p.len() == 0 {
                    false
                } else if p[0] == 0 {
                    old_root.leaf_at(p.drop_first())
                } else {
                    p.len() == 1 && 0 < p[0] < 8
                } by {
                if p.len() > 0 && 0 <= p[0] < 8 {
                    assert(r.leaf_at(p) == children@[p[0]].leaf_at(p.drop_first()));
                    if p[0] > 0 {
                        children@[p[0]].lemma_empty_leaf_shape();
                    }
                }
            }
            assert forall|p: Seq<int>|
                #[trigger] r.inner_at(p) == if p.len() == 0 {
                    true
                } else if p[0] == 0 {
                    old_root.inner_at(p.drop_first())
                } else {
                    false
                } by {
                if p.len() > 0 && 0 <= p[0] < 8 {
                    assert(r.inner_at(p) == children@[p[0]].inner_at(p.drop_first()));
                    if p[0] > 0 {
                        children@[p[0]].lemma_empty_leaf_shape();
                    }
                }
            }
            lemma_all_data_first_only(children@);
            assert forall|size: int, origin: IVec3, region: IAabb|
                #![trigger r.region_data(2 * size, origin, region)]
                #![trigger r.region_data_rev(2 * size, origin, region)]
                cube_in_range(origin, 2 * size) implies r.region_data(2 * size, origin, region)
                    == old_root.region_data(size, origin, region) && r.region_data_rev(
                    2 * size,
                    origin,
                    region,
                ) == old_root.region_data_rev(size, origin, region) by {
                assert(children@[0] == old_root);
                lemma_region_first_only(children@, 8, 2 * size, origin, region);
                assert((2 * size) / 2 == size);
                assert(spec_child_origin(origin, 2 * size, 0) == origin);
                if !spec_intersects(spec_cube(origin, 2 * size), region) {
                    assert(!spec_intersects(spec_cube(origin, size), region));
                }
            }
        }
        r
    }
}

/// The first `n` children, each covered by `region`, yield in a region query exactly
/// their data.
proof fn lemma_children_region_covering_all<T>(
    ch: Seq<OctreeNode<T>>,
    n: int,
    size: int,
    origin: IVec3,
    region: IAabb,
)
    requires
        0 <= n <= ch.len() == 8,
        size >= 2,
        cube_in_range(origin, size),
        spec_contains(region, spec_cube(origin, size)),
        forall|i: int| 0 <= i < 8 ==> #[trigger] ch[i].wf() && ch[i].fits(size / 2),
    ensures
        children_region_data(ch, n, size, origin, region) == seq_all_data(ch.take(n)),
    decreases ch, n,
{
    if n > 0 {
        lemma_children_region_covering_all(ch, n - 1, size, origin, region);
        lemma_child_in_range(origin, size, n - 1);
        let o = spec_child_origin(origin, size, n - 1);
        assert(spec_contains(region, spec_cube(o, size / 2)));
        assert(decreases_to!(ch => ch[n - 1]));
        assert(ch[n - 1].wf() && ch[n - 1].fits(size / 2));
        ch[n - 1].lemma_region_covering_all(size / 2, o, region);
        assert(ch.take(n).drop_last() =~= ch.take(n - 1));
        assert(ch.take(n).last() == ch[n - 1]);
    } else {
        assert(ch.take(0) =~= Seq::<OctreeNode<T>>::empty());
    }
}

impl<T> OctreeNode<T> {
    /// A region query whose region covers the node's whole cube yields all the data of
    /// the node, in depth-first order.
    pub proof fn lemma_region_covering_all(self, size: int, origin: IVec3, region: IAabb)
        requires
            self.wf(),
            self.fits(size),
            cube_in_range(origin, size),
            spec_contains(region, spec_cube(origin, size)),
        ensures
            self.region_data(size, origin, region) == self.all_data(),
        decreases self, 0int,
    {
        assert(spec_intersects(spec_cube(origin, size), region));
        match self.children {
            None => {},
            Some(ch) => {
                lemma_seq_wf(ch@);
                lemma_seq_fits(ch@, size / 2);
                assert(decreases_to!(self => self.children));
                assert(decreases_to!(self.children => ch));
                assert(decreases_to!(ch => ch@));
                lemma_children_region_covering_all(ch@, 8, size, origin, region);
                assert(ch@.take(8) =~= ch@);
            },
        }
    }
}

/// The octant that a node-local coordinate falls into.
pub fn get_child_index(x: i32, y: i32, z: i32, half: i32) -> (r: usize)
    ensures
        r as int == child_index(x as int, y as int, z as int, half as int),
        r < 8,
{
    let mut index: usize = 0;
    if x >= half {
        index = index | 1;
    }
    if y >= half {
        let a = index;
        assert(a <= 1 ==> a | 2 == a + 2) by (bit_vector);
        index = index | 2;
    }
    if z >= half {
        let a = index;
        assert(a <= 3 ==> a | 4 == a + 4) by (bit_vector);
        index = index | 4;
    }
    proof {
        assert(0usize | 1 == 1usize) by (bit_vector);
    }
    index
}

/// The minimum corner of the cube reached by following `path` down from a node of edge
/// `size` whose minimum corner is `origin`.
pub open spec fn path_origin(origin: IVec3, size: int, path: Seq<int>) -> IVec3
    decreases path.len(),
{
    if path.len() == 0 {
        origin
    } else {
        path_origin(spec_child_origin(origin, size, path[0]), size / 2, path.drop_first())
    }
}

/// The edge of the cube `depth` levels below a node of edge `size`.
pub open spec fn path_size(size: int, depth: nat) -> int
    decreases depth,
{
    if depth == 0 {
        size
    } else {
        path_size(size / 2, (depth - 1) as nat)
    }
}

/// The paths, below the first `n` children, of the leaves that a region query yields.
pub closed spec fn children_region_paths<T>(
    ch: Seq<OctreeNode<T>>,
    n: int,
    size: int,
    origin: IVec3,
    region: IAabb,
) -> Seq<Seq<int>>
    decreases ch, n,
{
    if n <= 0 || n > ch.len() {
        seq![]
    } else {
        children_region_paths(ch, n - 1, size, origin, region) + ch[n - 1].region_paths(
            size / 2,
            spec_child_origin(origin, size, n - 1),
            region,
        ).map_values(|p: Seq<int>| seq![n - 1] + p)
    }
}

impl<T> OctreeNode<T> {
    /// The paths of the leaves whose data a region query yields, in the order of
    /// `region_data`.
    pub closed spec fn region_paths(self, size: int, origin: IVec3, region: IAabb) -> Seq<Seq<int>>
        decreases self, 0int,
    {
        if !spec_intersects(spec_cube(origin, size), region) {
            seq![]
        } else {
            match self.children {
                None => if self.data is Some {
                    seq![Seq::<int>::empty()]
                } else {
                    seq![]
                },
                Some(ch) => children_region_paths(ch@, 8, size, origin, region),
            }
        }
    }
}

/// What the region query of the first `n` children yields, path by path.
proof fn lemma_children_region_paths<T>(ch: Seq<OctreeNode<T>>, n: int, size: int, origin: IVec3, region: IAabb)
    requires
        0 <= n <= ch.len() == 8,
        forall|i: int| 0 <= i < 8 ==> #[trigger] ch[i].wf() && ch[i].fits(size / 2),
    ensures
        ({
            let cd = children_region_data(ch, n, size, origin, region);
            let cp = children_region_paths(ch, n, size, origin, region);
            &&& cd.len() == cp.len()
            &&& cp.no_duplicates()
            &&& forall|i: int| 0 <= i < cp.len() ==> {
                &&& (#[trigger] cp[i]).len() >= 1
                &&& 0 <= cp[i][0] < n
                &&& ch[cp[i][0]].at_path(cp[i].drop_first()) == Some(cd[i])
                &&& spec_intersects(
                    spec_cube(
                        path_origin(spec_child_origin(origin, size, cp[i][0]), size / 2, cp[i].drop_first()),
                        path_size(size / 2, (cp[i].len() - 1) as nat),
                    ),
                    region,
                )
            }
        }),
    decreases ch, n,
{
    if n > 0 {
        lemma_children_region_paths(ch, n - 1, size, origin, region);
        let o = spec_child_origin(origin, size, n - 1);
        assert(decreases_to!(ch => ch[n - 1]));
        ch[n - 1].lemma_region_paths(size / 2, o, region);
        let pd = children_region_data(ch, n - 1, size, origin, region);
        let pp = children_region_paths(ch, n - 1, size, origin, region);
        let qd = ch[n - 1].region_data(size / 2, o, region);
        let qp = ch[n - 1].region_paths(size / 2, o, region);
        let mp = qp.map_values(|p: Seq<int>| seq![n - 1] + p);
        let cd = children_region_data(ch, n, size, origin, region);
        let cp = children_region_paths(ch, n, size, origin, region);
        assert(cd == pd + qd);
        assert(cp == pp + mp);
        assert forall|i: int| 0 <= i < cp.len() implies {
            &&& (#[trigger] cp[i]).len() >= 1
            &&& 0 <= cp[i][0] < n
            &&& ch[cp[i][0]].at_path(cp[i].drop_first()) == Some(cd[i])
            &&& spec_intersects(
                spec_cube(
                    path_origin(spec_child_origin(origin, size, cp[i][0]), size / 2, cp[i].drop_first()),
                    path_size(size / 2, (cp[i].len() - 1) as nat),
                ),
                region,
            )
        } by {
            if i < pp.len() {
                assert(cp[i] == pp[i]);
                assert(cd[i] == pd[i]);
            } else {
                let j = i - pp.len();
                assert(cp[i] == mp[j]);
                assert(cd[i] == qd[j]);
                assert(mp[j] == seq![n - 1] + qp[j]);
                assert(cp[i].drop_first() =~= qp[j]);
            }
        }
        assert forall|i: int, j: int| 0 <= i < cp.len() && 0 <= j < cp.len() && i != j implies cp[i] != cp[j] by {
            if i < pp.len() && j < pp.len() {
                assert(cp[i] == pp[i] && cp[j] == pp[j]);
            } else if i >= pp.len() && j >= pp.len() {
                let a = i - pp.len();
                let b = j - pp.len();
                assert(cp[i] == seq![n - 1] + qp[a]);
                assert(cp[j] == seq![n - 1] + qp[b]);
                if cp[i] == cp[j] {
                    assert(cp[i].drop_first() =~= qp[a]);
                    assert(cp[j].drop_first() =~= qp[b]);
                }
            } else {
                assert(cp[i][0] != cp[j][0]);
            }
        }
    }
}

impl<T> OctreeNode<T> {
    /// What a region query yields, path by path: the `i`-th value is what the node holds
    /// at the `i`-th of distinct paths, each of whose cubes meets `region`.
    pub proof fn lemma_region_paths(self, size: int, origin: IVec3, region: IAabb)
        requires
            self.wf(),
            self.fits(size),
        ensures
            ({
                let rd = self.region_data(size, origin, region);
                let rp = self.region_paths(size, origin, region);
                &&& rd.len() == rp.len()
                &&& rp.no_duplicates()
                &&& forall|i: int| 0 <= i < rp.len() ==> {
                    &&& self.at_path(#[trigger] rp[i]) == Some(rd[i])
                    &&& spec_intersects(
                        spec_cube(path_origin(origin, size, rp[i]), path_size(size, rp[i].len())),
                        region,
                    )
                }
            }),
        decreases self, 0int,
    {
        if spec_intersects(spec_cube(origin, size), region) {
            match self.children {
                None => {
                    let rp = self.region_paths(size, origin, region);
                    assert forall|i: int| 0 <= i < rp.len() implies self.at_path(#[trigger] rp[i])
                        == Some(self.region_data(size, origin, region)[i]) by {
                        assert(rp[i] =~= Seq::<int>::empty());
                    }
                },
                Some(ch) => {
                    lemma_seq_wf(ch@);
                    lemma_seq_fits(ch@, size / 2);
                    assert(decreases_to!(self => self.children));
                    assert(decreases_to!(self.children => ch));
                    assert(decreases_to!(ch => ch@));
                    lemma_children_region_paths(ch@, 8, size, origin, region);
                    let rd = self.region_data(size, origin, region);
                    let rp = self.region_paths(size, origin, region);
                    assert forall|i: int| 0 <= i < rp.len() implies {
                        &&& self.at_path(#[trigger] rp[i]) == Some(rd[i])
                        &&& spec_intersects(
                            spec_cube(path_origin(origin, size, rp[i]), path_size(size, rp[i].len())),
                            region,
                        )
                    } by {
                        assert(rp[i].len() >= 1);
                        assert(self.at_path(rp[i]) == ch@[rp[i][0]].at_path(rp[i].drop_first()));
                    }
                },
            }
        }
    }
}

/// The minimum corner of the unit cell at node-local (x, y, z) of a node at `origin`.
pub open spec fn cell_corner(origin: IVec3, x: int, y: int, z: int) -> IVec3 {
    IVec3 { x: (origin.x + x) as i32, y: (origin.y + y) as i32, z: (origin.z + z) as i32 }
}

/// A coordinate of a cube of edge `2 * half`, reduced to the child's frame.
pub proof fn lemma_rem_half(c: int, half: int)
    requires
        half >= 1,
        0 <= c < 2 * half,
    ensures
        trunc_rem(c, half) == if c >= half { c - half } else { c },
{
    if c >= half {
        vstd::arithmetic::div_mod::lemma_fundamental_div_mod_converse(c, half, 1, c - half);
    } else {
        vstd::arithmetic::div_mod::lemma_small_mod(c as nat, half as nat);
    }
}

/// A path of child `k` that a region query yields gives, with `k` in front, a path that
/// the query of the first `n` children yields.
proof fn lemma_children_region_paths_contain<T>(
    ch: Seq<OctreeNode<T>>,
    n: int,
    size: int,
    origin: IVec3,
    region: IAabb,
    k: int,
    q: Seq<int>,
)
    requires
        0 <= k < n <= ch.len(),
        ch[k].region_paths(size / 2, spec_child_origin(origin, size, k), region).contains(q),
    ensures
        children_region_paths(ch, n, size, origin, region).contains(seq![k] + q),
    decreases n,
{
    let pp = children_region_paths(ch, n - 1, size, origin, region);
    let qp = ch[n - 1].region_paths(size / 2, spec_child_origin(origin, size, n - 1), region);
    let mp = qp.map_values(|p: Seq<int>| seq![n - 1] + p);
    let cp = children_region_paths(ch, n, size, origin, region);
    assert(cp == pp + mp);
    if k == n - 1 {
        let j = choose|j: int| 0 <= j < qp.len() && qp[j] == q;
        assert(cp[pp.len() + j] == mp[j]);
    } else {
        lemma_children_region_paths_contain(ch, n - 1, size, origin, region, k, q);
        let j = choose|j: int| 0 <= j < pp.len() && pp[j] == seq![k] + q;
        assert(cp[j] == pp[j]);
    }
}

impl<T> OctreeNode<T> {
    /// In a tree whose edge is a power of two, a cell that holds data and whose unit cube
    /// meets `region` is among the paths that the region query yields.
    pub proof fn lemma_cell_in_region_paths(
        self,
        size: int,
        origin: IVec3,
        x: int,
        y: int,
        z: int,
        region: IAabb,
    )
        requires
            self.wf(),
            self.fits(size),
            is_pow2(size),
            cube_in_range(origin, size),
            0 <= x < size,
            0 <= y < size,
            0 <= z < size,
            self.at_path(insert_path(x, y, z, size)) is Some,
            spec_intersects(spec_cube(cell_corner(origin, x, y, z), 1), region),
        ensures
            self.region_paths(size, origin, region).contains(insert_path(x, y, z, size)),
        decreases self, 0int,
    {
        if size == 1 {
            assert(insert_path(x, y, z, size) =~= Seq::<int>::empty());
            assert(cell_corner(origin, x, y, z) == origin);
            assert(self.children is None);
            assert(self.region_paths(size, origin, region)[0] == insert_path(x, y, z, size));
        } else {
            let half = size / 2;
            assert(is_pow2(half));
            assert(size == 2 * half);
            let idx = child_index(x, y, z, half);
            let xr = trunc_rem(x, half);
            let yr = trunc_rem(y, half);
            let zr = trunc_rem(z, half);
            let tail = insert_path(xr, yr, zr, half);
            assert(insert_path(x, y, z, size) == seq![idx] + tail);
            let ch = self.children->0;
            assert(self.children is Some);
            lemma_seq_wf(ch@);
            lemma_seq_fits(ch@, half);
            assert(0 <= idx < 8);
            assert(self.at_path(seq![idx] + tail) == ch@[idx].at_path((seq![idx] + tail).drop_first()));
            assert((seq![idx] + tail).drop_first() =~= tail);
            lemma_child_in_range(origin, size, idx);
            let o = spec_child_origin(origin, size, idx);
            assert(((half as i32) as int) == half);
            lemma_rem_half(x, half);
            lemma_rem_half(y, half);
            lemma_rem_half(z, half);
            assert(idx % 2 == (if x >= half { 1int } else { 0int }));
            assert((idx / 2) % 2 == (if y >= half { 1int } else { 0int }));
            assert((idx / 4) % 2 == (if z >= half { 1int } else { 0int }));
            assert(cell_corner(o, xr, yr, zr) == cell_corner(origin, x, y, z));
            assert(decreases_to!(self => self.children));
            assert(decreases_to!(self.children => ch));
            assert(decreases_to!(ch => ch@));
            assert(decreases_to!(ch@ => ch@[idx]));
            ch@[idx].lemma_cell_in_region_paths(half, o, xr, yr, zr, region);
            lemma_children_region_paths_contain(ch@, 8, size, origin, region, idx, tail);
            let c = cell_corner(origin, x, y, z);
            assert(spec_intersects(spec_cube(origin, size), region));
        }
    }
}

/// The first `n` children yield the same values in either order of the octants.
proof fn lemma_children_region_rev_multiset<T>(
    ch: Seq<OctreeNode<T>>,
    n: int,
    size: int,
    origin: IVec3,
    region: IAabb,
)
    requires
        0 <= n <= ch.len() == 8,
        forall|i: int| 0 <= i < 8 ==> #[trigger] ch[i].wf(),
    ensures
        children_region_data_rev(ch, n, size, origin, region).to_multiset()
            == children_region_data(ch, n, size, origin, region).to_multiset(),
    decreases ch, n,
{
    broadcast use vstd::multiset::group_multiset_axioms;
    if n > 0 {
        lemma_children_region_rev_multiset(ch, n - 1, size, origin, region);
        let o = spec_child_origin(origin, size, n - 1);
        assert(decreases_to!(ch => ch[n - 1]));
        ch[n - 1].lemma_region_rev_multiset(size / 2, o, region);
        let a = ch[n - 1].region_data_rev(size / 2, o, region);
        let b = children_region_data_rev(ch, n - 1, size, origin, region);
        let c = children_region_data(ch, n - 1, size, origin, region);
        let d = ch[n - 1].region_data(size / 2, o, region);
        vstd::seq_lib::lemma_multiset_commutative(a, b);
        vstd::seq_lib::lemma_multiset_commutative(c, d);
        assert(a.to_multiset().add(b.to_multiset()) =~= c.to_multiset().add(d.to_multiset()));
    }
}

impl<T> OctreeNode<T> {
    /// A region query yields the same values, as often, whichever order the octants
    /// are taken in.
    pub proof fn lemma_region_rev_multiset(self, size: int, origin: IVec3, region: IAabb)
        requires
            self.wf(),
        ensures
            self.region_data_rev(size, origin, region).to_multiset()
                == self.region_data(size, origin, region).to_multiset(),
        decreases self, 0int,
    {
        if spec_intersects(spec_cube(origin, size), region) {
            match self.children {
                None => {},
                Some(ch) => {
                    lemma_seq_wf(ch@);
                    assert(decreases_to!(self => self.children));
                    assert(decreases_to!(self.children => ch));
                    assert(decreases_to!(ch => ch@));
                    lemma_children_region_rev_multiset(ch@, 8, size, origin, region);
                },
            }
        }
    }
}

/// The paths, below the first `n` children taken from the last to the first, of the
/// leaves without data whose cubes meet `region`.
pub closed spec fn children_empty_paths<T>(
    ch: Seq<OctreeNode<T>>,
    n: int,
    size: int,
    origin: IVec3,
    region: IAabb,
) -> Seq<Seq<int>>
    decreases ch, n,
{
    if n <= 0 || n > ch.len() {
        seq![]
    } else {
        ch[n - 1].empty_paths(size / 2, spec_child_origin(origin, size, n - 1), region).map_values(
            |p: Seq<int>| seq![n - 1] + p,
        ) + children_empty_paths(ch, n - 1, size, origin, region)
    }
}

impl<T> OctreeNode<T> {
    /// Whether following `path` from this node ends at a leaf.
    pub closed spec fn leaf_at(self, path: Seq<int>) -> bool
        decreases self, path.len(),
    {
        if path.len() == 0 {
            self.children is None
        } else {
            match self.children {
                None => false,
                Some(ch) => 0 <= path[0] < ch@.len() && ch@[path[0]].leaf_at(path.drop_first()),
            }
        }
    }

    /// Whether following `path` from this node ends at a node with children.
    pub closed spec fn inner_at(self, path: Seq<int>) -> bool
        decreases self, path.len(),
    {
        if path.len() == 0 {
            self.children is Some
        } else {
            match self.children {
                None => false,
                Some(ch) => 0 <= path[0] < ch@.len() && ch@[path[0]].inner_at(path.drop_first()),
            }
        }
    }

    /// An empty leaf is a leaf at the empty path only, and has no node with children.
    pub proof fn lemma_empty_leaf_shape(self)
        requires
            self.is_empty_leaf(),
        ensures
            forall|p: Seq<int>| #[trigger] self.leaf_at(p) == (p.len() == 0),
            forall|p: Seq<int>| !#[trigger] self.inner_at(p),
    {
    }

    /// The paths of the leaves without data whose cubes meet `region`, in the order of
    /// `empty_leaves`.
    pub closed spec fn empty_paths(self, size: int, origin: IVec3, region: IAabb) -> Seq<Seq<int>>
        decreases self, 0int,
    {
        if !spec_intersects(spec_cube(origin, size), region) {
            seq![]
        } else {
            match self.children {
                None => if self.data is None {
                    seq![Seq::<int>::empty()]
                } else {
                    seq![]
                },
                Some(ch) => children_empty_paths(ch@, 8, size, origin, region),
            }
        }
    }
}

/// What the empty-leaf walk of the first `n` children yields, path by path.
proof fn lemma_children_empty_paths<T>(ch: Seq<OctreeNode<T>>, n: int, size: int, origin: IVec3, region: IAabb)
    requires
        0 <= n <= ch.len() == 8,
        forall|i: int| 0 <= i < 8 ==> #[trigger] ch[i].wf(),
    ensures
        ({
            let ce = children_empty_leaves(ch, n, size, origin, region);
            let cp = children_empty_paths(ch, n, size, origin, region);
            &&& ce.len() == cp.len()
            &&& cp.no_duplicates()
            &&& forall|i: int| 0 <= i < cp.len() ==> {
                &&& (#[trigger] cp[i]).len() >= 1
                &&& 0 <= cp[i][0] < n
                &&& ch[cp[i][0]].at_path(cp[i].drop_first()) is None
                &&& ch[cp[i][0]].leaf_at(cp[i].drop_first())
                &&& ce[i] == path_origin(spec_child_origin(origin, size, cp[i][0]), size / 2, cp[i].drop_first())
                &&& spec_intersects(
                    spec_cube(
                        path_origin(spec_child_origin(origin, size, cp[i][0]), size / 2, cp[i].drop_first()),
                        path_size(size / 2, (cp[i].len() - 1) as nat),
                    ),
                    region,
                )
            }
        }),
    decreases ch, n,
{
    if n > 0 {
        lemma_children_empty_paths(ch, n - 1, size, origin, region);
        let o = spec_child_origin(origin, size, n - 1);
        assert(decreases_to!(ch => ch[n - 1]));
        ch[n - 1].lemma_empty_paths(size / 2, o, region);
        let pe = children_empty_leaves(ch, n - 1, size, origin, region);
        let pp = children_empty_paths(ch, n - 1, size, origin, region);
        let qe = ch[n - 1].empty_leaves(size / 2, o, region);
        let qp = ch[n - 1].empty_paths(size / 2, o, region);
        let mp = qp.map_values(|p: Seq<int>| seq![n - 1] + p);
        let ce = children_empty_leaves(ch, n, size, origin, region);
        let cp = children_empty_paths(ch, n, size, origin, region);
        assert(ce == qe + pe);
        assert(cp == mp + pp);
        assert forall|i: int| 0 <= i < cp.len() implies {
            &&& (#[trigger] cp[i]).len() >= 1
            &&& 0 <= cp[i][0] < n
            &&& ch[cp[i][0]].at_path(cp[i].drop_first()) is None
            &&& ch[cp[i][0]].leaf_at(cp[i].drop_first())
            &&& ce[i] == path_origin(spec_child_origin(origin, size, cp[i][0]), size / 2, cp[i].drop_first())
            &&& spec_intersects(
                spec_cube(
                    path_origin(spec_child_origin(origin, size, cp[i][0]), size / 2, cp[i].drop_first()),
                    path_size(size / 2, (cp[i].len() - 1) as nat),
                ),
                region,
            )
        } by {
            if i < mp.len() {
                assert(cp[i] == mp[i]);
                assert(ce[i] == qe[i]);
                assert(mp[i] == seq![n - 1] + qp[i]);
                assert(cp[i].drop_first() =~= qp[i]);
            } else {
                let j = i - mp.len();
                assert(cp[i] == pp[j]);
                assert(ce[i] == pe[j]);
            }
        }
        assert forall|i: int, j: int| 0 <= i < cp.len() && 0 <= j < cp.len() && i != j implies cp[i] != cp[j] by {
            if i >= mp.len() && j >= mp.len() {
                assert(cp[i] == pp[i - mp.len()] && cp[j] == pp[j - mp.len()]);
            } else if i < mp.len() && j < mp.len() {
                assert(cp[i] == seq![n - 1] + qp[i]);
                assert(cp[j] == seq![n - 1] + qp[j]);
                if cp[i] == cp[j] {
                    assert(cp[i].drop_first() =~= qp[i]);
                    assert(cp[j].drop_first() =~= qp[j]);
                }
            } else {
                assert(cp[i][0] != cp[j][0]);
            }
        }
    }
}

impl<T> OctreeNode<T> {
    /// What the empty-leaf walk yields, corner by corner: the `i`-th corner is that of the
    /// cube at the end of the `i`-th of distinct paths, each ending at a leaf that holds
    /// nothing and whose cube meets `region`.
    pub proof fn lemma_empty_paths(self, size: int, origin: IVec3, region: IAabb)
        requires
            self.wf(),
        ensures
            ({
                let el = self.empty_leaves(size, origin, region);
                let ep = self.empty_paths(size, origin, region);
                &&& el.len() == ep.len()
                &&& ep.no_duplicates()
                &&& forall|i: int| 0 <= i < ep.len() ==> {
                    &&& self.at_path(#[trigger] ep[i]) is None
                    &&& self.leaf_at(ep[i])
                    &&& el[i] == path_origin(origin, size, ep[i])
                    &&& spec_intersects(
                        spec_cube(path_origin(origin, size, ep[i]), path_size(size, ep[i].len())),
                        region,
                    )
                }
            }),
        decreases self, 0int,
    {
        if spec_intersects(spec_cube(origin, size), region) {
            match self.children {
                None => {
                    let ep = self.empty_paths(size, origin, region);
                    assert forall|i: int| 0 <= i < ep.len() implies ep[i] =~= Seq::<int>::empty() by {}
                },
                Some(ch) => {
                    lemma_seq_wf(ch@);
                    assert(decreases_to!(self => self.children));
                    assert(decreases_to!(self.children => ch));
                    assert(decreases_to!(ch => ch@));
                    lemma_children_empty_paths(ch@, 8, size, origin, region);
                    let el = self.empty_leaves(size, origin, region);
                    let ep = self.empty_paths(size, origin, region);
                    assert forall|i: int| 0 <= i < ep.len() implies {
                        &&& self.at_path(#[trigger] ep[i]) is None
                        &&& self.leaf_at(ep[i])
                        &&& el[i] == path_origin(origin, size, ep[i])
                        &&& spec_intersects(
                            spec_cube(path_origin(origin, size, ep[i]), path_size(size, ep[i].len())),
                            region,
                        )
                    } by {
                        assert(ep[i].len() >= 1);
                        assert(self.at_path(ep[i]) == ch@[ep[i][0]].at_path(ep[i].drop_first()));
                    }
                },
            }
        }
    }
}

/// `p` is a proper prefix of `ip`: a node that `insert` along `ip` passes through.
pub open spec fn strictly_before(p: Seq<int>, ip: Seq<int>) -> bool {
    p.len() < ip.len() && p == ip.take(p.len() as int)
}

/// `p` is one step below a node that `insert` along `ip` passes through, and not itself
/// such a node: a child that `insert` may have created (the end of `ip` among them).
pub open spec fn beside(p: Seq<int>, ip: Seq<int>) -> bool {
    &&& 1 <= p.len() <= ip.len()
    &&& p.drop_last() == ip.take(p.len() - 1)
    &&& 0 <= p.last() < 8
    &&& !strictly_before(p, ip)
}

/// The shape of `new` after `insert` along `ip` in `old`: every node it passes through
/// has children; a node one step below is a leaf where it was one before or where its
/// parent had no children before (so it was made as an empty leaf); every other path ends
/// at a leaf exactly where it did before; and off the path, nodes have children exactly
/// where they had before.
pub open spec fn insert_shape<T>(old: OctreeNode<T>, new: OctreeNode<T>, ip: Seq<int>) -> bool {
    &&& forall|p: Seq<int>| strictly_before(p, ip) ==> #[trigger] new.inner_at(p)
    &&& forall|p: Seq<int>|
        beside(p, ip) ==> #[trigger] new.leaf_at(p) == (old.leaf_at(p) || !old.inner_at(p.drop_last()))
    &&& forall|p: Seq<int>|
        !strictly_before(p, ip) && !beside(p, ip) ==> #[trigger] new.leaf_at(p) == old.leaf_at(p)
    &&& forall|p: Seq<int>| !strictly_before(p, ip) ==> #[trigger] new.inner_at(p) == old.inner_at(p)
}

/// One level of `insert`: the shape below the child it descends into carries over to
/// the node, whose other children are its old ones or, where it had none, fresh empty
/// leaves.
proof fn lemma_insert_shape_step<T>(
    before: OctreeNode<T>,
    after: OctreeNode<T>,
    ch_before: Seq<OctreeNode<T>>,
    idx: int,
    tail: Seq<int>,
)
    requires
        0 <= idx < 8,
        ch_before.len() == 8,
        before.children is Some ==> before.children->0@ == ch_before,
        before.children is None ==> forall|i: int| 0 <= i < 8 ==> #[trigger] ch_before[i].is_empty_leaf(),
        after.children is Some,
        after.children->0@ == ch_before.update(idx, after.children->0@[idx]),
        insert_shape(ch_before[idx], after.children->0@[idx], tail),
    ensures
        insert_shape(before, after, seq![idx] + tail),
{
    let ip = seq![idx] + tail;
    let ach = after.children->0@;
    let c0 = ch_before[idx];
    let c1 = ach[idx];
    assert(ach.len() == 8);
    assert(ip[0] == idx);
    assert(ip.drop_first() =~= tail);
    if before.children is None {
        assert forall|i: int| 0 <= i < 8 implies #[trigger] ch_before[i].is_empty_leaf() by {}
    }
    assert forall|p: Seq<int>| strictly_before(p, ip) implies #[trigger] after.inner_at(p) by {
        if p.len() > 0 {
            assert(p[0] == ip[0]);
            let q = p.drop_first();
            assert(q =~= tail.take(q.len() as int));
            assert(strictly_before(q, tail));
            assert(c1.inner_at(q));
        }
    }
    assert forall|p: Seq<int>|
        beside(p, ip) implies #[trigger] after.leaf_at(p) == (before.leaf_at(p) || !before.inner_at(p.drop_last())) by {
        let q = p.drop_first();
        if p.len() == 1 {
            assert(p.drop_last() =~= Seq::<int>::empty());
            assert(after.leaf_at(p) == ach[p[0]].leaf_at(q));
            assert(before.children is Some ==> before.leaf_at(p) == ch_before[p[0]].leaf_at(q));
            assert(before.children is Some ==> before.inner_at(p.drop_last()));
            assert(before.children is None ==> !before.inner_at(p.drop_last()));
            if p[0] == idx {
                assert(p =~= ip.take(1));
                assert(tail.len() == 0);
                assert(!strictly_before(q, tail) && !beside(q, tail));
                assert(c1.leaf_at(q) == c0.leaf_at(q));
                assert(after.leaf_at(p) == c1.leaf_at(q));
                assert(before.children is Some ==> before.leaf_at(p) == c0.leaf_at(q));
                if before.children is None {
                    c0.lemma_empty_leaf_shape();
                }
            } else {
                assert(ach[p[0]] == ch_before[p[0]]);
                assert(after.leaf_at(p) == ch_before[p[0]].leaf_at(q));
                assert(before.children is Some ==> before.leaf_at(p) == ch_before[p[0]].leaf_at(q));
                if before.children is None {
                    ch_before[p[0]].lemma_empty_leaf_shape();
                }
            }
        } else {
            assert(p.drop_last()[0] == p[0]);
            assert(ip.take(p.len() - 1)[0] == ip[0]);
            assert(p[0] == ip[0]);
            assert(q.drop_last() =~= p.drop_last().drop_first());
            assert(ip.take(p.len() - 1).drop_first() =~= tail.take(q.len() - 1));
            assert(q.drop_last() =~= tail.take(q.len() - 1));
            assert(!strictly_before(q, tail)) by {
                if strictly_before(q, tail) {
                    assert forall|i: int| 0 <= i < p.len() implies p[i] == ip.take(p.len() as int)[i] by {
                        if i > 0 {
                            assert(p[i] == q[i - 1]);
                            assert(q[i - 1] == tail.take(q.len() as int)[i - 1]);
                        }
                    }
                    assert(p =~= ip.take(p.len() as int));
                }
            }
            assert(q.last() == p.last());
            assert(beside(q, tail));
            assert(p.drop_last() =~= seq![idx] + q.drop_last());
            assert(p.drop_last().drop_first() =~= q.drop_last());
            assert(after.leaf_at(p) == c1.leaf_at(q));
            assert(c1.leaf_at(q) == (c0.leaf_at(q) || !c0.inner_at(q.drop_last())));
            assert(before.children is Some ==> before.leaf_at(p) == c0.leaf_at(q));
            assert(before.children is Some ==> before.inner_at(p.drop_last()) == c0.inner_at(q.drop_last()));
            if before.children is None {
                c0.lemma_empty_leaf_shape();
            }
        }
    }
    assert forall|p: Seq<int>|
        !strictly_before(p, ip) && !beside(p, ip) implies #[trigger] after.leaf_at(p) == before.leaf_at(p) by {
        if p.len() == 0 {
            assert(strictly_before(p, ip)) by {
                assert(p =~= ip.take(0));
            }
        } else if 0 <= p[0] < 8 {
            let q = p.drop_first();
            if p[0] == idx {
                assert(q.len() >= 1) by {
                    if q.len() == 0 {
                        assert(p.drop_last() =~= ip.take(0));
                        if tail.len() > 0 {
                            assert(p =~= ip.take(1));
                        }
                    }
                }
                assert(!strictly_before(q, tail)) by {
                    if strictly_before(q, tail) {
                        assert forall|i: int| 0 <= i < p.len() implies p[i] == ip.take(p.len() as int)[i] by {
                            if i > 0 {
                                assert(p[i] == q[i - 1]);
                                assert(q[i - 1] == tail.take(q.len() as int)[i - 1]);
                            }
                        }
                        assert(p =~= ip.take(p.len() as int));
                    }
                }
                assert(!beside(q, tail)) by {
                    if beside(q, tail) {
                        assert forall|i: int| 0 <= i < p.len() - 1 implies p.drop_last()[i] == ip.take(p.len() - 1)[i] by {
                            if i > 0 {
                                assert(p.drop_last()[i] == q.drop_last()[i - 1]);
                                assert(q.drop_last()[i - 1] == tail.take(q.len() - 1)[i - 1]);
                            }
                        }
                        assert(p.drop_last() =~= ip.take(p.len() - 1));
                        assert(p.last() == q.last());
                    }
                }
                assert(c1.leaf_at(q) == c0.leaf_at(q));
                assert(after.leaf_at(p) == c1.leaf_at(q));
                assert(before.children is Some ==> before.leaf_at(p) == c0.leaf_at(q));
                if before.children is None {
                    c0.lemma_empty_leaf_shape();
                }
            } else {
                assert(ach[p[0]] == ch_before[p[0]]);
                assert(after.leaf_at(p) == ch_before[p[0]].leaf_at(q));
                assert(before.children is Some ==> before.leaf_at(p) == ch_before[p[0]].leaf_at(q));
                if before.children is None {
                    ch_before[p[0]].lemma_empty_leaf_shape();
                    assert(p.len() >= 2) by {
                        if p.len() == 1 {
                            assert(p.drop_last() =~= ip.take(0));
                        }
                    }
                }
            }
        }
    }
    assert forall|p: Seq<int>| !strictly_before(p, ip) implies #[trigger] after.inner_at(p) == before.inner_at(p) by {
        if p.len() == 0 {
            assert(p =~= ip.take(0));
        } else if 0 <= p[0] < 8 {
            let q = p.drop_first();
            if p[0] == idx {
                assert(!strictly_before(q, tail)) by {
                    if strictly_before(q, tail) {
                        assert forall|i: int| 0 <= i < p.len() implies p[i] == ip.take(p.len() as int)[i] by {
                            if i > 0 {
                                assert(p[i] == q[i - 1]);
                                assert(q[i - 1] == tail.take(q.len() as int)[i - 1]);
                            }
                        }
                        assert(p =~= ip.take(p.len() as int));
                    }
                }
                assert(c1.inner_at(q) == c0.inner_at(q));
                assert(after.inner_at(p) == c1.inner_at(q));
                assert(before.children is Some ==> before.inner_at(p) == c0.inner_at(q));
                if before.children is None {
                    c0.lemma_empty_leaf_shape();
                }
            } else {
                assert(ach[p[0]] == ch_before[p[0]]);
                assert(after.inner_at(p) == ch_before[p[0]].inner_at(q));
                assert(before.children is Some ==> before.inner_at(p) == ch_before[p[0]].inner_at(q));
                if before.children is None {
                    ch_before[p[0]].lemma_empty_leaf_shape();
                }
            }
        }
    }
}

/// A path of child `k` that the empty-leaf walk yields gives, with `k` in front, a path
/// that the walk of the first `n` children yields.
proof fn lemma_children_empty_paths_contain<T>(
    ch: Seq<OctreeNode<T>>,
    n: int,
    size: int,
    origin: IVec3,
    region: IAabb,
    k: int,
    q: Seq<int>,
)
    requires
        0 <= k < n <= ch.len(),
        ch[k].empty_paths(size / 2, spec_child_origin(origin, size, k), region).contains(q),
    ensures
        children_empty_paths(ch, n, size, origin, region).contains(seq![k] + q),
    decreases n,
{
    let pp = children_empty_paths(ch, n - 1, size, origin, region);
    let qp = ch[n - 1].empty_paths(size / 2, spec_child_origin(origin, size, n - 1), region);
    let mp = qp.map_values(|p: Seq<int>| seq![n - 1] + p);
    let cp = children_empty_paths(ch, n, size, origin, region);
    assert(cp == mp + pp);
    if k == n - 1 {
        let j = choose|j: int| 0 <= j < qp.len() && qp[j] == q;
        assert(cp[j] == mp[j]);
    } else {
        lemma_children_empty_paths_contain(ch, n - 1, size, origin, region, k, q);
        let j = choose|j: int| 0 <= j < pp.len() && pp[j] == seq![k] + q;
        assert(cp[mp.len() + j] == pp[j]);
    }
}

impl<T> OctreeNode<T> {
    /// Every leaf holding nothing whose cube meets `region` is among the paths the
    /// empty-leaf walk yields; and its cube lies in the node's, which then meets `region`.
    pub proof fn lemma_empty_paths_complete(self, size: int, origin: IVec3, region: IAabb, p: Seq<int>)
        requires
            self.wf(),
            self.fits(size),
            cube_in_range(origin, size),
            self.leaf_at(p),
            self.at_path(p) is None,
            spec_intersects(spec_cube(path_origin(origin, size, p), path_size(size, p.len())), region),
        ensures
            spec_intersects(spec_cube(origin, size), region),
            self.empty_paths(size, origin, region).contains(p),
        decreases self, 0int,
    {
        if p.len() == 0 {
            assert(self.empty_paths(size, origin, region)[0] == p);
        } else {
            let ch = self.children->0;
            lemma_seq_wf(ch@);
            lemma_seq_fits(ch@, size / 2);
            let k = p[0];
            let q = p.drop_first();
            lemma_child_in_range(origin, size, k);
            let o = spec_child_origin(origin, size, k);
            assert(decreases_to!(self => self.children));
            assert(decreases_to!(self.children => ch));
            assert(decreases_to!(ch => ch@));
            assert(decreases_to!(ch@ => ch@[k]));
            ch@[k].lemma_empty_paths_complete(size / 2, o, region, q);
            assert(((size / 2) as i32) as int == size / 2);
            assert(spec_intersects(spec_cube(origin, size), region));
            lemma_children_empty_paths_contain(ch@, 8, size, origin, region, k, q);
            assert(seq![k] + q =~= p);
        }
    }

    /// Every leaf holding data whose cube meets `region` is among the paths a region
    /// query yields; and its cube lies in the node's, which then meets `region`.
    pub proof fn lemma_region_paths_complete(self, size: int, origin: IVec3, region: IAabb, p: Seq<int>)
        requires
            self.wf(),
            self.fits(size),
            cube_in_range(origin, size),
            self.leaf_at(p),
            self.at_path(p) is Some,
            spec_intersects(spec_cube(path_origin(origin, size, p), path_size(size, p.len())), region),
        ensures
            spec_intersects(spec_cube(origin, size), region),
            self.region_paths(size, origin, region).contains(p),
        decreases self, 0int,
    {
        if p.len() == 0 {
            assert(self.region_paths(size, origin, region)[0] == p);
        } else {
            let ch = self.children->0;
            lemma_seq_wf(ch@);
            lemma_seq_fits(ch@, size / 2);
            let k = p[0];
            let q = p.drop_first();
            lemma_child_in_range(origin, size, k);
            let o = spec_child_origin(origin, size, k);
            assert(decreases_to!(self => self.children));
            assert(decreases_to!(self.children => ch));
            assert(decreases_to!(ch => ch@));
            assert(decreases_to!(ch@ => ch@[k]));
            ch@[k].lemma_region_paths_complete(size / 2, o, region, q);
            assert(((size / 2) as i32) as int == size / 2);
            assert(spec_intersects(spec_cube(origin, size), region));
            lemma_children_region_paths_contain(ch@, 8, size, origin, region, k, q);
            assert(seq![k] + q =~= p);
        }
    }
}

} // verus!
