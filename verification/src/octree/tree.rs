use vstd::prelude::*;
use crate::ivec3::IVec3;
use crate::octree::bbs::{IAabb, spec_cube, cube_fits, spec_contains, spec_intersects};
use crate::octree::iter_commons::cube_in_range;
use crate::octree::laws::is_pow2;
use crate::octree::node::{OctreeNode, insert_path, strictly_before, beside, seq_cloned, deref_seq, path_origin, path_size, cell_corner};

verus! {

/// A sparse octree over the cube of edge `size` whose minimum corner is the origin of
/// tree space. Positions are given in tree space.
pub struct Octree<T> {
    root: OctreeNode<T>,
    size: usize,
    origin: IVec3,
}

/// The shape of `new` after an insert along `ip` in `old`: every node the insert passes
/// through has children; a node one step below is a leaf where it was one before or where
/// its parent had no children before (so it was made as an empty leaf); every other path
/// ends at a leaf exactly where it did before; and off the path, nodes have children
/// exactly where they had before.
pub open spec fn tree_insert_shape<T>(old: Octree<T>, new: Octree<T>, ip: Seq<int>) -> bool {
    &&& forall|p: Seq<int>| strictly_before(p, ip) ==> #[trigger] new.inner_at(p)
    &&& forall|p: Seq<int>|
        beside(p, ip) ==> #[trigger] new.leaf_at(p) == (old.leaf_at(p) || !old.inner_at(p.drop_last()))
    &&& forall|p: Seq<int>|
        !strictly_before(p, ip) && !beside(p, ip) ==> #[trigger] new.leaf_at(p) == old.leaf_at(p)
    &&& forall|p: Seq<int>| !strictly_before(p, ip) ==> #[trigger] new.inner_at(p) == old.inner_at(p)
}

impl<T> Octree<T> {
    /// The root is well formed and fits the tree's edge, and the origin is (0, 0, 0).
    pub closed spec fn wf(self) -> bool {
        &&& self.root.wf()
        &&& self.root.fits(self.size as int)
        &&& self.origin == IVec3 { x: 0, y: 0, z: 0 }
    }

    /// The edge length of the cube that the tree covers.
    pub closed spec fn spec_size(self) -> usize {
        self.size
    }

    /// What the tree holds at the end of a path of octant indices from the root.
    pub closed spec fn at_path(self, path: Seq<int>) -> Option<T> {
        self.root.at_path(path)
    }

    /// The data of all leaves, depth first, octant 0 first.
    pub closed spec fn all_data(self) -> Seq<T> {
        self.root.all_data()
    }

    /// The data of the leaves whose cubes meet `region`, octant 0 first.
    pub closed spec fn region_data(self, region: IAabb) -> Seq<T> {
        self.root.region_data(self.size as int, self.origin, region)
    }

    /// The data of the leaves whose cubes meet `region`, the children of each node
    /// taken from the last octant to the first.
    pub closed spec fn region_data_rev(self, region: IAabb) -> Seq<T> {
        self.root.region_data_rev(self.size as int, self.origin, region)
    }

    /// The minimum corners of the leaves without data whose cubes meet `region`, the
    /// children of each node taken from the last octant to the first.
    pub closed spec fn empty_leaves(self, region: IAabb) -> Seq<IVec3> {
        self.root.empty_leaves(self.size as int, self.origin, region)
    }

    /// The paths of the leaves whose data a region query yields, in the order of
    /// `region_data`.
    pub closed spec fn region_paths(self, region: IAabb) -> Seq<Seq<int>> {
        self.root.region_paths(self.size as int, self.origin, region)
    }

    /// The paths of the leaves without data whose cubes meet `region`, in the order of
    /// `empty_leaves`.
    pub closed spec fn empty_paths(self, region: IAabb) -> Seq<Seq<int>> {
        self.root.empty_paths(self.size as int, self.origin, region)
    }

    /// Whether following `path` from the root ends at a leaf.
    pub closed spec fn leaf_at(self, path: Seq<int>) -> bool {
        self.root.leaf_at(path)
    }

    /// Whether following `path` from the root ends at a node with children.
    pub closed spec fn inner_at(self, path: Seq<int>) -> bool {
        self.root.inner_at(path)
    }

    /// The tree's cube lies within `i32` coordinates and has an edge of at least one.
    pub closed spec fn in_range(self) -> bool {
        cube_in_range(self.origin, self.size as int)
    }

    /// An empty tree covering the cube of edge `size` at the origin of tree space.
    pub fn new(size: usize) -> (r: Self)
        ensures
            r.wf(),
            r.spec_size() == size,
            forall|p: Seq<int>| #[trigger] r.at_path(p) is None,
            r.all_data() == Seq::<T>::empty(),
            forall|p: Seq<int>| #[trigger] r.leaf_at(p) == (p.len() == 0),
            forall|p: Seq<int>| !#[trigger] r.inner_at(p),
            (1 <= size <= i32::MAX) <==> r.in_range(),
    {
        let root: OctreeNode<T> = OctreeNode::new();
        proof {
            root.lemma_empty_leaf();
            root.lemma_empty_leaf_shape();
        }
        Octree { root, size, origin: IVec3::zero() }
    }

    /// Stores `data` at `pos_tree_space`.
    pub fn insert(&mut self, pos_tree_space: IVec3, data: T)
        requires
            old(self).wf(),
            0 <= pos_tree_space.x < old(self).spec_size(),
            0 <= pos_tree_space.y < old(self).spec_size(),
            0 <= pos_tree_space.z < old(self).spec_size(),
            old(self).spec_size() <= i32::MAX,
        ensures
            final(self).wf(),
            final(self).spec_size() == old(self).spec_size(),
            old(self).in_range() == final(self).in_range(),
            forall|p: Seq<int>|
                #[trigger] final(self).at_path(p) == if p == insert_path(
                    pos_tree_space.x as int,
                    pos_tree_space.y as int,
                    pos_tree_space.z as int,
                    old(self).spec_size() as int,
                ) {
                    Some(data)
                } else {
                    old(self).at_path(p)
                },
            tree_insert_shape(
                *old(self),
                *final(self),
                insert_path(
                    pos_tree_space.x as int,
                    pos_tree_space.y as int,
                    pos_tree_space.z as int,
                    old(self).spec_size() as int,
                ),
            ),
            is_pow2(old(self).spec_size() as int) ==> final(self).all_data().contains(data),
            is_pow2(old(self).spec_size() as int) ==> forall|region: IAabb|
                #![trigger final(self).region_data(region)]
                spec_intersects(spec_cube(pos_tree_space, 1), region) ==> final(self).region_data(
                    region,
                ).contains(data),
    {
        self.root.insert(pos_tree_space.x, pos_tree_space.y, pos_tree_space.z, self.size, data);
        proof {
            let ip = insert_path(
                pos_tree_space.x as int,
                pos_tree_space.y as int,
                pos_tree_space.z as int,
                self.size as int,
            );
            assert(self.at_path(ip) == Some(data));
            if is_pow2(self.size as int) {
                assert forall|region: IAabb|
                    #![trigger self.region_data(region)]
                    spec_intersects(spec_cube(pos_tree_space, 1), region) implies self.region_data(
                        region,
                    ).contains(data) by {
                    self.lemma_region_query_finds_cell(pos_tree_space, region);
                }
                let whole = spec_cube(IVec3 { x: 0, y: 0, z: 0 }, self.size as int);
                assert(spec_intersects(spec_cube(pos_tree_space, 1), whole));
                self.lemma_query_covering_region(whole);
                assert(self.region_data(whole).contains(data));
            }
        }
    }

    pub fn get_size(&self) -> (r: usize)
        ensures
            r == self.spec_size(),
    {
        self.size
    }

    /// The cube covered by the tree, each unit of tree space scaled to `chunk_size`.
    pub fn get_total_region_world_space(&self, chunk_size: usize) -> (r: IAabb)
        requires
            self.wf(),
            self.spec_size() * chunk_size <= usize::MAX,
            self.spec_size() * chunk_size > 0,
            cube_fits(IVec3 { x: 0, y: 0, z: 0 }, self.spec_size() * chunk_size),
        ensures
            r == spec_cube(IVec3 { x: 0, y: 0, z: 0 }, self.spec_size() * chunk_size),
    {
        IAabb::new(&self.origin, self.size * chunk_size)
    }

    /// Doubles the covered cube: the current root becomes the child at the minimum
    /// corner of a new root, so every stored value keeps its position.
    pub fn grow(&mut self, chunk_size: usize)
        requires
            old(self).wf(),
            old(self).spec_size() * 2 <= usize::MAX,
        ensures
            final(self).spec_size() == 2 * old(self).spec_size(),
            old(self).spec_size() >= 1 ==> final(self).wf(),
            forall|p: Seq<int>|
                #[trigger] final(self).at_path(p) == if p.len() > 0 && p[0] == 0 {
                    old(self).at_path(p.drop_first())
                } else {
                    None
                },
            final(self).all_data() == old(self).all_data(),
            forall|p: Seq<int>|
                #[trigger] final(self).leaf_at(p) == if p.len() == 0 {
                    false
                } else if p[0] == 0 {
                    old(self).leaf_at(p.drop_first())
                } else {
                    p.len() == 1 && 0 < p[0] < 8
                },
            forall|p: Seq<int>|
                #[trigger] final(self).inner_at(p) == if p.len() == 0 {
                    true
                } else if p[0] == 0 {
                    old(self).inner_at(p.drop_first())
                } else {
                    false
                },
            final(self).in_range() ==> forall|region: IAabb|
                #![trigger final(self).region_data(region)]
                #![trigger final(self).region_data_rev(region)]
                final(self).region_data(region) == old(self).region_data(region)
                    && final(self).region_data_rev(region) == old(self).region_data_rev(region),
    {
        let mut old_root = OctreeNode::new();
        std::mem::swap(&mut old_root, &mut self.root);
        self.root = old_root.grown();
        self.size = self.size * 2;
        proof {
            let s = old(self).size as int;
            assert(self.size as int == 2 * s);
            if self.in_range() {
                assert forall|region: IAabb|
                    #![trigger self.region_data(region)]
                    #![trigger self.region_data_rev(region)]
                    self.region_data(region) == old(self).region_data(region)
                        && self.region_data_rev(region) == old(self).region_data_rev(region) by {
                    assert(self.root.region_data(2 * s, self.origin, region) == old(self).root.region_data(s, self.origin, region));
                    assert(self.root.region_data_rev(2 * s, self.origin, region) == old(self).root.region_data_rev(s, self.origin, region));
                }
            }
        }
    }
}

impl<T: Clone> Octree<T> {
    /// Clones of the data of all leaves, depth first, octant 0 first.
    pub fn get_all_depth_first(&self) -> (r: Vec<T>)
        requires
            self.wf(),
            self.spec_size() * self.spec_size() * self.spec_size() <= usize::MAX,
        ensures
            seq_cloned(self.all_data(), r@),
    {
        let n = self.size;
        assert(n * n <= usize::MAX) by (nonlinear_arith)
            requires
                n * n * n <= usize::MAX,
        {
            if n > 0 {
                assert(n * n <= n * n * n);
            }
        }
        let cap = n * n * n;
        let mut res: Vec<T> = Vec::with_capacity(cap);
        self.root.traverse_depth_first(&mut res);
        proof {
            assert(res@.subrange(0, res@.len() as int) =~= res@);
        }
        res
    }

    /// Clones of the data of the leaves whose cubes meet `region`, octant 0 first.
    pub fn query_region(&self, region: &IAabb) -> (r: Vec<T>)
        requires
            self.wf(),
            self.in_range(),
        ensures
            seq_cloned(self.region_data(*region), r@),
    {
        let mut res: Vec<T> = Vec::new();
        self.root.query_region_traverse(self.size, &self.origin, region, &mut res);
        proof {
            assert(res@.subrange(0, res@.len() as int) =~= res@);
        }
        res
    }
}

impl<T> Octree<T> {
    /// References to the data of the leaves whose cubes meet `region_tree_space`, the
    /// children of each node visited from the last octant to the first.
    pub fn iter_region(&self, region_tree_space: IAabb) -> (r: Vec<&T>)
        requires
            self.wf(),
            self.in_range(),
        ensures
            deref_seq(r@) == self.region_data_rev(region_tree_space),
    {
        let mut res: Vec<&T> = Vec::new();
        self.root.collect_region_refs(self.size, &self.origin, &region_tree_space, &mut res);
        proof {
            assert(res@.subrange(0, res@.len() as int) =~= res@);
        }
        res
    }

    /// The minimum corners of the leaves without data whose cubes meet
    /// `region_tree_space`, the children of each node visited from the last octant to
    /// the first.
    pub fn iter_empty_within_region(&self, region_tree_space: IAabb) -> (r: Vec<IVec3>)
        requires
            self.wf(),
            self.in_range(),
        ensures
            r@ == self.empty_leaves(region_tree_space),
    {
        let mut res: Vec<IVec3> = Vec::new();
        self.root.collect_empty_leaves(self.size, &self.origin, &region_tree_space, &mut res);
        proof {
            assert(res@ =~= Seq::<IVec3>::empty() + self.empty_leaves(region_tree_space));
        }
        res
    }
}

impl<T> Octree<T> {
    /// A region query over a region that covers the whole tree yields every stored value,
    /// in the order of the depth-first traversal.
    pub proof fn lemma_query_covering_region(self, region: IAabb)
        requires
            self.wf(),
            self.in_range(),
            spec_contains(region, spec_cube(IVec3 { x: 0, y: 0, z: 0 }, self.spec_size() as int)),
        ensures
            self.region_data(region) == self.all_data(),
    {
        self.root.lemma_region_covering_all(self.size as int, self.origin, region);
    }
}

impl<T> Octree<T> {
    /// What a region query yields, value by value: the `i`-th value is what the tree
    /// holds at the `i`-th of distinct paths, the cube at the end of each of which meets
    /// `region`. The query that takes the octants from the last to the first yields the
    /// same values, as often.
    pub proof fn lemma_region_query_paths(self, region: IAabb)
        requires
            self.wf(),
        ensures
            self.region_data(region).len() == self.region_paths(region).len(),
            self.region_paths(region).no_duplicates(),
            forall|i: int| 0 <= i < self.region_paths(region).len() ==> {
                &&& self.at_path(#[trigger] self.region_paths(region)[i]) == Some(self.region_data(region)[i])
                &&& spec_intersects(
                    spec_cube(
                        path_origin(IVec3 { x: 0, y: 0, z: 0 }, self.spec_size() as int, self.region_paths(region)[i]),
                        path_size(self.spec_size() as int, self.region_paths(region)[i].len()),
                    ),
                    region,
                )
            },
            self.region_data_rev(region).to_multiset() == self.region_data(region).to_multiset(),
    {
        self.root.lemma_region_paths(self.size as int, self.origin, region);
        self.root.lemma_region_rev_multiset(self.size as int, self.origin, region);
    }

    /// In a tree whose edge is a power of two, what the tree holds at a cell whose unit
    /// cube meets `region` is among what a region query yields, in either order of the
    /// octants.
    pub proof fn lemma_region_query_finds_cell(self, pos: IVec3, region: IAabb)
        requires
            self.wf(),
            is_pow2(self.spec_size() as int),
            self.spec_size() <= i32::MAX,
            0 <= pos.x < self.spec_size(),
            0 <= pos.y < self.spec_size(),
            0 <= pos.z < self.spec_size(),
            self.at_path(insert_path(pos.x as int, pos.y as int, pos.z as int, self.spec_size() as int)) is Some,
            spec_intersects(spec_cube(pos, 1), region),
        ensures
            self.region_paths(region).contains(
                insert_path(pos.x as int, pos.y as int, pos.z as int, self.spec_size() as int),
            ),
            self.region_data(region).contains(
                self.at_path(insert_path(pos.x as int, pos.y as int, pos.z as int, self.spec_size() as int))->0,
            ),
            self.region_data_rev(region).contains(
                self.at_path(insert_path(pos.x as int, pos.y as int, pos.z as int, self.spec_size() as int))->0,
            ),
    {
        let s = self.size as int;
        let ip = insert_path(pos.x as int, pos.y as int, pos.z as int, s);
        assert(cell_corner(self.origin, pos.x as int, pos.y as int, pos.z as int) == pos);
        self.root.lemma_cell_in_region_paths(s, self.origin, pos.x as int, pos.y as int, pos.z as int, region);
        self.lemma_region_query_paths(region);
        let rp = self.region_paths(region);
        let rd = self.region_data(region);
        let i = choose|i: int| 0 <= i < rp.len() && rp[i] == ip;
        assert(self.at_path(rp[i]) == Some(rd[i]));
        let d = self.at_path(ip)->0;
        assert(rd[i] == d);
        assert(rd.contains(d));
        broadcast use vstd::seq_lib::group_to_multiset_ensures;
        assert(rd.to_multiset().count(d) > 0);
        assert(self.region_data_rev(region).to_multiset().count(d) > 0);
    }
}

impl<T> Octree<T> {
    /// What the empty-leaf walk yields, corner by corner: the `i`-th corner is that of the
    /// cube at the end of the `i`-th of distinct paths, each ending at a leaf that holds
    /// nothing and whose cube meets `region`. So a path the tree holds data at, such as
    /// the path of a cell just inserted, is none of them.
    pub proof fn lemma_empty_leaves_paths(self, region: IAabb)
        requires
            self.wf(),
        ensures
            self.empty_leaves(region).len() == self.empty_paths(region).len(),
            self.empty_paths(region).no_duplicates(),
            forall|i: int| 0 <= i < self.empty_paths(region).len() ==> {
                &&& self.at_path(#[trigger] self.empty_paths(region)[i]) is None
                &&& self.leaf_at(self.empty_paths(region)[i])
                &&& self.empty_leaves(region)[i] == path_origin(
                    IVec3 { x: 0, y: 0, z: 0 },
                    self.spec_size() as int,
                    self.empty_paths(region)[i],
                )
                &&& spec_intersects(
                    spec_cube(
                        path_origin(IVec3 { x: 0, y: 0, z: 0 }, self.spec_size() as int, self.empty_paths(region)[i]),
                        path_size(self.spec_size() as int, self.empty_paths(region)[i].len()),
                    ),
                    region,
                )
            },
    {
        self.root.lemma_empty_paths(self.size as int, self.origin, region);
    }
}

impl<T> Octree<T> {
    /// What the depth-first listing yields, value by value: the `i`-th value is what the
    /// tree holds at the `i`-th of distinct paths (those a query over the whole cube yields).
    pub proof fn lemma_depth_first_paths(self)
        requires
            self.wf(),
            self.in_range(),
        ensures
            ({
                let whole = spec_cube(IVec3 { x: 0, y: 0, z: 0 }, self.spec_size() as int);
                &&& self.all_data().len() == self.region_paths(whole).len()
                &&& self.region_paths(whole).no_duplicates()
                &&& forall|i: int| 0 <= i < self.region_paths(whole).len() ==> self.at_path(
                    #[trigger] self.region_paths(whole)[i],
                ) == Some(self.all_data()[i])
            }),
    {
        let whole = spec_cube(IVec3 { x: 0, y: 0, z: 0 }, self.size as int);
        self.lemma_query_covering_region(whole);
        self.lemma_region_query_paths(whole);
    }
}

impl<T> Octree<T> {
    /// The queries miss no leaf: a leaf whose cube meets `region` is among the paths of
    /// the region query where it holds data, and among those of the empty-leaf walk where
    /// it holds none.
    pub proof fn lemma_queries_complete(self, region: IAabb, p: Seq<int>)
        requires
            self.wf(),
            self.in_range(),
            self.leaf_at(p),
            spec_intersects(
                spec_cube(
                    path_origin(IVec3 { x: 0, y: 0, z: 0 }, self.spec_size() as int, p),
                    path_size(self.spec_size() as int, p.len()),
                ),
                region,
            ),
        ensures
            self.at_path(p) is Some ==> self.region_paths(region).contains(p),
            self.at_path(p) is None ==> self.empty_paths(region).contains(p),
    {
        if self.root.at_path(p) is Some {
            self.root.lemma_region_paths_complete(self.size as int, self.origin, region, p);
        } else {
            self.root.lemma_empty_paths_complete(self.size as int, self.origin, region, p);
        }
    }
}

} // verus!
