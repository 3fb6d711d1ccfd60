use std::collections::HashSet;

use rs_voxie::ivec3::IVec3;
use rs_voxie::octree::bbs::IAabb;
use rs_voxie::octree::iter_commons::get_child_origin;
use rs_voxie::octree::node::{get_child_index, OctreeNode};
use rs_voxie::octree::tree::Octree;

#[derive(Clone, Debug, PartialEq)]
struct TestData {
    a: i32,
    b: bool,
}

#[test]
fn octree_test_get_child_origin() {
    let parent_origin = IVec3::zero();
    let size = 8;
    let mut set: HashSet<IVec3> = HashSet::new();
    for i in 0..8 {
        let child_origin = get_child_origin(&parent_origin, size, i);
        set.insert(child_origin);
    }
    assert_eq!(set.len(), 8, "Did not return 8 unique vectors for 8 octants");
}

#[test]
fn tree_test_get_child_origin() {
    let parent_origin = IVec3::zero();
    let size = 8;
    let mut set: HashSet<IVec3> = HashSet::new();
    for i in 0..8 {
        let child_origin = get_child_origin(&parent_origin, size, i);
        set.insert(child_origin);
    }
    assert_eq!(set.len(), 8, "Did not return 8 unique vectors for 8 octants");
}

#[test]
fn octree_test_add_and_get_node() {
    let size: usize = 8;
    let mut root: OctreeNode<TestData> = OctreeNode::new();
    assert!(
        root.is_leaf(),
        "Root is not considered leaf node although no children were added yet"
    );
    let my_data = TestData { a: 3, b: false };
    root.insert(0, 0, 0, size, my_data);
    assert!(
        !root.is_leaf(),
        "Root is considered leaf, althoug a child was added"
    );
    let stored_data = root.get(0, 0, 0, size);
    assert!(stored_data.is_some());
    let data = stored_data.unwrap();
    assert_eq!(data.a, 3);
    assert_eq!(data.b, false);

    let my_data = TestData { a: 3, b: false };
    root.insert(0, 0, 0, 8, my_data);
}

#[test]
fn tree_test_add_and_get_node() {
    let size: usize = 8;
    let mut root: OctreeNode<TestData> = OctreeNode::new();
    assert!(
        root.is_leaf(),
        "Root is not considered leaf node although no children were added yet"
    );
    let my_data = TestData { a: 3, b: false };
    root.insert(0, 0, 0, size, my_data);
    assert!(
        !root.is_leaf(),
        "Root is considered leaf, althoug a child was added"
    );
    let stored_data = root.get(0, 0, 0, size);
    assert!(stored_data.is_some());
    let data = stored_data.unwrap();
    assert_eq!(data.a, 3);
    assert_eq!(data.b, false);

    let my_data = TestData { a: 3, b: false };
    root.insert(0, 0, 0, 8, my_data);
}

#[test]
fn test_region_query() {
    let size: usize = 4;
    let mut root = Octree::new(size);
    root.insert(IVec3::new(0, 0, 0), TestData { a: 1, b: false });
    root.insert(IVec3::new(2, 0, 0), TestData { a: 2, b: false });
    root.insert(IVec3::new(0, 2, 0), TestData { a: 3, b: false });
    root.insert(IVec3::new(1, 1, 2), TestData { a: 4, b: false });
    let test_region = IAabb::new(&IVec3::zero(), 2);
    let result = root.iter_region(test_region);
    assert_eq!(result.len(), 1);
    assert_eq!(result[0].a, 1);
}

#[test]
fn test_region_iterator() {
    let size: usize = 4;
    let mut root = Octree::new(size);
    root.insert(IVec3::new(0, 0, 0), TestData { a: 1, b: false });
    root.insert(IVec3::new(2, 0, 0), TestData { a: 2, b: false });
    root.insert(IVec3::new(0, 2, 0), TestData { a: 3, b: false });
    root.insert(IVec3::new(1, 1, 2), TestData { a: 4, b: false });
    let test_region = IAabb::new(&IVec3::zero(), 2);

    let result: Vec<&TestData> = root.iter_region(test_region);
    assert_eq!(result.len(), 1);
    assert_eq!(result[0].a, 1);
}

#[test]
fn test_octree_grow() {
    let mut tree: Octree<TestData> = Octree::new(2);
    let my_data = TestData { a: 3, b: false };
    tree.insert(IVec3::new(0, 0, 0), my_data);
    assert_eq!(tree.get_size(), 2);
    assert_eq!(tree.iter_region(IAabb::new(&IVec3::new(0, 0, 0), 1)).len(), 1);
    tree.grow(16);
    assert_eq!(tree.get_size(), 4);
    assert_eq!(tree.iter_region(IAabb::new(&IVec3::new(0, 0, 0), 1)).len(), 1);
}

#[test]
fn empty_leafs_are_returned() {
    let mut tree: Octree<usize> = Octree::new(2);
    tree.insert(IVec3::zero(), 0);
    let region = IAabb::new(&IVec3::zero(), 8);

    let result: Vec<_> = tree.iter_empty_within_region(region);

    assert_eq!(result.len(), 7);
}

#[test]
fn empty_leafs_are_returned_after_multiple_inserts() {
    let mut tree: Octree<usize> = Octree::new(2);
    tree.insert(IVec3::zero(), 0);
    tree.insert(IVec3::one(), 0);
    let region = IAabb::new(&IVec3::zero(), 8);

    let result: Vec<_> = tree.iter_empty_within_region(region);

    assert_eq!(result.len(), 6);
}

#[test]
fn outside_region_respected() {
    let mut tree: Octree<usize> = Octree::new(2);
    tree.insert(IVec3::zero(), 0);
    tree.insert(IVec3::one(), 0);
    let region = IAabb::new(&IVec3::splat(5), 8);

    let result: Vec<_> = tree.iter_empty_within_region(region);

    assert_eq!(result.len(), 0);
}

#[test]
fn tree_size_4() {
    let mut tree: Octree<usize> = Octree::new(4);
    tree.insert(IVec3::zero(), 0);
    let region = IAabb::new(&IVec3::zero(), 8);

    let result: Vec<_> = tree.iter_empty_within_region(region);

    // 8 + 8 + 1 nodes, less the root, the data node's parent and the data node
    assert_eq!(result.len(), 14);
}

// Further scenarios

#[test]
fn child_index_sets_one_bit_per_axis() {
    assert_eq!(get_child_index(0, 0, 0, 4), 0);
    assert_eq!(get_child_index(4, 0, 0, 4), 1);
    assert_eq!(get_child_index(0, 5, 0, 4), 2);
    assert_eq!(get_child_index(0, 0, 7, 4), 4);
    assert_eq!(get_child_index(4, 4, 4, 4), 7);
    assert_eq!(get_child_index(3, 3, 3, 4), 0);
}

#[test]
fn child_origin_moves_by_half_edge() {
    let p = IVec3::new(10, 20, 30);
    assert_eq!(get_child_origin(&p, 8, 0), IVec3::new(10, 20, 30));
    assert_eq!(get_child_origin(&p, 8, 1), IVec3::new(14, 20, 30));
    assert_eq!(get_child_origin(&p, 8, 2), IVec3::new(10, 24, 30));
    assert_eq!(get_child_origin(&p, 8, 4), IVec3::new(10, 20, 34));
    assert_eq!(get_child_origin(&p, 8, 7), IVec3::new(14, 24, 34));
}

#[test]
fn get_reads_back_writes_at_all_ones_coordinates() {
    let mut root: OctreeNode<u32> = OctreeNode::new();
    root.insert(7, 3, 1, 8, 42);
    root.insert(0, 7, 0, 8, 43);
    assert_eq!(root.get(7, 3, 1, 8), Some(42));
    assert_eq!(root.get(0, 7, 0, 8), Some(43));
    assert_eq!(root.get(1, 1, 1, 8), None);
}

#[test]
fn get_follows_unreduced_coordinates() {
    // insert reduces (5, 0, 0) to the child's frame at each level, get does not:
    // the value lands at octants 1, 0, 1, where get looks at octants 1, 1, 1.
    let mut root: OctreeNode<u32> = OctreeNode::new();
    root.insert(5, 0, 0, 8, 9);
    assert_eq!(root.get(5, 0, 0, 8), None);
    assert_eq!(root.get(7, 0, 0, 8), None);
}

#[test]
fn get_on_empty_node_is_none() {
    let mut root: OctreeNode<u32> = OctreeNode::new();
    assert_eq!(root.get(0, 0, 0, 8), None);
    assert_eq!(root.get(0, 0, 0, 1), None);
}

#[test]
fn insert_at_size_one_keeps_leaf() {
    let mut root: OctreeNode<u32> = OctreeNode::new();
    root.insert(0, 0, 0, 1, 5);
    assert!(root.is_leaf());
    assert_eq!(root.get(0, 0, 0, 1), Some(5));
}

#[test]
fn insert_overwrites_previous_value() {
    let mut root: OctreeNode<u32> = OctreeNode::new();
    root.insert(3, 3, 3, 4, 1);
    root.insert(3, 3, 3, 4, 2);
    assert_eq!(root.get(3, 3, 3, 4), Some(2));
}

#[test]
fn depth_first_lists_data_in_octant_order() {
    let mut tree: Octree<u32> = Octree::new(4);
    tree.insert(IVec3::new(3, 0, 0), 2);
    tree.insert(IVec3::new(0, 0, 0), 1);
    tree.insert(IVec3::new(0, 0, 3), 3);
    assert_eq!(tree.get_all_depth_first(), vec![1, 2, 3]);
}

#[test]
fn query_region_lists_data_in_octant_order() {
    let mut tree: Octree<u32> = Octree::new(4);
    tree.insert(IVec3::new(3, 0, 0), 2);
    tree.insert(IVec3::new(0, 0, 0), 1);
    tree.insert(IVec3::new(0, 0, 3), 3);
    let all = IAabb::new(&IVec3::zero(), 4);
    assert_eq!(tree.query_region(&all), vec![1, 2, 3]);
    let corner = IAabb::new(&IVec3::zero(), 1);
    assert_eq!(tree.query_region(&corner), vec![1]);
}

#[test]
fn iter_region_visits_last_octant_first() {
    let mut tree: Octree<u32> = Octree::new(4);
    tree.insert(IVec3::new(3, 0, 0), 2);
    tree.insert(IVec3::new(0, 0, 0), 1);
    tree.insert(IVec3::new(0, 0, 3), 3);
    let all = IAabb::new(&IVec3::zero(), 4);
    let found: Vec<u32> = tree.iter_region(all).into_iter().copied().collect();
    assert_eq!(found, vec![3, 2, 1]);
}

#[test]
fn covering_region_query_equals_depth_first() {
    let mut tree: Octree<u32> = Octree::new(8);
    tree.insert(IVec3::new(1, 2, 3), 10);
    tree.insert(IVec3::new(7, 7, 7), 20);
    tree.insert(IVec3::new(4, 0, 6), 30);
    let cover = IAabb::new_rect(IVec3::new(-1, -1, -1), IVec3::new(9, 9, 9));
    assert_eq!(tree.query_region(&cover), tree.get_all_depth_first());
}

#[test]
fn grow_keeps_depth_first_contents() {
    let mut tree: Octree<u32> = Octree::new(2);
    tree.insert(IVec3::new(1, 0, 1), 7);
    tree.insert(IVec3::new(0, 1, 0), 8);
    let before = tree.get_all_depth_first();
    tree.grow(1);
    assert_eq!(tree.get_size(), 4);
    assert_eq!(tree.get_all_depth_first(), before);
    let all = IAabb::new(&IVec3::zero(), 4);
    assert_eq!(tree.query_region(&all), before);
}

#[test]
fn grow_leaves_new_space_empty() {
    let mut tree: Octree<u32> = Octree::new(1);
    tree.insert(IVec3::zero(), 1);
    tree.grow(1);
    let empty = tree.iter_empty_within_region(IAabb::new(&IVec3::zero(), 2));
    assert_eq!(empty.len(), 7);
    assert!(!empty.contains(&IVec3::zero()));
    assert!(empty.contains(&IVec3::new(1, 1, 1)));
}

#[test]
fn total_region_scales_with_chunk_size() {
    let tree: Octree<u32> = Octree::new(4);
    let region = tree.get_total_region_world_space(16);
    assert_eq!(region, IAabb::new_rect(IVec3::zero(), IVec3::splat(64)));
}

#[test]
fn empty_leaves_come_last_octant_first() {
    let mut tree: Octree<u32> = Octree::new(2);
    tree.insert(IVec3::zero(), 0);
    let region = IAabb::new(&IVec3::zero(), 2);
    let result = tree.iter_empty_within_region(region);
    assert_eq!(result[0], IVec3::new(1, 1, 1));
    assert_eq!(result[6], IVec3::new(1, 0, 0));
}

#[test]
fn grow_adds_seven_empty_siblings() {
    let mut tree: Octree<usize> = Octree::new(2);
    tree.insert(IVec3::zero(), 0);
    assert_eq!(tree.iter_empty_within_region(IAabb::new(&IVec3::zero(), 8)).len(), 7);
    tree.grow(1);
    assert_eq!(tree.iter_empty_within_region(IAabb::new(&IVec3::zero(), 8)).len(), 14);
    tree.insert(IVec3::new(3, 3, 3), 1);
    // the leaf of edge two at (2, 2, 2) is split: it gives way to seven empty cells
    assert_eq!(tree.iter_empty_within_region(IAabb::new(&IVec3::zero(), 8)).len(), 20);
}
