use voxquant::octree::octree_header::{
    from_color, get_exists, get_final, set_exists, set_final, set_header_tag, to_color,
};
use voxquant::octree::{get_octree_idx, Octree, OctreePos, EMPTY_SLOT};

#[test]
fn octant_index_bits() {
    assert_eq!(get_octree_idx([1, 2, 4], 0), 1);
    assert_eq!(get_octree_idx([1, 2, 4], 1), 2);
    assert_eq!(get_octree_idx([1, 2, 4], 2), 4);
    assert_eq!(get_octree_idx([7, 7, 7], 1), 7);
}

#[test]
fn header_bits() {
    let mut h = 0u32;
    set_header_tag(&mut h);
    assert_eq!(h, 68 << 24);
    set_exists(&mut h, 3);
    set_final(&mut h, 2);
    assert!(get_exists(h, 3));
    assert!(!get_exists(h, 2));
    assert!(get_final(h, 2));
    assert!(!get_final(h, 3));
}

#[test]
fn color_packing_roundtrip() {
    assert_eq!(from_color([1, 2, 3, 4]), 0x0403_0201);
    assert_eq!(to_color(0x0403_0201), [1, 2, 3, 4]);
    assert_eq!(to_color(from_color([9, 8, 7, 6])), [9, 8, 7, 6]);
}

#[test]
fn new_octree_is_one_empty_node() {
    let tree = Octree::new(3);
    assert_eq!(tree.depth, 3);
    assert_eq!(tree.data.len(), 9);
    assert_eq!(tree.data[0], 68 << 24);
    assert!(tree.data[1..].iter().all(|&s| s == EMPTY_SLOT));
    assert!(tree.collect_nodes().is_empty());
}

#[test]
fn insert_then_collect() {
    let mut tree = Octree::new(3);
    let pos = OctreePos { coords: [1, 2, 3], depth: 3 };
    let slot = tree.insert(&pos, [10, 20, 30, 255]);
    assert!(slot.is_some());
    assert_eq!(tree.data[slot.unwrap() as usize], from_color([10, 20, 30, 255]));
    assert_eq!(tree.collect_nodes(), vec![(pos, from_color([10, 20, 30, 255]))]);
}

#[test]
fn insert_twice_is_refused() {
    let mut tree = Octree::new(3);
    let pos = OctreePos { coords: [5, 5, 5], depth: 3 };
    assert!(tree.insert(&pos, [1, 1, 1, 1]).is_some());
    let before = tree.data.clone();
    assert_eq!(tree.insert(&pos, [2, 2, 2, 2]), None);
    assert_eq!(tree.data, before);
}

#[test]
fn insert_too_deep_is_refused() {
    let mut tree = Octree::new(2);
    assert_eq!(tree.insert(&OctreePos { coords: [0, 0, 0], depth: 3 }, [1, 1, 1, 1]), None);
    assert_eq!(tree.data.len(), 9);
}

#[test]
fn insert_under_leaf_is_refused() {
    let mut tree = Octree::new(3);
    assert!(tree.insert(&OctreePos { coords: [0, 0, 0], depth: 1 }, [1, 1, 1, 1]).is_some());
    assert_eq!(tree.insert(&OctreePos { coords: [1, 1, 1], depth: 3 }, [2, 2, 2, 2]), None);
}

#[test]
fn store_drops_out_of_bounds() {
    let mut tree = Octree::new(3);
    tree.store([0, 1, 1], [1, 2, 3, 4]);
    tree.store([1, 15, 1], [1, 2, 3, 4]);
    assert_eq!(tree.data.len(), 9);
    tree.store([14, 14, 14], [1, 2, 3, 4]);
    assert!(tree.data.len() > 9);
    assert_eq!(
        tree.collect_nodes(),
        vec![(OctreePos { coords: [14, 14, 14], depth: 3 }, from_color([1, 2, 3, 4]))]
    );
}

#[test]
fn collect_every_stored_voxel() {
    let mut tree = Octree::new(4);
    let points = [[1, 1, 1], [2, 3, 4], [30, 29, 28], [2, 3, 5], [16, 1, 9]];
    for (k, p) in points.iter().enumerate() {
        tree.store(*p, [k as u8, 0, 0, 255]);
    }
    let nodes = tree.collect_nodes();
    assert_eq!(nodes.len(), points.len());
    for (k, p) in points.iter().enumerate() {
        let entry = (OctreePos { coords: *p, depth: 4 }, from_color([k as u8, 0, 0, 255]));
        assert!(nodes.contains(&entry));
    }
}

#[test]
fn insert_appends_nodes_and_returns_slot() {
    let mut tree = Octree::new(1);
    let pos = OctreePos { coords: [1, 2, 3], depth: 1 };
    assert_eq!(tree.insert(&pos, [10, 20, 30, 40]), Some(15));
    assert_eq!(tree.data.len(), 18);
    assert_eq!(tree.data[0], (68 << 24) | (1 << 6));
    assert_eq!(tree.data[7], 9);
    assert_eq!(tree.data[9], (68 << 24) | (1 << 5) | (1 << 13));
    assert_eq!(tree.data[15], 673059850);
    assert!(tree.data[10..15].iter().chain(&tree.data[16..18]).all(|&s| s == EMPTY_SLOT));
}

fn morton(p: [i32; 3], depth: u32) -> u64 {
    let mut key = 0u64;
    for bit in (0..=depth).rev() {
        key = key * 8 + get_octree_idx(p, bit) as u64;
    }
    key
}

#[test]
fn collect_lists_each_leaf_once_in_morton_order() {
    let mut tree = Octree::new(3);
    let points = [[7, 0, 3], [1, 2, 3], [0, 0, 0], [15, 15, 15], [1, 2, 3], [8, 1, 0], [0, 0, 1]];
    for (k, p) in points.iter().enumerate() {
        tree.insert(&OctreePos { coords: *p, depth: 3 }, [k as u8, 1, 2, 3]);
    }
    let nodes = tree.collect_nodes();
    assert_eq!(nodes.len(), 6);
    for w in nodes.windows(2) {
        assert!(morton(w[0].0.coords, 3) < morton(w[1].0.coords, 3));
    }
    assert!(nodes.contains(&(OctreePos { coords: [1, 2, 3], depth: 3 }, from_color([1, 1, 2, 3]))));
}
