//! Voxel keys, the nodes of the tree and the order in which they are written.
use copc_converter::distribute::LeafBuffers;
use copc_converter::float64::Float64;
use copc_converter::hierarchy::{index_counts, ordered_keys};
use copc_converter::nodes::{group_by_parent, parent_points, thin_sample, LeafFile, NodeMap};
use copc_converter::octree::{
    Cube, FileScan, NodeFile, OctreeBuilder, Position, Transforms, MAX_NODE_POINTS,
};
use copc_converter::point::RawPoint;
use copc_converter::voxel::VoxelKey;
use std::collections::HashMap;
use std::path::PathBuf;

fn key(level: i32, x: i32, y: i32, z: i32) -> VoxelKey {
    VoxelKey { level, x, y, z }
}

fn point(x: i32) -> RawPoint {
    RawPoint {
        x,
        y: 0,
        z: 0,
        intensity: 0,
        return_number: 0,
        number_of_returns: 0,
        classification: 0,
        scan_angle: 0,
        user_data: 0,
        point_source_id: 0,
        gps_time: Float64 { bits: 0 },
        red: 0,
        green: 0,
        blue: 0,
        nir: 0,
    }
}

fn points(n: i32) -> Vec<RawPoint> {
    (0..n).map(point).collect()
}

fn xs(pts: &[RawPoint]) -> Vec<i32> {
    pts.iter().map(|p| p.x).collect()
}

fn builder(total: u64) -> OctreeBuilder {
    let zero = Float64 { bits: 0 };
    let origin = Position { x: zero, y: zero, z: zero };
    let t = Transforms {
        scale_x: zero,
        scale_y: zero,
        scale_z: zero,
        offset_x: zero,
        offset_y: zero,
        offset_z: zero,
    };
    let scans = vec![FileScan::from_header(&origin, &origin, total, t)];
    OctreeBuilder::scan(&scans, Cube { center: origin, halfsize: zero }, PathBuf::new())
}

#[test]
fn children_and_parents() {
    let k = key(2, 3, 0, 1);
    let children = k.children();
    assert_eq!(children[0], key(3, 6, 0, 2));
    assert_eq!(children[1], key(3, 7, 0, 2));
    assert_eq!(children[2], key(3, 6, 1, 2));
    assert_eq!(children[4], key(3, 6, 0, 3));
    assert_eq!(children[7], key(3, 7, 1, 3));
    for (i, c) in children.iter().enumerate() {
        assert_eq!(c.parent(), Some(k));
        assert_eq!(children.iter().position(|d| d == c), Some(i));
    }
    assert_eq!(VoxelKey::root().parent(), None);
    assert_eq!(k.child(true, false, true), children[5]);
}

#[test]
fn ids_tell_keys_apart() {
    assert_eq!(key(0, 0, 0, 0).id(), 0x8000_0000_8000_0000_8000_0000_8000_0000);
    assert_eq!(key(i32::MIN, i32::MIN, i32::MIN, i32::MIN).id(), 0);
    assert_ne!(key(1, 0, 0, 0).id(), key(0, 1, 0, 0).id());
    assert_ne!(key(0, 0, -1, 0).id(), key(0, -1, 0, 0).id());
}

#[test]
fn samples_are_strided() {
    assert_eq!(xs(&thin_sample(&points(10), 3)), [0, 3, 6]);
    assert_eq!(xs(&thin_sample(&points(10), 4)), [0, 2, 4, 6]);
    assert_eq!(xs(&thin_sample(&points(10), 6)), [0, 1, 2, 3, 4, 5]);
    assert_eq!(thin_sample(&points(10), 10), points(10));
    assert_eq!(thin_sample(&points(3), 100), points(3));
    assert!(thin_sample(&points(0), 0).is_empty());
    let pts = points(1000);
    for max in [1, 7, 8, 999] {
        let expected: Vec<RawPoint> =
            pts.iter().step_by(pts.len() / max).take(max).cloned().collect();
        assert_eq!(thin_sample(&pts, max), expected);
    }
}

#[test]
fn parents_sample_their_children() {
    let children = vec![points(20_000), points(3), points(0)];
    let parent = parent_points(&children);
    assert_eq!(parent.len(), 8_192 + 3);
    assert_eq!(xs(&parent[..3]), [0, 2, 4]);
    assert_eq!(xs(&parent[8_192..]), [0, 1, 2]);
    assert!(parent_points(&vec![points(0), points(0)]).is_empty());
    assert!(parent_points(&Vec::new()).is_empty());
    let many: Vec<Vec<RawPoint>> = (0..17).map(|_| points(8_192)).collect();
    let parent = parent_points(&many);
    assert_eq!(parent.len(), MAX_NODE_POINTS);
    assert_eq!(xs(&parent[..3]), [0, 2, 4]);
}

#[test]
fn keys_are_grouped_by_parent() {
    let keys = vec![
        key(2, 0, 0, 0),
        key(2, 3, 3, 3),
        key(1, 0, 0, 0),
        key(2, 1, 1, 0),
        key(3, 0, 0, 0),
        key(2, 2, 3, 2),
    ];
    let mut families = group_by_parent(&keys, 1);
    families.sort_by_key(|f| f.parent.id());
    assert_eq!(families.len(), 2);
    assert_eq!(families[0].parent, key(1, 0, 0, 0));
    assert_eq!(families[0].children, vec![key(2, 0, 0, 0), key(2, 1, 1, 0)]);
    assert_eq!(families[1].parent, key(1, 1, 1, 1));
    assert_eq!(families[1].children, vec![key(2, 3, 3, 3), key(2, 2, 3, 2)]);
    assert!(group_by_parent(&keys, 5).is_empty());
}

#[test]
fn leaves_are_counted_by_file_length() {
    let b = builder(600_000);
    let leaves = vec![
        LeafFile { key: key(2, 0, 0, 0), len: 380 },
        LeafFile { key: key(2, 1, 0, 0), len: 0 },
        LeafFile { key: key(2, 2, 0, 0), len: 37 },
        LeafFile { key: key(2, 3, 0, 0), len: 77 },
    ];
    let map = b.build_node_map(&leaves);
    assert_eq!(map.level, 2);
    assert_eq!(map.nodes, vec![(key(2, 0, 0, 0), 10), (key(2, 3, 0, 0), 2)]);
    assert_eq!(map.current, vec![key(2, 0, 0, 0), key(2, 2, 0, 0), key(2, 3, 0, 0)]);
}

#[test]
fn levels_are_built_up_to_the_root() {
    let b = builder(600_000);
    let leaves = vec![
        LeafFile { key: key(2, 0, 0, 0), len: 380 },
        LeafFile { key: key(2, 1, 0, 0), len: 38 },
        LeafFile { key: key(2, 3, 3, 3), len: 20 },
    ];
    let mut map = b.build_node_map(&leaves);
    while map.level > 0 {
        let built: Vec<(VoxelKey, usize)> = map
            .next_families()
            .iter()
            .map(|f| {
                let count: usize = f
                    .children
                    .iter()
                    .map(|c| map.nodes.iter().find(|n| n.0 == *c).map(|n| n.1).unwrap_or(0))
                    .sum();
                (f.parent, count)
            })
            .collect();
        map.finish_level(&built);
    }
    let NodeMap { nodes, current, level } = map;
    assert_eq!(level, 0);
    assert_eq!(current, vec![key(0, 0, 0, 0)]);
    assert_eq!(
        nodes,
        vec![
            (key(2, 0, 0, 0), 10),
            (key(2, 1, 0, 0), 1),
            (key(1, 0, 0, 0), 11),
            (key(0, 0, 0, 0), 11)
        ]
    );
    assert_eq!(
        ordered_keys(&nodes),
        vec![key(0, 0, 0, 0), key(1, 0, 0, 0), key(2, 0, 0, 0), key(2, 1, 0, 0)]
    );
}

#[test]
fn empty_level_leaves_the_keys_alone() {
    let b = builder(600_000);
    let mut map = b.build_node_map(&vec![LeafFile { key: key(1, 1, 0, 0), len: 76 }]);
    assert!(map.next_families().is_empty());
    map.finish_level(&Vec::new());
    assert_eq!((map.level, map.current.len()), (1, 1));
    let families = map.next_families();
    assert_eq!(families[0].parent, key(0, 0, 0, 0));
    map.finish_level(&vec![(key(0, 0, 0, 0), 2)]);
    assert_eq!(map.nodes, vec![(key(1, 1, 0, 0), 2), (key(0, 0, 0, 0), 2)]);
}

#[test]
fn output_order_is_breadth_first() {
    let nodes = vec![
        (key(2, 2, 2, 2), 5),
        (key(1, 1, 1, 1), 6),
        (key(1, 1, 0, 0), 7),
        (key(0, 0, 0, 0), 8),
        (key(2, 2, 1, 0), 9),
        (key(2, 0, 0, 0), 1),
    ];
    let order = ordered_keys(&nodes);
    assert_eq!(
        order,
        vec![
            key(0, 0, 0, 0),
            key(1, 1, 0, 0),
            key(1, 1, 1, 1),
            key(2, 2, 1, 0),
            key(2, 2, 2, 2)
        ]
    );
    for (i, k) in order.iter().enumerate().skip(1) {
        let parent = k.parent().unwrap();
        assert!(order[..i].contains(&parent));
    }
    assert!(ordered_keys(&vec![(key(1, 0, 0, 0), 1)]).is_empty());
    assert!(ordered_keys(&Vec::new()).is_empty());
}

#[test]
fn last_count_of_a_key_wins() {
    let counts = index_counts(&vec![(key(0, 0, 0, 0), 1), (key(1, 0, 0, 0), 2), (key(0, 0, 0, 0), 3)]);
    assert_eq!(counts.len(), 2);
    assert_eq!(counts[&key(0, 0, 0, 0).id()], 3);
    assert_eq!(counts[&key(1, 0, 0, 0).id()], 2);
}

#[test]
fn stray_deep_keys_are_left_out() {
    let nodes = vec![(key(99, 5, 5, 5), 4), (key(0, 0, 0, 0), 3), (key(31, 0, 0, 0), 2)];
    assert_eq!(ordered_keys(&nodes), vec![key(0, 0, 0, 0)]);
    let mut chain: Vec<(VoxelKey, usize)> = (0..=30).map(|level| (key(level, 0, 0, 0), 1)).collect();
    chain.reverse();
    let order = ordered_keys(&chain);
    assert_eq!(order.len(), 31);
    assert_eq!(order[30], key(30, 0, 0, 0));
}

#[test]
fn counts_match_the_node_files() {
    let b = builder(600_000);
    assert_eq!(b.depth, 2);
    let mut buffers = LeafBuffers::new(7);
    let mut files: HashMap<VoxelKey, Vec<u8>> = HashMap::new();
    let total = 500;
    let classified: Vec<(VoxelKey, RawPoint)> =
        (0..total).map(|i| (key(2, i % 4, (i / 3) % 4, (i / 5) % 2), point(i))).collect();
    let mut next = 0;
    while next < classified.len() {
        let progress = buffers.merge_into_buffers(&classified, next);
        next = progress.next;
        if progress.flush {
            for (k, bytes) in buffers.flush_buffers() {
                files.entry(k).or_default().extend(bytes);
            }
        }
    }
    for (k, bytes) in buffers.flush_buffers() {
        files.entry(k).or_default().extend(bytes);
    }

    let listed: Vec<NodeFile> = files
        .iter()
        .map(|(k, bytes)| NodeFile { name: b.node_path(k), len: bytes.len() as u64 })
        .collect();
    let leaves: Vec<LeafFile> = b
        .leaf_keys(&listed)
        .into_iter()
        .map(|k| LeafFile { key: k, len: files[&k].len() as u64 })
        .collect();
    assert_eq!(leaves.len(), files.len());

    let mut map = b.build_node_map(&leaves);
    while map.level > 0 {
        let mut built: Vec<(VoxelKey, usize)> = Vec::new();
        for family in map.next_families() {
            let children: Vec<Vec<RawPoint>> = family
                .children
                .iter()
                .map(|c| b.read_node(files.get(c).map(|bytes| bytes.as_slice())))
                .collect();
            let pts = parent_points(&children);
            files.insert(family.parent, b.write_node_to_temp(&pts));
            built.push((family.parent, pts.len()));
        }
        map.finish_level(&built);
    }

    let mut leaf_points = 0;
    for (k, count) in &map.nodes {
        assert_eq!(b.read_node(files.get(k).map(|bytes| bytes.as_slice())).len(), *count);
        if k.level == 2 {
            leaf_points += count;
        }
    }
    assert_eq!(leaf_points, total as usize);
    for (i, (k, _)) in map.nodes.iter().enumerate() {
        assert!(map.nodes[..i].iter().all(|n| n.0 != *k));
        assert!(k.level == 2 || map.nodes.iter().any(|n| n.0.parent() == Some(*k)));
    }
    assert_eq!(ordered_keys(&map.nodes).len(), map.nodes.len());
}
