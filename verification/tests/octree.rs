//! The first pass, and the way from a point to its leaf.
use copc_converter::bounds::Bounds;
use copc_converter::float64::Float64;
use copc_converter::octree::{
    choose_depth, merged_bounds, Cube, FileScan, KeyDescent, NodeFile, OctreeBuilder, Position,
    Transforms,
};
use copc_converter::point::{Color, InputPoint, RawPoint};
use copc_converter::voxel::{node_name, parse_node_name, VoxelKey};
use std::path::PathBuf;

fn f(v: f64) -> Float64 {
    Float64 { bits: v.to_bits() }
}

fn at(x: f64, y: f64, z: f64) -> Position {
    Position { x: f(x), y: f(y), z: f(z) }
}

fn transforms(scale: f64, offset: f64) -> Transforms {
    Transforms {
        scale_x: f(scale),
        scale_y: f(scale),
        scale_z: f(scale),
        offset_x: f(offset),
        offset_y: f(offset),
        offset_z: f(offset),
    }
}

fn builder(results: &Vec<FileScan>) -> OctreeBuilder {
    let cube = Cube { center: at(1.0, 2.0, 3.0), halfsize: f(4.0) };
    OctreeBuilder::scan(results, cube, PathBuf::from("/tmp/copc_1"))
}

#[test]
fn doubles_compare_as_numbers() {
    let values = [
        0.0,
        -0.0,
        1.0,
        -1.0,
        1.5,
        f64::MAX,
        f64::MIN,
        f64::MIN_POSITIVE,
        5e-324,
        -5e-324,
        f64::INFINITY,
        f64::NEG_INFINITY,
        f64::NAN,
        -f64::NAN,
        1e300,
        -1e-300,
    ];
    for a in values {
        for b in values {
            assert_eq!(f(a).lt(&f(b)), a < b, "{a} < {b}");
            assert_eq!(f(a).ge(&f(b)), a >= b, "{a} >= {b}");
        }
    }
}

#[test]
fn empty_box_and_expansion() {
    let mut b = Bounds::empty();
    assert_eq!(b.min_x, f(f64::MAX));
    assert_eq!(b.max_z, f(f64::MIN));
    b.expand_with(f(1.0), f(-2.0), f(3.0));
    b.expand_with(f(0.5), f(7.0), f64_nan());
    assert_eq!(b.min_x, f(0.5));
    assert_eq!(b.max_x, f(1.0));
    assert_eq!(b.min_y, f(-2.0));
    assert_eq!(b.max_y, f(7.0));
    assert_eq!(b.min_z, f(3.0));
    assert_eq!(b.max_z, f(3.0));
}

fn f64_nan() -> Float64 {
    f(f64::NAN)
}

#[test]
fn merged_box_covers_both() {
    let mut a = Bounds::empty();
    a.expand_with(f(0.0), f(0.0), f(0.0));
    let mut b = Bounds::empty();
    b.expand_with(f(-1.0), f(2.0), f(0.25));
    a.merge(&b);
    assert_eq!((a.min_x, a.max_x), (f(-1.0), f(0.0)));
    assert_eq!((a.min_y, a.max_y), (f(0.0), f(2.0)));
    assert_eq!((a.min_z, a.max_z), (f(0.0), f(0.25)));
}

#[test]
fn depth_examples() {
    assert_eq!(choose_depth(0), 1);
    assert_eq!(choose_depth(65_536), 1);
    assert_eq!(choose_depth(524_288), 1);
    assert_eq!(choose_depth(524_289), 2);
    assert_eq!(choose_depth(4_194_304), 2);
    assert_eq!(choose_depth(4_194_305), 3);
    assert_eq!(choose_depth(1 << 55), 13);
    assert_eq!(choose_depth((1 << 55) + 1), 13);
    assert_eq!(choose_depth(u64::MAX), 16);
}

#[test]
fn depth_agrees_with_doubles() {
    let mut totals = vec![0, 1, u64::MAX, u64::MAX - 1023, u64::MAX - 1024, u64::MAX - 2048];
    for d in 0..16 {
        let edge = 65_536u64 << (3 * d).min(47);
        for delta in [0, 1, 2, 3, 4, 8, 1024] {
            totals.push(edge + delta);
            totals.push(edge - delta);
        }
    }
    for total in totals {
        let mut d = 0u32;
        while (total as f64) / (8u64.pow(d) as f64) > 65_536f64 {
            d += 1;
            if d > 16 {
                break;
            }
        }
        assert_eq!(choose_depth(total), d.max(1), "{total}");
    }
}

#[test]
fn scan_combines_headers() {
    let results = vec![
        FileScan::from_header(&at(0.0, 0.0, 0.0), &at(1.0, 1.0, 1.0), 300_000, transforms(0.01, 5.0)),
        FileScan::from_header(&at(-1.0, 0.5, 2.0), &at(0.0, 3.0, 4.0), 300_000, transforms(0.1, 6.0)),
    ];
    let b = builder(&results);
    assert_eq!(b.total_points, 600_000);
    assert_eq!(b.depth, 2);
    assert_eq!(b.bounds, merged_bounds(&results));
    assert_eq!((b.bounds.min_x, b.bounds.max_x), (f(-1.0), f(1.0)));
    assert_eq!((b.bounds.min_y, b.bounds.max_y), (f(0.0), f(3.0)));
    assert_eq!((b.bounds.min_z, b.bounds.max_z), (f(0.0), f(4.0)));
    assert_eq!((b.cx, b.cy, b.cz, b.halfsize), (f(1.0), f(2.0), f(3.0), f(4.0)));
    assert_eq!((b.scale_x, b.offset_z), (f(0.01), f(5.0)));
    assert_eq!(b.tmp_dir, PathBuf::from("/tmp/copc_1"));
}

#[test]
fn scan_without_files_uses_default_scale() {
    let b = builder(&Vec::new());
    assert_eq!(b.total_points, 0);
    assert_eq!(b.depth, 1);
    assert_eq!((b.scale_x, b.scale_y, b.scale_z), (f(0.001), f(0.001), f(0.001)));
    assert_eq!((b.offset_x, b.offset_y, b.offset_z), (f(0.0), f(0.0), f(0.0)));
    assert_eq!(b.bounds, Bounds::empty());
}

/// The voxel of a point, computed with doubles.
fn reference_key(p: [f64; 3], center: [f64; 3], halfsize: f64, depth: u32) -> [i32; 3] {
    let mut v = [0i32; 3];
    let mut c = center;
    let mut half = halfsize;
    for _ in 0..depth {
        half /= 2.0;
        for a in 0..3 {
            if p[a] >= c[a] {
                v[a] = v[a] * 2 + 1;
                c[a] += half;
            } else {
                v[a] *= 2;
                c[a] -= half;
            }
        }
    }
    v
}

/// The same with one step after the other.
fn descend(p: [f64; 3], center: [f64; 3], halfsize: f64, depth: u32) -> VoxelKey {
    let mut way = KeyDescent::start(at(p[0], p[1], p[2]));
    let mut c = center;
    let mut half = halfsize;
    for _ in 0..depth {
        half /= 2.0;
        let octant = way.step(&at(c[0], c[1], c[2]));
        c[0] += if octant.x { half } else { -half };
        c[1] += if octant.y { half } else { -half };
        c[2] += if octant.z { half } else { -half };
    }
    way.key
}

#[test]
fn descent_reaches_the_voxel_of_the_point() {
    let center = [10.0, -3.0, 0.5];
    for i in 0..500 {
        let t = i as f64;
        let p = [10.0 + 4.0 * (t * 0.7).sin(), -3.0 + 4.0 * (t * 1.3).cos(), 0.5 + (t % 8.0) - 4.0];
        for depth in [1, 2, 5, 16] {
            let key = descend(p, center, 4.0004, depth);
            let v = reference_key(p, center, 4.0004, depth);
            assert_eq!([key.x, key.y, key.z], v);
            assert_eq!(key.level, depth as i32);
            let shallower = descend(p, center, 4.0004, depth - 1);
            assert_eq!(key.parent(), Some(shallower));
        }
    }
}

#[test]
fn points_on_a_centre_go_up() {
    let key = descend([0.0, 0.0, -1.0], [0.0, 0.0, 0.0], 8.0, 1);
    assert_eq!(key, VoxelKey { level: 1, x: 1, y: 1, z: 0 });
    let key = descend([f64::NAN, 7.9, 0.0], [0.0, 0.0, 0.0], 8.0, 2);
    assert_eq!(key, VoxelKey { level: 2, x: 0, y: 3, z: 2 });
}

#[test]
fn node_files_are_named_by_key() {
    let b = builder(&Vec::new());
    assert_eq!(b.node_path(&VoxelKey { level: 3, x: 7, y: 0, z: 12 }), "3_7_0_12");
    let odd = VoxelKey { level: i32::MIN, x: -1, y: i32::MAX, z: 10 };
    assert_eq!(node_name(&odd), "-2147483648_-1_2147483647_10");
    assert_eq!(parse_node_name("-2147483648_-1_2147483647_10"), Some(odd));
}

fn node_files(files: &[(&str, u64)]) -> Vec<NodeFile> {
    files.iter().map(|(name, len)| NodeFile { name: name.to_string(), len: *len }).collect()
}

#[test]
fn leaf_keys_skip_other_names() {
    let b = builder(&Vec::new());
    assert_eq!(b.depth, 1);
    let files = node_files(&[
        ("1_0_1_1", 38),
        ("notes.txt", 380),
        ("1_2_3", 380),
        ("1_2_3_4_5", 380),
        ("1_2_3_x", 380),
        ("", 380),
        ("___", 380),
        ("+1_0_0_0", 76),
        ("1_2_3_2147483648", 380),
        ("1_2_3_ 4", 380),
        ("00001_1_1_1", 1000),
    ]);
    assert_eq!(
        b.leaf_keys(&files),
        vec![
            VoxelKey { level: 1, x: 0, y: 1, z: 1 },
            VoxelKey { level: 1, x: 0, y: 0, z: 0 },
            VoxelKey { level: 1, x: 1, y: 1, z: 1 },
        ]
    );
}

#[test]
fn leaf_keys_are_leaves_with_data() {
    let results =
        vec![FileScan::from_header(&at(0.0, 0.0, 0.0), &at(1.0, 1.0, 1.0), 600_000, transforms(1.0, 0.0))];
    let b = builder(&results);
    assert_eq!(b.depth, 2);
    let files = node_files(&[
        ("0_0_0_0", 380),
        ("1_0_0_0", 380),
        ("2_0_0_0", 0),
        ("2_1_0_0", 37),
        ("2_2_0_0", 38),
        ("2_3_0_0", 39),
        ("3_0_0_0", 380),
        ("-2_0_0_0", 380),
    ]);
    assert_eq!(
        b.leaf_keys(&files),
        vec![VoxelKey { level: 2, x: 2, y: 0, z: 0 }, VoxelKey { level: 2, x: 3, y: 0, z: 0 }]
    );
    assert!(b.leaf_keys(&Vec::new()).is_empty());
}

fn sample(i: i32) -> RawPoint {
    RawPoint {
        x: i,
        y: -i,
        z: i * 1000,
        intensity: 513,
        return_number: 2,
        number_of_returns: 5,
        classification: 6,
        scan_angle: -300,
        user_data: 9,
        point_source_id: 0xabcd,
        gps_time: f(1.25 + i as f64),
        red: 1,
        green: 0x0203,
        blue: 0xffff,
        nir: 77,
    }
}

#[test]
fn node_files_give_back_their_points() {
    let b = builder(&Vec::new());
    let points: Vec<RawPoint> = (0..5).map(sample).collect();
    let mut bytes = b.write_node_to_temp(&points);
    assert_eq!(bytes.len(), 5 * RawPoint::BYTE_SIZE);
    assert_eq!(b.read_node(Some(&bytes)), points);
    bytes.push(1);
    assert_eq!(b.read_node(Some(&bytes)), points);
    bytes.truncate(38 * 2 + 37);
    assert_eq!(b.read_node(Some(&bytes)), points[..2].to_vec());
    assert!(b.read_node(None).is_empty());
}

#[test]
fn input_points_become_raw_points() {
    let p = InputPoint {
        x: 1,
        y: 2,
        z: -3,
        intensity: 4,
        return_number: 1,
        number_of_returns: 2,
        classification: 5,
        scan_angle: -6,
        user_data: 7,
        point_source_id: 8,
        gps_time: Some(f(9.5)),
        color: Some(Color { red: 10, green: 11, blue: 12 }),
    };
    let r = RawPoint::convert_point(&p);
    assert_eq!((r.x, r.y, r.z, r.intensity), (1, 2, -3, 4));
    assert_eq!((r.return_number, r.number_of_returns, r.classification), (1, 2, 5));
    assert_eq!((r.scan_angle, r.user_data, r.point_source_id), (-6, 7, 8));
    assert_eq!((r.gps_time, r.red, r.green, r.blue, r.nir), (f(9.5), 10, 11, 12, 0));
    let r = RawPoint::convert_point(&InputPoint { gps_time: None, color: None, ..p });
    assert_eq!((r.gps_time, r.red, r.green, r.blue, r.nir), (f(0.0), 0, 0, 0, 0));
}
