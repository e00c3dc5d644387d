//! The buffers of the second pass.
use copc_converter::distribute::{LeafBuffers, Step};
use copc_converter::float64::Float64;
use copc_converter::memory::PipelineConfig;
use copc_converter::octree::{Cube, OctreeBuilder, Position};
use copc_converter::point::{decode_points, encode_points, RawPoint};
use copc_converter::voxel::VoxelKey;
use std::collections::HashMap;
use std::path::PathBuf;

fn key(x: i32) -> VoxelKey {
    VoxelKey { level: 4, x, y: 0, z: 0 }
}

fn point(x: i32) -> RawPoint {
    RawPoint {
        x,
        y: 0,
        z: 0,
        intensity: 0,
        return_number: 0,
        number_of_returns: 0,
        classification: 0,
        scan_angle: 0,
        user_data: 0,
        point_source_id: 0,
        gps_time: Float64 { bits: 0 },
        red: 0,
        green: 0,
        blue: 0,
        nir: 0,
    }
}

fn waiting(b: &LeafBuffers) -> usize {
    b.slots.iter().map(|s| s.1.len()).sum()
}

#[test]
fn flush_is_due_at_multiples_of_the_interval() {
    let mut b = LeafBuffers::new(3);
    let classified: Vec<(VoxelKey, RawPoint)> = (0..7).map(|i| (key(i % 2), point(i))).collect();
    let p = b.merge_into_buffers(&classified, 0);
    assert_eq!((p.next, p.flush, b.point_idx), (3, true, 3));
    assert_eq!(waiting(&b), 3);
    let mut sent = b.flush_buffers();
    sent.sort_by_key(|s| s.0.id());
    assert_eq!(sent.len(), 2);
    assert_eq!(sent[0], (key(0), encode_points(&vec![point(0), point(2)])));
    assert_eq!(sent[1], (key(1), encode_points(&vec![point(1)])));
    assert_eq!(waiting(&b), 0);
    let p = b.merge_into_buffers(&classified, 3);
    assert_eq!((p.next, p.flush, b.point_idx), (6, true, 6));
    b.flush_buffers();
    let p = b.merge_into_buffers(&classified, 6);
    assert_eq!((p.next, p.flush, b.point_idx), (7, false, 7));
    let sent = b.flush_buffers();
    assert_eq!(sent, vec![(key(0), encode_points(&vec![point(6)]))]);
    assert!(b.flush_buffers().is_empty());
}

#[test]
fn flushed_leaves_keep_their_buffers() {
    let mut b = LeafBuffers::new(10);
    let classified: Vec<(VoxelKey, RawPoint)> = (0..4).map(|i| (key(i % 2), point(i))).collect();
    b.merge_into_buffers(&classified, 0);
    let before: Vec<VoxelKey> = b.slots.iter().map(|s| s.0).collect();
    assert_eq!(b.flush_buffers().len(), 2);
    let after: Vec<VoxelKey> = b.slots.iter().map(|s| s.0).collect();
    assert_eq!(before, after);
    assert_eq!(before.len(), 2);
    assert!(b.flush_buffers().is_empty());
    b.merge_into_buffers(&vec![(key(5), point(9))], 0);
    assert_eq!(b.slots.len(), 3);
}

#[test]
fn batches_share_the_interval() {
    let mut b = LeafBuffers::new(5);
    let batch: Vec<(VoxelKey, RawPoint)> = (0..4).map(|i| (key(0), point(i))).collect();
    let p = b.merge_into_buffers(&batch, 0);
    assert_eq!((p.next, p.flush), (4, false));
    let p = b.merge_into_buffers(&batch, 0);
    assert_eq!((p.next, p.flush), (1, true));
    let p = b.merge_into_buffers(&batch, 4);
    assert_eq!((p.next, p.flush), (4, false));
}

#[test]
fn leaf_files_hold_their_points_in_order() {
    let mut b = LeafBuffers::new(4);
    let mut files: HashMap<u128, Vec<u8>> = HashMap::new();
    let mut history: Vec<(VoxelKey, RawPoint)> = Vec::new();
    for batch in 0..6 {
        let classified: Vec<(VoxelKey, RawPoint)> =
            (0..5 + batch).map(|i| (key((i * i + batch) % 3), point(batch * 100 + i))).collect();
        let mut next = 0;
        while next < classified.len() {
            let p = b.merge_into_buffers(&classified, next);
            next = p.next;
            assert!(waiting(&b) <= 4);
            if p.flush {
                for (k, bytes) in b.flush_buffers() {
                    files.entry(k.id()).or_default().extend(bytes);
                }
            }
        }
        history.extend(classified);
    }
    for (k, bytes) in b.flush_buffers() {
        files.entry(k.id()).or_default().extend(bytes);
    }
    assert_eq!(b.point_idx, history.len() as u64);
    for x in 0..3 {
        let expected: Vec<RawPoint> =
            history.iter().filter(|(k, _)| *k == key(x)).map(|(_, p)| *p).collect();
        assert_eq!(decode_points(&files[&key(x).id()]), expected);
    }
}

fn builder() -> OctreeBuilder {
    let zero = Float64 { bits: 0 };
    let cube = Cube { center: Position { x: zero, y: zero, z: zero }, halfsize: zero };
    OctreeBuilder::scan(&Vec::new(), cube, PathBuf::new())
}

#[test]
fn interval_comes_from_the_budget() {
    let config = PipelineConfig { memory_budget: 4 * 38 * 20_000, temp_dir: None };
    let pass = builder().distribute(3, &config);
    let b = &pass.buffers;
    assert_eq!((b.flush_every, b.point_idx, b.slots.len()), (20_000, 0, 0));
    assert_eq!((pass.file_count, pass.files_opened), (3, 0));
    let config = PipelineConfig { memory_budget: 0, temp_dir: Some(PathBuf::from("/x")) };
    assert_eq!(builder().distribute(0, &config).buffers.flush_every, 10_000);
}

#[test]
fn files_are_read_one_after_the_other() {
    let config = PipelineConfig { memory_budget: 24_000_000, temp_dir: None };
    let mut pass = builder().distribute(2, &config);
    assert_eq!(pass.next_step(), Step::Open { file: 0 });
    pass.file_opened(100_000);
    assert_eq!(pass.next_step(), Step::ReadAll);
    pass.points_read(100_000);
    assert_eq!(pass.next_step(), Step::Open { file: 1 });
    pass.file_opened(250_000);
    let batch = Step::ReadBatch { batch_size: 100_000 };
    assert_eq!(pass.next_step(), batch);
    pass.points_read(100_000);
    assert_eq!(pass.next_step(), batch);
    pass.points_read(50_000);
    assert_eq!(pass.next_step(), batch);
    pass.points_read(0);
    assert_eq!(pass.next_step(), Step::Finish);
    assert_eq!(builder().distribute(0, &config).next_step(), Step::Finish);
}

/// The leaf files after points were distributed, with the given flush interval.
fn distributed(
    mut files: HashMap<u128, Vec<u8>>,
    points: &Vec<(VoxelKey, RawPoint)>,
    flush_every: usize,
) -> HashMap<u128, Vec<u8>> {
    let mut b = LeafBuffers::new(flush_every);
    let mut next = 0;
    while next < points.len() {
        let p = b.merge_into_buffers(points, next);
        next = p.next;
        if p.flush {
            for (k, bytes) in b.flush_buffers() {
                files.entry(k.id()).or_default().extend(bytes);
            }
        }
    }
    for (k, bytes) in b.flush_buffers() {
        files.entry(k.id()).or_default().extend(bytes);
    }
    files
}

#[test]
fn files_do_not_depend_on_the_interval_or_on_runs() {
    let points: Vec<(VoxelKey, RawPoint)> = (0..100).map(|i| (key(i * 7 % 5), point(i))).collect();
    let once = distributed(HashMap::new(), &points, 1000);
    for flush_every in [1, 3, 99, 100] {
        assert_eq!(distributed(HashMap::new(), &points, flush_every), once);
    }
    let first = distributed(HashMap::new(), &points[..40].to_vec(), 6);
    let second = distributed(first.clone(), &points[40..].to_vec(), 7);
    assert_eq!(second, once);
    for (k, bytes) in &first {
        assert!(second[k].starts_with(bytes));
    }
}
