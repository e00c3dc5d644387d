//! The records and the layout of the output file.
use copc_converter::copc::{
    hierarchy_payload, write_evlr, write_vlr, CopcInfo, HierarchyEntry, EVLR_HEADER_SIZE,
    VLR_HEADER_SIZE,
};
use copc_converter::float64::Float64;
use copc_converter::octree::{Cube, FileScan, OctreeBuilder, Position, Transforms};
use copc_converter::point::{encode_node, RawPoint};
use copc_converter::voxel::VoxelKey;
use copc_converter::writer::{chunk_table_position, write_copc, CopcWriter};
use laz::record::{LayeredPointRecordDecompressor, RecordDecompressor};
use laz::{LasZipCompressor, LazVlr, LazVlrBuilder};
use std::io::{Cursor, Seek};
use std::path::PathBuf;

fn f(v: f64) -> Float64 {
    Float64 { bits: v.to_bits() }
}

fn key(level: i32, x: i32, y: i32, z: i32) -> VoxelKey {
    VoxelKey { level, x, y, z }
}

fn builder(total: u64) -> OctreeBuilder {
    let t = Transforms {
        scale_x: f(0.01),
        scale_y: f(0.02),
        scale_z: f(0.03),
        offset_x: f(100.0),
        offset_y: f(200.0),
        offset_z: f(300.0),
    };
    let low = Position { x: f(101.0), y: f(202.0), z: f(303.0) };
    let high = Position { x: f(111.0), y: f(222.0), z: f(333.0) };
    let scans = vec![FileScan::from_header(&low, &high, total, t)];
    let center = Position { x: f(106.0), y: f(212.0), z: f(318.0) };
    OctreeBuilder::scan(&scans, Cube { center, halfsize: f(16.0) }, PathBuf::new())
}

fn u16_at(b: &[u8], i: usize) -> u16 {
    u16::from_le_bytes([b[i], b[i + 1]])
}

fn u32_at(b: &[u8], i: usize) -> u32 {
    u32::from_le_bytes(b[i..i + 4].try_into().unwrap())
}

fn u64_at(b: &[u8], i: usize) -> u64 {
    u64::from_le_bytes(b[i..i + 8].try_into().unwrap())
}

fn f64_at(b: &[u8], i: usize) -> f64 {
    f64::from_bits(u64_at(b, i))
}

fn text_at(b: &[u8], i: usize, width: usize) -> String {
    let bytes = &b[i..i + width];
    let end = bytes.iter().position(|c| *c == 0).unwrap_or(width);
    assert!(bytes[end..].iter().all(|c| *c == 0));
    String::from_utf8(bytes[..end].to_vec()).unwrap()
}

#[test]
fn info_record_bytes() {
    let info = CopcInfo {
        center_x: f(1.0),
        center_y: f(2.0),
        center_z: f(3.0),
        halfsize: f(4.0),
        spacing: f(5.0),
        root_hier_offset: 6,
        root_hier_size: 7,
        gpstime_minimum: f(8.0),
        gpstime_maximum: f(9.0),
    };
    let mut w: Vec<u8> = vec![1];
    info.write(&mut w);
    assert_eq!(w.len(), 1 + CopcInfo::BYTE_SIZE);
    for i in 0..5 {
        assert_eq!(f64_at(&w, 1 + 8 * i), 1.0 + i as f64);
    }
    assert_eq!((u64_at(&w, 41), u64_at(&w, 49)), (6, 7));
    assert_eq!((f64_at(&w, 57), f64_at(&w, 65)), (8.0, 9.0));
    assert!(w[73..].iter().all(|b| *b == 0));
}

#[test]
fn hierarchy_entry_bytes() {
    let entry = HierarchyEntry {
        key: key(1, -2, 3, 0x0102_0304),
        offset: 0x1122_3344_5566_7788,
        byte_size: -1,
        point_count: 65_536,
    };
    let mut w: Vec<u8> = Vec::new();
    entry.write(&mut w);
    let expected: Vec<u8> = vec![
        1, 0, 0, 0, 0xfe, 0xff, 0xff, 0xff, 3, 0, 0, 0, 4, 3, 2, 1, 0x88, 0x77, 0x66, 0x55, 0x44, 0x33,
        0x22, 0x11, 0xff, 0xff, 0xff, 0xff, 0, 0, 1, 0,
    ];
    assert_eq!(w, expected);
    let payload = hierarchy_payload(&vec![entry, entry]);
    assert_eq!(payload.len(), 2 * HierarchyEntry::BYTE_SIZE);
    assert_eq!(&payload[32..], &expected[..]);
}

#[test]
fn record_headers() {
    let mut w: Vec<u8> = vec![7];
    write_vlr(&mut w, "copc", 1, "copc info", &vec![1, 2, 3]);
    assert_eq!(w.len(), 1 + VLR_HEADER_SIZE + 3);
    assert_eq!(u16_at(&w, 1), 0);
    assert_eq!(text_at(&w, 3, 16), "copc");
    assert_eq!((u16_at(&w, 19), u16_at(&w, 21)), (1, 3));
    assert_eq!(text_at(&w, 23, 32), "copc info");
    assert_eq!(&w[55..], &[1, 2, 3]);

    let mut w: Vec<u8> = Vec::new();
    write_evlr(&mut w, "sixteen letters!", 1000, "", &vec![9; 70_000]);
    assert_eq!(w.len(), EVLR_HEADER_SIZE + 70_000);
    assert_eq!(text_at(&w, 2, 16), "sixteen letters!");
    assert_eq!((u16_at(&w, 18), u64_at(&w, 20)), (1000, 70_000));
    assert_eq!(text_at(&w, 28, 32), "");
}

#[test]
fn header_fields() {
    let b = builder(600_000);
    let w = write_copc(&b, f(4.0), &vec![(key(0, 0, 0, 0), 5)]);
    let p = &w.prologue;
    assert_eq!(p.len(), 689);
    assert_eq!(w.offset_to_point_data, 689);
    assert_eq!(&p[..4], b"LASF");
    assert_eq!((u16_at(p, 4), u16_at(p, 6)), (0, 0x11));
    assert_eq!(&p[8..24], &[0; 16]);
    assert_eq!((p[24], p[25]), (1, 4));
    assert_eq!(text_at(p, 26, 32), "copc_converter");
    assert_eq!(text_at(p, 58, 32), "copc_converter 0.1");
    assert_eq!((u16_at(p, 90), u16_at(p, 92), u16_at(p, 94)), (1, 2024, 375));
    assert_eq!((u32_at(p, 96), u32_at(p, 100), p[104], u16_at(p, 105)), (689, 2, 135, 36));
    assert_eq!(&p[107..131], &[0; 24]);
    assert_eq!((f64_at(p, 131), f64_at(p, 139), f64_at(p, 147)), (0.01, 0.02, 0.03));
    assert_eq!((f64_at(p, 155), f64_at(p, 163), f64_at(p, 171)), (100.0, 200.0, 300.0));
    assert_eq!((f64_at(p, 179), f64_at(p, 187)), (111.0, 101.0));
    assert_eq!((f64_at(p, 195), f64_at(p, 203)), (222.0, 202.0));
    assert_eq!((f64_at(p, 211), f64_at(p, 219)), (333.0, 303.0));
    assert_eq!((u64_at(p, 227), u64_at(p, 235), u32_at(p, 243)), (0, 0, 1));
    assert_eq!(u64_at(p, 247), 600_000);
    assert_eq!(&p[255..375], &[0; 120]);
    assert_eq!(text_at(p, 377, 16), "copc");
    assert_eq!((u16_at(p, 393), u16_at(p, 395)), (1, 160));
    assert_eq!((f64_at(p, 429), f64_at(p, 437), f64_at(p, 445)), (106.0, 212.0, 318.0));
    assert_eq!((f64_at(p, 453), f64_at(p, 461)), (16.0, 4.0));
    assert_eq!(text_at(p, 591, 16), "laszip encoded");
    assert_eq!((u16_at(p, 607), u16_at(p, 609)), (22204, 46));
    assert_eq!(text_at(p, 611, 32), "laz variable chunks");
}

fn laz_vlr() -> LazVlr {
    LazVlrBuilder::default().with_point_format(7, 0).unwrap().with_variable_chunk_size().build()
}

#[test]
fn laszip_record_is_that_of_the_compressor() {
    let w = write_copc(&builder(1), f(8.0), &Vec::new());
    let payload = &w.prologue[643..689];
    let expected: Vec<u8> = vec![
        3, 0, 0, 0, 2, 2, 0, 0, 0, 0, 0, 0, 255, 255, 255, 255, 255, 255, 255, 255, 255, 255, 255, 255,
        255, 255, 255, 255, 255, 255, 255, 255, 2, 0, 10, 0, 30, 0, 3, 0, 11, 0, 6, 0, 3, 0,
    ];
    assert_eq!(payload, &expected[..]);
    assert_eq!(LazVlr::from_buffer(payload).unwrap(), laz_vlr());
}

#[test]
fn nodes_are_written_one_at_a_time() {
    let mut nodes = vec![(key(0, 0, 0, 0), 1)];
    for c in VoxelKey::root().children() {
        nodes.push((c, 1));
    }
    let mut w = write_copc(&builder(1), f(8.0), &nodes);
    assert_eq!(w.ordered_keys.len(), 9);
    for i in 0..9 {
        assert_eq!(w.next_node(), Some(w.ordered_keys[i]));
        assert_eq!(w.next_node(), Some(w.ordered_keys[i]));
        let points: Vec<RawPoint> = (0..i as i32).map(point).collect();
        let chunk = w.begin_chunk(1000 + i as u64, &points);
        assert_eq!(chunk.finish, i < 8);
        assert_eq!(chunk.records, encode_node(&points));
    }
    assert_eq!(w.next_node(), None);
}

#[test]
fn chunks_end_where_the_next_starts() {
    let nodes = vec![(key(1, 0, 1, 0), 30), (key(0, 0, 0, 0), 20), (key(1, 1, 0, 0), usize::MAX)];
    let mut w = write_copc(&builder(1), f(8.0), &nodes);
    w.begin_chunk(697, &Vec::new());
    w.begin_chunk(900, &Vec::new());
    w.begin_chunk(1 << 33, &Vec::new());
    let entry = |key, offset, byte_size, point_count| HierarchyEntry {
        key,
        offset,
        byte_size,
        point_count,
    };
    assert_eq!(
        w.chunk_info((1 << 33) + 55),
        vec![
            entry(key(0, 0, 0, 0), 697, 203, 20),
            entry(key(1, 1, 0, 0), 900, ((1i64 << 33) - 900) as i32, -1),
            entry(key(1, 0, 1, 0), 1 << 33, 55, 30),
        ]
    );
}

#[test]
fn chunk_table_offset_is_read() {
    assert_eq!(chunk_table_position(&[1, 2, 0, 0, 0, 0, 0, 0, 9]), Some(513));
    assert_eq!(chunk_table_position(&[255; 8]), Some(u64::MAX));
    assert_eq!(chunk_table_position(&[0; 7]), None);
}

fn point(i: i32) -> RawPoint {
    RawPoint {
        x: 100 + i,
        y: 100 + 2 * i,
        z: 100 - i,
        intensity: i as u16,
        return_number: 1,
        number_of_returns: 2,
        classification: 2,
        scan_angle: 50,
        user_data: 3,
        point_source_id: 4,
        gps_time: f(i as f64),
        red: 5,
        green: 6,
        blue: i as u16,
        nir: 0,
    }
}

fn patch(file: &mut Vec<u8>, position: usize, bytes: &[u8]) {
    file.truncate(file.len().max(position));
    let end = (position + bytes.len()).max(file.len());
    file.resize(end, 0);
    file[position..position + bytes.len()].copy_from_slice(bytes);
}

fn written(writer: &mut CopcWriter, nodes: &[(VoxelKey, Vec<RawPoint>)]) -> Vec<u8> {
    let mut out = Cursor::new(writer.prologue.clone());
    out.set_position(writer.prologue.len() as u64);
    let mut compressor = LasZipCompressor::new(out, laz_vlr()).unwrap();
    compressor.reserve_offset_to_chunk_table().unwrap();
    while let Some(k) = writer.next_node() {
        let pts = &nodes.iter().find(|n| n.0 == k).unwrap().1;
        let position = compressor.get_mut().stream_position().unwrap();
        let chunk = writer.begin_chunk(position, pts);
        compressor.compress_many(&chunk.records).unwrap();
        if chunk.finish {
            compressor.finish_current_chunk().unwrap();
        }
    }
    compressor.done().unwrap();
    let mut out = compressor.into_inner();
    let end = out.stream_position().unwrap();
    let mut file = out.into_inner();
    assert_eq!(file.len() as u64, end);
    let table = chunk_table_position(&file[689..]).unwrap();
    for p in writer.finish(table, end) {
        patch(&mut file, p.position as usize, &p.bytes);
    }
    file
}

#[test]
fn finished_file_can_be_read() {
    let nodes: Vec<(VoxelKey, Vec<RawPoint>)> = vec![
        (key(1, 1, 1, 1), (0..10).map(point).collect()),
        (key(0, 0, 0, 0), (100..103).map(point).collect()),
        (key(1, 0, 0, 0), (200..225).map(point).collect()),
    ];
    let counts: Vec<(VoxelKey, usize)> = nodes.iter().map(|n| (n.0, n.1.len())).collect();
    let b = builder(38);
    let mut writer = write_copc(&b, f(8.0), &counts);
    let file = written(&mut writer, &nodes);

    let evlr_start = u64_at(&file, 235) as usize;
    assert_eq!(u32_at(&file, 96), 689);
    assert_eq!(text_at(&file, evlr_start + 2, 16), "copc");
    assert_eq!((u16_at(&file, evlr_start + 18), u64_at(&file, evlr_start + 20)), (1000, 96));
    let hierarchy = u64_at(&file, 469) as usize;
    assert_eq!(hierarchy, evlr_start + 60);
    assert_eq!(u64_at(&file, 477), 96);
    assert_eq!(file.len(), hierarchy + 96);
    assert_eq!(&file[..235], &writer.prologue[..235]);
    assert_eq!(&file[243..469], &writer.prologue[243..469]);
    assert_eq!(&file[485..689], &writer.prologue[485..]);

    let order = [key(0, 0, 0, 0), key(1, 0, 0, 0), key(1, 1, 1, 1)];
    let table = u64_at(&file, 689);
    let mut next = 697;
    for (i, k) in order.iter().enumerate() {
        let at = hierarchy + 32 * i;
        assert_eq!(u32_at(&file, at) as i32, k.level);
        assert_eq!(u32_at(&file, at + 4) as i32, k.x);
        assert_eq!(u32_at(&file, at + 8) as i32, k.y);
        assert_eq!(u32_at(&file, at + 12) as i32, k.z);
        assert_eq!(u64_at(&file, at + 16), next);
        next += u32_at(&file, at + 24) as u64;
        let count = nodes.iter().find(|n| n.0 == *k).unwrap().1.len();
        assert_eq!(u32_at(&file, at + 28) as usize, count);
    }
    assert_eq!(next, table);

    let mut reader = las::Reader::new(Cursor::new(file)).unwrap();
    assert_eq!(reader.header().number_of_points(), 38);
    assert_eq!(reader.header().version(), las::Version::new(1, 4));
    let mut points: Vec<las::Point> = Vec::new();
    reader.read_all_points_into(&mut points).unwrap();
    let expected: Vec<RawPoint> = order
        .iter()
        .flat_map(|k| nodes.iter().find(|n| n.0 == *k).unwrap().1.clone())
        .collect();
    assert_eq!(points.len(), expected.len());
    for (p, e) in points.iter().zip(&expected) {
        assert_eq!(p.x, 100.0 + 0.01 * e.x as f64);
        assert_eq!((p.intensity, p.return_number, p.number_of_returns), (e.intensity, 1, 2));
        assert_eq!((p.gps_time, p.user_data, p.point_source_id), (Some(f64::from_bits(e.gps_time.bits)), 3, 4));
        let color = p.color.unwrap();
        assert_eq!((color.red, color.green, color.blue), (5, 6, e.blue));
    }
}

#[test]
fn each_entry_leads_to_its_points() {
    let nodes: Vec<(VoxelKey, Vec<RawPoint>)> = vec![
        (key(0, 0, 0, 0), (0..50).map(point).collect()),
        (key(1, 0, 1, 0), (50..57).map(point).collect()),
        (key(1, 1, 1, 0), (57..200).map(point).collect()),
    ];
    let counts: Vec<(VoxelKey, usize)> = nodes.iter().map(|n| (n.0, n.1.len())).collect();
    let mut writer = write_copc(&builder(200), f(8.0), &counts);
    let file = written(&mut writer, &nodes);
    for entry in writer.chunk_info(u64_at(&file, 689)) {
        let (from, len) = (entry.offset as usize, entry.byte_size as usize);
        let expected = encode_node(&nodes.iter().find(|n| n.0 == entry.key).unwrap().1);
        assert_eq!(entry.point_count as usize * 36, expected.len());
        let chunk = Cursor::new(file[from..from + len].to_vec());
        let mut decompressor = LayeredPointRecordDecompressor::new(chunk);
        decompressor.set_fields_from(laz_vlr().items()).unwrap();
        let mut records = vec![0u8; expected.len()];
        for record in records.chunks_exact_mut(36) {
            decompressor.decompress_next(record).unwrap();
        }
        assert_eq!(records, expected);
    }
}

#[test]
fn listing_order_does_not_matter() {
    let nodes: Vec<(VoxelKey, Vec<RawPoint>)> = vec![
        (key(1, 1, 1, 1), (0..10).map(point).collect()),
        (key(0, 0, 0, 0), (10..13).map(point).collect()),
        (key(1, 0, 0, 0), (13..40).map(point).collect()),
    ];
    let mut counts: Vec<(VoxelKey, usize)> = nodes.iter().map(|n| (n.0, n.1.len())).collect();
    let mut a = write_copc(&builder(40), f(8.0), &counts);
    counts.reverse();
    let mut b = write_copc(&builder(40), f(8.0), &counts);
    assert_eq!(a.ordered_keys, b.ordered_keys);
    assert_eq!(written(&mut a, &nodes), written(&mut b, &nodes));
}

#[test]
fn file_without_nodes() {
    let b = builder(0);
    let mut writer = write_copc(&b, f(8.0), &Vec::new());
    let file = written(&mut writer, &[]);
    let evlr_start = u64_at(&file, 235);
    assert_eq!(u64_at(&file, 469), evlr_start + 60);
    assert_eq!(u64_at(&file, 477), 0);
    assert_eq!(file.len() as u64, evlr_start + 60);
}
