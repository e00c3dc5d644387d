//! The records of points.
use copc_converter::float64::Float64;
use copc_converter::point::{
    decode_points, encode_node, encode_point_fmt7, encode_points, RawPoint, UnexpectedEnd,
    POINT_RECORD_LENGTH,
};

fn point() -> RawPoint {
    RawPoint {
        x: 0x0403_0201,
        y: -2,
        z: i32::MIN,
        intensity: 0x0605,
        return_number: 0x12,
        number_of_returns: 0xf3,
        classification: 7,
        scan_angle: -3,
        user_data: 8,
        point_source_id: 0x0a09,
        gps_time: Float64 { bits: 1.5f64.to_bits() },
        red: 0x0c0b,
        green: 0x0e0d,
        blue: 0x100f,
        nir: 0x1211,
    }
}

#[test]
fn temporary_record_bytes() {
    let mut w: Vec<u8> = vec![99];
    point().write(&mut w);
    let expected: Vec<u8> = vec![
        99, 1, 2, 3, 4, 0xfe, 0xff, 0xff, 0xff, 0, 0, 0, 0x80, 5, 6, 0x12, 0xf3, 7, 0xfd, 0xff, 8, 9,
        10, 0, 0, 0, 0, 0, 0, 0xf8, 0x3f, 11, 12, 13, 14, 15, 16, 17, 18,
    ];
    assert_eq!(w, expected);
    assert_eq!(RawPoint::read(&w, 1), Ok(point()));
}

#[test]
fn truncated_record_is_an_error() {
    let mut w: Vec<u8> = Vec::new();
    point().write(&mut w);
    assert_eq!(w.len(), RawPoint::BYTE_SIZE);
    assert_eq!(RawPoint::read(&w, 1), Err(UnexpectedEnd));
    assert_eq!(RawPoint::read(&w[..37], 0), Err(UnexpectedEnd));
    assert_eq!(RawPoint::read(&w, 38), Err(UnexpectedEnd));
    assert_eq!(RawPoint::read(&w, 0), Ok(point()));
}

#[test]
fn las_record_bytes() {
    let mut w: Vec<u8> = Vec::new();
    encode_point_fmt7(&point(), &mut w);
    let expected: Vec<u8> = vec![
        1, 2, 3, 4, 0xfe, 0xff, 0xff, 0xff, 0, 0, 0, 0x80, 5, 6, 0x32, 0, 7, 8, 0xfd, 0xff, 9, 10, 0,
        0, 0, 0, 0, 0, 0xf8, 0x3f, 11, 12, 13, 14, 15, 16,
    ];
    assert_eq!(w, expected);
    assert_eq!(w.len(), POINT_RECORD_LENGTH as usize);
}

#[test]
fn nodes_are_records_in_turn() {
    let mut other = point();
    other.x = -7;
    other.gps_time = Float64 { bits: f64::NAN.to_bits() };
    let points = vec![point(), other, point()];
    let las = encode_node(&points);
    assert_eq!(las.len(), 108);
    let mut second: Vec<u8> = Vec::new();
    encode_point_fmt7(&other, &mut second);
    assert_eq!(&las[36..72], &second[..]);
    let tmp = encode_points(&points);
    assert_eq!(tmp.len(), 114);
    assert_eq!(decode_points(&tmp), points);
    assert!(encode_node(&Vec::new()).is_empty());
    assert!(decode_points(&tmp[..20]).is_empty());
}

#[test]
fn files_written_in_parts_are_read_in_order() {
    let mut a = point();
    a.y = 1;
    let mut b = point();
    b.y = 2;
    let mut file = encode_points(&vec![a]);
    file.extend(encode_points(&vec![b, a]));
    assert_eq!(file, encode_points(&vec![a, b, a]));
    assert_eq!(decode_points(&file), vec![a, b, a]);
}
