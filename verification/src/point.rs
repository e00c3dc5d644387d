//! Points: their temporary-file records and their LAS records.
use crate::bytes::{
    le_i16, le_i32, le_u16, le_u64, le_value, lemma_le_fixed_widths, read_i16, read_i32, read_u16,
    read_u64, write_i16, write_i32, write_u16, write_u64,
};
use crate::float64::Float64;
use vstd::prelude::*;

verus! {

/// A raw point stored as scaled integer coordinates plus classification,
/// intensity, return number etc. The scaled integers are kept, so that the exact LAS
/// integer values can be written without floating-point loss.
#[derive(Debug, Clone, Copy, PartialEq, Eq, Structural)]
pub struct RawPoint {
    pub x: i32,
    pub y: i32,
    pub z: i32,
    pub intensity: u16,
    pub return_number: u8,
    pub number_of_returns: u8,
    pub classification: u8,
    pub scan_angle: i16,
    pub user_data: u8,
    pub point_source_id: u16,
    pub gps_time: Float64,
    pub red: u16,
    pub green: u16,
    pub blue: u16,
    pub nir: u16,
}

/// There are not enough bytes left for a point.
#[derive(Debug, Clone, Copy, PartialEq, Eq, Structural)]
pub struct UnexpectedEnd;

/// A point as it comes from an input file, with its coordinates already divided by
/// the output scale and rounded.
#[derive(Debug, Clone, Copy, PartialEq, Eq, Structural)]
pub struct InputPoint {
    pub x: i32,
    pub y: i32,
    pub z: i32,
    pub intensity: u16,
    pub return_number: u8,
    pub number_of_returns: u8,
    pub classification: u8,
    /// In units of 0.006 degrees.
    pub scan_angle: i16,
    pub user_data: u8,
    pub point_source_id: u16,
    pub gps_time: Option<Float64>,
    pub color: Option<Color>,
}

#[derive(Debug, Clone, Copy, PartialEq, Eq, Structural)]
pub struct Color {
    pub red: u16,
    pub green: u16,
    pub blue: u16,
}

/// The 16-bit signed integer with the two's complement `v`.
pub open spec fn signed16(v: nat) -> i16 {
    if v >= 0x8000 {
        (v - 0x1_0000) as i16
    } else {
        v as i16
    }
}

/// The 32-bit signed integer with the two's complement `v`.
pub open spec fn signed32(v: nat) -> i32 {
    if v >= 0x8000_0000 {
        (v - 0x1_0000_0000) as i32
    } else {
        v as i32
    }
}

impl RawPoint {
    /// Bytes per point in a temporary file.
    pub const BYTE_SIZE: usize = 38;

    /// The temporary-file record of this point: all fields in order, little-endian.
    pub open spec fn encoded(self) -> Seq<u8> {
        le_i32(self.x) + le_i32(self.y) + le_i32(self.z) + le_u16(self.intensity) + seq![
            self.return_number,
            self.number_of_returns,
            self.classification,
        ] + le_i16(self.scan_angle) + seq![self.user_data] + le_u16(self.point_source_id) + le_u64(
            self.gps_time.bits,
        ) + le_u16(self.red) + le_u16(self.green) + le_u16(self.blue) + le_u16(self.nir)
    }

    /// The point that a temporary-file record holds.
    pub open spec fn decoded(b: Seq<u8>) -> RawPoint {
        RawPoint {
            x: signed32(le_value(b.subrange(0, 4))),
            y: signed32(le_value(b.subrange(4, 8))),
            z: signed32(le_value(b.subrange(8, 12))),
            intensity: le_value(b.subrange(12, 14)) as u16,
            return_number: b[14],
            number_of_returns: b[15],
            classification: b[16],
            scan_angle: signed16(le_value(b.subrange(17, 19))),
            user_data: b[19],
            point_source_id: le_value(b.subrange(20, 22)) as u16,
            gps_time: Float64 { bits: le_value(b.subrange(22, 30)) as u64 },
            red: le_value(b.subrange(30, 32)) as u16,
            green: le_value(b.subrange(32, 34)) as u16,
            blue: le_value(b.subrange(34, 36)) as u16,
            nir: le_value(b.subrange(36, 38)) as u16,
        }
    }

    /// Appends the record of this point.
    pub fn write(&self, w: &mut Vec<u8>)
        ensures
            final(w)@ == old(w)@ + self.encoded(),
    {
        write_i32(w, self.x);
        write_i32(w, self.y);
        write_i32(w, self.z);
        write_u16(w, self.intensity);
        w.push(self.return_number);
        w.push(self.number_of_returns);
        w.push(self.classification);
        write_i16(w, self.scan_angle);
        w.push(self.user_data);
        write_u16(w, self.point_source_id);
        write_u64(w, self.gps_time.bits);
        write_u16(w, self.red);
        write_u16(w, self.green);
        write_u16(w, self.blue);
        write_u16(w, self.nir);
        assert(w@ =~= old(w)@ + self.encoded());
    }

    /// Reads the record that starts at `at`.
    pub fn read(r: &[u8], at: usize) -> (p: Result<RawPoint, UnexpectedEnd>)
        requires
            at <= r.len(),
        ensures
            p is Ok <==> at + RawPoint::BYTE_SIZE <= r.len(),
            p is Ok ==> p->Ok_0 == RawPoint::decoded(
                r@.subrange(at as int, at + RawPoint::BYTE_SIZE),
            ),
    {
        if r.len() - at < RawPoint::BYTE_SIZE {
            return Err(UnexpectedEnd);
        }
        let p = RawPoint {
            x: read_i32(r, at).unwrap(),
            y: read_i32(r, at + 4).unwrap(),
            z: read_i32(r, at + 8).unwrap(),
            intensity: read_u16(r, at + 12).unwrap(),
            return_number: r[at + 14],
            number_of_returns: r[at + 15],
            classification: r[at + 16],
            scan_angle: read_i16(r, at + 17).unwrap(),
            user_data: r[at + 19],
            point_source_id: read_u16(r, at + 20).unwrap(),
            gps_time: Float64 { bits: read_u64(r, at + 22).unwrap() },
            red: read_u16(r, at + 30).unwrap(),
            green: read_u16(r, at + 32).unwrap(),
            blue: read_u16(r, at + 34).unwrap(),
            nir: read_u16(r, at + 36).unwrap(),
        };
        proof {
            let b = r@.subrange(at as int, at + 38);
            lemma_le_fixed_widths();
            assert(b.subrange(0, 4) =~= le_i32(p.x));
            assert(b.subrange(4, 8) =~= le_i32(p.y));
            assert(b.subrange(8, 12) =~= le_i32(p.z));
            assert(b.subrange(12, 14) =~= le_u16(p.intensity));
            assert(b.subrange(17, 19) =~= le_i16(p.scan_angle));
            assert(b.subrange(20, 22) =~= le_u16(p.point_source_id));
            assert(b.subrange(22, 30) =~= le_u64(p.gps_time.bits));
            assert(b.subrange(30, 32) =~= le_u16(p.red));
            assert(b.subrange(32, 34) =~= le_u16(p.green));
            assert(b.subrange(34, 36) =~= le_u16(p.blue));
            assert(b.subrange(36, 38) =~= le_u16(p.nir));
        }
        Ok(p)
    }

    /// The raw point for an input point: a missing GPS time or colour becomes zero, and
    /// the near-infrared channel, which the output format has no room for, is zero.
    pub fn convert_point(p: &InputPoint) -> (r: RawPoint)
        ensures
            r == RawPoint::converted(*p),
            r.x == p.x && r.y == p.y && r.z == p.z,
            r.intensity == p.intensity,
            r.return_number == p.return_number,
            r.number_of_returns == p.number_of_returns,
            r.classification == p.classification,
            r.scan_angle == p.scan_angle,
            r.user_data == p.user_data,
            r.point_source_id == p.point_source_id,
            p.gps_time matches Some(t) ==> r.gps_time == t,
            p.gps_time is None ==> r.gps_time.bits == 0,
            p.color matches Some(c) ==> r.red == c.red && r.green == c.green && r.blue == c.blue,
            p.color is None ==> r.red == 0 && r.green == 0 && r.blue == 0,
            r.nir == 0,
    {
        let gps_time: Float64 = match p.gps_time {
            Some(t) => t,
            None => Float64 { bits: 0 },
        };
        let color: Color = match p.color {
            Some(c) => c,
            None => Color { red: 0, green: 0, blue: 0 },
        };
        RawPoint {
            x: p.x,
            y: p.y,
            z: p.z,
            intensity: p.intensity,
            return_number: p.return_number,
            number_of_returns: p.number_of_returns,
            classification: p.classification,
            scan_angle: p.scan_angle,
            user_data: p.user_data,
            point_source_id: p.point_source_id,
            gps_time,
            red: color.red,
            green: color.green,
            blue: color.blue,
            nir: 0,
        }
    }

    pub open spec fn converted(p: InputPoint) -> RawPoint {
        RawPoint {
            x: p.x,
            y: p.y,
            z: p.z,
            intensity: p.intensity,
            return_number: p.return_number,
            number_of_returns: p.number_of_returns,
            classification: p.classification,
            scan_angle: p.scan_angle,
            user_data: p.user_data,
            point_source_id: p.point_source_id,
            gps_time: if p.gps_time is Some {
                p.gps_time->0
            } else {
                Float64 { bits: 0 }
            },
            red: if p.color is Some {
                p.color->0.red
            } else {
                0
            },
            green: if p.color is Some {
                p.color->0.green
            } else {
                0
            },
            blue: if p.color is Some {
                p.color->0.blue
            } else {
                0
            },
            nir: 0,
        }
    }

    /// The LAS 1.4 format 7 record of this point.
    pub open spec fn las_record(self) -> Seq<u8> {
        le_i32(self.x) + le_i32(self.y) + le_i32(self.z) + le_u16(self.intensity) + seq![
            // bits 0-3: return number, bits 4-7: number of returns
            (self.return_number as int % 16 + 16 * (self.number_of_returns as int % 16)) as u8,
            0u8,
            self.classification,
            self.user_data,
        ] + le_i16(self.scan_angle) + le_u16(self.point_source_id) + le_u64(self.gps_time.bits)
            + le_u16(self.red) + le_u16(self.green) + le_u16(self.blue)
    }
}

/// Bytes in a LAS 1.4 format 7 record: 30 of format 6 and 6 for the colour.
pub const POINT_RECORD_LENGTH: u16 = 36;

/// Appends one point as LAS 1.4 format 7 raw bytes (36 bytes, little-endian).
pub fn encode_point_fmt7(rp: &RawPoint, buf: &mut Vec<u8>)
    ensures
        final(buf)@ == old(buf)@ + rp.las_record(),
        rp.las_record().len() == POINT_RECORD_LENGTH,
{
    let number: u8 = rp.return_number;
    let returns: u8 = rp.number_of_returns;
    write_i32(buf, rp.x);
    write_i32(buf, rp.y);
    write_i32(buf, rp.z);
    write_u16(buf, rp.intensity);
    let return_byte: u8 = (number & 0x0F) | ((returns & 0x0F) << 4);
    assert((number & 0x0F) | ((returns & 0x0F) << 4) == number % 16 + 16 * (returns % 16))
        by (bit_vector);
    buf.push(return_byte);
    buf.push(0u8);
    buf.push(rp.classification);
    buf.push(rp.user_data);
    write_i16(buf, rp.scan_angle);
    write_u16(buf, rp.point_source_id);
    write_u64(buf, rp.gps_time.bits);
    write_u16(buf, rp.red);
    write_u16(buf, rp.green);
    write_u16(buf, rp.blue);
    proof {
        lemma_le_fixed_widths();
    }
    assert(buf@ =~= old(buf)@ + rp.las_record());
}

/// The LAS records of all points in turn.
pub open spec fn las_records(pts: Seq<RawPoint>) -> Seq<u8>
    decreases pts.len(),
{
    if pts.len() == 0 {
        Seq::empty()
    } else {
        las_records(pts.drop_last()) + pts.last().las_record()
    }
}

/// The temporary-file records of all points in turn.
pub open spec fn encoded_points(pts: Seq<RawPoint>) -> Seq<u8>
    decreases pts.len(),
{
    if pts.len() == 0 {
        Seq::empty()
    } else {
        encoded_points(pts.drop_last()) + pts.last().encoded()
    }
}

/// The points of a temporary file; bytes behind the last whole record are ignored.
pub open spec fn decoded_points(bytes: Seq<u8>) -> Seq<RawPoint> {
    Seq::new(
        bytes.len() / RawPoint::BYTE_SIZE as nat,
        |i: int| RawPoint::decoded(bytes.subrange(38 * i, 38 * i + 38)),
    )
}

/// The LAS records of a node's points, ready for compression.
pub fn encode_node(pts: &Vec<RawPoint>) -> (r: Vec<u8>)
    ensures
        r@ == las_records(pts@),
        r@.len() == POINT_RECORD_LENGTH * pts.len(),
{
    let mut r: Vec<u8> = Vec::new();
    let mut i: usize = 0;
    assert(pts@.take(0) =~= Seq::empty());
    while i < pts.len()
        invariant
            0 <= i <= pts.len(),
            r@ == las_records(pts@.take(i as int)),
            r@.len() == 36 * i,
        decreases pts.len() - i,
    {
        assert(pts@.take(i + 1).drop_last() =~= pts@.take(i as int));
        encode_point_fmt7(&pts[i], &mut r);
        i = i + 1;
    }
    assert(pts@.take(pts.len() as int) =~= pts@);
    r
}

/// The temporary-file records of a node's points.
pub fn encode_points(pts: &Vec<RawPoint>) -> (r: Vec<u8>)
    ensures
        r@ == encoded_points(pts@),
{
    let mut r: Vec<u8> = Vec::new();
    let mut i: usize = 0;
    assert(pts@.take(0) =~= Seq::empty());
    while i < pts.len()
        invariant
            0 <= i <= pts.len(),
            r@ == encoded_points(pts@.take(i as int)),
        decreases pts.len() - i,
    {
        assert(pts@.take(i + 1).drop_last() =~= pts@.take(i as int));
        pts[i].write(&mut r);
        i = i + 1;
    }
    assert(pts@.take(pts.len() as int) =~= pts@);
    r
}

/// The points of a temporary file.
pub fn decode_points(bytes: &[u8]) -> (r: Vec<RawPoint>)
    ensures
        r@ == decoded_points(bytes@),
{
    let count: usize = bytes.len() / RawPoint::BYTE_SIZE;
    let mut r: Vec<RawPoint> = Vec::new();
    let mut i: usize = 0;
    while i < count
        invariant
            0 <= i <= count,
            count == bytes@.len() / 38,
            count * 38 <= bytes.len(),
            r@.len() == i,
            forall|j: int| 0 <= j < i ==> r@[j] == #[trigger] decoded_points(bytes@)[j],
        decreases count - i,
    {
        r.push(RawPoint::read(bytes, i * RawPoint::BYTE_SIZE).unwrap());
        i = i + 1;
    }
    assert(r@ =~= decoded_points(bytes@));
    r
}

/// A point is read back as it was written.
pub proof fn read_gives_back_write(p: RawPoint)
    ensures
        p.encoded().len() == RawPoint::BYTE_SIZE,
        RawPoint::decoded(p.encoded()) == p,
{
    lemma_le_fixed_widths();
    let b = p.encoded();
    assert(b.subrange(0, 4) =~= le_i32(p.x));
    assert(b.subrange(4, 8) =~= le_i32(p.y));
    assert(b.subrange(8, 12) =~= le_i32(p.z));
    assert(b.subrange(12, 14) =~= le_u16(p.intensity));
    assert(b.subrange(17, 19) =~= le_i16(p.scan_angle));
    assert(b.subrange(20, 22) =~= le_u16(p.point_source_id));
    assert(b.subrange(22, 30) =~= le_u64(p.gps_time.bits));
    assert(b.subrange(30, 32) =~= le_u16(p.red));
    assert(b.subrange(32, 34) =~= le_u16(p.green));
    assert(b.subrange(34, 36) =~= le_u16(p.blue));
    assert(b.subrange(36, 38) =~= le_u16(p.nir));
}

/// A LAS record holds the point's whole coordinates and its other values as they are; of
/// the two return numbers it has room for four bits each.
pub proof fn las_record_keeps_values(p: RawPoint)
    ensures
        p.las_record().len() == POINT_RECORD_LENGTH,
        ({
            let b = p.las_record();
            &&& signed32(le_value(b.subrange(0, 4))) == p.x
            &&& signed32(le_value(b.subrange(4, 8))) == p.y
            &&& signed32(le_value(b.subrange(8, 12))) == p.z
            &&& le_value(b.subrange(0, 4)) == p.x as int % 0x1_0000_0000
            &&& le_value(b.subrange(4, 8)) == p.y as int % 0x1_0000_0000
            &&& le_value(b.subrange(8, 12)) == p.z as int % 0x1_0000_0000
            &&& le_value(b.subrange(12, 14)) == p.intensity
            &&& b[15] == 0
            &&& b[14] as int % 16 == p.return_number as int % 16
            &&& b[14] as int / 16 == p.number_of_returns as int % 16
            &&& b[16] == p.classification
            &&& b[17] == p.user_data
            &&& signed16(le_value(b.subrange(18, 20))) == p.scan_angle
            &&& le_value(b.subrange(18, 20)) == p.scan_angle as int % 0x1_0000
            &&& le_value(b.subrange(20, 22)) == p.point_source_id
            &&& le_value(b.subrange(22, 30)) == p.gps_time.bits
            &&& le_value(b.subrange(30, 32)) == p.red
            &&& le_value(b.subrange(32, 34)) == p.green
            &&& le_value(b.subrange(34, 36)) == p.blue
        }),
{
    lemma_le_fixed_widths();
    let b = p.las_record();
    assert(b.subrange(0, 4) =~= le_i32(p.x));
    assert(b.subrange(4, 8) =~= le_i32(p.y));
    assert(b.subrange(8, 12) =~= le_i32(p.z));
    assert(b.subrange(12, 14) =~= le_u16(p.intensity));
    assert(b.subrange(18, 20) =~= le_i16(p.scan_angle));
    assert(b.subrange(20, 22) =~= le_u16(p.point_source_id));
    assert(b.subrange(22, 30) =~= le_u64(p.gps_time.bits));
    assert(b.subrange(30, 32) =~= le_u16(p.red));
    assert(b.subrange(32, 34) =~= le_u16(p.green));
    assert(b.subrange(34, 36) =~= le_u16(p.blue));
}

/// The records of a node's points stand one behind the other.
pub proof fn node_records_in_turn(pts: Seq<RawPoint>, i: int)
    requires
        0 <= i < pts.len(),
    ensures
        las_records(pts).len() == POINT_RECORD_LENGTH * pts.len(),
        las_records(pts).subrange(36 * i, 36 * i + 36) == pts[i].las_record(),
    decreases pts.len(),
{
    let h = pts.drop_last();
    let n = h.len() as int;
    let a = las_records(h);
    let b = las_records(pts);
    las_record_keeps_values(pts.last());
    if h.len() > 0 {
        node_records_in_turn(h, if i < n { i } else { 0 });
    }
    if i < n {
        assert(pts[i] == h[i]);
        assert(b.subrange(36 * i, 36 * i + 36) =~= a.subrange(36 * i, 36 * i + 36));
    } else {
        assert(b.subrange(36 * i, 36 * i + 36) =~= pts.last().las_record());
    }
}

/// Records that are appended to whole records are read behind them.
pub proof fn appended_records_are_read_in_order(a: Seq<u8>, b: Seq<u8>)
    requires
        a.len() % (RawPoint::BYTE_SIZE as nat) == 0,
    ensures
        decoded_points(a + b) == decoded_points(a) + decoded_points(b),
{
    let n = a.len() / 38;
    let all = decoded_points(a + b);
    let both = decoded_points(a) + decoded_points(b);
    assert(a.len() == 38 * n);
    assert(all.len() == both.len());
    assert forall|i: int| 0 <= i < all.len() implies all[i] == both[i] by {
        if i < n {
            assert((a + b).subrange(38 * i, 38 * i + 38) =~= a.subrange(38 * i, 38 * i + 38));
        } else {
            let j = i - n;
            assert((a + b).subrange(38 * i, 38 * i + 38) =~= b.subrange(38 * j, 38 * j + 38));
        }
    }
    assert(all =~= both);
}

/// A node file holds the points that were written to it, in order, and nothing else.
pub proof fn node_file_gives_back_points(pts: Seq<RawPoint>)
    ensures
        encoded_points(pts).len() == RawPoint::BYTE_SIZE * pts.len(),
        decoded_points(encoded_points(pts)) == pts,
    decreases pts.len(),
{
    if pts.len() == 0 {
        assert(decoded_points(encoded_points(pts)) =~= pts);
    } else {
        let h = pts.drop_last();
        let p = pts.last();
        node_file_gives_back_points(h);
        read_gives_back_write(p);
        lemma_one_more_record(encoded_points(h), p.encoded(), h, p);
        assert(h.push(p) =~= pts);
    }
}

proof fn lemma_one_more_record(file: Seq<u8>, record: Seq<u8>, pts: Seq<RawPoint>, p: RawPoint)
    requires
        file.len() == RawPoint::BYTE_SIZE * pts.len(),
        decoded_points(file) == pts,
        record.len() == RawPoint::BYTE_SIZE,
        RawPoint::decoded(record) == p,
    ensures
        decoded_points(file + record) == pts.push(p),
{
    appended_records_are_read_in_order(file, record);
    lemma_one_record(record);
    assert(pts + seq![p] =~= pts.push(p));
}

proof fn lemma_one_record(b: Seq<u8>)
    requires
        b.len() == RawPoint::BYTE_SIZE,
    ensures
        decoded_points(b) == seq![RawPoint::decoded(b)],
{
    assert(b.subrange(0, 38) =~= b);
    assert(decoded_points(b) =~= seq![RawPoint::decoded(b)]);
}

/// Points that are written in two goes make the same file as points written in one.
pub proof fn written_in_parts(a: Seq<RawPoint>, b: Seq<RawPoint>)
    ensures
        encoded_points(a + b) == encoded_points(a) + encoded_points(b),
    decreases b.len(),
{
    if b.len() == 0 {
        assert(a + b =~= a);
        assert(encoded_points(a) + encoded_points(b) =~= encoded_points(a));
    } else {
        written_in_parts(a, b.drop_last());
        assert((a + b).drop_last() =~= a + b.drop_last());
        assert(encoded_points(a + b) =~= encoded_points(a) + encoded_points(b));
    }
}

/// Conversion keeps every value that an input point has; a missing one becomes zero.
pub proof fn conversion_keeps_values(p: InputPoint)
    ensures
        ({
            let r = RawPoint::converted(p);
            &&& r.x == p.x && r.y == p.y && r.z == p.z
            &&& r.intensity == p.intensity
            &&& r.return_number == p.return_number
            &&& r.number_of_returns == p.number_of_returns
            &&& r.classification == p.classification
            &&& r.scan_angle == p.scan_angle
            &&& r.user_data == p.user_data
            &&& r.point_source_id == p.point_source_id
            &&& p.gps_time matches Some(t) ==> r.gps_time == t
            &&& p.gps_time is None ==> r.gps_time.bits == 0
            &&& p.color matches Some(c) ==> r.red == c.red && r.green == c.green && r.blue == c.blue
            &&& p.color is None ==> r.red == 0 && r.green == 0 && r.blue == 0
            &&& r.nir == 0
        }),
{
}

/// Two input points with all their values become the same raw point only if they are the
/// same.
pub proof fn conversion_tells_points_apart(p: InputPoint, q: InputPoint)
    requires
        p.gps_time is Some && q.gps_time is Some,
        p.color is Some && q.color is Some,
        RawPoint::converted(p) == RawPoint::converted(q),
    ensures
        p == q,
{
}

/// A temporary-file record holds every value of its point at its place.
pub proof fn temporary_record_keeps_values(p: RawPoint)
    ensures
        ({
            let b = p.encoded();
            &&& b.len() == 38
            &&& le_value(b.subrange(0, 4)) == p.x as int % 0x1_0000_0000
            &&& le_value(b.subrange(4, 8)) == p.y as int % 0x1_0000_0000
            &&& le_value(b.subrange(8, 12)) == p.z as int % 0x1_0000_0000
            &&& le_value(b.subrange(12, 14)) == p.intensity
            &&& b[14] == p.return_number
            &&& b[15] == p.number_of_returns
            &&& b[16] == p.classification
            &&& le_value(b.subrange(17, 19)) == p.scan_angle as int % 0x1_0000
            &&& b[19] == p.user_data
            &&& le_value(b.subrange(20, 22)) == p.point_source_id
            &&& le_value(b.subrange(22, 30)) == p.gps_time.bits
            &&& le_value(b.subrange(30, 32)) == p.red
            &&& le_value(b.subrange(32, 34)) == p.green
            &&& le_value(b.subrange(34, 36)) == p.blue
            &&& le_value(b.subrange(36, 38)) == p.nir
        }),
{
    lemma_le_fixed_widths();
    let b = p.encoded();
    assert(b.subrange(0, 4) =~= le_i32(p.x));
    assert(b.subrange(4, 8) =~= le_i32(p.y));
    assert(b.subrange(8, 12) =~= le_i32(p.z));
    assert(b.subrange(12, 14) =~= le_u16(p.intensity));
    assert(b.subrange(17, 19) =~= le_i16(p.scan_angle));
    assert(b.subrange(20, 22) =~= le_u16(p.point_source_id));
    assert(b.subrange(22, 30) =~= le_u64(p.gps_time.bits));
    assert(b.subrange(30, 32) =~= le_u16(p.red));
    assert(b.subrange(32, 34) =~= le_u16(p.green));
    assert(b.subrange(34, 36) =~= le_u16(p.blue));
    assert(b.subrange(36, 38) =~= le_u16(p.nir));
}

/// A file that ends within a record holds the points of the whole records before it.
pub proof fn partial_record_is_ignored(pts: Seq<RawPoint>, rest: Seq<u8>)
    requires
        rest.len() < RawPoint::BYTE_SIZE,
    ensures
        decoded_points(encoded_points(pts) + rest) == pts,
{
    node_file_gives_back_points(pts);
    appended_records_are_read_in_order(encoded_points(pts), rest);
    assert(decoded_points(rest) =~= Seq::empty());
    assert(pts + Seq::<RawPoint>::empty() =~= pts);
}

/// The records of two parts of a node are the records of the whole.
pub proof fn node_records_in_parts(a: Seq<RawPoint>, b: Seq<RawPoint>)
    ensures
        las_records(a + b) == las_records(a) + las_records(b),
    decreases b.len(),
{
    if b.len() == 0 {
        assert(a + b =~= a);
        assert(las_records(a) + las_records(b) =~= las_records(a));
    } else {
        node_records_in_parts(a, b.drop_last());
        assert((a + b).drop_last() =~= a + b.drop_last());
        assert(las_records(a + b) =~= las_records(a) + las_records(b));
    }
}

} // verus!
