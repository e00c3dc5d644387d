//! The records of a COPC file.
use crate::bytes::{
    le_i32, le_u16, le_u64, le_value, lemma_le_fixed_widths, write_i32, write_u16, write_u64,
};
use crate::float64::Float64;
use crate::point::signed32;
use crate::voxel::VoxelKey;
use vstd::prelude::*;
use vstd::string::*;

verus! {

/// Bytes in the header of a variable length record.
pub const VLR_HEADER_SIZE: usize = 54;

/// Bytes in the header of an extended variable length record.
pub const EVLR_HEADER_SIZE: usize = 60;

/// `n` zero bytes.
pub open spec fn zeros(n: nat) -> Seq<u8> {
    Seq::new(n, |i: int| 0u8)
}

/// The bytes of ASCII text.
pub open spec fn ascii(text: Seq<char>) -> Seq<u8> {
    Seq::new(text.len(), |i: int| text[i] as u8)
}

/// ASCII text in a field of fixed width, filled up with zeros.
pub open spec fn field(text: Seq<char>, width: nat) -> Seq<u8> {
    ascii(text) + zeros((width - text.len()) as nat)
}

pub(crate) fn append_zeros(w: &mut Vec<u8>, n: usize)
    ensures
        final(w)@ == old(w)@ + zeros(n as nat),
{
    let mut i: usize = 0;
    assert(w@ =~= old(w)@ + zeros(0));
    while i < n
        invariant
            0 <= i <= n,
            w@ == old(w)@ + zeros(i as nat),
        decreases n - i,
    {
        w.push(0);
        i = i + 1;
        assert(w@ =~= old(w)@ + zeros(i as nat));
    }
}

pub(crate) fn append_field(w: &mut Vec<u8>, text: &str, width: usize)
    requires
        text.is_ascii(),
        text@.len() <= width,
    ensures
        final(w)@ == old(w)@ + field(text@, width as nat),
{
    broadcast use is_ascii_spec_bytes;

    let bytes: &[u8] = text.as_bytes();
    assert(bytes@ =~= ascii(text@));
    let mut i: usize = 0;
    assert(ascii(text@).take(0) =~= Seq::empty());
    while i < bytes.len()
        invariant
            0 <= i <= bytes.len(),
            bytes@ == ascii(text@),
            w@ == old(w)@ + ascii(text@).take(i as int),
        decreases bytes.len() - i,
    {
        w.push(bytes[i]);
        i = i + 1;
        assert(w@ =~= old(w)@ + ascii(text@).take(i as int));
    }
    assert(ascii(text@).take(text@.len() as int) =~= ascii(text@));
    append_zeros(w, width - i);
    assert(w@ =~= old(w)@ + field(text@, width as nat));
}

/// Appends all of `more`.
pub(crate) fn append_bytes(w: &mut Vec<u8>, more: &Vec<u8>)
    ensures
        final(w)@ == old(w)@ + more@,
{
    w.extend_from_slice(more.as_slice());
    assert(w@ =~= old(w)@ + more@);
}

/// What the `copc info` record says of the file.
#[derive(Debug, Clone, Copy, PartialEq, Eq, Structural)]
pub struct CopcInfo {
    pub center_x: Float64,
    pub center_y: Float64,
    pub center_z: Float64,
    pub halfsize: Float64,
    pub spacing: Float64,
    pub root_hier_offset: u64,
    pub root_hier_size: u64,
    pub gpstime_minimum: Float64,
    pub gpstime_maximum: Float64,
}

impl CopcInfo {
    /// Bytes in the record.
    pub const BYTE_SIZE: usize = 160;

    /// The record: nine eight-byte numbers and eleven reserved ones, little-endian.
    pub open spec fn encoded(self) -> Seq<u8> {
        le_u64(self.center_x.bits) + le_u64(self.center_y.bits) + le_u64(self.center_z.bits)
            + le_u64(self.halfsize.bits) + le_u64(self.spacing.bits) + le_u64(self.root_hier_offset)
            + le_u64(self.root_hier_size) + le_u64(self.gpstime_minimum.bits) + le_u64(
            self.gpstime_maximum.bits,
        ) + zeros(88)
    }

    /// What a record says.
    pub open spec fn decoded(b: Seq<u8>) -> CopcInfo {
        CopcInfo {
            center_x: Float64 { bits: le_value(b.subrange(0, 8)) as u64 },
            center_y: Float64 { bits: le_value(b.subrange(8, 16)) as u64 },
            center_z: Float64 { bits: le_value(b.subrange(16, 24)) as u64 },
            halfsize: Float64 { bits: le_value(b.subrange(24, 32)) as u64 },
            spacing: Float64 { bits: le_value(b.subrange(32, 40)) as u64 },
            root_hier_offset: le_value(b.subrange(40, 48)) as u64,
            root_hier_size: le_value(b.subrange(48, 56)) as u64,
            gpstime_minimum: Float64 { bits: le_value(b.subrange(56, 64)) as u64 },
            gpstime_maximum: Float64 { bits: le_value(b.subrange(64, 72)) as u64 },
        }
    }

    /// Appends the record.
    pub fn write(&self, w: &mut Vec<u8>)
        ensures
            final(w)@ == old(w)@ + self.encoded(),
    {
        write_u64(w, self.center_x.bits);
        write_u64(w, self.center_y.bits);
        write_u64(w, self.center_z.bits);
        write_u64(w, self.halfsize.bits);
        write_u64(w, self.spacing.bits);
        write_u64(w, self.root_hier_offset);
        write_u64(w, self.root_hier_size);
        write_u64(w, self.gpstime_minimum.bits);
        write_u64(w, self.gpstime_maximum.bits);
        append_zeros(w, 88);
        assert(w@ =~= old(w)@ + self.encoded());
    }
}

/// A `copc info` record is read back as it was written.
pub proof fn copc_info_round_trip(info: CopcInfo)
    ensures
        info.encoded().len() == CopcInfo::BYTE_SIZE,
        CopcInfo::decoded(info.encoded()) == info,
{
    lemma_le_fixed_widths();
    let b = info.encoded();
    assert(b.subrange(0, 8) =~= le_u64(info.center_x.bits));
    assert(b.subrange(8, 16) =~= le_u64(info.center_y.bits));
    assert(b.subrange(16, 24) =~= le_u64(info.center_z.bits));
    assert(b.subrange(24, 32) =~= le_u64(info.halfsize.bits));
    assert(b.subrange(32, 40) =~= le_u64(info.spacing.bits));
    assert(b.subrange(40, 48) =~= le_u64(info.root_hier_offset));
    assert(b.subrange(48, 56) =~= le_u64(info.root_hier_size));
    assert(b.subrange(56, 64) =~= le_u64(info.gpstime_minimum.bits));
    assert(b.subrange(64, 72) =~= le_u64(info.gpstime_maximum.bits));
}

/// Where a node's points are in the file.
#[derive(Debug, Clone, Copy, PartialEq, Eq, Structural)]
pub struct HierarchyEntry {
    pub key: VoxelKey,
    /// Where the node's chunk starts in the file.
    pub offset: u64,
    /// The length of the chunk in bytes.
    pub byte_size: i32,
    pub point_count: i32,
}

impl HierarchyEntry {
    /// Bytes in the entry.
    pub const BYTE_SIZE: usize = 32;

    /// The entry as it stands in the hierarchy record, little-endian.
    pub open spec fn encoded(self) -> Seq<u8> {
        le_i32(self.key.level) + le_i32(self.key.x) + le_i32(self.key.y) + le_i32(self.key.z)
            + le_u64(self.offset) + le_i32(self.byte_size) + le_i32(self.point_count)
    }

    /// The entry that 32 bytes hold.
    pub open spec fn decoded(b: Seq<u8>) -> HierarchyEntry {
        HierarchyEntry {
            key: VoxelKey {
                level: signed32(le_value(b.subrange(0, 4))),
                x: signed32(le_value(b.subrange(4, 8))),
                y: signed32(le_value(b.subrange(8, 12))),
                z: signed32(le_value(b.subrange(12, 16))),
            },
            offset: le_value(b.subrange(16, 24)) as u64,
            byte_size: signed32(le_value(b.subrange(24, 28))),
            point_count: signed32(le_value(b.subrange(28, 32))),
        }
    }

    /// Appends the entry.
    pub fn write(&self, w: &mut Vec<u8>)
        ensures
            final(w)@ == old(w)@ + self.encoded(),
    {
        write_i32(w, self.key.level);
        write_i32(w, self.key.x);
        write_i32(w, self.key.y);
        write_i32(w, self.key.z);
        write_u64(w, self.offset);
        write_i32(w, self.byte_size);
        write_i32(w, self.point_count);
        assert(w@ =~= old(w)@ + self.encoded());
    }
}

/// A hierarchy entry is read back as it was written.
pub proof fn hierarchy_entry_round_trip(entry: HierarchyEntry)
    ensures
        entry.encoded().len() == HierarchyEntry::BYTE_SIZE,
        HierarchyEntry::decoded(entry.encoded()) == entry,
{
    lemma_le_fixed_widths();
    let b = entry.encoded();
    assert(b.subrange(0, 4) =~= le_i32(entry.key.level));
    assert(b.subrange(4, 8) =~= le_i32(entry.key.x));
    assert(b.subrange(8, 12) =~= le_i32(entry.key.y));
    assert(b.subrange(12, 16) =~= le_i32(entry.key.z));
    assert(b.subrange(16, 24) =~= le_u64(entry.offset));
    assert(b.subrange(24, 28) =~= le_i32(entry.byte_size));
    assert(b.subrange(28, 32) =~= le_i32(entry.point_count));
}

/// The payload of the hierarchy record: all entries in turn.
pub open spec fn hierarchy_payload_spec(entries: Seq<HierarchyEntry>) -> Seq<u8>
    decreases entries.len(),
{
    if entries.len() == 0 {
        Seq::empty()
    } else {
        hierarchy_payload_spec(entries.drop_last()) + entries.last().encoded()
    }
}

pub fn hierarchy_payload(entries: &Vec<HierarchyEntry>) -> (r: Vec<u8>)
    ensures
        r@ == hierarchy_payload_spec(entries@),
{
    let mut r: Vec<u8> = Vec::new();
    let mut i: usize = 0;
    assert(entries@.take(0) =~= Seq::empty());
    while i < entries.len()
        invariant
            0 <= i <= entries.len(),
            r@ == hierarchy_payload_spec(entries@.take(i as int)),
        decreases entries.len() - i,
    {
        assert(entries@.take(i + 1).drop_last() =~= entries@.take(i as int));
        entries[i].write(&mut r);
        i = i + 1;
    }
    assert(entries@.take(entries.len() as int) =~= entries@);
    r
}

/// Each entry is found in the payload at its place.
pub proof fn hierarchy_payload_holds_entries(entries: Seq<HierarchyEntry>)
    ensures
        hierarchy_payload_spec(entries).len() == HierarchyEntry::BYTE_SIZE * entries.len(),
        forall|i: int|
            0 <= i < entries.len() ==> HierarchyEntry::decoded(
                hierarchy_payload_spec(entries).subrange(32 * i, 32 * i + 32),
            ) == #[trigger] entries[i],
    decreases entries.len(),
{
    if entries.len() > 0 {
        let h = entries.drop_last();
        let n = h.len() as int;
        let a = hierarchy_payload_spec(h);
        let b = hierarchy_payload_spec(entries);
        hierarchy_payload_holds_entries(h);
        hierarchy_entry_round_trip(entries.last());
        assert forall|i: int| 0 <= i < entries.len() implies HierarchyEntry::decoded(
            b.subrange(32 * i, 32 * i + 32),
        ) == #[trigger] entries[i] by {
            if i < n {
                assert(entries[i] == h[i]);
                assert(b.subrange(32 * i, 32 * i + 32) =~= a.subrange(32 * i, 32 * i + 32));
            } else {
                assert(b.subrange(32 * i, 32 * i + 32) =~= entries.last().encoded());
            }
        }
    }
}

/// A variable length record with its header.
pub open spec fn vlr(
    user_id: Seq<char>,
    record_id: u16,
    description: Seq<char>,
    payload: Seq<u8>,
) -> Seq<u8> {
    le_u16(0) + field(user_id, 16) + le_u16(record_id) + le_u16(payload.len() as u16) + field(
        description,
        32,
    ) + payload
}

/// An extended variable length record with its header.
pub open spec fn evlr(
    user_id: Seq<char>,
    record_id: u16,
    description: Seq<char>,
    payload: Seq<u8>,
) -> Seq<u8> {
    le_u16(0) + field(user_id, 16) + le_u16(record_id) + le_u64(payload.len() as u64) + field(
        description,
        32,
    ) + payload
}

/// Appends a variable length record.
pub fn write_vlr(
    w: &mut Vec<u8>,
    user_id: &str,
    record_id: u16,
    description: &str,
    payload: &Vec<u8>,
)
    requires
        user_id.is_ascii(),
        user_id@.len() <= 16,
        description.is_ascii(),
        description@.len() <= 32,
        payload.len() <= u16::MAX,
    ensures
        final(w)@ == old(w)@ + vlr(user_id@, record_id, description@, payload@),
{
    write_u16(w, 0);
    append_field(w, user_id, 16);
    write_u16(w, record_id);
    write_u16(w, payload.len() as u16);
    append_field(w, description, 32);
    append_bytes(w, payload);
    assert(w@ =~= old(w)@ + vlr(user_id@, record_id, description@, payload@));
}

/// Appends an extended variable length record.
pub fn write_evlr(
    w: &mut Vec<u8>,
    user_id: &str,
    record_id: u16,
    description: &str,
    payload: &Vec<u8>,
)
    requires
        user_id.is_ascii(),
        user_id@.len() <= 16,
        description.is_ascii(),
        description@.len() <= 32,
    ensures
        final(w)@ == old(w)@ + evlr(user_id@, record_id, description@, payload@),
{
    write_u16(w, 0);
    append_field(w, user_id, 16);
    write_u16(w, record_id);
    write_u64(w, payload.len() as u64);
    append_field(w, description, 32);
    append_bytes(w, payload);
    assert(w@ =~= old(w)@ + evlr(user_id@, record_id, description@, payload@));
}

/// A record's payload stands behind a header of fixed length, which tells how long the
/// payload is.
pub proof fn record_layout(
    user_id: Seq<char>,
    record_id: u16,
    description: Seq<char>,
    payload: Seq<u8>,
)
    requires
        user_id.len() <= 16,
        description.len() <= 32,
    ensures
        ({
            let r = vlr(user_id, record_id, description, payload);
            &&& r.len() == VLR_HEADER_SIZE + payload.len()
            &&& r.skip(VLR_HEADER_SIZE as int) == payload
            &&& payload.len() <= u16::MAX ==> le_value(r.subrange(20, 22)) == payload.len()
        }),
        ({
            let r = evlr(user_id, record_id, description, payload);
            &&& r.len() == EVLR_HEADER_SIZE + payload.len()
            &&& r.skip(EVLR_HEADER_SIZE as int) == payload
            &&& payload.len() <= u64::MAX ==> le_value(r.subrange(20, 28)) == payload.len()
        }),
{
    lemma_le_fixed_widths();
    let v = vlr(user_id, record_id, description, payload);
    let e = evlr(user_id, record_id, description, payload);
    assert(v.skip(54) =~= payload);
    assert(e.skip(60) =~= payload);
    assert(v.subrange(20, 22) =~= le_u16(payload.len() as u16));
    assert(e.subrange(20, 28) =~= le_u64(payload.len() as u64));
}

/// Where each number of a `copc info` record stands.
pub proof fn copc_info_places(info: CopcInfo)
    ensures
        ({
            let b = info.encoded();
            &&& b.len() == 160
            &&& le_value(b.subrange(0, 8)) == info.center_x.bits
            &&& le_value(b.subrange(8, 16)) == info.center_y.bits
            &&& le_value(b.subrange(16, 24)) == info.center_z.bits
            &&& le_value(b.subrange(24, 32)) == info.halfsize.bits
            &&& le_value(b.subrange(32, 40)) == info.spacing.bits
            &&& le_value(b.subrange(40, 48)) == info.root_hier_offset
            &&& le_value(b.subrange(48, 56)) == info.root_hier_size
            &&& le_value(b.subrange(56, 64)) == info.gpstime_minimum.bits
            &&& le_value(b.subrange(64, 72)) == info.gpstime_maximum.bits
            &&& forall|i: int| 72 <= i < 160 ==> #[trigger] b[i] == 0
        }),
{
    lemma_le_fixed_widths();
    let b = info.encoded();
    assert(b.subrange(0, 8) =~= le_u64(info.center_x.bits));
    assert(b.subrange(8, 16) =~= le_u64(info.center_y.bits));
    assert(b.subrange(16, 24) =~= le_u64(info.center_z.bits));
    assert(b.subrange(24, 32) =~= le_u64(info.halfsize.bits));
    assert(b.subrange(32, 40) =~= le_u64(info.spacing.bits));
    assert(b.subrange(40, 48) =~= le_u64(info.root_hier_offset));
    assert(b.subrange(48, 56) =~= le_u64(info.root_hier_size));
    assert(b.subrange(56, 64) =~= le_u64(info.gpstime_minimum.bits));
    assert(b.subrange(64, 72) =~= le_u64(info.gpstime_maximum.bits));
}

/// Where each number of a hierarchy entry stands, negative ones in two's complement.
pub proof fn hierarchy_entry_places(entry: HierarchyEntry)
    ensures
        ({
            let b = entry.encoded();
            &&& b.len() == 32
            &&& le_value(b.subrange(0, 4)) == entry.key.level as int % 0x1_0000_0000
            &&& le_value(b.subrange(4, 8)) == entry.key.x as int % 0x1_0000_0000
            &&& le_value(b.subrange(8, 12)) == entry.key.y as int % 0x1_0000_0000
            &&& le_value(b.subrange(12, 16)) == entry.key.z as int % 0x1_0000_0000
            &&& le_value(b.subrange(16, 24)) == entry.offset
            &&& le_value(b.subrange(24, 28)) == entry.byte_size as int % 0x1_0000_0000
            &&& le_value(b.subrange(28, 32)) == entry.point_count as int % 0x1_0000_0000
        }),
{
    lemma_le_fixed_widths();
    let b = entry.encoded();
    assert(b.subrange(0, 4) =~= le_i32(entry.key.level));
    assert(b.subrange(4, 8) =~= le_i32(entry.key.x));
    assert(b.subrange(8, 12) =~= le_i32(entry.key.y));
    assert(b.subrange(12, 16) =~= le_i32(entry.key.z));
    assert(b.subrange(16, 24) =~= le_u64(entry.offset));
    assert(b.subrange(24, 28) =~= le_i32(entry.byte_size));
    assert(b.subrange(28, 32) =~= le_i32(entry.point_count));
}

/// The entries stand in the hierarchy one behind the other, 32 bytes each.
pub proof fn hierarchy_payload_places(entries: Seq<HierarchyEntry>, i: int)
    requires
        0 <= i < entries.len(),
    ensures
        hierarchy_payload_spec(entries).len() == 32 * entries.len(),
        hierarchy_payload_spec(entries).subrange(32 * i, 32 * i + 32) == entries[i].encoded(),
    decreases entries.len(),
{
    let h = entries.drop_last();
    hierarchy_entry_places(entries.last());
    if h.len() > 0 {
        hierarchy_payload_places(h, if i < h.len() { i } else { 0 });
    }
    lemma_last_record(hierarchy_payload_spec(h), entries.last().encoded(), h.len() as int, i);
}

proof fn lemma_last_record(a: Seq<u8>, e: Seq<u8>, n: int, i: int)
    requires
        0 <= i <= n,
        a.len() == 32 * n,
        e.len() == 32,
    ensures
        (a + e).subrange(32 * i, 32 * i + 32) == (if i < n {
            a.subrange(32 * i, 32 * i + 32)
        } else {
            e
        }),
{
    if i < n {
        assert((a + e).subrange(32 * i, 32 * i + 32) =~= a.subrange(32 * i, 32 * i + 32));
    } else {
        assert((a + e).subrange(32 * i, 32 * i + 32) =~= e);
    }
}

/// Where each part of a record's header stands: two reserved bytes, the owner in 16 bytes, the
/// record's number, the length of the payload in two bytes, or in eight if the record is an
/// extended one, and the description in 32 bytes. Texts are filled up with zeros.
pub proof fn record_places(
    user_id: Seq<char>,
    record_id: u16,
    description: Seq<char>,
    payload: Seq<u8>,
)
    requires
        user_id.len() <= 16,
        description.len() <= 32,
    ensures
        ({
            let r = vlr(user_id, record_id, description, payload);
            &&& r.len() == 54 + payload.len()
            &&& le_value(r.subrange(0, 2)) == 0
            &&& forall|i: int| 0 <= i < user_id.len() ==> #[trigger] r[2 + i] == user_id[i] as u8
            &&& forall|i: int| 2 + user_id.len() <= i < 18 ==> #[trigger] r[i] == 0
            &&& le_value(r.subrange(18, 20)) == record_id
            &&& payload.len() <= u16::MAX ==> le_value(r.subrange(20, 22)) == payload.len()
            &&& forall|i: int|
                0 <= i < description.len() ==> #[trigger] r[22 + i] == description[i] as u8
            &&& forall|i: int| 22 + description.len() <= i < 54 ==> #[trigger] r[i] == 0
            &&& r.subrange(54, r.len() as int) == payload
        }),
        ({
            let r = evlr(user_id, record_id, description, payload);
            &&& r.len() == 60 + payload.len()
            &&& le_value(r.subrange(0, 2)) == 0
            &&& forall|i: int| 0 <= i < user_id.len() ==> #[trigger] r[2 + i] == user_id[i] as u8
            &&& forall|i: int| 2 + user_id.len() <= i < 18 ==> #[trigger] r[i] == 0
            &&& le_value(r.subrange(18, 20)) == record_id
            &&& payload.len() <= u64::MAX ==> le_value(r.subrange(20, 28)) == payload.len()
            &&& forall|i: int|
                0 <= i < description.len() ==> #[trigger] r[28 + i] == description[i] as u8
            &&& forall|i: int| 28 + description.len() <= i < 60 ==> #[trigger] r[i] == 0
            &&& r.subrange(60, r.len() as int) == payload
        }),
{
    lemma_le_fixed_widths();
    let v = vlr(user_id, record_id, description, payload);
    let e = evlr(user_id, record_id, description, payload);
    assert(v.subrange(0, 2) =~= le_u16(0));
    assert(e.subrange(0, 2) =~= le_u16(0));
    assert(v.subrange(18, 20) =~= le_u16(record_id));
    assert(e.subrange(18, 20) =~= le_u16(record_id));
    assert(v.subrange(20, 22) =~= le_u16(payload.len() as u16));
    assert(e.subrange(20, 28) =~= le_u64(payload.len() as u64));
    assert(v.subrange(54, v.len() as int) =~= payload);
    assert(e.subrange(60, e.len() as int) =~= payload);
}

} // verus!
