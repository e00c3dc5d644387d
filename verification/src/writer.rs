//! Writing a COPC 1.0 file.
//!
//! Layout
//! ------
//!  [LAS 1.4 header]           375 bytes
//!  [copc info VLR]            54 + 160 = 214 bytes
//!  [laszip VLR]               54 + 46  = 100 bytes
//!  --- point data, from byte 689 on ---
//!  [i64 chunk-table offset]   8 bytes
//!  [compressed chunks]        one per node, breadth first
//!  [LAZ chunk table]
//!  [copc hierarchy EVLR]      60 + n*32 bytes
use crate::bytes::{
    le_u16, le_u32, le_u64, le_value, lemma_le_fixed_widths, read_u64, write_u16, write_u32,
    write_u64,
};
use crate::copc::{
    append_field, append_zeros, copc_info_places, copc_info_round_trip, evlr, field,
    hierarchy_entry_places, hierarchy_payload, hierarchy_payload_holds_entries,
    hierarchy_payload_places, hierarchy_payload_spec, record_layout, record_places, vlr, write_evlr,
    write_vlr, zeros, CopcInfo, HierarchyEntry, EVLR_HEADER_SIZE, VLR_HEADER_SIZE,
};
use crate::float64::Float64;
use crate::hierarchy::{
    breadth_first, count_of, count_of_distinct_entry, distinct_nodes, index_counts, indexes,
    is_tree, level_count, levels_in_range, listed, order_covers_tree, order_ignores_listing,
    ordered_keys,
};
use crate::octree::OctreeBuilder;
use crate::point::{decoded_points, encode_node, las_records, RawPoint, POINT_RECORD_LENGTH};
use crate::voxel::VoxelKey;
use laz::LazVlrBuilder;
use std::collections::HashMap;
use vstd::prelude::*;
use vstd::std_specs::hash::group_hash_axioms;
use vstd::string::*;

verus! {

/// Bytes in a LAS 1.4 header.
pub const HEADER_SIZE: u16 = 375;

/// Where the header says at which byte the first extended record starts.
pub const EVLR_START_POSITION: u64 = 235;

/// Where the payload of the `copc info` record stands.
pub const COPC_INFO_POSITION: u64 = 429;

/// The payload of the laszip record for point format 7 with chunks of variable size:
/// layered chunks, arithmetic coder, version 2.2, no options, no fixed chunk size, no
/// special records, and the two items of the format, each with its number, size and
/// version.
pub open spec fn laz_vlr_payload() -> Seq<u8> {
    le_u16(3) + le_u16(0) + seq![2u8, 2u8] + le_u16(0) + le_u32(0) + le_u32(u32::MAX) + Seq::new(
        16,
        |i: int| 255u8,
    ) + le_u16(2) + le_u16(10) + le_u16(30) + le_u16(3) + le_u16(11) + le_u16(6) + le_u16(3)
}

/// `laz::LazVlrBuilder` with the point format, no fixed chunk size, built and written with
/// `laz::LazVlr::write_to`: for point format 7 without extra bytes, [`laz_vlr_payload`].
/// That format is known to the builder, and writing to a vector does not fail.
#[verifier::external_body]
fn laz_vlr(point_format: u8, num_extra_bytes: u16) -> (r: Vec<u8>)
    requires
        point_format == 7,
        num_extra_bytes == 0,
    ensures
        r@ == laz_vlr_payload(),
{
    let builder = LazVlrBuilder::default()
        .with_point_format(point_format, num_extra_bytes)
        .expect("a known point format");
    let mut payload: Vec<u8> = Vec::new();
    builder
        .with_variable_chunk_size()
        .build()
        .write_to(&mut payload)
        .expect("a vector takes every write");
    payload
}

/// Who wrote the file, and when.
pub open spec fn header_identification() -> Seq<u8> {
    field("LASF"@, 4)
        // file source
         + le_u16(0)
        // global encoding: standard GPS time, WKT
         + le_u16(0x11)
        // project
         + zeros(16)
        // version
         + seq![1u8, 4u8] + field("copc_converter"@, 32) + field("copc_converter 0.1"@, 32)
        // day and year of creation
         + le_u16(1) + le_u16(2024)
}

/// How the file is laid out.
pub open spec fn header_layout(offset_to_point_data: u32) -> Seq<u8> {
    le_u16(HEADER_SIZE) + le_u32(offset_to_point_data)
        // number of variable length records
         + le_u32(2)
        // compressed point format 7
         + seq![135u8] + le_u16(POINT_RECORD_LENGTH)
        // legacy point counts
         + zeros(24)
}

/// Where the points lie.
pub open spec fn header_extent(b: OctreeBuilder) -> Seq<u8> {
    le_u64(b.scale_x.bits) + le_u64(b.scale_y.bits) + le_u64(b.scale_z.bits) + le_u64(
        b.offset_x.bits,
    ) + le_u64(b.offset_y.bits) + le_u64(b.offset_z.bits) + le_u64(b.bounds.max_x.bits) + le_u64(
        b.bounds.min_x.bits,
    ) + le_u64(b.bounds.max_y.bits) + le_u64(b.bounds.min_y.bits) + le_u64(b.bounds.max_z.bits)
        + le_u64(b.bounds.min_z.bits)
        // start of waveform data
         + zeros(8)
}

/// The header up to the start of the first extended record.
pub open spec fn header_start(b: OctreeBuilder, offset_to_point_data: u32) -> Seq<u8> {
    header_identification() + header_layout(offset_to_point_data) + header_extent(b)
}

/// The header behind the start of the first extended record.
pub open spec fn header_end(b: OctreeBuilder) -> Seq<u8> {
    // number of extended records, number of points, points by return
    le_u32(1) + le_u64(b.total_points) + zeros(120)
}

/// The LAS 1.4 header.
pub open spec fn las_header(
    b: OctreeBuilder,
    offset_to_point_data: u32,
    evlr_start: u64,
) -> Seq<u8> {
    header_start(b, offset_to_point_data) + le_u64(evlr_start) + header_end(b)
}

/// All that comes before the point data.
pub open spec fn prologue(
    b: OctreeBuilder,
    offset_to_point_data: u32,
    evlr_start: u64,
    info: CopcInfo,
) -> Seq<u8> {
    las_header(b, offset_to_point_data, evlr_start) + vlr("copc"@, 1, "copc info"@, info.encoded())
        + vlr("laszip encoded"@, 22204, "laz variable chunks"@, laz_vlr_payload())
}

/// The `copc info` record for a hierarchy at the given place.
pub open spec fn copc_info(
    b: OctreeBuilder,
    spacing: Float64,
    root_hier_offset: u64,
    root_hier_size: u64,
) -> CopcInfo {
    CopcInfo {
        center_x: b.cx,
        center_y: b.cy,
        center_z: b.cz,
        halfsize: b.halfsize,
        spacing,
        root_hier_offset,
        root_hier_size,
        gpstime_minimum: Float64 { bits: 0 },
        gpstime_maximum: Float64 { bits: 0 },
    }
}

/// Where the point data start: behind the header and the two records.
pub open spec fn point_data_position() -> nat {
    689
}

proof fn lemma_literals()
    ensures
        "LASF".is_ascii(),
        "LASF"@.len() == 4,
        "copc_converter".is_ascii(),
        "copc_converter"@.len() == 14,
        "copc_converter 0.1".is_ascii(),
        "copc_converter 0.1"@.len() == 18,
        "copc".is_ascii(),
        "copc"@.len() == 4,
        "copc info".is_ascii(),
        "copc info"@.len() == 9,
        "laszip encoded".is_ascii(),
        "laszip encoded"@.len() == 14,
        "laz variable chunks".is_ascii(),
        "laz variable chunks"@.len() == 19,
        "copc hierarchy".is_ascii(),
        "copc hierarchy"@.len() == 14,
{
    reveal_strlit("LASF");
    reveal_strlit("copc_converter");
    reveal_strlit("copc_converter 0.1");
    reveal_strlit("copc");
    reveal_strlit("copc info");
    reveal_strlit("laszip encoded");
    reveal_strlit("laz variable chunks");
    reveal_strlit("copc hierarchy");
}

proof fn lemma_lengths(b: OctreeBuilder, offset_to_point_data: u32, evlr_start: u64, info: CopcInfo)
    ensures
        header_identification().len() == 94,
        header_start(b, offset_to_point_data).len() == EVLR_START_POSITION,
        header_end(b).len() == 132,
        las_header(b, offset_to_point_data, evlr_start).len() == HEADER_SIZE,
        laz_vlr_payload().len() == 46,
        vlr("copc"@, 1, "copc info"@, info.encoded()).len() == 214,
        vlr("laszip encoded"@, 22204, "laz variable chunks"@, laz_vlr_payload()).len() == 100,
        prologue(b, offset_to_point_data, evlr_start, info).len() == point_data_position(),
{
    lemma_literals();
    lemma_le_fixed_widths();
    copc_info_round_trip(info);
    record_layout("copc"@, 1, "copc info"@, info.encoded());
    record_layout("laszip encoded"@, 22204, "laz variable chunks"@, laz_vlr_payload());
}

fn write_identification(w: &mut Vec<u8>)
    ensures
        final(w)@ == old(w)@ + header_identification(),
{
    proof {
        lemma_literals();
    }
    append_field(w, "LASF", 4);
    write_u16(w, 0);
    write_u16(w, 0x0001 | 0x0010);
    append_zeros(w, 16);
    w.push(1);
    w.push(4);
    append_field(w, "copc_converter", 32);
    append_field(w, "copc_converter 0.1", 32);
    write_u16(w, 1);
    write_u16(w, 2024);
    assert(0x0001u16 | 0x0010u16 == 0x11) by (bit_vector);
    assert(w@ =~= old(w)@ + header_identification());
}

fn write_layout(w: &mut Vec<u8>, offset_to_point_data: u32)
    ensures
        final(w)@ == old(w)@ + header_layout(offset_to_point_data),
{
    write_u16(w, HEADER_SIZE);
    write_u32(w, offset_to_point_data);
    write_u32(w, 2);
    w.push(128 | 7);
    write_u16(w, POINT_RECORD_LENGTH);
    append_zeros(w, 24);
    assert(128u8 | 7u8 == 135) by (bit_vector);
    assert(w@ =~= old(w)@ + header_layout(offset_to_point_data));
}

fn write_extent(w: &mut Vec<u8>, b: &OctreeBuilder)
    ensures
        final(w)@ == old(w)@ + header_extent(*b),
{
    write_u64(w, b.scale_x.bits);
    write_u64(w, b.scale_y.bits);
    write_u64(w, b.scale_z.bits);
    write_u64(w, b.offset_x.bits);
    write_u64(w, b.offset_y.bits);
    write_u64(w, b.offset_z.bits);
    write_u64(w, b.bounds.max_x.bits);
    write_u64(w, b.bounds.min_x.bits);
    write_u64(w, b.bounds.max_y.bits);
    write_u64(w, b.bounds.min_y.bits);
    write_u64(w, b.bounds.max_z.bits);
    write_u64(w, b.bounds.min_z.bits);
    append_zeros(w, 8);
    assert(w@ =~= old(w)@ + header_extent(*b));
}

/// Appends the LAS 1.4 header, with the start of the first extended record left open.
fn write_header(w: &mut Vec<u8>, b: &OctreeBuilder, offset_to_point_data: u32)
    ensures
        final(w)@ == old(w)@ + las_header(*b, offset_to_point_data, 0),
{
    write_identification(w);
    write_layout(w, offset_to_point_data);
    write_extent(w, b);
    write_u64(w, 0);
    write_u32(w, 1);
    write_u64(w, b.total_points);
    append_zeros(w, 120);
    assert(w@ =~= old(w)@ + las_header(*b, offset_to_point_data, 0));
}

/// A COPC file that is being written.
pub struct CopcWriter {
    /// What the `copc info` record will say, but for the place of the hierarchy.
    pub info: CopcInfo,
    /// The bytes before the point data, with the places of what follows left open.
    pub prologue: Vec<u8>,
    /// Where the point data start.
    pub offset_to_point_data: u32,
    /// The nodes in the order in which they are written.
    pub ordered_keys: Vec<VoxelKey>,
    /// The point count of each node.
    pub point_counts: HashMap<u128, usize>,
    /// Where the chunks of the nodes written so far start.
    pub chunk_starts: Vec<u64>,
    /// The nodes that the file is made of, with their point counts.
    pub nodes: Ghost<Seq<(VoxelKey, usize)>>,
    /// What was given out for compression, for each of the nodes written so far.
    pub handed: Ghost<Seq<Seq<u8>>>,
}

/// What is to be done for the chunk of a node.
#[derive(Debug)]
pub struct Chunk {
    /// The bytes to compress.
    pub records: Vec<u8>,
    /// Whether the chunk is to be finished when they are compressed.
    pub finish: bool,
}

/// Bytes to be written over the file at some position.
#[derive(Debug)]
pub struct Patch {
    pub position: u64,
    pub bytes: Vec<u8>,
}

/// Where the `i`-th chunk ends: where the next one starts, or the chunk table.
pub open spec fn chunk_end(starts: Seq<u64>, i: int, chunk_table_pos: u64) -> u64 {
    if i + 1 < starts.len() {
        starts[i + 1]
    } else {
        chunk_table_pos
    }
}

/// The hierarchy entries of the nodes `keys`, whose chunks start at `starts`.
pub open spec fn chunk_entries(
    keys: Seq<VoxelKey>,
    nodes: Seq<(VoxelKey, usize)>,
    starts: Seq<u64>,
    chunk_table_pos: u64,
) -> Seq<HierarchyEntry> {
    Seq::new(
        keys.len(),
        |i: int|
            HierarchyEntry {
                key: keys[i],
                offset: starts[i],
                byte_size: (chunk_end(starts, i, chunk_table_pos) - starts[i]) as i32,
                point_count: match count_of(nodes, keys[i]) {
                    Some(count) => count as i32,
                    None => 0,
                },
            },
    )
}

/// Whether each chunk ends no earlier than it starts.
pub open spec fn chunks_in_order(starts: Seq<u64>, chunk_table_pos: u64) -> bool {
    forall|i: int|
        0 <= i < starts.len() ==> #[trigger] starts[i] <= chunk_end(starts, i, chunk_table_pos)
}

impl CopcWriter {
    pub open spec fn wf(self) -> bool {
        &&& levels_in_range(self.nodes@)
        &&& self.ordered_keys@ == breadth_first(self.nodes@, level_count())
        &&& indexes(self.point_counts@, self.nodes@)
        &&& self.chunk_starts.len() <= self.ordered_keys.len()
        &&& self.handed@.len() == self.chunk_starts.len()
    }

    /// Whether what was given out for each node are the LAS records of the points in its
    /// file.
    pub open spec fn made_from(self, files: spec_fn(VoxelKey) -> Seq<u8>) -> bool {
        forall|i: int|
            0 <= i < self.handed@.len() ==> #[trigger] self.handed@[i] == las_records(
                decoded_points(files(self.ordered_keys[i])),
            )
    }

    /// The hierarchy entries of all nodes.
    pub open spec fn entries(self, chunk_table_pos: u64) -> Seq<HierarchyEntry> {
        chunk_entries(self.ordered_keys@, self.nodes@, self.chunk_starts@, chunk_table_pos)
    }

    /// What is to be written over the file once its extended record starts at
    /// `evlr_start`: the hierarchy, the `copc info` record and the start of the extended
    /// record in the header.
    pub open spec fn patches(self, chunk_table_pos: u64, evlr_start: u64) -> Seq<(u64, Seq<u8>)> {
        let payload = hierarchy_payload_spec(self.entries(chunk_table_pos));
        let info = CopcInfo {
            root_hier_offset: (evlr_start + EVLR_HEADER_SIZE) as u64,
            root_hier_size: payload.len() as u64,
            ..self.info
        };
        seq![
            (evlr_start, evlr("copc"@, 1000, "copc hierarchy"@, payload)),
            (COPC_INFO_POSITION, info.encoded()),
            (EVLR_START_POSITION, le_u64(evlr_start)),
        ]
    }

    /// The next node to read, encode and compress, if one is left. Nodes are taken one at a
    /// time, so that only one node's points are in memory.
    pub fn next_node(&self) -> (r: Option<VoxelKey>)
        ensures
            r == (if self.chunk_starts.len() < self.ordered_keys.len() {
                Some(self.ordered_keys[self.chunk_starts.len() as int])
            } else {
                None
            }),
    {
        if self.chunk_starts.len() < self.ordered_keys.len() {
            Some(self.ordered_keys[self.chunk_starts.len()])
        } else {
            None
        }
    }

    /// Takes the points of the next node, whose chunk starts at `position`, and gives their
    /// LAS records to compress. The chunk is to be finished then, but for the last one, which
    /// the compressor finishes by itself.
    pub fn begin_chunk(&mut self, position: u64, points: &Vec<RawPoint>) -> (r: Chunk)
        requires
            old(self).wf(),
            old(self).chunk_starts.len() < old(self).ordered_keys.len(),
        ensures
            final(self).wf(),
            *final(self) == (CopcWriter {
                chunk_starts: final(self).chunk_starts,
                handed: final(self).handed,
                ..*old(self)
            }),
            final(self).chunk_starts@ == old(self).chunk_starts@.push(position),
            final(self).handed@ == old(self).handed@.push(r.records@),
            r.records@ == las_records(points@),
            r.finish == (final(self).chunk_starts.len() < final(self).ordered_keys.len()),
    {
        let records: Vec<u8> = encode_node(points);
        self.chunk_starts.push(position);
        self.handed = Ghost(self.handed@.push(records@));
        Chunk { records, finish: self.chunk_starts.len() < self.ordered_keys.len() }
    }

    /// The hierarchy entries of all nodes, once the chunks of all are written.
    pub fn chunk_info(&self, chunk_table_pos: u64) -> (r: Vec<HierarchyEntry>)
        requires
            self.wf(),
            self.chunk_starts.len() == self.ordered_keys.len(),
            chunks_in_order(self.chunk_starts@, chunk_table_pos),
        ensures
            r@ == self.entries(chunk_table_pos),
            r.len() == self.ordered_keys.len(),
            forall|i: int|
                0 <= i < r.len() ==> (#[trigger] r[i]).key == self.ordered_keys[i] && r[i].offset
                    == self.chunk_starts[i],
            forall|i: int|
                0 <= i < r.len() - 1 && self.chunk_starts[i + 1] - self.chunk_starts[i] <= i32::MAX
                    ==> (#[trigger] r[i]).byte_size == self.chunk_starts[i + 1]
                    - self.chunk_starts[i],
            r.len() > 0 && chunk_table_pos - self.chunk_starts@.last() <= i32::MAX
                ==> r@.last().byte_size == chunk_table_pos - self.chunk_starts@.last(),
    {
        broadcast use group_hash_axioms;

        let mut r: Vec<HierarchyEntry> = Vec::new();
        let mut i: usize = 0;
        while i < self.ordered_keys.len()
            invariant
                0 <= i <= self.ordered_keys.len(),
                self.wf(),
                self.chunk_starts.len() == self.ordered_keys.len(),
                chunks_in_order(self.chunk_starts@, chunk_table_pos),
                r.len() == i,
                forall|j: int| 0 <= j < i ==> #[trigger] r[j] == self.entries(chunk_table_pos)[j],
            decreases self.ordered_keys.len() - i,
        {
            broadcast use group_hash_axioms;

            let key: VoxelKey = self.ordered_keys[i];
            let start: u64 = self.chunk_starts[i];
            let end: u64 = if i + 1 < self.chunk_starts.len() {
                self.chunk_starts[i + 1]
            } else {
                chunk_table_pos
            };
            assert(end == chunk_end(self.chunk_starts@, i as int, chunk_table_pos));
            assert(self.chunk_starts@[i as int] <= end);
            assert(count_of(self.nodes@, key) == count_of(self.nodes@, key));
            let point_count: usize = match self.point_counts.get(&key.id()) {
                Some(count) => *count,
                None => 0,
            };
            r.push(
                HierarchyEntry {
                    key,
                    offset: start,
                    byte_size: (end - start) as i32,
                    point_count: point_count as i32,
                },
            );
            i = i + 1;
        }
        assert(r@ =~= self.entries(chunk_table_pos));
        assert(forall|j: int|
            0 <= j < r.len() ==> #[trigger] self.chunk_starts@[j] <= chunk_end(
                self.chunk_starts@,
                j,
                chunk_table_pos,
            ));
        r
    }

    /// What is to be written over the file, in turn, once the compressed data end at
    /// `evlr_start`.
    pub fn finish(&self, chunk_table_pos: u64, evlr_start: u64) -> (r: Vec<Patch>)
        requires
            self.wf(),
            self.chunk_starts.len() == self.ordered_keys.len(),
            chunks_in_order(self.chunk_starts@, chunk_table_pos),
            evlr_start + EVLR_HEADER_SIZE <= u64::MAX,
        ensures
            r.len() == 3,
            forall|i: int|
                0 <= i < 3 ==> self.patches(chunk_table_pos, evlr_start)[i] == (
                    (#[trigger] r[i]).position,
                    r[i].bytes@,
                ),
    {
        proof {
            lemma_literals();
        }
        let payload = hierarchy_payload(&self.chunk_info(chunk_table_pos));
        let mut record: Vec<u8> = Vec::new();
        write_evlr(&mut record, "copc", 1000, "copc hierarchy", &payload);
        let info = CopcInfo {
            root_hier_offset: evlr_start + EVLR_HEADER_SIZE as u64,
            root_hier_size: payload.len() as u64,
            ..self.info
        };
        let mut info_bytes: Vec<u8> = Vec::new();
        info.write(&mut info_bytes);
        let mut start_bytes: Vec<u8> = Vec::new();
        write_u64(&mut start_bytes, evlr_start);
        let mut r: Vec<Patch> = Vec::new();
        r.push(Patch { position: evlr_start, bytes: record });
        r.push(Patch { position: COPC_INFO_POSITION, bytes: info_bytes });
        r.push(Patch { position: EVLR_START_POSITION, bytes: start_bytes });
        proof {
            let p = self.patches(chunk_table_pos, evlr_start);
            assert(record@ =~= p[0].1);
            assert(info_bytes@ =~= p[1].1);
            assert(start_bytes@ =~= p[2].1);
        }
        r
    }
}

/// Starts a COPC file for the nodes of an octree. `spacing` is the distance of points at
/// the root: the half size of the cube, halved once for each level of the tree.
pub fn write_copc(
    builder: &OctreeBuilder,
    spacing: Float64,
    node_keys: &Vec<(VoxelKey, usize)>,
) -> (r: CopcWriter)
    requires
        levels_in_range(node_keys@),
    ensures
        r.wf(),
        r.nodes@ == node_keys@,
        r.info == copc_info(*builder, spacing, 0, 0),
        r.offset_to_point_data == point_data_position(),
        r.prologue@ == prologue(*builder, r.offset_to_point_data, 0, r.info),
        r.prologue.len() == r.offset_to_point_data,
        r.ordered_keys@ == breadth_first(node_keys@, level_count()),
        r.chunk_starts.len() == 0,
        r.info.center_x == builder.cx,
        r.info.center_y == builder.cy,
        r.info.center_z == builder.cz,
        r.info.halfsize == builder.halfsize,
        r.info.spacing == spacing,
        r.info.gpstime_minimum.bits == 0,
        r.info.gpstime_maximum.bits == 0,
        r.prologue.len() == 689,
{
    let laz_payload: Vec<u8> = laz_vlr(7, 0);
    let info = CopcInfo {
        center_x: builder.cx,
        center_y: builder.cy,
        center_z: builder.cz,
        halfsize: builder.halfsize,
        spacing,
        root_hier_offset: 0,
        root_hier_size: 0,
        gpstime_minimum: Float64 { bits: 0 },
        gpstime_maximum: Float64 { bits: 0 },
    };
    proof {
        lemma_literals();
        lemma_lengths(*builder, 689, 0, info);
        copc_info_round_trip(info);
    }
    let copc_info_vlr_size: u32 = 54 + 160;
    let laz_vlr_size: u32 = 54 + laz_payload.len() as u32;
    let offset_to_point_data: u32 = 375 + copc_info_vlr_size + laz_vlr_size;

    let mut w: Vec<u8> = Vec::new();
    write_header(&mut w, builder, offset_to_point_data);
    let mut info_bytes: Vec<u8> = Vec::new();
    info.write(&mut info_bytes);
    assert(info_bytes@ =~= info.encoded());
    write_vlr(&mut w, "copc", 1, "copc info", &info_bytes);
    write_vlr(&mut w, "laszip encoded", 22204, "laz variable chunks", &laz_payload);
    assert(w@ =~= prologue(*builder, offset_to_point_data, 0, info));

    CopcWriter {
        info,
        prologue: w,
        offset_to_point_data,
        ordered_keys: ordered_keys(node_keys),
        point_counts: index_counts(node_keys),
        chunk_starts: Vec::new(),
        nodes: Ghost(node_keys@),
        handed: Ghost(Seq::empty()),
    }
}

/// Where the chunk table starts, from the eight bytes with which the point data begin.
pub fn chunk_table_position(bytes: &[u8]) -> (r: Option<u64>)
    ensures
        r is Some <==> bytes.len() >= 8,
        r is Some ==> r->0 == le_value(bytes@.subrange(0, 8)),
{
    proof {
        lemma_le_fixed_widths();
    }
    read_u64(bytes, 0)
}

/// A file after bytes were written over it at a position inside it or at its end.
pub open spec fn overwritten(file: Seq<u8>, position: nat, bytes: Seq<u8>) -> Seq<u8> {
    file.take(position as int) + bytes + if position + bytes.len() < file.len() {
        file.skip((position + bytes.len()) as int)
    } else {
        Seq::empty()
    }
}

/// A file after all of `patches` were written over it in turn.
pub open spec fn patched(file: Seq<u8>, patches: Seq<(u64, Seq<u8>)>) -> Seq<u8>
    decreases patches.len(),
{
    if patches.len() == 0 {
        file
    } else {
        overwritten(
            patched(file, patches.drop_last()),
            patches.last().0 as nat,
            patches.last().1,
        )
    }
}

/// The finished file is what its layout says: the header with the place of the extended
/// record, the `copc info` record with the place of the hierarchy, the point data as they
/// were compressed, and the hierarchy.
#[verifier::spinoff_prover]
pub proof fn finished_file(
    b: OctreeBuilder,
    writer: CopcWriter,
    data: Seq<u8>,
    chunk_table_pos: u64,
    evlr_start: u64,
)
    requires
        writer.prologue@ == prologue(b, writer.offset_to_point_data, 0, writer.info),
        evlr_start == writer.prologue.len() + data.len(),
        evlr_start + EVLR_HEADER_SIZE <= u64::MAX,
    ensures
        ({
            let payload = hierarchy_payload_spec(writer.entries(chunk_table_pos));
            let info = CopcInfo {
                root_hier_offset: (evlr_start + EVLR_HEADER_SIZE) as u64,
                root_hier_size: payload.len() as u64,
                ..writer.info
            };
            patched(writer.prologue@ + data, writer.patches(chunk_table_pos, evlr_start))
                == prologue(b, writer.offset_to_point_data, evlr_start, info) + data + evlr(
                "copc"@,
                1000,
                "copc hierarchy"@,
                payload,
            )
        }),
{
    let payload = hierarchy_payload_spec(writer.entries(chunk_table_pos));
    let info = CopcInfo {
        root_hier_offset: (evlr_start + EVLR_HEADER_SIZE) as u64,
        root_hier_size: payload.len() as u64,
        ..writer.info
    };
    let off = writer.offset_to_point_data;
    let record = evlr("copc"@, 1000, "copc hierarchy"@, payload);
    let p = writer.patches(chunk_table_pos, evlr_start);
    let f0 = writer.prologue@ + data;
    lemma_three_patches(f0, p);
    lemma_lengths(b, off, 0, writer.info);
    lemma_le_fixed_widths();
    copc_info_round_trip(info);
    copc_info_round_trip(writer.info);
    lemma_prologue_parts(b, off, 0, writer.info);
    lemma_prologue_parts(b, off, evlr_start, info);
    lemma_patched_parts(
        header_start(b, off),
        le_u64(0),
        le_u64(evlr_start),
        header_end(b) + copc_vlr_header(),
        writer.info.encoded(),
        info.encoded(),
        laszip_vlr(),
        data,
        record,
    );
}

proof fn lemma_three_patches(file: Seq<u8>, p: Seq<(u64, Seq<u8>)>)
    requires
        p.len() == 3,
    ensures
        patched(file, p) == overwritten(
            overwritten(overwritten(file, p[0].0 as nat, p[0].1), p[1].0 as nat, p[1].1),
            p[2].0 as nat,
            p[2].1,
        ),
{
    let p2 = p.drop_last();
    let p1 = p2.drop_last();
    let p0 = p1.drop_last();
    assert(p0 =~= Seq::empty());
    assert(p2.last() == p[1] && p1.last() == p[0]);
    assert(patched(file, p0) == file);
    assert(patched(file, p1) == overwritten(file, p[0].0 as nat, p[0].1));
    assert(patched(file, p2) == overwritten(patched(file, p1), p[1].0 as nat, p[1].1));
    assert(p.last() == p[2]);
}

proof fn lemma_overwritten_middle(a: Seq<u8>, old_part: Seq<u8>, new_part: Seq<u8>, c: Seq<u8>)
    requires
        old_part.len() == new_part.len(),
    ensures
        overwritten(a + old_part + c, a.len(), new_part) == a + new_part + c,
{
    let f = a + old_part + c;
    assert(f.take(a.len() as int) =~= a);
    if c.len() > 0 {
        assert(f.skip((a.len() + new_part.len()) as int) =~= c);
    } else {
        assert(c =~= Seq::empty());
    }
}

/// What the three patches do to a file that is made of the parts that they replace and the
/// parts that they leave alone.
proof fn lemma_patched_parts(
    start: Seq<u8>,
    open_place: Seq<u8>,
    place: Seq<u8>,
    between: Seq<u8>,
    open_info: Seq<u8>,
    info: Seq<u8>,
    behind: Seq<u8>,
    data: Seq<u8>,
    record: Seq<u8>,
)
    requires
        open_place.len() == place.len(),
        open_info.len() == info.len(),
    ensures
        ({
            let file = start + open_place + between + open_info + behind + data;
            let at = (start.len() + place.len() + between.len()) as nat;
            overwritten(
                overwritten(overwritten(file, file.len(), record), at, info),
                start.len(),
                place,
            ) == start + place + between + info + behind + data + record
        }),
{
    let file = start + open_place + between + open_info + behind + data;
    let front = start + open_place + between;
    let tail = behind + data + record;
    let f1 = overwritten(file, file.len(), record);
    assert(file.take(file.len() as int) =~= file);
    assert(f1 =~= front + open_info + tail);
    lemma_overwritten_middle(front, open_info, info, tail);
    let rest = between + info + tail;
    assert(front + info + tail =~= start + open_place + rest);
    lemma_overwritten_middle(start, open_place, place, rest);
    assert(start + place + rest =~= start + place + between + info + behind + data + record);
}

/// The laszip record.
spec fn laszip_vlr() -> Seq<u8> {
    vlr("laszip encoded"@, 22204, "laz variable chunks"@, laz_vlr_payload())
}

/// The parts of the prologue, around the two that depend on what follows it.
proof fn lemma_prologue_parts(
    b: OctreeBuilder,
    offset_to_point_data: u32,
    evlr_start: u64,
    info: CopcInfo,
)
    ensures
        prologue(b, offset_to_point_data, evlr_start, info) == header_start(
            b,
            offset_to_point_data,
        ) + le_u64(evlr_start) + (header_end(b) + copc_vlr_header()) + info.encoded()
            + laszip_vlr(),
        (header_end(b) + copc_vlr_header()).len() == 186,
        COPC_INFO_POSITION == EVLR_START_POSITION + 8 + 186,
{
    lemma_lengths(b, offset_to_point_data, evlr_start, info);
    lemma_copc_vlr(info);
    let s = header_start(b, offset_to_point_data);
    let e = le_u64(evlr_start);
    lemma_regrouped(s, e, header_end(b), copc_vlr_header(), info.encoded(), laszip_vlr());
}

proof fn lemma_regrouped(
    a: Seq<u8>,
    b: Seq<u8>,
    c: Seq<u8>,
    d: Seq<u8>,
    e: Seq<u8>,
    f: Seq<u8>,
)
    ensures
        a + b + c + (d + e) + f == a + b + (c + d) + e + f,
{
    assert(a + b + c + (d + e) + f =~= a + b + (c + d) + e + f);
}

/// What a reader finds in a finished file: from the header the start of the point data, the
/// number of points and the start of the extended record, and from the `copc info` record
/// the hierarchy with every entry.
#[verifier::spinoff_prover]
pub proof fn finished_file_is_readable(
    b: OctreeBuilder,
    offset_to_point_data: u32,
    evlr_start: u64,
    info: CopcInfo,
    data: Seq<u8>,
    entries: Seq<HierarchyEntry>,
    file: Seq<u8>,
)
    requires
        evlr_start == point_data_position() + data.len(),
        evlr_start + EVLR_HEADER_SIZE <= u64::MAX,
        info.root_hier_offset == evlr_start + EVLR_HEADER_SIZE,
        info.root_hier_size == hierarchy_payload_spec(entries).len(),
        file == prologue(b, offset_to_point_data, evlr_start, info) + data + evlr(
            "copc"@,
            1000,
            "copc hierarchy"@,
            hierarchy_payload_spec(entries),
        ),
    ensures
        le_value(file.subrange(94, 96)) == HEADER_SIZE,
        le_value(file.subrange(96, 100)) == offset_to_point_data,
        le_value(file.subrange(235, 243)) == evlr_start,
        le_value(file.subrange(247, 255)) == b.total_points,
        CopcInfo::decoded(file.subrange(429, 589)) == info,
        file.subrange(point_data_position() as int, evlr_start as int) == data,
        info.root_hier_size == HierarchyEntry::BYTE_SIZE * entries.len(),
        file.len() == info.root_hier_offset + info.root_hier_size,
        forall|i: int|
            0 <= i < entries.len() ==> HierarchyEntry::decoded(
                file.subrange(
                    info.root_hier_offset + 32 * i,
                    info.root_hier_offset + 32 * i + 32,
                ),
            ) == #[trigger] entries[i],
{
    let front = prologue(b, offset_to_point_data, evlr_start, info);
    lemma_lengths(b, offset_to_point_data, evlr_start, info);
    lemma_prologue_fields(b, offset_to_point_data, evlr_start, info);
    lemma_readable_parts(front, data, entries, file);
}

/// What a reader finds in a file that consists of a prologue, point data and a hierarchy.
proof fn lemma_readable_parts(
    front: Seq<u8>,
    data: Seq<u8>,
    entries: Seq<HierarchyEntry>,
    file: Seq<u8>,
)
    requires
        front.len() == point_data_position(),
        file == front + data + evlr(
            "copc"@,
            1000,
            "copc hierarchy"@,
            hierarchy_payload_spec(entries),
        ),
    ensures
        file.subrange(94, 96) == front.subrange(94, 96),
        file.subrange(96, 100) == front.subrange(96, 100),
        file.subrange(235, 243) == front.subrange(235, 243),
        file.subrange(247, 255) == front.subrange(247, 255),
        file.subrange(429, 589) == front.subrange(429, 589),
        file.subrange(front.len() as int, (front.len() + data.len()) as int) == data,
        hierarchy_payload_spec(entries).len() == HierarchyEntry::BYTE_SIZE * entries.len(),
        file.len() == front.len() + data.len() + 60 + 32 * entries.len(),
        ({
            let at = front.len() + data.len() + 60;
            forall|i: int|
                0 <= i < entries.len() ==> HierarchyEntry::decoded(
                    file.subrange(at + 32 * i, at + 32 * i + 32),
                ) == #[trigger] entries[i]
        }),
{
    let payload = hierarchy_payload_spec(entries);
    let record = evlr("copc"@, 1000, "copc hierarchy"@, payload);
    lemma_literals();
    record_layout("copc"@, 1000, "copc hierarchy"@, payload);
    hierarchy_payload_holds_entries(entries);
    lemma_file_parts(front, data, record, 94, 96);
    lemma_file_parts(front, data, record, 96, 100);
    lemma_file_parts(front, data, record, 235, 243);
    lemma_file_parts(front, data, record, 247, 255);
    lemma_file_parts(front, data, record, 429, 589);
    let at = front.len() + data.len() + 60;
    lemma_skip_skip(file, at - 60, 60);
    assert(file.skip(at as int) == payload);
    assert forall|i: int| 0 <= i < entries.len() implies HierarchyEntry::decoded(
        file.subrange(at + 32 * i, at + 32 * i + 32),
    ) == #[trigger] entries[i] by {
        lemma_subrange_of_skip(file, at as int, 32 * i, 32 * i + 32);
    }
}

proof fn lemma_file_parts(front: Seq<u8>, data: Seq<u8>, record: Seq<u8>, i: int, j: int)
    requires
        0 <= i <= j <= front.len(),
    ensures
        (front + data + record).subrange(i, j) == front.subrange(i, j),
        (front + data + record).subrange(front.len() as int, (front.len() + data.len()) as int)
            == data,
        (front + data + record).skip((front.len() + data.len()) as int) == record,
{
    let f = front + data + record;
    assert(f.subrange(i, j) =~= front.subrange(i, j));
    assert(f.subrange(front.len() as int, (front.len() + data.len()) as int) =~= data);
    assert(f.skip((front.len() + data.len()) as int) =~= record);
}

proof fn lemma_skip_skip(f: Seq<u8>, i: int, j: int)
    requires
        0 <= i,
        0 <= j,
        i + j <= f.len(),
    ensures
        f.skip(i).skip(j) == f.skip(i + j),
{
    assert(f.skip(i).skip(j) =~= f.skip(i + j));
}

proof fn lemma_subrange_of_skip(f: Seq<u8>, at: int, i: int, j: int)
    requires
        0 <= at,
        0 <= i <= j,
        at + j <= f.len(),
    ensures
        f.subrange(at + i, at + j) == f.skip(at).subrange(i, j),
{
    assert(f.subrange(at + i, at + j) =~= f.skip(at).subrange(i, j));
}

/// A part of a sequence of three, told by where it starts.
proof fn lemma_middle(a: Seq<u8>, m: Seq<u8>, c: Seq<u8>)
    ensures
        (a + m + c).subrange(a.len() as int, (a.len() + m.len()) as int) == m,
{
    assert((a + m + c).subrange(a.len() as int, (a.len() + m.len()) as int) =~= m);
}

proof fn lemma_prologue_fields(
    b: OctreeBuilder,
    offset_to_point_data: u32,
    evlr_start: u64,
    info: CopcInfo,
)
    ensures
        ({
            let front = prologue(b, offset_to_point_data, evlr_start, info);
            &&& le_value(front.subrange(94, 96)) == HEADER_SIZE
            &&& le_value(front.subrange(96, 100)) == offset_to_point_data
            &&& le_value(front.subrange(235, 243)) == evlr_start
            &&& le_value(front.subrange(247, 255)) == b.total_points
            &&& CopcInfo::decoded(front.subrange(429, 589)) == info
        }),
{
    let off = offset_to_point_data;
    let start = header_start(b, off);
    let place = le_u64(evlr_start);
    let between = header_end(b) + copc_vlr_header();
    let front = prologue(b, off, evlr_start, info);
    lemma_lengths(b, off, evlr_start, info);
    lemma_le_fixed_widths();
    copc_info_round_trip(info);
    lemma_prologue_parts(b, off, evlr_start, info);
    lemma_header_fields(b, off);
    // the start of the extended record and the copc info record
    let rest = between + info.encoded() + laszip_vlr();
    assert(front =~= start + place + rest);
    lemma_middle(start, place, rest);
    lemma_middle(start + place + between, info.encoded(), laszip_vlr());
    // the fields in front of them and between them
    lemma_file_parts(start, place, rest, 94, 96);
    lemma_file_parts(start, place, rest, 96, 100);
    lemma_skip_skip(front, 235, 8);
    assert(front.skip(243) =~= rest);
    lemma_subrange_of_skip(front, 243, 4, 12);
    lemma_file_parts(between, info.encoded(), laszip_vlr(), 4, 12);
    lemma_file_parts(header_end(b), copc_vlr_header(), Seq::empty(), 4, 12);
    assert(between + Seq::<u8>::empty() =~= between);
}

proof fn lemma_header_fields(b: OctreeBuilder, offset_to_point_data: u32)
    ensures
        le_value(header_start(b, offset_to_point_data).subrange(94, 96)) == HEADER_SIZE,
        le_value(header_start(b, offset_to_point_data).subrange(96, 100)) == offset_to_point_data,
        le_value(header_end(b).subrange(4, 12)) == b.total_points,
{
    let off = offset_to_point_data;
    let info = copc_info(b, Float64 { bits: 0 }, 0, 0);
    lemma_lengths(b, off, 0, info);
    lemma_le_fixed_widths();
    let i = header_identification();
    let layout = header_layout(off);
    assert(layout.subrange(0, 2) =~= le_u16(HEADER_SIZE));
    assert(layout.subrange(2, 6) =~= le_u32(off));
    assert(header_end(b).subrange(4, 12) =~= le_u64(b.total_points));
    lemma_file_parts(i, layout, header_extent(b), 0, 0);
    let s = header_start(b, off);
    let l = s.subrange(94, 94 + layout.len() as int);
    assert(l == layout);
    assert(s.subrange(94, 96) =~= l.subrange(0, 2));
    assert(s.subrange(96, 100) =~= l.subrange(2, 6));
}

/// As long as no chunk is larger than its size field can say, the chunks lie one behind the
/// other, from the first up to the chunk table.
pub proof fn chunks_lie_end_to_end(
    keys: Seq<VoxelKey>,
    nodes: Seq<(VoxelKey, usize)>,
    starts: Seq<u64>,
    chunk_table_pos: u64,
    i: int,
)
    requires
        starts.len() == keys.len(),
        chunks_in_order(starts, chunk_table_pos),
        0 <= i < keys.len(),
        chunk_end(starts, i, chunk_table_pos) - starts[i] <= i32::MAX,
    ensures
        ({
            let entries = chunk_entries(keys, nodes, starts, chunk_table_pos);
            entries[i].offset + entries[i].byte_size == if i + 1 < keys.len() {
                entries[i + 1].offset
            } else {
                chunk_table_pos
            }
        }),
{
    assert(starts[i] <= chunk_end(starts, i, chunk_table_pos));
}

/// A chunk that is made from the points in its node's file keeps all chunks made from the
/// files of their nodes.
pub proof fn chunks_are_made_from_files(
    before: CopcWriter,
    after: CopcWriter,
    points: Seq<RawPoint>,
    files: spec_fn(VoxelKey) -> Seq<u8>,
)
    requires
        before.wf(),
        before.made_from(files),
        before.chunk_starts.len() < before.ordered_keys.len(),
        points == decoded_points(files(before.ordered_keys[before.chunk_starts.len() as int])),
        after.ordered_keys == before.ordered_keys,
        after.handed@ == before.handed@.push(las_records(points)),
    ensures
        after.made_from(files),
{
}

/// The chunks of all nodes, one behind the other.
pub open spec fn joined_chunks(chunks: Seq<Seq<u8>>) -> Seq<u8>
    decreases chunks.len(),
{
    if chunks.len() == 0 {
        Seq::empty()
    } else {
        joined_chunks(chunks.drop_last()) + chunks.last()
    }
}

proof fn lemma_chunk_in_joined(chunks: Seq<Seq<u8>>, i: int)
    requires
        0 <= i < chunks.len(),
    ensures
        ({
            let at = joined_chunks(chunks.take(i)).len() as int;
            let end = at + chunks[i].len();
            &&& end <= joined_chunks(chunks).len()
            &&& joined_chunks(chunks).subrange(at, end) == chunks[i]
            &&& joined_chunks(chunks.take(i + 1)).len() == end
        }),
    decreases chunks.len(),
{
    let h = chunks.drop_last();
    let at = joined_chunks(chunks.take(i)).len() as int;
    let end = at + chunks[i].len();
    assert(chunks.take(i + 1).drop_last() =~= chunks.take(i));
    if i < h.len() {
        lemma_chunk_in_joined(h, i);
        assert(h.take(i) =~= chunks.take(i));
        assert(h.take(i + 1) =~= chunks.take(i + 1));
        assert(h[i] == chunks[i]);
        assert(joined_chunks(chunks).subrange(at, end) =~= joined_chunks(h).subrange(at, end));
    } else {
        assert(chunks.take(i) =~= h);
        assert(joined_chunks(chunks).subrange(at, end) =~= chunks[i]);
    }
}

/// Whether the chunks lie in the point data one behind the other, between the offset of the
/// chunk table and the table, and start where the writer has noted it.
pub open spec fn chunks_written(
    writer: CopcWriter,
    offset: Seq<u8>,
    chunks: Seq<Seq<u8>>,
    chunk_table_pos: u64,
) -> bool {
    &&& offset.len() == 8
    &&& chunks.len() == writer.ordered_keys.len()
    &&& writer.chunk_starts.len() == chunks.len()
    &&& forall|i: int|
        0 <= i < chunks.len() ==> #[trigger] writer.chunk_starts[i] == point_data_position() + 8
            + joined_chunks(chunks.take(i)).len()
    &&& chunk_table_pos == point_data_position() + 8 + joined_chunks(chunks).len()
}

proof fn lemma_entry_of_chunk(
    writer: CopcWriter,
    offset: Seq<u8>,
    chunks: Seq<Seq<u8>>,
    chunk_table_pos: u64,
    i: int,
)
    requires
        chunks_written(writer, offset, chunks, chunk_table_pos),
        0 <= i < chunks.len(),
        chunks[i].len() <= i32::MAX,
    ensures
        ({
            let e = writer.entries(chunk_table_pos)[i];
            &&& e.key == writer.ordered_keys[i]
            &&& e.offset == point_data_position() + 8 + joined_chunks(chunks.take(i)).len()
            &&& e.byte_size == chunks[i].len()
        }),
{
    lemma_chunk_in_joined(chunks, i);
    if i + 1 < chunks.len() {
        assert(writer.chunk_starts[i + 1] == point_data_position() + 8 + joined_chunks(
            chunks.take(i + 1),
        ).len());
    } else {
        assert(chunks.take(i + 1) =~= chunks);
    }
    assert(writer.chunk_starts[i] == point_data_position() + 8 + joined_chunks(
        chunks.take(i),
    ).len());
}

/// The entry of a node leads to the chunk that was written for it, and to no other.
///
/// `chunks` holds the bytes that the compressor wrote for each node, and `decompress` gives
/// back what it was handed for each of them. Then decompressing the range of the finished
/// file that an entry names gives the LAS records of exactly the points in the file of the
/// entry's node, in their order.
pub proof fn entry_leads_to_its_points(
    b: OctreeBuilder,
    writer: CopcWriter,
    files: spec_fn(VoxelKey) -> Seq<u8>,
    decompress: spec_fn(Seq<u8>) -> Seq<u8>,
    offset: Seq<u8>,
    chunks: Seq<Seq<u8>>,
    table: Seq<u8>,
    chunk_table_pos: u64,
    evlr_start: u64,
    i: int,
)
    requires
        writer.wf(),
        writer.made_from(files),
        writer.prologue@ == prologue(b, writer.offset_to_point_data, 0, writer.info),
        chunks_written(writer, offset, chunks, chunk_table_pos),
        evlr_start == writer.prologue.len() + (offset + joined_chunks(chunks) + table).len(),
        evlr_start + EVLR_HEADER_SIZE <= u64::MAX,
        0 <= i < chunks.len(),
        chunks[i].len() <= i32::MAX,
        decompress(chunks[i]) == writer.handed@[i],
    ensures
        ({
            let file = patched(
                writer.prologue@ + (offset + joined_chunks(chunks) + table),
                writer.patches(chunk_table_pos, evlr_start),
            );
            let e = writer.entries(chunk_table_pos)[i];
            let found = file.subrange(e.offset as int, e.offset + e.byte_size);
            &&& e.key == writer.ordered_keys[i]
            &&& found == chunks[i]
            &&& writer.handed@[i] == las_records(decoded_points(files(e.key)))
            &&& decompress(found) == las_records(decoded_points(files(e.key)))
        }),
{
    let data = offset + joined_chunks(chunks) + table;
    let payload = hierarchy_payload_spec(writer.entries(chunk_table_pos));
    let info = CopcInfo {
        root_hier_offset: (evlr_start + EVLR_HEADER_SIZE) as u64,
        root_hier_size: payload.len() as u64,
        ..writer.info
    };
    let front = prologue(b, writer.offset_to_point_data, evlr_start, info);
    let record = evlr("copc"@, 1000, "copc hierarchy"@, payload);
    finished_file(b, writer, data, chunk_table_pos, evlr_start);
    lemma_lengths(b, writer.offset_to_point_data, evlr_start, info);
    lemma_entry_of_chunk(writer, offset, chunks, chunk_table_pos, i);
    lemma_chunk_of_file(front, offset, chunks, table, record, i);
}

proof fn lemma_chunk_of_file(
    front: Seq<u8>,
    offset: Seq<u8>,
    chunks: Seq<Seq<u8>>,
    table: Seq<u8>,
    record: Seq<u8>,
    i: int,
)
    requires
        0 <= i < chunks.len(),
    ensures
        ({
            let file = front + (offset + joined_chunks(chunks) + table) + record;
            let at = front.len() + offset.len() + joined_chunks(chunks.take(i)).len();
            file.subrange(at as int, (at + chunks[i].len()) as int) == chunks[i]
        }),
{
    let all = joined_chunks(chunks);
    let file = front + (offset + all + table) + record;
    let a = joined_chunks(chunks.take(i)).len() as int;
    let at = front.len() + offset.len() + a;
    lemma_chunk_in_joined(chunks, i);
    assert(file.subrange(at, at + chunks[i].len()) =~= all.subrange(a, a + chunks[i].len()));
}

/// The output depends on the nodes alone, not on the order in which they are listed: two
/// files that are started for the same octree from listings of the same nodes have the same
/// prologue and the same order of nodes, and with their chunks in the same places they are
/// finished by the same patches.
pub proof fn output_ignores_listing(
    b: OctreeBuilder,
    spacing: Float64,
    v: CopcWriter,
    w: CopcWriter,
    chunk_table_pos: u64,
    evlr_start: u64,
)
    requires
        v.wf(),
        w.wf(),
        distinct_nodes(v.nodes@),
        distinct_nodes(w.nodes@),
        forall|e: (VoxelKey, usize)| #[trigger] v.nodes@.contains(e) <==> w.nodes@.contains(e),
        v.info == copc_info(b, spacing, 0, 0),
        w.info == copc_info(b, spacing, 0, 0),
        v.offset_to_point_data == point_data_position(),
        w.offset_to_point_data == point_data_position(),
        v.prologue@ == prologue(b, v.offset_to_point_data, 0, v.info),
        w.prologue@ == prologue(b, w.offset_to_point_data, 0, w.info),
    ensures
        v.prologue@ == w.prologue@,
        v.ordered_keys@ == w.ordered_keys@,
        v.chunk_starts@ == w.chunk_starts@ ==> v.patches(chunk_table_pos, evlr_start) == w.patches(
            chunk_table_pos,
            evlr_start,
        ),
{
    order_ignores_listing(v.nodes@, w.nodes@);
    if v.chunk_starts@ == w.chunk_starts@ {
        assert forall|k: VoxelKey| #[trigger] count_of(v.nodes@, k) == count_of(w.nodes@, k) by {}
        assert(v.entries(chunk_table_pos) =~= w.entries(chunk_table_pos)) by {
            let x = v.entries(chunk_table_pos);
            let y = w.entries(chunk_table_pos);
            assert forall|i: int| 0 <= i < x.len() implies x[i] == y[i] by {
                let k = v.ordered_keys@[i];
                assert(count_of(v.nodes@, k) == count_of(w.nodes@, k));
            }
        }
    }
}

/// If the nodes form a tree, the hierarchy has exactly one entry for each of them, with its
/// point count, and no other entries.
pub proof fn every_node_has_one_entry(
    nodes: Seq<(VoxelKey, usize)>,
    starts: Seq<u64>,
    chunk_table_pos: u64,
    key: VoxelKey,
)
    requires
        is_tree(nodes),
        levels_in_range(nodes),
    ensures
        ({
            let keys = breadth_first(nodes, level_count());
            let entries = chunk_entries(keys, nodes, starts, chunk_table_pos);
            &&& listed(nodes, key) <==> exists|i: int|
                0 <= i < entries.len() && (#[trigger] entries[i]).key == key
            &&& forall|i: int, j: int|
                0 <= i < j < entries.len() ==> (#[trigger] entries[i]).key != (
                #[trigger] entries[j]).key
            &&& forall|i: int|
                0 <= i < entries.len() && (#[trigger] entries[i]).key == key && count_of(
                    nodes,
                    key,
                )->0 <= i32::MAX ==> entries[i].point_count == count_of(nodes, key)->0
        }),
{
    order_covers_tree(nodes);
    let keys = breadth_first(nodes, level_count());
    let entries = chunk_entries(keys, nodes, starts, chunk_table_pos);
    assert(keys.contains(key) <==> listed(nodes, key));
    if listed(nodes, key) {
        let i = keys.index_of(key);
        assert(entries[i].key == key);
    }
    assert forall|i: int| 0 <= i < entries.len() implies listed(
        nodes,
        (#[trigger] entries[i]).key,
    ) by {
        assert(keys[i] == entries[i].key);
        assert(keys.contains(keys[i]));
    }
    assert forall|i: int, j: int| 0 <= i < j < entries.len() implies (#[trigger] entries[i]).key
        != (#[trigger] entries[j]).key by {
        assert(keys[i] != keys[j]);
    }
}

/// The header of the `copc info` record.
spec fn copc_vlr_header() -> Seq<u8> {
    le_u16(0) + field("copc"@, 16) + le_u16(1) + le_u16(160) + field("copc info"@, 32)
}

proof fn lemma_copc_vlr(info: CopcInfo)
    ensures
        vlr("copc"@, 1, "copc info"@, info.encoded()) == copc_vlr_header() + info.encoded(),
        copc_vlr_header().len() == VLR_HEADER_SIZE,
{
    lemma_literals();
    lemma_le_fixed_widths();
    copc_info_round_trip(info);
}

/// A part of a file holds each of its own parts at a place of the file.
proof fn lemma_within(file: Seq<u8>, at: int, part: Seq<u8>)
    requires
        0 <= at,
        at + part.len() <= file.len(),
        file.subrange(at, at + part.len()) == part,
    ensures
        forall|i: int| 0 <= i < part.len() ==> file[at + i] == #[trigger] part[i],
        forall|i: int, j: int|
            0 <= i <= j <= part.len() ==> file.subrange(at + i, at + j) == #[trigger] part.subrange(
                i,
                j,
            ),
{
    assert forall|i: int| 0 <= i < part.len() implies file[at + i] == #[trigger] part[i] by {
        assert(file.subrange(at, at + part.len())[i] == file[at + i]);
    }
    assert forall|i: int, j: int| 0 <= i <= j <= part.len() implies file.subrange(at + i, at + j)
        == #[trigger] part.subrange(i, j) by {
        assert(file.subrange(at + i, at + j) =~= part.subrange(i, j));
    }
}

proof fn lemma_identification_places(file: Seq<u8>)
    requires
        file.len() >= 94,
        file.subrange(0, 94) == header_identification(),
    ensures
        file[0] == 0x4c && file[1] == 0x41 && file[2] == 0x53 && file[3] == 0x46,
        le_value(file.subrange(4, 6)) == 0,
        le_value(file.subrange(6, 8)) == 17,
        forall|i: int| 8 <= i < 24 ==> #[trigger] file[i] == 0,
        file[24] == 1,
        file[25] == 4,
        forall|i: int| 0 <= i < 14 ==> #[trigger] file[26 + i] == "copc_converter"@[i] as u8,
        forall|i: int| 40 <= i < 58 ==> #[trigger] file[i] == 0,
        forall|i: int| 0 <= i < 18 ==> #[trigger] file[58 + i] == "copc_converter 0.1"@[i] as u8,
        forall|i: int| 76 <= i < 90 ==> #[trigger] file[i] == 0,
        le_value(file.subrange(90, 92)) == 1,
        le_value(file.subrange(92, 94)) == 2024,
{
    let p = header_identification();
    lemma_literals();
    lemma_le_fixed_widths();
    lemma_within(file, 0, p);
    assert(p.len() == 94);
    assert(p.subrange(4, 6) =~= le_u16(0));
    assert(p.subrange(6, 8) =~= le_u16(0x11));
    assert(p.subrange(90, 92) =~= le_u16(1));
    assert(p.subrange(92, 94) =~= le_u16(2024));
    assert(file.subrange(4, 6) == p.subrange(4, 6));
    assert(file.subrange(6, 8) == p.subrange(6, 8));
    assert(file.subrange(90, 92) == p.subrange(90, 92));
    assert(file.subrange(92, 94) == p.subrange(92, 94));
    assert forall|i: int| 0 <= i < 94 implies #[trigger] file[i] == p[i] by {
        assert(file[0 + i] == p[i]);
    }
    reveal_strlit("LASF");
    assert(p[0] == 0x4c && p[1] == 0x41 && p[2] == 0x53 && p[3] == 0x46);
    assert forall|i: int| 0 <= i < 14 implies #[trigger] file[26 + i]
        == "copc_converter"@[i] as u8 by {
        assert(p[26 + i] == field("copc_converter"@, 32)[i]);
    }
    assert forall|i: int| 0 <= i < 18 implies #[trigger] file[58 + i]
        == "copc_converter 0.1"@[i] as u8 by {
        assert(p[58 + i] == field("copc_converter 0.1"@, 32)[i]);
    }
}

proof fn lemma_layout_places(file: Seq<u8>, offset_to_point_data: u32)
    requires
        file.len() >= 131,
        file.subrange(94, 131) == header_layout(offset_to_point_data),
    ensures
        le_value(file.subrange(94, 96)) == 375,
        le_value(file.subrange(96, 100)) == offset_to_point_data,
        le_value(file.subrange(100, 104)) == 2,
        file[104] == 135,
        le_value(file.subrange(105, 107)) == 36,
        forall|i: int| 107 <= i < 131 ==> #[trigger] file[i] == 0,
{
    let p = header_layout(offset_to_point_data);
    lemma_le_fixed_widths();
    lemma_within(file, 94, p);
    assert(p.len() == 37);
    assert(p.subrange(0, 2) =~= le_u16(HEADER_SIZE));
    assert(p.subrange(2, 6) =~= le_u32(offset_to_point_data));
    assert(p.subrange(6, 10) =~= le_u32(2));
    assert(p.subrange(11, 13) =~= le_u16(POINT_RECORD_LENGTH));
    assert forall|i: int| 94 <= i < 131 implies #[trigger] file[i] == p[i - 94] by {
        assert(file[94 + (i - 94)] == p[i - 94]);
    }
}

#[verifier::spinoff_prover]
proof fn lemma_extent_places(file: Seq<u8>, b: OctreeBuilder)
    requires
        file.len() >= 235,
        file.subrange(131, 235) == header_extent(b),
    ensures
        le_value(file.subrange(131, 139)) == b.scale_x.bits,
        le_value(file.subrange(139, 147)) == b.scale_y.bits,
        le_value(file.subrange(147, 155)) == b.scale_z.bits,
        le_value(file.subrange(155, 163)) == b.offset_x.bits,
        le_value(file.subrange(163, 171)) == b.offset_y.bits,
        le_value(file.subrange(171, 179)) == b.offset_z.bits,
        le_value(file.subrange(179, 187)) == b.bounds.max_x.bits,
        le_value(file.subrange(187, 195)) == b.bounds.min_x.bits,
        le_value(file.subrange(195, 203)) == b.bounds.max_y.bits,
        le_value(file.subrange(203, 211)) == b.bounds.min_y.bits,
        le_value(file.subrange(211, 219)) == b.bounds.max_z.bits,
        le_value(file.subrange(219, 227)) == b.bounds.min_z.bits,
        forall|i: int| 227 <= i < 235 ==> #[trigger] file[i] == 0,
{
    let p = header_extent(b);
    lemma_le_fixed_widths();
    lemma_within(file, 131, p);
    assert(p.len() == 104);
    assert(p.subrange(0, 8) =~= le_u64(b.scale_x.bits));
    assert(p.subrange(8, 16) =~= le_u64(b.scale_y.bits));
    assert(p.subrange(16, 24) =~= le_u64(b.scale_z.bits));
    assert(p.subrange(24, 32) =~= le_u64(b.offset_x.bits));
    assert(p.subrange(32, 40) =~= le_u64(b.offset_y.bits));
    assert(p.subrange(40, 48) =~= le_u64(b.offset_z.bits));
    assert(p.subrange(48, 56) =~= le_u64(b.bounds.max_x.bits));
    assert(p.subrange(56, 64) =~= le_u64(b.bounds.min_x.bits));
    assert(p.subrange(64, 72) =~= le_u64(b.bounds.max_y.bits));
    assert(p.subrange(72, 80) =~= le_u64(b.bounds.min_y.bits));
    assert(p.subrange(80, 88) =~= le_u64(b.bounds.max_z.bits));
    assert(p.subrange(88, 96) =~= le_u64(b.bounds.min_z.bits));
    assert forall|i: int| 131 <= i < 235 implies #[trigger] file[i] == p[i - 131] by {
        assert(file[131 + (i - 131)] == p[i - 131]);
    }
}

proof fn lemma_end_places(file: Seq<u8>, b: OctreeBuilder)
    requires
        file.len() >= 375,
        file.subrange(243, 375) == header_end(b),
    ensures
        le_value(file.subrange(243, 247)) == 1,
        le_value(file.subrange(247, 255)) == b.total_points,
        forall|i: int| 255 <= i < 375 ==> #[trigger] file[i] == 0,
{
    let p = header_end(b);
    lemma_le_fixed_widths();
    lemma_within(file, 243, p);
    assert(p.len() == 132);
    assert(p.subrange(0, 4) =~= le_u32(1));
    assert(p.subrange(4, 12) =~= le_u64(b.total_points));
    assert forall|i: int| 243 <= i < 375 implies #[trigger] file[i] == p[i - 243] by {
        assert(file[243 + (i - 243)] == p[i - 243]);
    }
}

proof fn lemma_header_parts(
    b: OctreeBuilder,
    offset_to_point_data: u32,
    evlr_start: u64,
    info: CopcInfo,
    tail: Seq<u8>,
)
    ensures
        ({
            let file = prologue(b, offset_to_point_data, evlr_start, info) + tail;
            &&& file.len() == 689 + tail.len()
            &&& file.subrange(0, 94) == header_identification()
            &&& file.subrange(94, 131) == header_layout(offset_to_point_data)
            &&& file.subrange(131, 235) == header_extent(b)
            &&& file.subrange(235, 243) == le_u64(evlr_start)
            &&& file.subrange(243, 375) == header_end(b)
            &&& file.subrange(375, 589) == vlr("copc"@, 1, "copc info"@, info.encoded())
            &&& file.subrange(589, 689) == laszip_vlr()
        }),
{
    let off = offset_to_point_data;
    let file = prologue(b, off, evlr_start, info) + tail;
    lemma_lengths(b, off, evlr_start, info);
    lemma_le_fixed_widths();
    assert(header_layout(off).len() == 37);
    assert(header_extent(b).len() == 104);
    assert(file.subrange(0, 94) =~= header_identification());
    assert(file.subrange(94, 131) =~= header_layout(off));
    assert(file.subrange(131, 235) =~= header_extent(b));
    assert(file.subrange(235, 243) =~= le_u64(evlr_start));
    assert(file.subrange(243, 375) =~= header_end(b));
    assert(file.subrange(375, 589) =~= vlr("copc"@, 1, "copc info"@, info.encoded()));
    assert(file.subrange(589, 689) =~= laszip_vlr());
}

/// The parts of a finished file up to its point data.
proof fn lemma_finished_parts(
    b: OctreeBuilder,
    writer: CopcWriter,
    data: Seq<u8>,
    chunk_table_pos: u64,
    evlr_start: u64,
    file: Seq<u8>,
) -> (info: CopcInfo)
    requires
        writer.prologue@ == prologue(b, writer.offset_to_point_data, 0, writer.info),
        evlr_start == writer.prologue.len() + data.len(),
        evlr_start + EVLR_HEADER_SIZE <= u64::MAX,
        file == patched(writer.prologue@ + data, writer.patches(chunk_table_pos, evlr_start)),
    ensures
        file.len() >= 689,
        evlr_start == 689 + data.len(),
        file.subrange(0, 94) == header_identification(),
        file.subrange(94, 131) == header_layout(writer.offset_to_point_data),
        file.subrange(131, 235) == header_extent(b),
        file.subrange(235, 243) == le_u64(evlr_start),
        file.subrange(243, 375) == header_end(b),
        file.subrange(375, 589) == vlr("copc"@, 1, "copc info"@, info.encoded()),
        file.subrange(589, 689) == laszip_vlr(),
        file.subrange(689, evlr_start as int) == data,
        info == (CopcInfo {
            root_hier_offset: (evlr_start + EVLR_HEADER_SIZE) as u64,
            root_hier_size: hierarchy_payload_spec(writer.entries(chunk_table_pos)).len() as u64,
            ..writer.info
        }),
{
    let payload = hierarchy_payload_spec(writer.entries(chunk_table_pos));
    let info = CopcInfo {
        root_hier_offset: (evlr_start + EVLR_HEADER_SIZE) as u64,
        root_hier_size: payload.len() as u64,
        ..writer.info
    };
    let off = writer.offset_to_point_data;
    let record = evlr("copc"@, 1000, "copc hierarchy"@, payload);
    let front = prologue(b, off, evlr_start, info);
    finished_file(b, writer, data, chunk_table_pos, evlr_start);
    lemma_lengths(b, off, evlr_start, info);
    lemma_lengths(b, off, 0, writer.info);
    lemma_file_parts(front, data, record, 0, 0);
    assert(front + data + record =~= front + (data + record));
    lemma_header_parts(b, off, evlr_start, info, data + record);
    info
}

/// Every byte of a finished file's header. `writer` was started for `b`, `data` are the point
/// data, and the file is what the patches make of them.
#[verifier::spinoff_prover]
pub proof fn finished_header(
    b: OctreeBuilder,
    writer: CopcWriter,
    data: Seq<u8>,
    chunk_table_pos: u64,
    evlr_start: u64,
    file: Seq<u8>,
)
    requires
        writer.prologue@ == prologue(b, writer.offset_to_point_data, 0, writer.info),
        evlr_start == writer.prologue.len() + data.len(),
        evlr_start + EVLR_HEADER_SIZE <= u64::MAX,
        file == patched(writer.prologue@ + data, writer.patches(chunk_table_pos, evlr_start)),
    ensures
        // "LASF"
        file[0] == 0x4c && file[1] == 0x41 && file[2] == 0x53 && file[3] == 0x46,
        // file source, global encoding, project
        le_value(file.subrange(4, 6)) == 0,
        le_value(file.subrange(6, 8)) == 17,
        forall|i: int| 8 <= i < 24 ==> #[trigger] file[i] == 0,
        // version
        file[24] == 1,
        file[25] == 4,
        // system and software
        forall|i: int| 0 <= i < 14 ==> #[trigger] file[26 + i] == "copc_converter"@[i] as u8,
        forall|i: int| 40 <= i < 58 ==> #[trigger] file[i] == 0,
        forall|i: int| 0 <= i < 18 ==> #[trigger] file[58 + i] == "copc_converter 0.1"@[i] as u8,
        forall|i: int| 76 <= i < 90 ==> #[trigger] file[i] == 0,
        // day and year
        le_value(file.subrange(90, 92)) == 1,
        le_value(file.subrange(92, 94)) == 2024,
        // header size, start of the point data, number of records, point format and length
        le_value(file.subrange(94, 96)) == 375,
        le_value(file.subrange(96, 100)) == writer.offset_to_point_data,
        le_value(file.subrange(100, 104)) == 2,
        file[104] == 135,
        le_value(file.subrange(105, 107)) == 36,
        forall|i: int| 107 <= i < 131 ==> #[trigger] file[i] == 0,
        // scales, offsets and limits
        le_value(file.subrange(131, 139)) == b.scale_x.bits,
        le_value(file.subrange(139, 147)) == b.scale_y.bits,
        le_value(file.subrange(147, 155)) == b.scale_z.bits,
        le_value(file.subrange(155, 163)) == b.offset_x.bits,
        le_value(file.subrange(163, 171)) == b.offset_y.bits,
        le_value(file.subrange(171, 179)) == b.offset_z.bits,
        le_value(file.subrange(179, 187)) == b.bounds.max_x.bits,
        le_value(file.subrange(187, 195)) == b.bounds.min_x.bits,
        le_value(file.subrange(195, 203)) == b.bounds.max_y.bits,
        le_value(file.subrange(203, 211)) == b.bounds.min_y.bits,
        le_value(file.subrange(211, 219)) == b.bounds.max_z.bits,
        le_value(file.subrange(219, 227)) == b.bounds.min_z.bits,
        forall|i: int| 227 <= i < 235 ==> #[trigger] file[i] == 0,
        // extended records and points
        le_value(file.subrange(235, 243)) == evlr_start,
        le_value(file.subrange(243, 247)) == 1,
        le_value(file.subrange(247, 255)) == b.total_points,
        forall|i: int| 255 <= i < 375 ==> #[trigger] file[i] == 0,
{
    lemma_finished_parts(b, writer, data, chunk_table_pos, evlr_start, file);
    lemma_identification_places(file);
    lemma_layout_places(file, writer.offset_to_point_data);
    lemma_extent_places(file, b);
    lemma_end_places(file, b);
    lemma_le_fixed_widths();
}

/// Every byte between a finished file's header and its point data: the `copc info` record,
/// with the place of the hierarchy, and the laszip record.
#[verifier::spinoff_prover]
pub proof fn finished_records(
    b: OctreeBuilder,
    writer: CopcWriter,
    data: Seq<u8>,
    chunk_table_pos: u64,
    evlr_start: u64,
    file: Seq<u8>,
)
    requires
        writer.prologue@ == prologue(b, writer.offset_to_point_data, 0, writer.info),
        evlr_start == writer.prologue.len() + data.len(),
        evlr_start + EVLR_HEADER_SIZE <= u64::MAX,
        32 * writer.ordered_keys.len() <= u64::MAX,
        file == patched(writer.prologue@ + data, writer.patches(chunk_table_pos, evlr_start)),
    ensures
        le_value(file.subrange(375, 377)) == 0,
        forall|i: int| 0 <= i < 4 ==> #[trigger] file[377 + i] == "copc"@[i] as u8,
        forall|i: int| 381 <= i < 393 ==> #[trigger] file[i] == 0,
        le_value(file.subrange(393, 395)) == 1,
        le_value(file.subrange(395, 397)) == 160,
        forall|i: int| 0 <= i < 9 ==> #[trigger] file[397 + i] == "copc info"@[i] as u8,
        forall|i: int| 406 <= i < 429 ==> #[trigger] file[i] == 0,
        le_value(file.subrange(429, 437)) == writer.info.center_x.bits,
        le_value(file.subrange(437, 445)) == writer.info.center_y.bits,
        le_value(file.subrange(445, 453)) == writer.info.center_z.bits,
        le_value(file.subrange(453, 461)) == writer.info.halfsize.bits,
        le_value(file.subrange(461, 469)) == writer.info.spacing.bits,
        le_value(file.subrange(469, 477)) == evlr_start + 60,
        le_value(file.subrange(477, 485)) == 32 * writer.ordered_keys.len(),
        le_value(file.subrange(485, 493)) == writer.info.gpstime_minimum.bits,
        le_value(file.subrange(493, 501)) == writer.info.gpstime_maximum.bits,
        forall|i: int| 501 <= i < 589 ==> #[trigger] file[i] == 0,
        le_value(file.subrange(589, 591)) == 0,
        forall|i: int| 0 <= i < 14 ==> #[trigger] file[591 + i] == "laszip encoded"@[i] as u8,
        forall|i: int| 605 <= i < 607 ==> #[trigger] file[i] == 0,
        le_value(file.subrange(607, 609)) == 22204,
        le_value(file.subrange(609, 611)) == 46,
        forall|i: int| 0 <= i < 19 ==> #[trigger] file[611 + i] == "laz variable chunks"@[i] as u8,
        forall|i: int| 630 <= i < 643 ==> #[trigger] file[i] == 0,
        file.subrange(643, 689) == laz_vlr_payload(),
        file.subrange(689, evlr_start as int) == data,
{
    let entries = writer.entries(chunk_table_pos);
    let info = lemma_finished_parts(b, writer, data, chunk_table_pos, evlr_start, file);
    let first = vlr("copc"@, 1, "copc info"@, info.encoded());
    let second = laszip_vlr();
    lemma_lengths(b, writer.offset_to_point_data, 0, info);
    lemma_literals();
    hierarchy_payload_holds_entries(entries);
    copc_info_places(info);
    record_places("copc"@, 1, "copc info"@, info.encoded());
    record_places("laszip encoded"@, 22204, "laz variable chunks"@, laz_vlr_payload());
    lemma_within(file, 375, first);
    lemma_within(first, 54, info.encoded());
    lemma_within(file, 589, second);
    lemma_record_places(file, 375, first, info.encoded());
    assert(file.subrange(589, 591) == second.subrange(0, 2));
    assert(file.subrange(607, 609) == second.subrange(18, 20));
    assert(file.subrange(609, 611) == second.subrange(20, 22));
    assert(file.subrange(643, 689) == second.subrange(54, 100));
    assert forall|i: int| 589 <= i < 689 implies #[trigger] file[i] == second[i - 589] by {
        assert(file[589 + (i - 589)] == second[i - 589]);
    }
    assert forall|i: int| 0 <= i < 14 implies #[trigger] file[591 + i]
        == "laszip encoded"@[i] as u8 by {
        assert(second[2 + i] == "laszip encoded"@[i] as u8);
    }
    assert forall|i: int| 0 <= i < 19 implies #[trigger] file[611 + i]
        == "laz variable chunks"@[i] as u8 by {
        assert(second[22 + i] == "laz variable chunks"@[i] as u8);
    }
    assert forall|i: int| 375 <= i < 589 implies #[trigger] file[i] == first[i - 375] by {
        assert(file[375 + (i - 375)] == first[i - 375]);
    }
    assert forall|i: int| 0 <= i < 4 implies #[trigger] file[377 + i] == "copc"@[i] as u8 by {
        assert(first[2 + i] == "copc"@[i] as u8);
    }
    assert forall|i: int| 0 <= i < 9 implies #[trigger] file[397 + i] == "copc info"@[i] as u8 by {
        assert(first[22 + i] == "copc info"@[i] as u8);
    }
    assert forall|i: int| 501 <= i < 589 implies #[trigger] file[i] == 0 by {
        assert(first[54 + (i - 429)] == info.encoded()[i - 429]);
    }
}

/// Where the numbers of the `copc info` record and its header stand in a file.
proof fn lemma_record_places(file: Seq<u8>, at: int, record: Seq<u8>, payload: Seq<u8>)
    requires
        at >= 0,
        at + record.len() <= file.len(),
        record.len() == 214,
        payload.len() == 160,
        file.subrange(at, at + 214) == record,
        record.subrange(54, 214) == payload,
    ensures
        file.subrange(at, at + 2) == record.subrange(0, 2),
        file.subrange(at + 18, at + 20) == record.subrange(18, 20),
        file.subrange(at + 20, at + 22) == record.subrange(20, 22),
        file.subrange(at + 54, at + 62) == payload.subrange(0, 8),
        file.subrange(at + 62, at + 70) == payload.subrange(8, 16),
        file.subrange(at + 70, at + 78) == payload.subrange(16, 24),
        file.subrange(at + 78, at + 86) == payload.subrange(24, 32),
        file.subrange(at + 86, at + 94) == payload.subrange(32, 40),
        file.subrange(at + 94, at + 102) == payload.subrange(40, 48),
        file.subrange(at + 102, at + 110) == payload.subrange(48, 56),
        file.subrange(at + 110, at + 118) == payload.subrange(56, 64),
        file.subrange(at + 118, at + 126) == payload.subrange(64, 72),
{
    assert(file.subrange(at, at + 2) =~= record.subrange(0, 2)) by {
        lemma_within(file, at, record);
        assert(file.subrange(at + 0, at + 2) == record.subrange(0, 2));
    }
    lemma_within(file, at, record);
    assert(file.subrange(at + 54, at + 214) == record.subrange(54, 214));
    assert forall|i: int, j: int| 0 <= i <= j <= 160 implies file.subrange(
        at + 54 + i,
        at + 54 + j,
    ) == #[trigger] payload.subrange(i, j) by {
        lemma_within(file, at + 54, payload);
    }
    assert(payload.subrange(0, 8) == file.subrange(at + 54 + 0, at + 54 + 8));
    assert(file.subrange(at + 18, at + 20) == record.subrange(18, 20));
    assert(file.subrange(at + 20, at + 22) == record.subrange(20, 22));
}

/// Every byte behind a finished file's point data: the header of the hierarchy record, and an
/// entry of 32 bytes for each node, which tells its key, where its chunk starts, how long the
/// chunk is and how many points it holds. Lengths and counts too large for the entry keep
/// their low-order 32 bits.
#[verifier::spinoff_prover]
pub proof fn finished_hierarchy(
    b: OctreeBuilder,
    writer: CopcWriter,
    data: Seq<u8>,
    chunk_table_pos: u64,
    evlr_start: u64,
    file: Seq<u8>,
)
    requires
        writer.prologue@ == prologue(b, writer.offset_to_point_data, 0, writer.info),
        evlr_start == writer.prologue.len() + data.len(),
        evlr_start + EVLR_HEADER_SIZE <= u64::MAX,
        32 * writer.ordered_keys.len() <= u64::MAX,
        writer.chunk_starts.len() == writer.ordered_keys.len(),
        chunks_in_order(writer.chunk_starts@, chunk_table_pos),
        distinct_nodes(writer.nodes@),
        file == patched(writer.prologue@ + data, writer.patches(chunk_table_pos, evlr_start)),
    ensures
        file.len() == evlr_start + 60 + 32 * writer.ordered_keys.len(),
        ({
            let r = file.skip(evlr_start as int);
            &&& le_value(r.subrange(0, 2)) == 0
            &&& forall|i: int| 0 <= i < 4 ==> #[trigger] r[2 + i] == "copc"@[i] as u8
            &&& forall|i: int| 6 <= i < 18 ==> #[trigger] r[i] == 0
            &&& le_value(r.subrange(18, 20)) == 1000
            &&& le_value(r.subrange(20, 28)) == 32 * writer.ordered_keys.len()
            &&& forall|i: int| 0 <= i < 14 ==> #[trigger] r[28 + i] == "copc hierarchy"@[i] as u8
            &&& forall|i: int| 42 <= i < 60 ==> #[trigger] r[i] == 0
        }),
        forall|i: int|
            0 <= i < writer.ordered_keys.len() ==> {
                let key = #[trigger] writer.ordered_keys[i];
                let start = writer.chunk_starts[i];
                let end = if i + 1 < writer.chunk_starts.len() {
                    writer.chunk_starts[i + 1]
                } else {
                    chunk_table_pos
                };
                let at = evlr_start + 60 + 32 * i;
                &&& le_value(file.subrange(at, at + 4)) == key.level as int % 0x1_0000_0000
                &&& le_value(file.subrange(at + 4, at + 8)) == key.x as int % 0x1_0000_0000
                &&& le_value(file.subrange(at + 8, at + 12)) == key.y as int % 0x1_0000_0000
                &&& le_value(file.subrange(at + 12, at + 16)) == key.z as int % 0x1_0000_0000
                &&& le_value(file.subrange(at + 16, at + 24)) == start
                &&& le_value(file.subrange(at + 24, at + 28)) == (end - start) % 0x1_0000_0000
                &&& forall|n: (VoxelKey, usize)| #[trigger]
                    writer.nodes@.contains(n) && n.0 == key ==> le_value(
                        file.subrange(at + 28, at + 32),
                    ) == n.1 as int % 0x1_0000_0000
            },
{
    let entries = writer.entries(chunk_table_pos);
    let payload = hierarchy_payload_spec(entries);
    let info = CopcInfo {
        root_hier_offset: (evlr_start + EVLR_HEADER_SIZE) as u64,
        root_hier_size: payload.len() as u64,
        ..writer.info
    };
    let off = writer.offset_to_point_data;
    let record = evlr("copc"@, 1000, "copc hierarchy"@, payload);
    let front = prologue(b, off, evlr_start, info);
    finished_file(b, writer, data, chunk_table_pos, evlr_start);
    lemma_lengths(b, off, evlr_start, info);
    lemma_lengths(b, off, 0, writer.info);
    lemma_literals();
    lemma_file_parts(front, data, record, 0, 0);
    hierarchy_payload_holds_entries(entries);
    record_places("copc"@, 1000, "copc hierarchy"@, payload);
    assert forall|i: int| 0 <= i < writer.ordered_keys.len() implies ({
        let key = #[trigger] writer.ordered_keys[i];
        let start = writer.chunk_starts[i];
        let end = if i + 1 < writer.chunk_starts.len() {
            writer.chunk_starts[i + 1]
        } else {
            chunk_table_pos
        };
        let at = evlr_start + 60 + 32 * i;
        &&& le_value(file.subrange(at, at + 4)) == key.level as int % 0x1_0000_0000
        &&& le_value(file.subrange(at + 4, at + 8)) == key.x as int % 0x1_0000_0000
        &&& le_value(file.subrange(at + 8, at + 12)) == key.y as int % 0x1_0000_0000
        &&& le_value(file.subrange(at + 12, at + 16)) == key.z as int % 0x1_0000_0000
        &&& le_value(file.subrange(at + 16, at + 24)) == start
        &&& le_value(file.subrange(at + 24, at + 28)) == (end - start) % 0x1_0000_0000
        &&& forall|n: (VoxelKey, usize)| #[trigger]
            writer.nodes@.contains(n) && n.0 == key ==> le_value(file.subrange(at + 28, at + 32))
                == n.1 as int % 0x1_0000_0000
    }) by {
        let e = entries[i];
        let at = evlr_start + 60 + 32 * i;
        lemma_entry_of_file(file, evlr_start as int, entries, i);
        assert(writer.chunk_starts@[i] <= chunk_end(writer.chunk_starts@, i, chunk_table_pos));
        lemma_low_bits((chunk_end(writer.chunk_starts@, i, chunk_table_pos) - e.offset) as u64);
        assert forall|n: (VoxelKey, usize)| #[trigger]
            writer.nodes@.contains(n) && n.0 == writer.ordered_keys[i] implies le_value(
            file.subrange(at + 28, at + 32),
        ) == n.1 as int % 0x1_0000_0000 by {
            count_of_distinct_entry(writer.nodes@, n);
            lemma_low_bits(n.1 as u64);
        }
    }
}

/// Where the numbers of an entry stand in a file that ends in the hierarchy record.
proof fn lemma_entry_of_file(file: Seq<u8>, start: int, entries: Seq<HierarchyEntry>, i: int)
    requires
        0 <= start <= file.len(),
        file.skip(start) == evlr(
            "copc"@,
            1000,
            "copc hierarchy"@,
            hierarchy_payload_spec(entries),
        ),
        0 <= i < entries.len(),
    ensures
        ({
            let e = entries[i];
            let at = start + 60 + 32 * i;
            &&& le_value(file.subrange(at, at + 4)) == e.key.level as int % 0x1_0000_0000
            &&& le_value(file.subrange(at + 4, at + 8)) == e.key.x as int % 0x1_0000_0000
            &&& le_value(file.subrange(at + 8, at + 12)) == e.key.y as int % 0x1_0000_0000
            &&& le_value(file.subrange(at + 12, at + 16)) == e.key.z as int % 0x1_0000_0000
            &&& le_value(file.subrange(at + 16, at + 24)) == e.offset
            &&& le_value(file.subrange(at + 24, at + 28)) == e.byte_size as int % 0x1_0000_0000
            &&& le_value(file.subrange(at + 28, at + 32)) == e.point_count as int % 0x1_0000_0000
        }),
{
    let payload = hierarchy_payload_spec(entries);
    let record = evlr("copc"@, 1000, "copc hierarchy"@, payload);
    let b = entries[i].encoded();
    let at = start + 60 + 32 * i;
    lemma_literals();
    record_layout("copc"@, 1000, "copc hierarchy"@, payload);
    hierarchy_payload_places(entries, i);
    hierarchy_entry_places(entries[i]);
    lemma_skip_skip(file, start, 60);
    lemma_subrange_of_skip(file, start + 60, 32 * i, 32 * i + 32);
    assert(file.subrange(at, at + 32) == b);
    lemma_entry_parts(file, at, b);
}

proof fn lemma_entry_parts(file: Seq<u8>, at: int, b: Seq<u8>)
    requires
        0 <= at,
        at + 32 <= file.len(),
        b.len() == 32,
        file.subrange(at, at + 32) == b,
    ensures
        file.subrange(at, at + 4) == b.subrange(0, 4),
        file.subrange(at + 4, at + 8) == b.subrange(4, 8),
        file.subrange(at + 8, at + 12) == b.subrange(8, 12),
        file.subrange(at + 12, at + 16) == b.subrange(12, 16),
        file.subrange(at + 16, at + 24) == b.subrange(16, 24),
        file.subrange(at + 24, at + 28) == b.subrange(24, 28),
        file.subrange(at + 28, at + 32) == b.subrange(28, 32),
{
    lemma_within(file, at, b);
    assert(file.subrange(at + 0, at + 4) == b.subrange(0, 4));
}

/// A 64-bit number cut down to 32 bits keeps its low-order ones.
proof fn lemma_low_bits(v: u64)
    ensures
        (v as i32) as int % 0x1_0000_0000 == v as int % 0x1_0000_0000,
{
    assert((v as i32) as u32 == v % 0x1_0000_0000) by (bit_vector);
    let w: i32 = v as i32;
    assert(w >= 0 ==> w as u32 == w) by (bit_vector);
    assert(w < 0 ==> w as u32 == w + 0x1_0000_0000) by (bit_vector);
}

/// Where each number of the laszip record stands: compressor and coder, version, options,
/// chunk size, special records, and the two items of the point format.
pub proof fn laz_payload_places()
    ensures
        ({
            let p = laz_vlr_payload();
            &&& p.len() == 46
            &&& le_value(p.subrange(0, 2)) == 3
            &&& le_value(p.subrange(2, 4)) == 0
            &&& p[4] == 2
            &&& p[5] == 2
            &&& le_value(p.subrange(6, 8)) == 0
            &&& le_value(p.subrange(8, 12)) == 0
            &&& le_value(p.subrange(12, 16)) == 0xffff_ffff
            &&& forall|i: int| 16 <= i < 32 ==> #[trigger] p[i] == 255
            &&& le_value(p.subrange(32, 34)) == 2
            &&& le_value(p.subrange(34, 36)) == 10
            &&& le_value(p.subrange(36, 38)) == 30
            &&& le_value(p.subrange(38, 40)) == 3
            &&& le_value(p.subrange(40, 42)) == 11
            &&& le_value(p.subrange(42, 44)) == 6
            &&& le_value(p.subrange(44, 46)) == 3
        }),
{
    let p = laz_vlr_payload();
    lemma_le_fixed_widths();
    assert(p.subrange(0, 2) =~= le_u16(3));
    assert(p.subrange(2, 4) =~= le_u16(0));
    assert(p.subrange(6, 8) =~= le_u16(0));
    assert(p.subrange(8, 12) =~= le_u32(0));
    assert(p.subrange(12, 16) =~= le_u32(u32::MAX));
    assert(p.subrange(32, 34) =~= le_u16(2));
    assert(p.subrange(34, 36) =~= le_u16(10));
    assert(p.subrange(36, 38) =~= le_u16(30));
    assert(p.subrange(38, 40) =~= le_u16(3));
    assert(p.subrange(40, 42) =~= le_u16(11));
    assert(p.subrange(42, 44) =~= le_u16(6));
    assert(p.subrange(44, 46) =~= le_u16(3));
}

/// Writing over a file changes the bytes at the position and behind it, as many as are
/// written, and no others; the file grows where they reach beyond its end.
pub proof fn overwriting_changes_its_range(file: Seq<u8>, position: nat, bytes: Seq<u8>)
    requires
        position <= file.len(),
    ensures
        ({
            let after = overwritten(file, position, bytes);
            &&& after.len() == (if position + bytes.len() < file.len() {
                file.len()
            } else {
                position + bytes.len()
            })
            &&& forall|i: int| 0 <= i < bytes.len() ==> after[position + i] == #[trigger] bytes[i]
            &&& forall|i: int|
                0 <= i < file.len() && (i < position || position + bytes.len() <= i) ==> after[i]
                    == #[trigger] file[i]
        }),
{
}

/// The `copc info` record of a finished file tells the cube of the octree, the spacing of the
/// root's points and where the hierarchy stands, and leaves the range of GPS times at zero.
pub proof fn finished_info(
    b: OctreeBuilder,
    spacing: Float64,
    writer: CopcWriter,
    data: Seq<u8>,
    chunk_table_pos: u64,
    evlr_start: u64,
    file: Seq<u8>,
)
    requires
        writer.info == copc_info(b, spacing, 0, 0),
        writer.prologue@ == prologue(b, writer.offset_to_point_data, 0, writer.info),
        evlr_start == writer.prologue.len() + data.len(),
        evlr_start + EVLR_HEADER_SIZE <= u64::MAX,
        32 * writer.ordered_keys.len() <= u64::MAX,
        file == patched(writer.prologue@ + data, writer.patches(chunk_table_pos, evlr_start)),
    ensures
        le_value(file.subrange(429, 437)) == b.cx.bits,
        le_value(file.subrange(437, 445)) == b.cy.bits,
        le_value(file.subrange(445, 453)) == b.cz.bits,
        le_value(file.subrange(453, 461)) == b.halfsize.bits,
        le_value(file.subrange(461, 469)) == spacing.bits,
        le_value(file.subrange(469, 477)) == evlr_start + 60,
        le_value(file.subrange(477, 485)) == 32 * writer.ordered_keys.len(),
        le_value(file.subrange(485, 493)) == 0,
        le_value(file.subrange(493, 501)) == 0,
{
    finished_records(b, writer, data, chunk_table_pos, evlr_start, file);
}

} // verus!
