//! The octree: what the first pass over the input decides, and the way from a point
//! to its leaf.
use crate::bounds::{
    expanded_is_tight, first_point_makes_the_box, merged_covers, merged_is_tight, Bounds,
};
use crate::float64::{finite_doubles_compare_by_value, is_finite, value, Float64};
use crate::point::{decode_points, decoded_points, encode_points, encoded_points, RawPoint};
use crate::rounding::{
    nearest, nearest_below_power, nearest_close, nearest_exact, nearest_of_whole, nearest_whole,
    round_whole,
};
use crate::voxel::{
    grid_steps, node_name, node_name_round_trip, node_name_spec, parent_of_child, parse_node_name,
    parse_node_name_spec, VoxelKey, MAX_PARENT_LEVEL,
};
use std::path::PathBuf;
use vstd::arithmetic::power::pow;
use vstd::arithmetic::power2::{
    lemma2_to64, lemma2_to64_rest, lemma_pow2_adds, lemma_pow2_strictly_increases, pow2,
};
use vstd::prelude::*;

verus! {

/// Maximum points per leaf voxel, on average, before the tree gets deeper.
pub const MAX_LEAF_POINTS: u64 = 65_536;

/// Maximum points to keep per non-leaf node (thinned sample for overview).
pub const MAX_NODE_POINTS: usize = 65_536;

/// The bits of the double 0.001, the scale where no input file gives one.
pub const DEFAULT_SCALE_BITS: u64 = 0x3f50_624d_d2f1_a9fc;

/// Scale and offset of the integer coordinates, per axis.
#[derive(Debug, Clone, Copy, PartialEq, Eq, Structural)]
pub struct Transforms {
    pub scale_x: Float64,
    pub scale_y: Float64,
    pub scale_z: Float64,
    pub offset_x: Float64,
    pub offset_y: Float64,
    pub offset_z: Float64,
}

/// A place in space.
#[derive(Debug, Clone, Copy, PartialEq, Eq, Structural)]
pub struct Position {
    pub x: Float64,
    pub y: Float64,
    pub z: Float64,
}

/// The cube that the octree divides: its centre and half the length of its edges.
#[derive(Debug, Clone, Copy, PartialEq, Eq, Structural)]
pub struct Cube {
    pub center: Position,
    pub halfsize: Float64,
}

/// What the first pass takes from the header of one input file.
#[derive(Debug, Clone, Copy, PartialEq, Eq, Structural)]
pub struct FileScan {
    pub bounds: Bounds,
    pub point_count: u64,
    pub transforms: Transforms,
}

impl FileScan {
    /// From the corners of the header's bounding box, its point count and its
    /// transforms.
    pub fn from_header(min: &Position, max: &Position, point_count: u64, transforms: Transforms) -> (r:
        FileScan)
        ensures
            r.bounds == Bounds::empty_spec().expanded(min.x, min.y, min.z).expanded(
                max.x,
                max.y,
                max.z,
            ),
            r.point_count == point_count,
            r.transforms == transforms,
            is_finite(min.x) && is_finite(min.y) && is_finite(min.z) && is_finite(max.x)
                && is_finite(max.y) && is_finite(max.z) && value(min.x) <= value(max.x) && value(
                min.y,
            ) <= value(max.y) && value(min.z) <= value(max.z) ==> {
                &&& r.bounds.min_x == min.x && value(r.bounds.max_x) == value(max.x)
                &&& r.bounds.min_y == min.y && value(r.bounds.max_y) == value(max.y)
                &&& r.bounds.min_z == min.z && value(r.bounds.max_z) == value(max.z)
            },
    {
        let mut bounds = Bounds::empty();
        bounds.expand_with(min.x, min.y, min.z);
        bounds.expand_with(max.x, max.y, max.z);
        proof {
            if is_finite(min.x) && is_finite(min.y) && is_finite(min.z) && is_finite(max.x)
                && is_finite(max.y) && is_finite(max.z) && value(min.x) <= value(max.x) && value(
                min.y,
            ) <= value(max.y) && value(min.z) <= value(max.z) {
                header_makes_the_box(*min, *max);
            }
        }
        FileScan { bounds, point_count, transforms }
    }
}

/// The box around the boxes of all files.
pub open spec fn merged_bounds_spec(results: Seq<FileScan>) -> Bounds
    decreases results.len(),
{
    if results.len() == 0 {
        Bounds::empty_spec()
    } else {
        merged_bounds_spec(results.drop_last()).merged(results.last().bounds)
    }
}

/// The number of points in all files.
pub open spec fn total_points_spec(results: Seq<FileScan>) -> nat
    decreases results.len(),
{
    if results.len() == 0 {
        0
    } else {
        total_points_spec(results.drop_last()) + results.last().point_count as nat
    }
}

/// The transforms of the first file; without files, a scale of 0.001 and no offset.
pub open spec fn first_transforms(results: Seq<FileScan>) -> Transforms {
    if results.len() > 0 {
        results[0].transforms
    } else {
        Transforms {
            scale_x: Float64 { bits: DEFAULT_SCALE_BITS },
            scale_y: Float64 { bits: DEFAULT_SCALE_BITS },
            scale_z: Float64 { bits: DEFAULT_SCALE_BITS },
            offset_x: Float64 { bits: 0 },
            offset_y: Float64 { bits: 0 },
            offset_z: Float64 { bits: 0 },
        }
    }
}

proof fn lemma_total_monotone(results: Seq<FileScan>, i: int)
    requires
        0 <= i <= results.len(),
    ensures
        total_points_spec(results.take(i)) <= total_points_spec(results),
    decreases results.len(),
{
    if i < results.len() {
        assert(results.drop_last().take(i) =~= results.take(i));
        lemma_total_monotone(results.drop_last(), i);
    } else {
        assert(results.take(i) =~= results);
    }
}

pub fn merged_bounds(results: &Vec<FileScan>) -> (r: Bounds)
    ensures
        r == merged_bounds_spec(results@),
{
    let mut bounds = Bounds::empty();
    let mut i: usize = 0;
    assert(results@.take(0) =~= Seq::empty());
    while i < results.len()
        invariant
            0 <= i <= results.len(),
            bounds == merged_bounds_spec(results@.take(i as int)),
        decreases results.len() - i,
    {
        assert(results@.take(i + 1).drop_last() =~= results@.take(i as int));
        bounds.merge(&results[i].bounds);
        i = i + 1;
    }
    assert(results@.take(results.len() as int) =~= results@);
    bounds
}

fn total_points(results: &Vec<FileScan>) -> (r: u64)
    requires
        total_points_spec(results@) <= u64::MAX,
    ensures
        r == total_points_spec(results@),
{
    let mut total: u64 = 0;
    let mut i: usize = 0;
    assert(results@.take(0) =~= Seq::empty());
    while i < results.len()
        invariant
            0 <= i <= results.len(),
            total == total_points_spec(results@.take(i as int)),
            total_points_spec(results@) <= u64::MAX,
        decreases results.len() - i,
    {
        proof {
            assert(results@.take(i + 1).drop_last() =~= results@.take(i as int));
            lemma_total_monotone(results@, i + 1);
        }
        total = total + results[i].point_count;
        i = i + 1;
    }
    assert(results@.take(results.len() as int) =~= results@);
    total
}

/// How many points the leaves of a tree of the given depth hold at their limit.
pub open spec fn leaf_capacity(depth: nat) -> nat {
    (MAX_LEAF_POINTS * pow(8, depth)) as nat
}

/// Whether a tree of the given depth is deep enough: the point count, in double
/// precision, does not exceed what its leaves hold.
pub open spec fn deep_enough(total_points: nat, depth: nat) -> bool {
    nearest_whole(total_points) <= leaf_capacity(depth)
}

/// The depth of the octree: the least that is deep enough, and at least one.
pub fn choose_depth(total_points: u64) -> (r: u32)
    ensures
        1 <= r <= 16,
        deep_enough(total_points as nat, r as nat),
        forall|d: nat| 1 <= d < r ==> !deep_enough(total_points as nat, d),
{
    let points: u128 = round_whole(total_points);
    let mut d: u32 = 0;
    let mut capacity: u128 = MAX_LEAF_POINTS as u128;
    proof {
        reveal_with_fuel(pow, 17);
        assert(pow(8, 0) == 1);
        assert(pow(8, 16) == 0x1_0000_0000_0000);
    }
    while points > capacity
        invariant
            d <= 16,
            capacity == leaf_capacity(d as nat),
            capacity <= 0x1_0000_0000_0000_0000,
            leaf_capacity(16) == 0x1_0000_0000_0000_0000,
            points <= 0x1_0000_0000_0000_0000,
            points == nearest_whole(total_points as nat),
            forall|e: nat| e < d ==> !deep_enough(total_points as nat, e),
        decreases 16 - d,
    {
        proof {
            reveal(pow);
            vstd::arithmetic::power::lemma_pow_positive(8, d as nat);
            assert(pow(8, (d + 1) as nat) == 8 * pow(8, d as nat));
            lemma_capacity_monotone((d + 1) as nat, 16);
        }
        d = d + 1;
        capacity = capacity * 8;
    }
    if d < 1 {
        proof {
            lemma_capacity_monotone(0, 1);
        }
        1
    } else {
        d
    }
}

proof fn lemma_capacity_monotone(a: nat, b: nat)
    requires
        a <= b,
    ensures
        leaf_capacity(a) <= leaf_capacity(b),
{
    vstd::arithmetic::power::lemma_pow_positive(8, a);
    vstd::arithmetic::power::lemma_pow_increases(8, a, b);
}

/// Leaves hold at most their limit on average, but for one part in 2^53 that the
/// precision of the point count costs.
pub proof fn leaf_average_within_limit(total_points: nat, depth: nat)
    requires
        deep_enough(total_points, depth),
    ensures
        total_points * (0x20_0000_0000_0000 - 1) <= leaf_capacity(depth) * 0x20_0000_0000_0000,
{
    lemma2_to64_rest();
    nearest_close(total_points, 1);
    nearest_of_whole(total_points);
    let (p, q) = nearest(total_points, 1);
    let n = nearest_whole(total_points);
    let t: int = 0x20_0000_0000_0000;
    let c = leaf_capacity(depth);
    assert(total_points * (t - 1) <= c * t) by (nonlinear_arith)
        requires
            p * 1 * t >= total_points * q * (t - 1),
            p == n * q,
            n <= c,
            q > 0,
            t > 1,
    {
        assert((n * t) * q >= (total_points * (t - 1)) * q);
        assert(n * t <= c * t);
    }
}

/// Up to 2^55 points, leaves hold at most their limit on average.
pub proof fn leaf_average_exact(total_points: nat, depth: nat)
    requires
        deep_enough(total_points, depth),
        total_points <= 0x80_0000_0000_0000,
    ensures
        total_points <= leaf_capacity(depth),
{
    leaf_average_within_limit(total_points, depth);
    reveal_with_fuel(pow, 14);
    if depth >= 13 {
        lemma_capacity_monotone(13, depth);
    } else {
        lemma_capacity_monotone(depth, 12);
        let c = leaf_capacity(depth);
        let t: int = 0x20_0000_0000_0000;
        assert(total_points <= c) by (nonlinear_arith)
            requires
                total_points * (t - 1) <= c * t,
                c < t - 1,
                t > 1,
        ;
    }
}

/// The box of all files covers whatever the box of one of them covers.
pub proof fn merged_bounds_cover_files(
    results: Seq<FileScan>,
    i: int,
    x: Float64,
    y: Float64,
    z: Float64,
)
    requires
        forall|j: int| 0 <= j < results.len() ==> (#[trigger] results[j]).bounds.is_number(),
        0 <= i < results.len(),
        results[i].bounds.covers(x, y, z),
    ensures
        merged_bounds_spec(results).covers(x, y, z),
    decreases results.len(),
{
    let h = results.drop_last();
    assert forall|j: int| 0 <= j < h.len() implies (#[trigger] h[j]).bounds.is_number() by {
        assert(h[j] == results[j]);
    }
    assert(results.last() == results[results.len() - 1]);
    lemma_merged_bounds_number(h);
    if i < h.len() {
        assert(h[i] == results[i]);
        merged_bounds_cover_files(h, i, x, y, z);
    }
    merged_covers(merged_bounds_spec(h), results.last().bounds, x, y, z);
}

proof fn lemma_merged_bounds_number(results: Seq<FileScan>)
    ensures
        merged_bounds_spec(results).is_number(),
    decreases results.len(),
{
    if results.len() > 0 {
        lemma_merged_bounds_number(results.drop_last());
    }
}

/// The octree of a conversion.
pub struct OctreeBuilder {
    pub bounds: Bounds,
    pub total_points: u64,
    pub cx: Float64,
    pub cy: Float64,
    pub cz: Float64,
    pub halfsize: Float64,
    pub depth: u32,
    /// Scale / offset from the first input file, used for all raw-integer conversions.
    pub scale_x: Float64,
    pub scale_y: Float64,
    pub scale_z: Float64,
    pub offset_x: Float64,
    pub offset_y: Float64,
    pub offset_z: Float64,
    /// Temp directory where node files are written.
    pub tmp_dir: PathBuf,
}

/// A file in the temp directory.
#[derive(Debug)]
pub struct NodeFile {
    pub name: String,
    /// Length in bytes.
    pub len: u64,
}

/// The leaf that a file belongs to: its name spells a key on the leaves' level, and it
/// holds at least one point.
pub open spec fn leaf_of_file(file: NodeFile, depth: u32) -> Option<VoxelKey> {
    match parse_node_name_spec(file.name@) {
        Some(key) => if key.level == depth && file.len >= RawPoint::BYTE_SIZE {
            Some(key)
        } else {
            None
        },
        None => None,
    }
}

/// The leaves that files belong to, in the order of the files; other files are skipped.
pub open spec fn leaves_of_files(files: Seq<NodeFile>, depth: u32) -> Seq<VoxelKey>
    decreases files.len(),
{
    if files.len() == 0 {
        Seq::empty()
    } else {
        let head = leaves_of_files(files.drop_last(), depth);
        match leaf_of_file(files.last(), depth) {
            Some(key) => head.push(key),
            None => head,
        }
    }
}

/// Whether no two files spell the same key.
pub open spec fn distinct_keys(files: Seq<NodeFile>) -> bool {
    forall|i: int, j: int|
        0 <= i < j < files.len() && parse_node_name_spec((#[trigger] files[i]).name@) is Some
            ==> parse_node_name_spec(files[i].name@) != parse_node_name_spec(
            (#[trigger] files[j]).name@,
        )
}

proof fn lemma_leaves_of_files(files: Seq<NodeFile>, depth: u32)
    ensures
        forall|k: VoxelKey| #[trigger]
            leaves_of_files(files, depth).contains(k) <==> exists|i: int|
                0 <= i < files.len() && leaf_of_file(#[trigger] files[i], depth) == Some(k),
        distinct_keys(files) ==> leaves_of_files(files, depth).no_duplicates(),
    decreases files.len(),
{
    if files.len() > 0 {
        let h = files.drop_last();
        let n = h.len() as int;
        let a = leaves_of_files(h, depth);
        let r = leaves_of_files(files, depth);
        lemma_leaves_of_files(h, depth);
        assert(files.last() == files[n]);
        assert forall|k: VoxelKey| #[trigger] r.contains(k) <==> exists|i: int|
            0 <= i < files.len() && leaf_of_file(#[trigger] files[i], depth) == Some(k) by {
            if r.contains(k) {
                let j = r.index_of(k);
                if j < a.len() {
                    assert(a[j] == k);
                    assert(a.contains(k));
                    let i = choose|i: int|
                        0 <= i < h.len() && leaf_of_file(#[trigger] h[i], depth) == Some(k);
                    assert(files[i] == h[i]);
                } else {
                    assert(leaf_of_file(files[n], depth) == Some(k));
                }
            }
            if exists|i: int|
                0 <= i < files.len() && leaf_of_file(#[trigger] files[i], depth) == Some(k) {
                let i = choose|i: int|
                    0 <= i < files.len() && leaf_of_file(#[trigger] files[i], depth) == Some(k);
                if i < n {
                    assert(leaf_of_file(h[i], depth) == Some(k));
                    assert(a.contains(k));
                    let j = a.index_of(k);
                    assert(r[j] == k);
                } else {
                    assert(r[r.len() - 1] == k);
                }
            }
        }
        if distinct_keys(files) {
            assert forall|i: int, j: int|
                0 <= i < j < h.len() && parse_node_name_spec((#[trigger] h[i]).name@) is Some implies
                parse_node_name_spec(h[i].name@) != parse_node_name_spec(
                (#[trigger] h[j]).name@,
            ) by {
                assert(h[i] == files[i] && h[j] == files[j]);
            }
            if leaf_of_file(files[n], depth) is Some {
                let k = leaf_of_file(files[n], depth)->0;
                if a.contains(k) {
                    let i = choose|i: int|
                        0 <= i < h.len() && leaf_of_file(#[trigger] h[i], depth) == Some(k);
                    assert(files[i] == h[i]);
                }
                assert(!a.contains(k));
                assert forall|i: int, j: int|
                    0 <= i < r.len() && 0 <= j < r.len() && i != j implies r[i] != r[j] by {
                    if i < a.len() && j < a.len() {
                        assert(a[i] != a[j]);
                    } else if i < a.len() {
                        assert(a.contains(a[i]));
                    } else {
                        assert(a.contains(a[j]));
                    }
                }
            }
        }
    }
}

impl OctreeBuilder {
    /// Pass 1: combine what the headers of all files say.
    ///
    /// `cube` is the cube around [`merged_bounds`] of the same headers.
    pub fn scan(results: &Vec<FileScan>, cube: Cube, tmp_dir: PathBuf) -> (r: OctreeBuilder)
        requires
            total_points_spec(results@) <= u64::MAX,
        ensures
            r.bounds == merged_bounds_spec(results@),
            r.total_points == total_points_spec(results@),
            (Cube {
                center: Position { x: r.cx, y: r.cy, z: r.cz },
                halfsize: r.halfsize,
            }) == cube,
            1 <= r.depth <= 16,
            deep_enough(r.total_points as nat, r.depth as nat),
            forall|d: nat| 1 <= d < r.depth ==> !deep_enough(r.total_points as nat, d),
            (Transforms {
                scale_x: r.scale_x,
                scale_y: r.scale_y,
                scale_z: r.scale_z,
                offset_x: r.offset_x,
                offset_y: r.offset_y,
                offset_z: r.offset_z,
            }) == first_transforms(results@),
            results.len() > 0 ==> {
                let t = results[0].transforms;
                &&& r.scale_x == t.scale_x && r.scale_y == t.scale_y && r.scale_z == t.scale_z
                &&& r.offset_x == t.offset_x && r.offset_y == t.offset_y && r.offset_z == t.offset_z
            },
            results.len() == 0 ==> {
                &&& r.scale_x.bits == 0x3f50_624d_d2f1_a9fc && r.offset_x.bits == 0
                &&& r.scale_y.bits == 0x3f50_624d_d2f1_a9fc && r.offset_y.bits == 0
                &&& r.scale_z.bits == 0x3f50_624d_d2f1_a9fc && r.offset_z.bits == 0
            },
            r.tmp_dir == tmp_dir,
    {
        let bounds = merged_bounds(results);
        let total: u64 = total_points(results);
        let t: Transforms = if results.len() > 0 {
            results[0].transforms
        } else {
            Transforms {
                scale_x: Float64 { bits: DEFAULT_SCALE_BITS },
                scale_y: Float64 { bits: DEFAULT_SCALE_BITS },
                scale_z: Float64 { bits: DEFAULT_SCALE_BITS },
                offset_x: Float64 { bits: 0 },
                offset_y: Float64 { bits: 0 },
                offset_z: Float64 { bits: 0 },
            }
        };
        let depth: u32 = choose_depth(total);
        OctreeBuilder {
            bounds,
            total_points: total,
            cx: cube.center.x,
            cy: cube.center.y,
            cz: cube.center.z,
            halfsize: cube.halfsize,
            depth,
            scale_x: t.scale_x,
            scale_y: t.scale_y,
            scale_z: t.scale_z,
            offset_x: t.offset_x,
            offset_y: t.offset_y,
            offset_z: t.offset_z,
            tmp_dir,
        }
    }

    /// The name of a node's file inside the temp directory.
    pub fn node_path(&self, key: &VoxelKey) -> (r: String)
        ensures
            r@ == node_name_spec(*key),
    {
        node_name(key)
    }

    /// All raw points of a node, from the contents of its file. A node without a file
    /// has none.
    pub fn read_node(&self, file: Option<&[u8]>) -> (r: Vec<RawPoint>)
        ensures
            r@ == (match file {
                Some(bytes) => decoded_points(bytes@),
                None => Seq::empty(),
            }),
    {
        match file {
            Some(bytes) => decode_points(bytes),
            None => Vec::new(),
        }
    }

    /// The contents of a node's file for its points.
    pub fn write_node_to_temp(&self, points: &Vec<RawPoint>) -> (r: Vec<u8>)
        ensures
            r@ == encoded_points(points@),
    {
        encode_points(points)
    }

    /// Enumerate all leaf keys that have data, from the files in the temp directory.
    pub fn leaf_keys(&self, files: &Vec<NodeFile>) -> (r: Vec<VoxelKey>)
        ensures
            r@ == leaves_of_files(files@, self.depth),
            forall|k: VoxelKey| #[trigger]
                r@.contains(k) <==> k.level == self.depth && exists|i: int|
                    0 <= i < files.len() && parse_node_name_spec((#[trigger] files[i]).name@)
                        == Some(k) && files[i].len >= RawPoint::BYTE_SIZE,
            distinct_keys(files@) ==> r@.no_duplicates(),
    {
        let mut keys: Vec<VoxelKey> = Vec::new();
        let mut i: usize = 0;
        assert(files@.take(0) =~= Seq::empty());
        while i < files.len()
            invariant
                0 <= i <= files.len(),
                keys@ == leaves_of_files(files@.take(i as int), self.depth),
            decreases files.len() - i,
        {
            assert(files@.take(i + 1).drop_last() =~= files@.take(i as int));
            match parse_node_name(files[i].name.as_str()) {
                Some(key) => {
                    if key.level as i64 == self.depth as i64 && files[i].len
                        >= RawPoint::BYTE_SIZE as u64 {
                        keys.push(key);
                    }
                },
                None => {},
            }
            i = i + 1;
        }
        assert(files@.take(files.len() as int) =~= files@);
        proof {
            lemma_leaves_of_files(files@, self.depth);
            assert forall|k: VoxelKey| #[trigger]
                keys@.contains(k) <==> k.level == self.depth && exists|i: int|
                    0 <= i < files.len() && parse_node_name_spec((#[trigger] files[i]).name@)
                        == Some(k) && files[i].len >= RawPoint::BYTE_SIZE by {
                if keys@.contains(k) {
                    let i = choose|i: int|
                        0 <= i < files@.len() && leaf_of_file(#[trigger] files@[i], self.depth)
                            == Some(k);
                    assert(parse_node_name_spec(files[i].name@) == Some(k));
                }
                if k.level == self.depth && exists|i: int|
                    0 <= i < files.len() && parse_node_name_spec((#[trigger] files[i]).name@)
                        == Some(k) && files[i].len >= RawPoint::BYTE_SIZE {
                    let i = choose|i: int|
                        0 <= i < files.len() && parse_node_name_spec((#[trigger] files[i]).name@)
                            == Some(k) && files[i].len >= RawPoint::BYTE_SIZE;
                    assert(leaf_of_file(files@[i], self.depth) == Some(k));
                }
            }
        }
        keys
    }
}

/// The files of leaves that hold points belong to these leaves, in order, and the files of
/// other levels belong to none.
pub proof fn leaf_files_give_back_keys(files: Seq<NodeFile>, keys: Seq<VoxelKey>, depth: u32)
    requires
        files.len() == keys.len(),
        forall|i: int|
            0 <= i < files.len() ==> (#[trigger] files[i]).name@ == node_name_spec(keys[i])
                && files[i].len >= RawPoint::BYTE_SIZE,
    ensures
        (forall|i: int| 0 <= i < keys.len() ==> (#[trigger] keys[i]).level == depth)
            ==> leaves_of_files(files, depth) == keys,
        (forall|i: int| 0 <= i < keys.len() ==> (#[trigger] keys[i]).level != depth)
            ==> leaves_of_files(files, depth) == Seq::<VoxelKey>::empty(),
    decreases files.len(),
{
    if files.len() > 0 {
        let f = files.drop_last();
        let k = keys.drop_last();
        assert forall|i: int| 0 <= i < f.len() implies (#[trigger] f[i]).name@ == node_name_spec(
            k[i],
        ) && f[i].len >= RawPoint::BYTE_SIZE by {
            assert(f[i] == files[i]);
        }
        leaf_files_give_back_keys(f, k, depth);
        assert(files.last() == files[files.len() - 1]);
        assert(keys.last() == keys[keys.len() - 1]);
        node_name_round_trip(keys.last());
        assert(k.push(keys.last()) =~= keys);
        assert(forall|i: int| 0 <= i < k.len() ==> #[trigger] k[i] == keys[i]);
    } else {
        assert(keys =~= Seq::empty());
    }
}

/// The voxel that a point falls into when it is held against the centre of one voxel
/// after the other, from the root down: along each axis the upper half from the
/// centre on, else the lower half.
pub open spec fn point_to_key(point: Position, centers: Seq<Position>) -> VoxelKey
    decreases centers.len(),
{
    if centers.len() == 0 {
        VoxelKey::root_spec()
    } else {
        let c = centers.last();
        point_to_key(point, centers.drop_last()).child_spec(
            point.x.ge_spec(c.x),
            point.y.ge_spec(c.y),
            point.z.ge_spec(c.z),
        )
    }
}

/// The half that a point lies in along each axis, `true` for the upper one.
#[derive(Debug, Clone, Copy, PartialEq, Eq, Structural)]
pub struct Octant {
    pub x: bool,
    pub y: bool,
    pub z: bool,
}

/// The way of a point from the root to its leaf voxel.
pub struct KeyDescent {
    pub point: Position,
    pub key: VoxelKey,
    /// The centres of the voxels that were passed through.
    pub centers: Ghost<Seq<Position>>,
}

impl KeyDescent {
    pub open spec fn wf(self) -> bool {
        &&& self.key == point_to_key(self.point, self.centers@)
        &&& self.key.in_grid()
        &&& self.key.level == self.centers@.len()
    }

    pub fn start(point: Position) -> (r: KeyDescent)
        ensures
            r.wf(),
            r.point == point,
            r.centers@ == Seq::<Position>::empty(),
            r.key == VoxelKey::root_spec(),
    {
        proof {
            lemma2_to64();
        }
        KeyDescent { point, key: VoxelKey::root(), centers: Ghost(Seq::empty()) }
    }

    /// Goes one level down from the voxel with the given centre, and tells into which
    /// octant.
    pub fn step(&mut self, center: &Position) -> (r: Octant)
        requires
            old(self).wf(),
            old(self).key.level <= MAX_PARENT_LEVEL,
        ensures
            final(self).wf(),
            final(self).point == old(self).point,
            final(self).centers@ == old(self).centers@.push(*center),
            r.x == old(self).point.x.ge_spec(center.x),
            r.y == old(self).point.y.ge_spec(center.y),
            r.z == old(self).point.z.ge_spec(center.z),
            final(self).key == old(self).key.child_spec(r.x, r.y, r.z),
    {
        let x: bool = self.point.x.ge(&center.x);
        let y: bool = self.point.y.ge(&center.y);
        let z: bool = self.point.z.ge(&center.z);
        proof {
            lemma2_to64();
            if self.key.level < 30 {
                lemma_pow2_strictly_increases(self.key.level as nat, 30);
            }
            grid_steps(self.key, x, y, z);
            assert(self.centers@.push(*center).drop_last() =~= self.centers@);
        }
        self.key = self.key.child(x, y, z);
        self.centers = Ghost(self.centers@.push(*center));
        Octant { x, y, z }
    }
}

/// A point's voxel lies on the level of the number of steps, in that level's grid.
pub proof fn point_key_in_grid(point: Position, centers: Seq<Position>)
    requires
        centers.len() <= MAX_PARENT_LEVEL + 1,
    ensures
        point_to_key(point, centers).in_grid(),
        point_to_key(point, centers).level == centers.len(),
    decreases centers.len(),
{
    lemma2_to64();
    if centers.len() > 0 {
        let h = centers.drop_last();
        let c = centers.last();
        point_key_in_grid(point, h);
        if h.len() < 30 {
            lemma_pow2_strictly_increases(h.len(), 30);
        }
        grid_steps(
            point_to_key(point, h),
            point.x.ge_spec(c.x),
            point.y.ge_spec(c.y),
            point.z.ge_spec(c.z),
        );
    }
}

/// The voxel of a point in a shallower tree is the parent of its voxel one level down.
pub proof fn shallower_key_is_parent(point: Position, centers: Seq<Position>)
    requires
        0 < centers.len() <= MAX_PARENT_LEVEL + 1,
    ensures
        point_to_key(point, centers).parent_spec() == Some(
            point_to_key(point, centers.drop_last()),
        ),
{
    let h = centers.drop_last();
    let c = centers.last();
    lemma2_to64();
    point_key_in_grid(point, h);
    if h.len() < 30 {
        lemma_pow2_strictly_increases(h.len(), 30);
    }
    parent_of_child(
        point_to_key(point, h),
        point.x.ge_spec(c.x),
        point.y.ge_spec(c.y),
        point.z.ge_spec(c.z),
    );
}

/// The box of a header whose corners are finite is made of these corners.
pub proof fn header_makes_the_box(min: Position, max: Position)
    requires
        is_finite(min.x) && is_finite(min.y) && is_finite(min.z),
        is_finite(max.x) && is_finite(max.y) && is_finite(max.z),
        value(min.x) <= value(max.x),
        value(min.y) <= value(max.y),
        value(min.z) <= value(max.z),
    ensures
        ({
            let b = Bounds::empty_spec().expanded(min.x, min.y, min.z).expanded(
                max.x,
                max.y,
                max.z,
            );
            &&& b.min_x == min.x && b.min_y == min.y && b.min_z == min.z
            &&& value(b.max_x) == value(max.x) && (b.max_x == max.x || b.max_x == min.x)
            &&& value(b.max_y) == value(max.y) && (b.max_y == max.y || b.max_y == min.y)
            &&& value(b.max_z) == value(max.z) && (b.max_z == max.z || b.max_z == min.z)
        }),
{
    first_point_makes_the_box(min.x, min.y, min.z);
    let b = Bounds::empty_spec().expanded(min.x, min.y, min.z);
    expanded_is_tight(b, max.x, max.y, max.z);
    finite_doubles_compare_by_value(min.x, max.x);
    finite_doubles_compare_by_value(min.y, max.y);
    finite_doubles_compare_by_value(min.z, max.z);
    finite_doubles_compare_by_value(max.x, min.x);
    finite_doubles_compare_by_value(max.y, min.y);
    finite_doubles_compare_by_value(max.z, min.z);
}

/// The box of one file is the file's box.
pub proof fn one_file_makes_the_box(scan: FileScan)
    requires
        is_finite(scan.bounds.min_x) && is_finite(scan.bounds.max_x),
        is_finite(scan.bounds.min_y) && is_finite(scan.bounds.max_y),
        is_finite(scan.bounds.min_z) && is_finite(scan.bounds.max_z),
    ensures
        merged_bounds_spec(seq![scan]) == scan.bounds,
{
    let b = scan.bounds;
    let one = seq![scan];
    assert(one.drop_last() =~= Seq::empty());
    assert(merged_bounds_spec(one.drop_last()) == Bounds::empty_spec());
    first_point_makes_the_box(b.min_x, b.min_y, b.min_z);
    first_point_makes_the_box(b.max_x, b.max_y, b.max_z);
}

/// Each limit of the box of all files is that of one of the files, or of the empty box.
pub proof fn merged_bounds_are_tight(results: Seq<FileScan>)
    ensures
        ({
            let b = merged_bounds_spec(results);
            let e = Bounds::empty_spec();
            &&& b.min_x == e.min_x || exists|i: int|
                0 <= i < results.len() && (#[trigger] results[i]).bounds.min_x == b.min_x
            &&& b.min_y == e.min_y || exists|i: int|
                0 <= i < results.len() && (#[trigger] results[i]).bounds.min_y == b.min_y
            &&& b.min_z == e.min_z || exists|i: int|
                0 <= i < results.len() && (#[trigger] results[i]).bounds.min_z == b.min_z
            &&& b.max_x == e.max_x || exists|i: int|
                0 <= i < results.len() && (#[trigger] results[i]).bounds.max_x == b.max_x
            &&& b.max_y == e.max_y || exists|i: int|
                0 <= i < results.len() && (#[trigger] results[i]).bounds.max_y == b.max_y
            &&& b.max_z == e.max_z || exists|i: int|
                0 <= i < results.len() && (#[trigger] results[i]).bounds.max_z == b.max_z
        }),
    decreases results.len(),
{
    if results.len() > 0 {
        let h = results.drop_last();
        let n = h.len() as int;
        merged_bounds_are_tight(h);
        merged_is_tight(merged_bounds_spec(h), results.last().bounds);
        assert(results[n] == results.last());
        assert(forall|i: int| 0 <= i < h.len() ==> #[trigger] h[i] == results[i]);
    }
}

/// The number of points in two lists of files is the sum of theirs, and in one file what its
/// header says.
pub proof fn total_points_add_up(a: Seq<FileScan>, b: Seq<FileScan>, one: FileScan)
    ensures
        total_points_spec(a + b) == total_points_spec(a) + total_points_spec(b),
        total_points_spec(seq![one]) == one.point_count,
    decreases b.len(),
{
    assert(seq![one].drop_last() =~= Seq::empty());
    assert(total_points_spec(seq![one].drop_last()) == 0);
    if b.len() == 0 {
        assert(a + b =~= a);
    } else {
        total_points_add_up(a, b.drop_last(), one);
        assert((a + b).drop_last() =~= a + b.drop_last());
    }
}

/// The depth of the tree: as long as the number of points has at most 53 bits, the least from
/// one on at which the leaves, of which there are eight to the depth, hold no more than 65 536
/// points each on average.
pub proof fn depth_is_least(total_points: nat, depth: nat)
    requires
        total_points <= 0x20_0000_0000_0000,
    ensures
        deep_enough(total_points, depth) <==> total_points <= 65_536 * pow(8, depth),
{
    lemma2_to64();
    lemma2_to64_rest();
    nearest_exact(total_points, 1, total_points, 0);
    nearest_of_whole(total_points);
    let (p, q) = nearest(total_points, 1);
    let n = nearest_whole(total_points);
    assert(n == total_points) by (nonlinear_arith)
        requires
            p * 1 == total_points * q,
            p == n * q,
            q > 0,
    ;
    vstd::arithmetic::power::lemma_pow_positive(8, depth);
}

/// For any number of points, a depth that is not deep enough has leaves with more than
/// 65 536 points each on average, but for one part in 2^53; one that is has no more, but for
/// one part in 2^53.
pub proof fn depth_is_near_least(total_points: nat, depth: nat)
    ensures
        deep_enough(total_points, depth) ==> total_points * 0x1f_ffff_ffff_ffff <= 65_536 * pow(
            8,
            depth,
        ) * 0x20_0000_0000_0000,
        !deep_enough(total_points, depth) ==> total_points * 0x20_0000_0000_0001 > 65_536 * pow(
            8,
            depth,
        ) * 0x20_0000_0000_0000,
{
    lemma2_to64_rest();
    vstd::arithmetic::power::lemma_pow_positive(8, depth);
    if deep_enough(total_points, depth) {
        leaf_average_within_limit(total_points, depth);
    } else {
        nearest_close(total_points, 1);
        nearest_of_whole(total_points);
        let (p, q) = nearest(total_points, 1);
        let n = nearest_whole(total_points);
        let t: int = 0x20_0000_0000_0000;
        let c = leaf_capacity(depth) as int;
        assert(total_points * (t + 1) > c * t) by (nonlinear_arith)
            requires
                p * 1 * t <= total_points * q * (t + 1),
                p == n * q,
                n > c,
                q > 0,
                t > 1,
        {
            assert((n * t) * q <= (total_points * (t + 1)) * q);
            assert(n * t > c * t);
        }
    }
}

/// On its way down, a point goes into the upper half of a voxel along an axis exactly if its
/// coordinate is not below the centre's: each step doubles the place along that axis, and adds
/// one for the upper half.
pub proof fn descent_doubles_places(point: Position, centers: Seq<Position>, center: Position)
    requires
        centers.len() <= MAX_PARENT_LEVEL,
    ensures
        point_to_key(point, Seq::empty()) == (VoxelKey { level: 0, x: 0, y: 0, z: 0 }),
        ({
            let k = point_to_key(point, centers);
            let c = point_to_key(point, centers.push(center));
            &&& c.level == k.level + 1
            &&& c.x == 2 * k.x + (if point.x.ge_spec(center.x) {
                1int
            } else {
                0
            })
            &&& c.y == 2 * k.y + (if point.y.ge_spec(center.y) {
                1int
            } else {
                0
            })
            &&& c.z == 2 * k.z + (if point.z.ge_spec(center.z) {
                1int
            } else {
                0
            })
        }),
{
    lemma2_to64();
    point_key_in_grid(point, centers);
    if centers.len() < 30 {
        lemma_pow2_strictly_increases(centers.len(), 30);
    }
    assert(centers.push(center).drop_last() =~= centers);
}

/// The files that belong to leaves are those whose names spell a key on the leaves' level and
/// that hold a point; each gives its leaf, and two lists of files give the leaves of both.
pub proof fn leaves_of_files_in_parts(a: Seq<NodeFile>, b: Seq<NodeFile>, one: NodeFile, depth: u32)
    ensures
        leaves_of_files(a + b, depth) == leaves_of_files(a, depth) + leaves_of_files(b, depth),
        leaves_of_files(seq![one], depth) == (match parse_node_name_spec(one.name@) {
            Some(key) => if key.level == depth && one.len >= 38 {
                seq![key]
            } else {
                Seq::<VoxelKey>::empty()
            },
            None => Seq::<VoxelKey>::empty(),
        }),
    decreases b.len(),
{
    assert(seq![one].drop_last() =~= Seq::empty());
    assert(leaves_of_files(seq![one].drop_last(), depth) =~= Seq::empty());
    if leaf_of_file(one, depth) is Some {
        assert(leaves_of_files(seq![one], depth) =~= seq![leaf_of_file(one, depth)->0]);
    }
    if b.len() == 0 {
        assert(a + b =~= a);
        assert(leaves_of_files(a, depth) + leaves_of_files(b, depth) =~= leaves_of_files(a, depth));
    } else {
        leaves_of_files_in_parts(a, b.drop_last(), one, depth);
        assert((a + b).drop_last() =~= a + b.drop_last());
        assert(leaves_of_files(a + b, depth) =~= leaves_of_files(a, depth) + leaves_of_files(
            b,
            depth,
        ));
    }
}

/// A depth is deep enough exactly if the number of points is at most 65 536 for each of its
/// leaves, but for the one part in 2^53 by which a double may round it down.
pub proof fn depth_is_exact(total_points: nat, depth: nat)
    ensures
        deep_enough(total_points, depth) <==> total_points * 0x20_0000_0000_0000 <= 65_536 * pow(
            8,
            depth,
        ) * 0x20_0000_0000_0001,
{
    lemma_capacity_power(depth);
    nearest_below_power(total_points, 16 + 3 * depth);
    vstd::arithmetic::power::lemma_pow_positive(8, depth);
}

proof fn lemma_capacity_power(depth: nat)
    ensures
        pow2(16 + 3 * depth) == 65_536 * pow(8, depth),
    decreases depth,
{
    lemma2_to64();
    reveal(pow);
    if depth > 0 {
        let d = (depth - 1) as nat;
        lemma_capacity_power(d);
        lemma_pow2_adds(16 + 3 * d, 3);
        assert(pow(8, depth) == 8 * pow(8, d));
    }
}

/// One more file widens the box of all files to the limits of its own box that lie beyond it;
/// before the first file its lower limits are the largest double and its upper ones the least.
pub proof fn next_file_widens_the_box(results: Seq<FileScan>, one: FileScan)
    ensures
        ({
            let e = merged_bounds_spec(Seq::empty());
            &&& e.min_x.bits == 0x7fef_ffff_ffff_ffff && e.max_x.bits == 0xffef_ffff_ffff_ffff
            &&& e.min_y.bits == 0x7fef_ffff_ffff_ffff && e.max_y.bits == 0xffef_ffff_ffff_ffff
            &&& e.min_z.bits == 0x7fef_ffff_ffff_ffff && e.max_z.bits == 0xffef_ffff_ffff_ffff
        }),
        ({
            let b = merged_bounds_spec(results);
            let c = merged_bounds_spec(results.push(one));
            let o = one.bounds;
            &&& c.min_x == if o.min_x.lt_spec(b.min_x) { o.min_x } else { b.min_x }
            &&& c.min_y == if o.min_y.lt_spec(b.min_y) { o.min_y } else { b.min_y }
            &&& c.min_z == if o.min_z.lt_spec(b.min_z) { o.min_z } else { b.min_z }
            &&& c.max_x == if b.max_x.lt_spec(o.max_x) { o.max_x } else { b.max_x }
            &&& c.max_y == if b.max_y.lt_spec(o.max_y) { o.max_y } else { b.max_y }
            &&& c.max_z == if b.max_z.lt_spec(o.max_z) { o.max_z } else { b.max_z }
        }),
{
    assert(results.push(one).drop_last() =~= results);
    merged_is_tight(merged_bounds_spec(results), one.bounds);
}

/// The transforms of the output are those of the first file; without one, the scale is the
/// double nearest to a thousandth and the offset zero along every axis.
pub proof fn first_file_gives_transforms(first: FileScan, rest: Seq<FileScan>)
    ensures
        first_transforms(seq![first] + rest) == first.transforms,
        ({
            let t = first_transforms(Seq::empty());
            &&& t.scale_x.bits == 0x3f50_624d_d2f1_a9fc && t.offset_x.bits == 0
            &&& t.scale_y.bits == 0x3f50_624d_d2f1_a9fc && t.offset_y.bits == 0
            &&& t.scale_z.bits == 0x3f50_624d_d2f1_a9fc && t.offset_z.bits == 0
        }),
{
}

} // verus!
