//! Keys of the octree's voxels and the names of their temporary files.
use crate::text::{
    append_i32, chars_of, decimal, lemma_parse_decimal, lemma_split_join, lemma_split_plain,
    parse_i32, parse_i32_spec, split, split_on,
};
use vstd::arithmetic::power2::{lemma_pow2_unfold, pow2};
use vstd::prelude::*;
use vstd::string::*;

verus! {

/// A voxel of the octree: its level below the root and its place in the grid
/// of that level.
#[derive(Debug, Clone, Copy, PartialEq, Eq, Hash, Structural)]
pub struct VoxelKey {
    pub level: i32,
    pub x: i32,
    pub y: i32,
    pub z: i32,
}

/// The deepest level whose voxels still have children in range.
pub const MAX_PARENT_LEVEL: i32 = 30;

impl VoxelKey {
    /// The voxel that covers the whole cube.
    pub open spec fn root_spec() -> VoxelKey {
        VoxelKey { level: 0, x: 0, y: 0, z: 0 }
    }

    /// Whether the key names a voxel of its level's grid, which has
    /// `2^level` cells along each axis.
    pub open spec fn in_grid(self) -> bool {
        &&& 0 <= self.level
        &&& 0 <= self.x < pow2(self.level as nat)
        &&& 0 <= self.y < pow2(self.level as nat)
        &&& 0 <= self.z < pow2(self.level as nat)
    }

    /// Whether the children of this voxel can be written as keys.
    pub open spec fn can_split(self) -> bool {
        &&& self.level < i32::MAX
        &&& -0x4000_0000 <= self.x < 0x4000_0000
        &&& -0x4000_0000 <= self.y < 0x4000_0000
        &&& -0x4000_0000 <= self.z < 0x4000_0000
    }

    /// The half of this voxel's span that each flag picks along its axis,
    /// `true` for the upper one.
    pub open spec fn child_spec(self, x: bool, y: bool, z: bool) -> VoxelKey {
        VoxelKey {
            level: (self.level + 1) as i32,
            x: (self.x * 2 + if x { 1int } else { 0 }) as i32,
            y: (self.y * 2 + if y { 1int } else { 0 }) as i32,
            z: (self.z * 2 + if z { 1int } else { 0 }) as i32,
        }
    }

    /// The `i`-th of the eight children: x varies fastest, then y, then z.
    pub open spec fn nth_child(self, i: int) -> VoxelKey {
        self.child_spec(i % 2 == 1, (i / 2) % 2 == 1, (i / 4) % 2 == 1)
    }

    /// All eight children in order.
    pub open spec fn children_spec(self) -> Seq<VoxelKey> {
        Seq::new(8, |i: int| self.nth_child(i))
    }

    /// The voxel one level up that contains this one; the root has none.
    pub open spec fn parent_spec(self) -> Option<VoxelKey> {
        if self.level <= 0 {
            None
        } else {
            Some(
                VoxelKey {
                    level: (self.level - 1) as i32,
                    x: (self.x as int / 2) as i32,
                    y: (self.y as int / 2) as i32,
                    z: (self.z as int / 2) as i32,
                },
            )
        }
    }

    /// A number that identifies the key.
    pub open spec fn id_spec(self) -> nat {
        ((((self.level + 0x8000_0000) * 0x1_0000_0000 + (self.x + 0x8000_0000)) * 0x1_0000_0000 + (
        self.y + 0x8000_0000)) * 0x1_0000_0000 + (self.z + 0x8000_0000)) as nat
    }

    pub fn root() -> (r: VoxelKey)
        ensures
            r == VoxelKey::root_spec(),
            r.level == 0 && r.x == 0 && r.y == 0 && r.z == 0,
    {
        VoxelKey { level: 0, x: 0, y: 0, z: 0 }
    }

    pub fn child(&self, x: bool, y: bool, z: bool) -> (r: VoxelKey)
        requires
            self.can_split(),
        ensures
            r == self.child_spec(x, y, z),
            r.level == self.level + 1,
            r.x == 2 * self.x + if x { 1int } else { 0 },
            r.y == 2 * self.y + if y { 1int } else { 0 },
            r.z == 2 * self.z + if z { 1int } else { 0 },
    {
        VoxelKey {
            level: self.level + 1,
            x: if x {
                self.x * 2 + 1
            } else {
                self.x * 2
            },
            y: if y {
                self.y * 2 + 1
            } else {
                self.y * 2
            },
            z: if z {
                self.z * 2 + 1
            } else {
                self.z * 2
            },
        }
    }

    pub fn children(&self) -> (r: [VoxelKey; 8])
        requires
            self.can_split(),
        ensures
            r@ == self.children_spec(),
    {
        let r: [VoxelKey; 8] = [
            self.child(false, false, false),
            self.child(true, false, false),
            self.child(false, true, false),
            self.child(true, true, false),
            self.child(false, false, true),
            self.child(true, false, true),
            self.child(false, true, true),
            self.child(true, true, true),
        ];
        assert(r@ =~= self.children_spec());
        r
    }

    pub fn parent(&self) -> (r: Option<VoxelKey>)
        ensures
            r == self.parent_spec(),
            self.level <= 0 <==> r is None,
            r matches Some(p) ==> p.level == self.level - 1 && 2 * p.x <= self.x <= 2 * p.x + 1
                && 2 * p.y <= self.y <= 2 * p.y + 1 && 2 * p.z <= self.z <= 2 * p.z + 1,
    {
        if self.level <= 0 {
            None
        } else {
            Some(
                VoxelKey {
                    level: self.level - 1,
                    x: floor_half(self.x),
                    y: floor_half(self.y),
                    z: floor_half(self.z),
                },
            )
        }
    }

    /// The key packed into one integer, so that it can index a map.
    pub fn id(&self) -> (r: u128)
        ensures
            r == self.id_spec(),
    {
        let level: u128 = (self.level as i64 + 0x8000_0000) as u128;
        let x: u128 = (self.x as i64 + 0x8000_0000) as u128;
        let y: u128 = (self.y as i64 + 0x8000_0000) as u128;
        let z: u128 = (self.z as i64 + 0x8000_0000) as u128;
        ((level * 0x1_0000_0000 + x) * 0x1_0000_0000 + y) * 0x1_0000_0000 + z
    }
}

fn floor_half(v: i32) -> (r: i32)
    ensures
        r == v as int / 2,
{
    assert((v >> 1) as int * 2 <= v && v <= (v >> 1) as int * 2 + 1) by (bit_vector);
    v >> 1
}

/// The name of a node's temporary file: level, x, y and z in decimal, joined by
/// underscores.
pub open spec fn node_name_spec(key: VoxelKey) -> Seq<char> {
    ((decimal(key.level as int).push('_') + decimal(key.x as int)).push('_') + decimal(
        key.y as int,
    )).push('_') + decimal(key.z as int)
}

/// The key that a file name spells: four 32-bit integers joined by underscores.
pub open spec fn parse_node_name_spec(name: Seq<char>) -> Option<VoxelKey> {
    let parts = split_on(name, '_');
    if parts.len() == 4 {
        match (
            parse_i32_spec(parts[0]),
            parse_i32_spec(parts[1]),
            parse_i32_spec(parts[2]),
            parse_i32_spec(parts[3]),
        ) {
            (Some(level), Some(x), Some(y), Some(z)) => Some(VoxelKey { level, x, y, z }),
            _ => None,
        }
    } else {
        None
    }
}

pub fn node_name(key: &VoxelKey) -> (r: String)
    ensures
        r@ == node_name_spec(*key),
{
    let mut r = String::new();
    assert("_"@ =~= seq!['_']) by {
        reveal_strlit("_");
    }
    append_i32(&mut r, key.level);
    r.append("_");
    append_i32(&mut r, key.x);
    r.append("_");
    append_i32(&mut r, key.y);
    r.append("_");
    append_i32(&mut r, key.z);
    assert(r@ =~= node_name_spec(*key));
    r
}

pub fn parse_node_name(name: &str) -> (r: Option<VoxelKey>)
    ensures
        r == parse_node_name_spec(name@),
{
    let chars = chars_of(name);
    let parts = split(&chars, '_');
    if parts.len() != 4 {
        return None;
    }
    assert(parts[0]@ == split_on(name@, '_')[0]);
    assert(parts[1]@ == split_on(name@, '_')[1]);
    assert(parts[2]@ == split_on(name@, '_')[2]);
    assert(parts[3]@ == split_on(name@, '_')[3]);
    match (parse_i32(&parts[0]), parse_i32(&parts[1]), parse_i32(&parts[2]), parse_i32(&parts[3])) {
        (Some(level), Some(x), Some(y), Some(z)) => Some(VoxelKey { level, x, y, z }),
        _ => None,
    }
}

/// A file name spells the key that it was made from.
pub proof fn node_name_round_trip(key: VoxelKey)
    ensures
        parse_node_name_spec(node_name_spec(key)) == Some(key),
{
    lemma_parse_decimal(key.level);
    lemma_parse_decimal(key.x);
    lemma_parse_decimal(key.y);
    lemma_parse_decimal(key.z);
    let a = decimal(key.level as int);
    let b = a.push('_') + decimal(key.x as int);
    let c = b.push('_') + decimal(key.y as int);
    lemma_split_plain(a, '_');
    lemma_split_join(a, '_', decimal(key.x as int));
    lemma_split_join(b, '_', decimal(key.y as int));
    lemma_split_join(c, '_', decimal(key.z as int));
}

/// Different nodes never share a temporary file.
pub proof fn node_names_distinct(a: VoxelKey, b: VoxelKey)
    requires
        node_name_spec(a) == node_name_spec(b),
    ensures
        a == b,
{
    node_name_round_trip(a);
    node_name_round_trip(b);
}

/// Different keys have different identifying numbers.
pub proof fn id_identifies(a: VoxelKey, b: VoxelKey)
    requires
        a.id_spec() == b.id_spec(),
    ensures
        a == b,
{
}

/// Every child of a voxel has that voxel as its parent.
pub proof fn parent_of_child(key: VoxelKey, x: bool, y: bool, z: bool)
    requires
        key.can_split(),
        key.level >= 0,
    ensures
        key.child_spec(x, y, z).parent_spec() == Some(key),
{
}

/// Every voxel below the root is one of the eight children of its parent.
pub proof fn child_of_parent(key: VoxelKey)
    requires
        key.level > 0,
    ensures
        key.parent_spec() is Some,
        key.parent_spec()->0.can_split(),
        key.parent_spec()->0.child_spec(key.x % 2 == 1, key.y % 2 == 1, key.z % 2 == 1) == key,
        key.parent_spec()->0.children_spec().contains(key),
{
    let p = key.parent_spec()->0;
    let i = (key.x as int % 2) + 2 * (key.y as int % 2) + 4 * (key.z as int % 2);
    assert(p.children_spec()[i] == key);
}

/// The eight children of a voxel are pairwise different.
pub proof fn children_distinct(key: VoxelKey)
    requires
        key.can_split(),
    ensures
        key.children_spec().no_duplicates(),
{
    assert forall|i: int, j: int| 0 <= i < 8 && 0 <= j < 8 && i != j implies key.nth_child(i)
        != key.nth_child(j) by {
        let a = key.nth_child(i);
        let b = key.nth_child(j);
        assert(i == i % 2 + 2 * ((i / 2) % 2) + 4 * ((i / 4) % 2));
        assert(j == j % 2 + 2 * ((j / 2) % 2) + 4 * ((j / 4) % 2));
    }
}

/// The children of a voxel in its level's grid lie in the next level's grid, and
/// the parent in the previous one's.
pub proof fn grid_steps(key: VoxelKey, x: bool, y: bool, z: bool)
    requires
        key.in_grid(),
    ensures
        key.can_split() ==> key.child_spec(x, y, z).in_grid(),
        key.level > 0 ==> key.parent_spec()->0.in_grid(),
{
    lemma_pow2_unfold((key.level + 1) as nat);
    if key.level > 0 {
        lemma_pow2_unfold(key.level as nat);
    }
}

/// A node's name is its level and its places along x, y and z, in decimal, with an underscore
/// between each two.
pub proof fn node_name_parts(key: VoxelKey)
    ensures
        split_on(node_name_spec(key), '_') == seq![
            decimal(key.level as int),
            decimal(key.x as int),
            decimal(key.y as int),
            decimal(key.z as int),
        ],
{
    lemma_parse_decimal(key.level);
    lemma_parse_decimal(key.x);
    lemma_parse_decimal(key.y);
    lemma_parse_decimal(key.z);
    let a = decimal(key.level as int);
    let b = a.push('_') + decimal(key.x as int);
    let c = b.push('_') + decimal(key.y as int);
    lemma_split_plain(a, '_');
    lemma_split_join(a, '_', decimal(key.x as int));
    lemma_split_join(b, '_', decimal(key.y as int));
    lemma_split_join(c, '_', decimal(key.z as int));
    assert(split_on(node_name_spec(key), '_') =~= seq![
        decimal(key.level as int),
        decimal(key.x as int),
        decimal(key.y as int),
        decimal(key.z as int),
    ]);
}

/// A name spells a key exactly if it consists of four numbers with an underscore between each
/// two: the level and the places along x, y and z.
pub proof fn names_spell_keys(
    level: Seq<char>,
    x: Seq<char>,
    y: Seq<char>,
    z: Seq<char>,
    other: Seq<char>,
)
    requires
        !level.contains('_') && !x.contains('_') && !y.contains('_') && !z.contains('_'),
        split_on(other, '_').len() != 4,
    ensures
        ({
            let name = level.push('_') + x.push('_') + y.push('_') + z;
            let numbers = (
                parse_i32_spec(level),
                parse_i32_spec(x),
                parse_i32_spec(y),
                parse_i32_spec(z),
            );
            &&& numbers.0 is None || numbers.1 is None || numbers.2 is None || numbers.3 is None
                <==> parse_node_name_spec(name) is None
            &&& parse_node_name_spec(name) matches Some(key) ==> {
                &&& numbers.0 == Some(key.level)
                &&& numbers.1 == Some(key.x)
                &&& numbers.2 == Some(key.y)
                &&& numbers.3 == Some(key.z)
            }
        }),
        parse_node_name_spec(other) is None,
{
    let name = level.push('_') + x.push('_') + y.push('_') + z;
    let b = level.push('_') + x;
    let c = b.push('_') + y;
    lemma_split_plain(level, '_');
    lemma_split_join(level, '_', x);
    lemma_split_join(b, '_', y);
    lemma_split_join(c, '_', z);
    assert(name =~= c.push('_') + z);
}

/// The eight children lie one level down, in the two halves of the voxel's place along each
/// axis; among them x counts one, y two and z four.
pub proof fn children_places(key: VoxelKey, i: int)
    requires
        key.can_split(),
        0 <= i < 8,
    ensures
        key.children_spec().len() == 8,
        ({
            let c = key.children_spec()[i];
            let (dx, dy, dz) = (c.x - 2 * key.x, c.y - 2 * key.y, c.z - 2 * key.z);
            &&& c.level == key.level + 1
            &&& 0 <= dx <= 1 && 0 <= dy <= 1 && 0 <= dz <= 1
            &&& dx + 2 * dy + 4 * dz == i
        }),
{
    assert(i == i % 2 + 2 * ((i / 2) % 2) + 4 * ((i / 4) % 2));
}

/// A child lies one level down, at twice the voxel's place along each axis, and one further for
/// the upper half; the parent lies one level up, at half the place, without a fraction. The
/// root and keys above it have no parent.
pub proof fn neighbouring_levels(key: VoxelKey, x: bool, y: bool, z: bool)
    ensures
        key.can_split() ==> {
            let c = key.child_spec(x, y, z);
            &&& c.level == key.level + 1
            &&& c.x == 2 * key.x + if x { 1int } else { 0 }
            &&& c.y == 2 * key.y + if y { 1int } else { 0 }
            &&& c.z == 2 * key.z + if z { 1int } else { 0 }
        },
        key.level <= 0 <==> key.parent_spec() is None,
        key.parent_spec() matches Some(p) ==> {
            &&& p.level == key.level - 1
            &&& 2 * p.x <= key.x <= 2 * p.x + 1
            &&& 2 * p.y <= key.y <= 2 * p.y + 1
            &&& 2 * p.z <= key.z <= 2 * p.z + 1
        },
        key.level < 30 && -0x4000_0000 <= key.x < 0x4000_0000 && -0x4000_0000 <= key.y
            < 0x4000_0000 && -0x4000_0000 <= key.z < 0x4000_0000 ==> key.can_split(),
{
}

} // verus!
