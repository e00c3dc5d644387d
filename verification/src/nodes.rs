//! The nodes of the octree, built bottom-up from the leaves.
use crate::distribute::{accounted, leaf_file_holds_its_points, no_files, points_of, LeafBuffers};
use crate::hierarchy::{
    distinct_nodes, has_child, is_tree, lemma_listed_entry, levels_in_range, listed,
    shallow_nodes_are_in_range,
};
use crate::key_index::KeyIndex;
use crate::octree::{total_points_spec, FileScan, OctreeBuilder, MAX_NODE_POINTS};
use crate::point::{decoded_points, encoded_points, node_file_gives_back_points, RawPoint};
use crate::voxel::{grid_steps, VoxelKey, MAX_PARENT_LEVEL};
use vstd::prelude::*;

verus! {

/// Every `len / max_count`-th element, `max_count` of them; all of them where there
/// are no more.
pub open spec fn thinned(pts: Seq<RawPoint>, max_count: nat) -> Seq<RawPoint> {
    if pts.len() <= max_count {
        pts
    } else {
        Seq::new(max_count, |i: int| pts[i * (pts.len() / max_count) as int])
    }
}

proof fn lemma_step(len: nat, max_count: nat)
    requires
        0 < max_count < len,
    ensures
        len / max_count >= 1,
        max_count * (len / max_count) <= len,
{
    let step = len / max_count;
    vstd::arithmetic::div_mod::lemma_fundamental_div_mod(len as int, max_count as int);
    if step == 0 {
        assert(max_count * step == 0) by (nonlinear_arith)
            requires
                step == 0,
        ;
    }
}

proof fn lemma_stride(len: nat, max_count: nat, i: nat)
    requires
        0 < max_count < len,
        i < max_count,
    ensures
        0 <= i * (len / max_count) < len,
{
    let step = len / max_count;
    lemma_step(len, max_count);
    assert(0 <= i * step < len) by (nonlinear_arith)
        requires
            max_count * step <= len,
            0 <= i < max_count,
            step >= 1,
    ;
}

/// Sub-sample a point vector to at most `max_count` points using
/// a simple stride-based approach (deterministic, fast).
pub fn thin_sample(pts: &Vec<RawPoint>, max_count: usize) -> (r: Vec<RawPoint>)
    requires
        max_count > 0 || pts.len() == 0,
    ensures
        r@ == thinned(pts@, max_count as nat),
        pts.len() <= max_count ==> r@ == pts@,
        pts.len() > max_count ==> r.len() == max_count && forall|i: int|
            0 <= i < max_count ==> #[trigger] r[i] == pts[i * (pts.len() as int
                / max_count as int)],
{
    let keep_all: bool = pts.len() <= max_count;
    let step: usize = if keep_all {
        1
    } else {
        pts.len() / max_count
    };
    let count: usize = if keep_all {
        pts.len()
    } else {
        max_count
    };
    let mut r: Vec<RawPoint> = Vec::new();
    let mut i: usize = 0;
    while i < count
        invariant
            0 <= i <= count,
            r@.len() == i,
            r@ == thinned(pts@, max_count as nat).take(i as int),
            thinned(pts@, max_count as nat).len() == count,
            keep_all == (pts.len() <= max_count),
            keep_all ==> step == 1,
            !keep_all ==> step == pts.len() / max_count && 0 < max_count < pts.len() && count
                == max_count,
        decreases count - i,
    {
        proof {
            if !keep_all {
                lemma_stride(pts@.len(), max_count as nat, i as nat);
            }
        }
        r.push(pts[i * step]);
        i = i + 1;
        assert(r@ =~= thinned(pts@, max_count as nat).take(i as int));
    }
    assert(r@ =~= thinned(pts@, max_count as nat));
    r
}

/// A sample is as large as asked for where there is enough to sample from, holds
/// sampled points only, and keeps the first.
pub proof fn sample_of_points(pts: Seq<RawPoint>, max_count: nat)
    requires
        max_count > 0,
    ensures
        thinned(pts, max_count).len() == (if pts.len() <= max_count {
            pts.len()
        } else {
            max_count
        }),
        pts.len() > 0 ==> thinned(pts, max_count)[0] == pts[0],
        forall|i: int|
            0 <= i < thinned(pts, max_count).len() ==> pts.contains(
                #[trigger] thinned(pts, max_count)[i],
            ),
{
    let t = thinned(pts, max_count);
    let step = pts.len() / max_count;
    if pts.len() > max_count {
        assert(0 * step as int == 0);
    }
    assert forall|i: int| 0 <= i < t.len() implies pts.contains(#[trigger] t[i]) by {
        if pts.len() > max_count {
            lemma_stride(pts.len(), max_count, i as nat);
            assert(t[i] == pts[i * step as int]);
        }
    }
}

/// Of two points of a sample, the one that comes first also comes first among the
/// points that were sampled.
pub proof fn sample_keeps_order(pts: Seq<RawPoint>, max_count: nat, i: int, j: int)
    requires
        max_count > 0,
        0 <= i < j < thinned(pts, max_count).len(),
    ensures
        exists|a: int, b: int|
            0 <= a < b < pts.len() && #[trigger] pts[a] == thinned(pts, max_count)[i]
                && #[trigger] pts[b] == thinned(pts, max_count)[j],
{
    let t = thinned(pts, max_count);
    if pts.len() > max_count {
        let step = pts.len() / max_count;
        let a = i * step as int;
        let b = j * step as int;
        lemma_step(pts.len(), max_count);
        lemma_stride(pts.len(), max_count, i as nat);
        lemma_stride(pts.len(), max_count, j as nat);
        assert(a < b) by (nonlinear_arith)
            requires
                a == i * step,
                b == j * step,
                i < j,
                step >= 1,
        ;
        assert(pts[a] == t[i] && pts[b] == t[j]);
    } else {
        assert(pts[i] == t[i] && pts[j] == t[j]);
    }
}

/// The samples of all children, one after the other.
pub open spec fn child_samples(children: Seq<Vec<RawPoint>>) -> Seq<RawPoint>
    decreases children.len(),
{
    if children.len() == 0 {
        Seq::empty()
    } else {
        child_samples(children.drop_last()) + thinned(
            children.last()@,
            (MAX_NODE_POINTS / 8) as nat,
        )
    }
}

/// The points of a parent node: an eighth of its limit from each child, within its limit.
pub open spec fn parent_points_spec(children: Seq<Vec<RawPoint>>) -> Seq<RawPoint> {
    thinned(child_samples(children), MAX_NODE_POINTS as nat)
}

/// The sampled points of a parent node, from the points of its children.
pub fn parent_points(children: &Vec<Vec<RawPoint>>) -> (r: Vec<RawPoint>)
    ensures
        r@ == parent_points_spec(children@),
        r.len() <= MAX_NODE_POINTS,
{
    let mut all: Vec<RawPoint> = Vec::new();
    let mut i: usize = 0;
    assert(children@.take(0) =~= Seq::empty());
    while i < children.len()
        invariant
            0 <= i <= children.len(),
            all@ == child_samples(children@.take(i as int)),
        decreases children.len() - i,
    {
        assert(children@.take(i + 1).drop_last() =~= children@.take(i as int));
        let mut sample: Vec<RawPoint> = thin_sample(&children[i], MAX_NODE_POINTS / 8);
        all.append(&mut sample);
        i = i + 1;
    }
    assert(children@.take(children.len() as int) =~= children@);
    thin_sample(&all, MAX_NODE_POINTS)
}

/// A parent has points exactly if one of its children has.
pub proof fn overview_empty_only_without_points(children: Seq<Vec<RawPoint>>)
    ensures
        parent_points_spec(children).len() > 0 <==> exists|i: int|
            0 <= i < children.len() && (#[trigger] children[i])@.len() > 0,
{
    lemma_samples_nonempty(children);
}

proof fn lemma_samples_nonempty(children: Seq<Vec<RawPoint>>)
    ensures
        child_samples(children).len() > 0 <==> exists|i: int|
            0 <= i < children.len() && (#[trigger] children[i])@.len() > 0,
    decreases children.len(),
{
    if children.len() > 0 {
        let h = children.drop_last();
        lemma_samples_nonempty(h);
        if exists|i: int| 0 <= i < h.len() && (#[trigger] h[i])@.len() > 0 {
            let i = choose|i: int| 0 <= i < h.len() && (#[trigger] h[i])@.len() > 0;
            assert(children[i]@.len() > 0);
        }
        if exists|i: int| 0 <= i < children.len() && (#[trigger] children[i])@.len() > 0 {
            let i = choose|i: int| 0 <= i < children.len() && (#[trigger] children[i])@.len() > 0;
            if i < h.len() {
                assert(h[i]@.len() > 0);
            }
        }
        assert(children[children.len() - 1] == children.last());
    }
}

/// Every point of a parent is a point of one of its children.
pub proof fn overview_points_come_from_children(children: Seq<Vec<RawPoint>>, p: RawPoint)
    requires
        parent_points_spec(children).contains(p),
    ensures
        exists|i: int| 0 <= i < children.len() && (#[trigger] children[i])@.contains(p),
{
    let s = child_samples(children);
    sample_of_points(s, MAX_NODE_POINTS as nat);
    let j = parent_points_spec(children).index_of(p);
    assert(s.contains(parent_points_spec(children)[j]));
    lemma_samples_from_children(children, p);
}

proof fn lemma_samples_from_children(children: Seq<Vec<RawPoint>>, p: RawPoint)
    requires
        child_samples(children).contains(p),
    ensures
        exists|i: int| 0 <= i < children.len() && (#[trigger] children[i])@.contains(p),
    decreases children.len(),
{
    let s = child_samples(children);
    let h = children.drop_last();
    let a = child_samples(h);
    let b = thinned(children.last()@, (MAX_NODE_POINTS / 8) as nat);
    let j = s.index_of(p);
    if j < a.len() {
        assert(a[j] == p);
        lemma_samples_from_children(h, p);
        let i = choose|i: int| 0 <= i < h.len() && (#[trigger] h[i])@.contains(p);
        assert(children[i]@.contains(p));
    } else {
        assert(b[j - a.len()] == p);
        sample_of_points(children.last()@, (MAX_NODE_POINTS / 8) as nat);
        assert(children[children.len() - 1]@.contains(p));
    }
}

/// With at most eight children, a parent keeps every child's whole sample.
pub proof fn eight_children_keep_their_samples(children: Seq<Vec<RawPoint>>)
    requires
        children.len() <= 8,
    ensures
        parent_points_spec(children) == child_samples(children),
{
    lemma_samples_bound(children);
    assert(children.len() * 8_192 <= 65_536);
}

proof fn lemma_samples_bound(children: Seq<Vec<RawPoint>>)
    ensures
        child_samples(children).len() <= children.len() * 8_192,
    decreases children.len(),
{
    if children.len() > 0 {
        lemma_samples_bound(children.drop_last());
    }
}

proof fn lemma_child_part(children: Seq<Vec<RawPoint>>, c: int, i: int)
    requires
        0 <= c < children.len(),
        0 <= i < thinned(children[c]@, 8_192).len(),
    ensures
        child_samples(children.take(c)).len() + i < child_samples(children).len(),
        child_samples(children)[child_samples(children.take(c)).len() + i] == thinned(
            children[c]@,
            8_192,
        )[i],
    decreases children.len(),
{
    let h = children.drop_last();
    if c == h.len() {
        assert(children.take(c) =~= h);
    } else {
        assert(h.take(c) =~= children.take(c));
        assert(h[c] == children[c]);
        lemma_child_part(h, c, i);
    }
}

/// What a parent holds of its children. The children's parts follow one another, child `c`'s
/// from `starts[c]` on. A child with at most 8192 points gives them all, a larger one 8192
/// points at equal distances, from its first on. Where the parts hold more than 65536 points
/// together, the parent has 65536 of these, again at equal distances from the first on; with
/// at most eight children it has them all.
pub proof fn overview_of_children(children: Seq<Vec<RawPoint>>) -> (starts: Seq<nat>)
    ensures
        starts.len() == children.len() + 1,
        starts[0] == 0,
        forall|c: int|
            0 <= c < children.len() ==> #[trigger] starts[c + 1] == starts[c] + (
            if children[c]@.len() <= 8_192 {
                children[c]@.len()
            } else {
                8_192
            }),
        children.len() <= 8 ==> starts.last() <= 65_536,
        ({
            let parent = parent_points_spec(children);
            let step = if starts.last() <= 65_536 {
                1
            } else {
                starts.last() as int / 65_536
            };
            &&& parent.len() == (if starts.last() <= 65_536 {
                starts.last()
            } else {
                65_536
            })
            &&& forall|c: int, j: int|
                #![trigger children[c], parent[j]]
                0 <= c < children.len() && 0 <= j < parent.len() && starts[c] <= j * step
                    < starts[c + 1] ==> {
                    let i = j * step - starts[c];
                    parent[j] == children[c]@[if children[c]@.len() <= 8_192 {
                        i
                    } else {
                        i * (children[c]@.len() as int / 8_192)
                    }]
                }
        }),
{
    let n = children.len() as int;
    let starts = Seq::new(children.len() + 1, |c: int| child_samples(children.take(c)).len());
    let all = child_samples(children);
    let parent = parent_points_spec(children);
    assert(children.take(0) =~= Seq::empty());
    assert(children.take(n) =~= children);
    assert forall|c: int| 0 <= c < children.len() implies #[trigger] starts[c + 1] == starts[c] + (
    if children[c]@.len() <= 8_192 {
        children[c]@.len()
    } else {
        8_192
    }) by {
        assert(children.take(c + 1).drop_last() =~= children.take(c));
    }
    if n <= 8 {
        lemma_samples_bound(children);
        assert(children.len() * 8_192 <= 65_536);
    }
    let step = if starts.last() <= 65_536 {
        1
    } else {
        starts.last() as int / 65_536
    };
    assert forall|c: int, j: int|
        #![trigger children[c], parent[j]]
        0 <= c < children.len() && 0 <= j < parent.len() && starts[c] <= j * step < starts[c
            + 1] implies {
        let i = j * step - starts[c];
        parent[j] == children[c]@[if children[c]@.len() <= 8_192 {
            i
        } else {
            i * (children[c]@.len() as int / 8_192)
        }]
    } by {
        let i = j * step - starts[c];
        lemma_child_part(children, c, i);
        assert(parent[j] == all[starts[c] + i]);
    }
    starts
}

/// A leaf's temporary file.
#[derive(Debug, Clone, Copy, PartialEq, Eq, Structural)]
pub struct LeafFile {
    pub key: VoxelKey,
    /// Length in bytes.
    pub len: u64,
}

/// The leaves that hold whole points, with their point counts.
pub open spec fn leaf_nodes(leaves: Seq<LeafFile>) -> Seq<(VoxelKey, usize)>
    decreases leaves.len(),
{
    if leaves.len() == 0 {
        Seq::empty()
    } else {
        let head = leaf_nodes(leaves.drop_last());
        let leaf = leaves.last();
        let count = leaf.len as usize / RawPoint::BYTE_SIZE;
        if count > 0 {
            head.push((leaf.key, count))
        } else {
            head
        }
    }
}

/// The leaves whose files are not empty.
pub open spec fn filled_leaves(leaves: Seq<LeafFile>) -> Seq<VoxelKey>
    decreases leaves.len(),
{
    if leaves.len() == 0 {
        Seq::empty()
    } else {
        let head = filled_leaves(leaves.drop_last());
        if leaves.last().len > 0 {
            head.push(leaves.last().key)
        } else {
            head
        }
    }
}

/// The nodes that have points, of new nodes with their point counts.
pub open spec fn with_points(nodes: Seq<(VoxelKey, usize)>) -> Seq<(VoxelKey, usize)>
    decreases nodes.len(),
{
    if nodes.len() == 0 {
        Seq::empty()
    } else {
        let head = with_points(nodes.drop_last());
        if nodes.last().1 > 0 {
            head.push(nodes.last())
        } else {
            head
        }
    }
}

/// The keys of nodes.
pub open spec fn keys_of(nodes: Seq<(VoxelKey, usize)>) -> Seq<VoxelKey> {
    Seq::new(nodes.len(), |i: int| nodes[i].0)
}

/// A node to be built, with the children that it is built from.
#[derive(Debug)]
pub struct Family {
    pub parent: VoxelKey,
    pub children: Vec<VoxelKey>,
}

/// Whether `key` lies one level below `level` and has `parent` as its parent.
pub open spec fn is_child(key: VoxelKey, parent: VoxelKey, level: nat) -> bool {
    key.level == level + 1 && key.parent_spec() == Some(parent)
}

/// The children of `parent` among `keys`, in the order of `keys`.
pub open spec fn children_among(keys: Seq<VoxelKey>, parent: VoxelKey, level: nat) -> Seq<VoxelKey>
    decreases keys.len(),
{
    if keys.len() == 0 {
        Seq::empty()
    } else {
        let head = children_among(keys.drop_last(), parent, level);
        if is_child(keys.last(), parent, level) {
            head.push(keys.last())
        } else {
            head
        }
    }
}

/// Whether `families` groups the keys one level below `level` by their parents: each
/// parent occurs once, with all its children.
pub open spec fn groups(families: Seq<Family>, keys: Seq<VoxelKey>, level: nat) -> bool {
    &&& forall|i: int, j: int|
        0 <= i < families.len() && 0 <= j < families.len() && i != j ==> (#[trigger]
        families[i]).parent != (#[trigger] families[j]).parent
    &&& forall|i: int|
        0 <= i < families.len() ==> (#[trigger] families[i]).children@ == children_among(
            keys,
            families[i].parent,
            level,
        ) && families[i].children@.len() > 0
    &&& forall|p: VoxelKey| #[trigger]
        children_among(keys, p, level).len() > 0 ==> exists|i: int|
            0 <= i < families.len() && (#[trigger] families[i]).parent == p
}

/// The nodes found so far while the tree is built from the leaves up.
#[derive(Debug)]
pub struct NodeMap {
    /// All nodes with their point counts.
    pub nodes: Vec<(VoxelKey, usize)>,
    /// The keys that the next level up is built from.
    pub current: Vec<VoxelKey>,
    /// The level that was built last.
    pub level: u32,
}

impl OctreeBuilder {
    /// Starts the map of all nodes with the leaves, from the lengths of their files.
    pub fn build_node_map(&self, leaves: &Vec<LeafFile>) -> (r: NodeMap)
        ensures
            r.nodes@ == leaf_nodes(leaves@),
            r.current@ == filled_leaves(leaves@),
            r.level == self.depth,
    {
        let mut nodes: Vec<(VoxelKey, usize)> = Vec::new();
        let mut current: Vec<VoxelKey> = Vec::new();
        let mut i: usize = 0;
        assert(leaves@.take(0) =~= Seq::empty());
        while i < leaves.len()
            invariant
                0 <= i <= leaves.len(),
                nodes@ == leaf_nodes(leaves@.take(i as int)),
                current@ == filled_leaves(leaves@.take(i as int)),
            decreases leaves.len() - i,
        {
            assert(leaves@.take(i + 1).drop_last() =~= leaves@.take(i as int));
            let leaf: LeafFile = leaves[i];
            let count: usize = leaf.len as usize / RawPoint::BYTE_SIZE;
            if count > 0 {
                nodes.push((leaf.key, count));
            }
            if leaf.len > 0 {
                current.push(leaf.key);
            }
            i = i + 1;
        }
        assert(leaves@.take(leaves.len() as int) =~= leaves@);
        NodeMap { nodes, current, level: self.depth }
    }
}

/// The parents of families.
spec fn parents(families: Seq<Family>) -> Seq<VoxelKey> {
    Seq::new(families.len(), |i: int| families[i].parent)
}

proof fn lemma_children_push(keys: Seq<VoxelKey>, key: VoxelKey, parent: VoxelKey, level: nat)
    ensures
        children_among(keys.push(key), parent, level) == (if is_child(key, parent, level) {
            children_among(keys, parent, level).push(key)
        } else {
            children_among(keys, parent, level)
        }),
{
    assert(keys.push(key).drop_last() =~= keys);
}

/// Groups the keys one level below `level` by their parents.
pub fn group_by_parent(keys: &Vec<VoxelKey>, level: u32) -> (r: Vec<Family>)
    requires
        level < i32::MAX,
    ensures
        groups(r@, keys@, level as nat),
{
    let mut families: Vec<Family> = Vec::new();
    let mut index = KeyIndex::new();
    let mut i: usize = 0;
    let ghost l = level as nat;
    assert(keys@.take(0) =~= Seq::empty());
    assert(index@ =~= parents(families@));
    while i < keys.len()
        invariant
            0 <= i <= keys.len(),
            level < i32::MAX,
            l == level as nat,
            index.wf(),
            index@ == parents(families@),
            groups(families@, keys@.take(i as int), l),
        decreases keys.len() - i,
    {
        let key: VoxelKey = keys[i];
        let ghost seen = keys@.take(i as int);
        let ghost before = families@;
        assert(keys@.take(i + 1) =~= seen.push(key));
        assert forall|p: VoxelKey| #[trigger]
            children_among(seen.push(key), p, l) == (if is_child(key, p, l) {
                children_among(seen, p, l).push(key)
            } else {
                children_among(seen, p, l)
            }) by {
            lemma_children_push(seen, key, p, l);
        }
        if key.level == level as i32 + 1 {
            let parent: VoxelKey = key.parent().unwrap();
            assert(forall|p: VoxelKey| is_child(key, p, l) <==> p == parent);
            match index.find(&parent) {
                Some(at) => {
                    families[at].children.push(key);
                    proof {
                        assert(before[at as int].parent == parent);
                        assert forall|j: int| 0 <= j < before.len() implies (
                        #[trigger] families@[j]).parent == before[j].parent && families@[j].children@
                            == (if j == at {
                            before[j].children@.push(key)
                        } else {
                            before[j].children@
                        }) by {}
                        lemma_extended(before, families@, seen, key, parent, l, at as int);
                        assert(parents(families@) =~= parents(before));
                    }
                },
                None => {
                    let mut children: Vec<VoxelKey> = Vec::new();
                    children.push(key);
                    index.push(parent, families.len());
                    families.push(Family { parent, children });
                    proof {
                        lemma_started(before, families@, seen, key, parent, l);
                        assert(parents(families@) =~= parents(before).push(parent));
                    }
                },
            }
        } else {
            assert(forall|p: VoxelKey| !is_child(key, p, l));
            assert(groups(families@, seen.push(key), l));
        }
        i = i + 1;
    }
    assert(keys@.take(keys.len() as int) =~= keys@);
    families
}

proof fn lemma_extended(
    before: Seq<Family>,
    after: Seq<Family>,
    seen: Seq<VoxelKey>,
    key: VoxelKey,
    parent: VoxelKey,
    level: nat,
    at: int,
)
    requires
        groups(before, seen, level),
        is_child(key, parent, level),
        0 <= at < before.len(),
        before[at].parent == parent,
        after.len() == before.len(),
        forall|j: int|
            0 <= j < before.len() ==> (#[trigger] after[j]).parent == before[j].parent
                && after[j].children@ == (if j == at {
                before[j].children@.push(key)
            } else {
                before[j].children@
            }),
    ensures
        groups(after, seen.push(key), level),
{
    assert forall|p: VoxelKey| #[trigger]
        children_among(seen.push(key), p, level) == (if is_child(key, p, level) {
            children_among(seen, p, level).push(key)
        } else {
            children_among(seen, p, level)
        }) by {
        lemma_children_push(seen, key, p, level);
    }
    assert forall|i: int, j: int| 0 <= i < after.len() && 0 <= j < after.len() && i != j implies (
    #[trigger] after[i]).parent != (#[trigger] after[j]).parent by {
        assert(before[i].parent != before[j].parent);
    }
    assert forall|i: int| 0 <= i < after.len() implies (#[trigger] after[i]).children@
        == children_among(seen.push(key), after[i].parent, level) && after[i].children@.len() > 0 by {
        assert(before[i].children@ == children_among(seen, before[i].parent, level));
        if i != at {
            assert(before[i].parent != before[at].parent);
        }
    }
    assert forall|p: VoxelKey| #[trigger]
        children_among(seen.push(key), p, level).len() > 0 implies exists|i: int|
        0 <= i < after.len() && (#[trigger] after[i]).parent == p by {
        if p == parent {
            assert(after[at].parent == p);
        } else {
            assert(children_among(seen, p, level).len() > 0);
            let i = choose|i: int| 0 <= i < before.len() && (#[trigger] before[i]).parent == p;
            assert(after[i].parent == p);
        }
    }
}

proof fn lemma_started(
    before: Seq<Family>,
    after: Seq<Family>,
    seen: Seq<VoxelKey>,
    key: VoxelKey,
    parent: VoxelKey,
    level: nat,
)
    requires
        groups(before, seen, level),
        is_child(key, parent, level),
        !parents(before).contains(parent),
        after.len() == before.len() + 1,
        forall|j: int| 0 <= j < before.len() ==> #[trigger] after[j] == before[j],
        after[before.len() as int].parent == parent,
        after[before.len() as int].children@ == seq![key],
    ensures
        groups(after, seen.push(key), level),
{
    let n = before.len() as int;
    assert forall|p: VoxelKey| #[trigger]
        children_among(seen.push(key), p, level) == (if is_child(key, p, level) {
            children_among(seen, p, level).push(key)
        } else {
            children_among(seen, p, level)
        }) by {
        lemma_children_push(seen, key, p, level);
    }
    assert(children_among(seen, parent, level).len() == 0) by {
        if children_among(seen, parent, level).len() > 0 {
            let i = choose|i: int| 0 <= i < before.len() && (#[trigger] before[i]).parent == parent;
            assert(parents(before)[i] == parent);
        }
    }
    assert(children_among(seen.push(key), parent, level) =~= seq![key]);
    assert forall|i: int| 0 <= i < n implies (#[trigger] before[i]).parent != parent by {
        assert(parents(before)[i] == before[i].parent);
    }
    assert forall|i: int, j: int| 0 <= i < after.len() && 0 <= j < after.len() && i != j implies (
    #[trigger] after[i]).parent != (#[trigger] after[j]).parent by {
        if i < n && j < n {
            assert(before[i].parent != before[j].parent);
        } else if i < n {
            assert(after[i] == before[i]);
        } else {
            assert(after[j] == before[j]);
        }
    }
    assert forall|i: int| 0 <= i < after.len() implies (#[trigger] after[i]).children@
        == children_among(seen.push(key), after[i].parent, level) && after[i].children@.len() > 0 by {
        if i < n {
            assert(after[i] == before[i]);
            assert(before[i].children@ == children_among(seen, before[i].parent, level));
        }
    }
    assert forall|p: VoxelKey| #[trigger]
        children_among(seen.push(key), p, level).len() > 0 implies exists|i: int|
        0 <= i < after.len() && (#[trigger] after[i]).parent == p by {
        if p == parent {
            assert(after[n].parent == p);
        } else {
            assert(children_among(seen, p, level).len() > 0);
            let i = choose|i: int| 0 <= i < before.len() && (#[trigger] before[i]).parent == p;
            assert(after[i] == before[i]);
        }
    }
}

impl NodeMap {
    /// The nodes of the next level up that have children.
    pub fn next_families(&self) -> (r: Vec<Family>)
        requires
            0 < self.level <= i32::MAX,
        ensures
            groups(r@, self.current@, (self.level - 1) as nat),
    {
        group_by_parent(&self.current, self.level - 1)
    }

    /// Takes in the nodes of the next level up with their point counts. Nodes without
    /// points are dropped; without new nodes the keys to build from stay the same.
    pub fn finish_level(&mut self, new_nodes: &Vec<(VoxelKey, usize)>)
        requires
            old(self).level > 0,
        ensures
            final(self).level == old(self).level - 1,
            final(self).nodes@ == old(self).nodes@ + with_points(new_nodes@),
            final(self).current@ == (if new_nodes.len() == 0 {
                old(self).current@
            } else {
                keys_of(with_points(new_nodes@))
            }),
    {
        let ghost start = self.nodes@;
        self.level = self.level - 1;
        if new_nodes.len() == 0 {
            assert(start + with_points(new_nodes@) =~= start);
            return ;
        }
        let mut current: Vec<VoxelKey> = Vec::new();
        let mut i: usize = 0;
        assert(new_nodes@.take(0) =~= Seq::empty());
        assert(current@ =~= keys_of(with_points(new_nodes@.take(0))));
        assert(start + with_points(new_nodes@.take(0)) =~= start);
        while i < new_nodes.len()
            invariant
                0 <= i <= new_nodes.len(),
                self.level == old(self).level - 1,
                self.nodes@ == start + with_points(new_nodes@.take(i as int)),
                current@ == keys_of(with_points(new_nodes@.take(i as int))),
            decreases new_nodes.len() - i,
        {
            assert(new_nodes@.take(i + 1).drop_last() =~= new_nodes@.take(i as int));
            let ghost kept = with_points(new_nodes@.take(i as int));
            let (key, count) = new_nodes[i];
            if count > 0 {
                self.nodes.push((key, count));
                current.push(key);
                assert(current@ =~= keys_of(kept.push((key, count))));
                assert(self.nodes@ =~= start + kept.push((key, count)));
            }
            i = i + 1;
        }
        assert(new_nodes@.take(new_nodes.len() as int) =~= new_nodes@);
        self.current = current;
    }
}

/// Whether the map of a tree of the given depth is closed up to `level`: all nodes lie in
/// the grids of the levels from `level` down to `depth`, those on `level` are the ones to
/// build from, and the parents of all deeper ones are nodes too; no two nodes are the same,
/// and every node above the leaves has a child among them.
pub open spec fn closed_up_to(
    nodes: Seq<(VoxelKey, usize)>,
    current: Seq<VoxelKey>,
    level: nat,
    depth: nat,
) -> bool {
    &&& forall|k: VoxelKey| #[trigger]
        listed(nodes, k) ==> {
            &&& k.in_grid()
            &&& level <= k.level <= depth
            &&& k.level == level ==> current.contains(k)
            &&& k.level > level ==> listed(nodes, k.parent_spec()->0)
        }
    &&& forall|i: int| 0 <= i < current.len() ==> (#[trigger] current[i]).in_grid()
        && current[i].level == level
    &&& distinct_nodes(nodes)
    &&& forall|k: VoxelKey|
        listed(nodes, k) && k.level < depth ==> #[trigger] has_child(nodes, k)
}

proof fn lemma_listed_concat(a: Seq<(VoxelKey, usize)>, b: Seq<(VoxelKey, usize)>, key: VoxelKey)
    ensures
        listed(a + b, key) <==> listed(a, key) || listed(b, key),
{
    lemma_listed_entry(a, key);
    lemma_listed_entry(b, key);
    lemma_listed_entry(a + b, key);
    let c = a + b;
    if listed(a, key) {
        let i = choose|i: int| 0 <= i < a.len() && (#[trigger] a[i]).0 == key;
        assert(c[i].0 == key);
    }
    if listed(b, key) {
        let i = choose|i: int| 0 <= i < b.len() && (#[trigger] b[i]).0 == key;
        assert(c[a.len() + i].0 == key);
    }
    if listed(c, key) {
        let i = choose|i: int| 0 <= i < c.len() && (#[trigger] c[i]).0 == key;
        if i < a.len() {
            assert(a[i].0 == key);
        } else {
            assert(b[i - a.len()].0 == key);
        }
    }
}

proof fn lemma_with_points(nodes: Seq<(VoxelKey, usize)>)
    ensures
        forall|i: int|
            0 <= i < nodes.len() && (#[trigger] nodes[i]).1 > 0 ==> with_points(nodes).contains(
                nodes[i],
            ),
        forall|i: int|
            0 <= i < with_points(nodes).len() ==> nodes.contains(#[trigger] with_points(nodes)[i])
                && with_points(nodes)[i].1 > 0,
    decreases nodes.len(),
{
    if nodes.len() > 0 {
        let h = nodes.drop_last();
        let w = with_points(nodes);
        let v = with_points(h);
        lemma_with_points(h);
        assert forall|i: int| 0 <= i < nodes.len() && (#[trigger] nodes[i]).1 > 0 implies w.contains(
            nodes[i],
        ) by {
            if i < h.len() {
                assert(h[i].1 > 0);
                let j = v.index_of(h[i]);
                assert(w[j] == nodes[i]);
            } else {
                assert(w[w.len() - 1] == nodes[i]);
            }
        }
        assert forall|i: int| 0 <= i < w.len() implies nodes.contains(#[trigger] w[i]) && w[i].1
            > 0 by {
            if i < v.len() {
                assert(w[i] == v[i]);
                let j = h.index_of(v[i]);
                assert(nodes[j] == v[i]);
            } else {
                assert(nodes[nodes.len() - 1] == w[i]);
            }
        }
    }
}

proof fn lemma_with_points_distinct(nodes: Seq<(VoxelKey, usize)>)
    requires
        distinct_nodes(nodes),
    ensures
        distinct_nodes(with_points(nodes)),
    decreases nodes.len(),
{
    if nodes.len() > 0 {
        let h = nodes.drop_last();
        let n = h.len() as int;
        let w = with_points(nodes);
        let v = with_points(h);
        assert forall|i: int, j: int| 0 <= i < j < h.len() implies (#[trigger] h[i]).0 != (
        #[trigger] h[j]).0 by {
            assert(nodes[i].0 != nodes[j].0);
        }
        lemma_with_points_distinct(h);
        lemma_with_points(h);
        assert forall|i: int, j: int| 0 <= i < j < w.len() implies (#[trigger] w[i]).0 != (
        #[trigger] w[j]).0 by {
            assert(w[i] == v[i]);
            if j < v.len() {
                assert(w[j] == v[j]);
            } else {
                assert(h.contains(v[i]));
                let m = h.index_of(v[i]);
                assert(nodes[m].0 != nodes[n].0);
            }
        }
    }
}

proof fn lemma_children_among(keys: Seq<VoxelKey>, parent: VoxelKey, level: nat)
    ensures
        forall|k: VoxelKey| #[trigger]
            children_among(keys, parent, level).contains(k) <==> keys.contains(k) && is_child(
                k,
                parent,
                level,
            ),
    decreases keys.len(),
{
    if keys.len() > 0 {
        let h = keys.drop_last();
        lemma_children_among(h, parent, level);
        let c = children_among(keys, parent, level);
        let b = children_among(h, parent, level);
        assert forall|k: VoxelKey| #[trigger] c.contains(k) <==> keys.contains(k) && is_child(
            k,
            parent,
            level,
        ) by {
            if keys.contains(k) {
                let i = keys.index_of(k);
                if i < h.len() {
                    assert(h[i] == k);
                }
            }
            if h.contains(k) {
                let i = h.index_of(k);
                assert(keys[i] == k);
            }
            if b.contains(k) {
                let i = b.index_of(k);
                assert(c[i] == k);
            }
            if c.contains(k) {
                let i = c.index_of(k);
                if i < b.len() {
                    assert(b[i] == k);
                }
            }
            assert(keys[keys.len() - 1] == keys.last());
            if is_child(keys.last(), parent, level) {
                assert(c[c.len() - 1] == keys.last());
            }
        }
    }
}

/// The leaves make a map that is closed up to the depth of the tree, where they all lie.
pub proof fn leaves_are_closed(leaves: Seq<LeafFile>, depth: nat)
    requires
        forall|i: int|
            0 <= i < leaves.len() ==> (#[trigger] leaves[i]).key.in_grid() && leaves[i].key.level
                == depth,
        distinct_leaves(leaves),
    ensures
        closed_up_to(leaf_nodes(leaves), filled_leaves(leaves), depth, depth),
{
    lemma_leaves(leaves, depth);
    lemma_leaf_nodes_distinct(leaves);
}

proof fn lemma_leaf_nodes_distinct(leaves: Seq<LeafFile>)
    requires
        distinct_leaves(leaves),
    ensures
        distinct_nodes(leaf_nodes(leaves)),
        forall|i: int|
            0 <= i < leaf_nodes(leaves).len() ==> has_leaf(
                leaves,
                (#[trigger] leaf_nodes(leaves)[i]).0,
            ),
    decreases leaves.len(),
{
    if leaves.len() > 0 {
        let h = leaves.drop_last();
        let last = h.len() as int;
        let n = leaf_nodes(leaves);
        let m = leaf_nodes(h);
        assert forall|i: int, j: int| 0 <= i < j < h.len() implies (#[trigger] h[i]).key != (
        #[trigger] h[j]).key by {
            assert(leaves[i].key != leaves[j].key);
        }
        lemma_leaf_nodes_distinct(h);
        assert forall|i: int| 0 <= i < n.len() implies has_leaf(leaves, (#[trigger] n[i]).0) by {
            if i < m.len() {
                assert(n[i] == m[i]);
                let j = choose|j: int| 0 <= j < h.len() && (#[trigger] h[j]).key == m[i].0;
                assert(leaves[j].key == n[i].0);
            } else {
                assert(leaves[last].key == n[i].0);
            }
        }
        assert forall|i: int, j: int| 0 <= i < j < n.len() implies (#[trigger] n[i]).0 != (
        #[trigger] n[j]).0 by {
            assert(n[i] == m[i]);
            if j < m.len() {
                assert(n[j] == m[j]);
            } else {
                let e = choose|e: int| 0 <= e < h.len() && (#[trigger] h[e]).key == m[i].0;
                assert(leaves[e].key != leaves[last].key);
            }
        }
    }
}

proof fn lemma_leaves(leaves: Seq<LeafFile>, depth: nat)
    requires
        forall|i: int|
            0 <= i < leaves.len() ==> (#[trigger] leaves[i]).key.in_grid() && leaves[i].key.level
                == depth,
    ensures
        forall|k: VoxelKey| #[trigger]
            listed(leaf_nodes(leaves), k) ==> k.in_grid() && k.level == depth && filled_leaves(
                leaves,
            ).contains(k),
        forall|i: int|
            0 <= i < filled_leaves(leaves).len() ==> (#[trigger] filled_leaves(
                leaves,
            )[i]).in_grid() && filled_leaves(leaves)[i].level == depth,
    decreases leaves.len(),
{
    if leaves.len() > 0 {
        let h = leaves.drop_last();
        assert forall|i: int| 0 <= i < h.len() implies (#[trigger] h[i]).key.in_grid()
            && h[i].key.level == depth by {
            assert(h[i] == leaves[i]);
        }
        lemma_leaves(h, depth);
        let leaf = leaves.last();
        assert(leaves[leaves.len() - 1] == leaf);
        let n = leaf_nodes(leaves);
        let m = leaf_nodes(h);
        let c = filled_leaves(leaves);
        let b = filled_leaves(h);
        let counted = leaf.len as usize / RawPoint::BYTE_SIZE > 0;
        assert(counted ==> leaf.len > 0);
        assert forall|k: VoxelKey| #[trigger] listed(n, k) implies k.in_grid() && k.level == depth
            && c.contains(k) by {
            if counted && k == leaf.key {
                assert(c[c.len() - 1] == k);
            } else {
                if counted {
                    assert(n.drop_last() =~= m);
                }
                assert(listed(m, k));
                let i = b.index_of(k);
                assert(c[i] == k);
            }
        }
        assert forall|i: int| 0 <= i < c.len() implies (#[trigger] c[i]).in_grid() && c[i].level
            == depth by {
            if i < b.len() {
                assert(c[i] == b[i]);
            }
        }
    }
}

/// Building one level keeps the map closed, provided that a new node gets points exactly if
/// one of its children has some.
pub proof fn level_keeps_map_closed(
    nodes: Seq<(VoxelKey, usize)>,
    current: Seq<VoxelKey>,
    level: nat,
    depth: nat,
    families: Seq<Family>,
    new_nodes: Seq<(VoxelKey, usize)>,
)
    requires
        closed_up_to(nodes, current, level, depth),
        0 < level <= depth,
        groups(families, current, (level - 1) as nat),
        new_nodes.len() == families.len(),
        forall|i: int|
            0 <= i < families.len() ==> (#[trigger] new_nodes[i]).0 == families[i].parent,
        forall|i: int|
            0 <= i < families.len() ==> ((#[trigger] new_nodes[i]).1 > 0 <==> exists|k: VoxelKey| #[trigger]
                families[i].children@.contains(k) && listed(nodes, k)),
    ensures
        closed_up_to(
            nodes + with_points(new_nodes),
            if new_nodes.len() == 0 {
                current
            } else {
                keys_of(with_points(new_nodes))
            },
            (level - 1) as nat,
            depth,
        ),
{
    let l = (level - 1) as nat;
    let w = with_points(new_nodes);
    let all = nodes + w;
    let next = keys_of(w);
    lemma_with_points(new_nodes);
    assert forall|i: int| 0 <= i < w.len() implies (#[trigger] w[i]).0.in_grid() && w[i].0.level
        == l by {
        let j = new_nodes.index_of(w[i]);
        let f = families[j];
        lemma_children_among(current, f.parent, l);
        let k = f.children@[0];
        assert(children_among(current, f.parent, l).contains(k));
        let c = current.index_of(k);
        assert(current[c].in_grid());
        grid_steps(k, false, false, false);
        assert(new_nodes[j].0 == families[j].parent);
    }
    assert forall|k: VoxelKey| #[trigger] listed(nodes, k) && k.level == level implies listed(
        w,
        k.parent_spec()->0,
    ) by {
        let p = k.parent_spec()->0;
        assert(current.contains(k));
        lemma_children_among(current, p, l);
        assert(is_child(k, p, l));
        assert(children_among(current, p, l).contains(k));
        let i = choose|i: int| 0 <= i < families.len() && (#[trigger] families[i]).parent == p;
        assert(families[i].children@.contains(k));
        assert(new_nodes[i].0 == families[i].parent);
        assert(new_nodes[i].1 > 0);
        let j = w.index_of(new_nodes[i]);
        assert(w[j].0 == p);
        lemma_listed_entry(w, p);
    }
    if new_nodes.len() > 0 {
        assert forall|k: VoxelKey| #[trigger] listed(all, k) implies {
            &&& k.in_grid()
            &&& l <= k.level <= depth
            &&& k.level == l ==> next.contains(k)
            &&& k.level > l ==> listed(all, k.parent_spec()->0)
        } by {
            lemma_listed_concat(nodes, w, k);
            lemma_listed_concat(nodes, w, k.parent_spec()->0);
            if listed(w, k) {
                lemma_listed_entry(w, k);
                let i = choose|i: int| 0 <= i < w.len() && (#[trigger] w[i]).0 == k;
                assert(next[i] == k);
            }
        }
        assert forall|i: int| 0 <= i < next.len() implies (#[trigger] next[i]).in_grid()
            && next[i].level == l by {
            assert(next[i] == w[i].0);
        }
        lemma_level_distinct(nodes, current, level, depth, families, new_nodes);
        assert forall|k: VoxelKey| listed(all, k) && k.level < depth implies #[trigger] has_child(
            all,
            k,
        ) by {
            lemma_listed_concat(nodes, w, k);
            if listed(nodes, k) {
                assert(has_child(nodes, k));
                let c = choose|c: VoxelKey| #[trigger]
                    listed(nodes, c) && c.parent_spec() == Some(k);
                lemma_listed_concat(nodes, w, c);
                assert(listed(all, c));
            } else {
                lemma_listed_entry(w, k);
                let e = choose|e: int| 0 <= e < w.len() && (#[trigger] w[e]).0 == k;
                assert(new_nodes.contains(w[e]));
                let i = new_nodes.index_of(w[e]);
                assert(new_nodes[i].1 > 0 && new_nodes[i].0 == k);
                let c = choose|c: VoxelKey| #[trigger]
                    families[i].children@.contains(c) && listed(nodes, c);
                lemma_children_among(current, families[i].parent, l);
                assert(families[i].children@ == children_among(current, families[i].parent, l));
                assert(children_among(current, families[i].parent, l).contains(c));
                assert(is_child(c, families[i].parent, l));
                lemma_listed_concat(nodes, w, c);
                assert(listed(all, c));
            }
        }
    } else {
        lemma_no_families(nodes, current, level, depth, families);
        assert(all =~= nodes);
        assert forall|k: VoxelKey| listed(all, k) && k.level < depth implies #[trigger] has_child(
            all,
            k,
        ) by {
            assert(!listed(nodes, k));
        }
    }
}

proof fn lemma_level_distinct(
    nodes: Seq<(VoxelKey, usize)>,
    current: Seq<VoxelKey>,
    level: nat,
    depth: nat,
    families: Seq<Family>,
    new_nodes: Seq<(VoxelKey, usize)>,
)
    requires
        closed_up_to(nodes, current, level, depth),
        level > 0,
        groups(families, current, (level - 1) as nat),
        new_nodes.len() == families.len(),
        forall|i: int|
            0 <= i < families.len() ==> (#[trigger] new_nodes[i]).0 == families[i].parent,
    ensures
        forall|i: int|
            0 <= i < new_nodes.len() ==> (#[trigger] new_nodes[i]).0.level == level - 1,
        distinct_nodes(nodes + with_points(new_nodes)),
{
    let l = (level - 1) as nat;
    let w = with_points(new_nodes);
    let all = nodes + w;
    assert forall|i: int, j: int| 0 <= i < j < new_nodes.len() implies (#[trigger] new_nodes[i]).0
        != (#[trigger] new_nodes[j]).0 by {
        assert(families[i].parent != families[j].parent);
    }
    assert forall|i: int| 0 <= i < new_nodes.len() implies (#[trigger] new_nodes[i]).0.level
        == level - 1 by {
        let f = families[i];
        lemma_children_among(current, f.parent, l);
        let k = f.children@[0];
        assert(children_among(current, f.parent, l).contains(k));
        assert(is_child(k, f.parent, l));
        assert(new_nodes[i].0 == families[i].parent);
    }
    lemma_with_points(new_nodes);
    lemma_with_points_distinct(new_nodes);
    assert forall|i: int, j: int| 0 <= i < j < all.len() implies (#[trigger] all[i]).0 != (
    #[trigger] all[j]).0 by {
        let n = nodes.len() as int;
        if j < n {
            assert(nodes[i].0 != nodes[j].0);
        } else if i < n {
            lemma_listed_entry(nodes, nodes[i].0);
            assert(listed(nodes, nodes[i].0));
            assert(new_nodes.contains(w[j - n]));
            let e = new_nodes.index_of(w[j - n]);
            assert(new_nodes[e].0.level == l);
        } else {
            assert(w[i - n].0 != w[j - n].0);
        }
    }
}

/// Without families above it, a closed map is empty.
proof fn lemma_no_families(
    nodes: Seq<(VoxelKey, usize)>,
    current: Seq<VoxelKey>,
    level: nat,
    depth: nat,
    families: Seq<Family>,
)
    requires
        closed_up_to(nodes, current, level, depth),
        level > 0,
        groups(families, current, (level - 1) as nat),
        families.len() == 0,
    ensures
        current.len() == 0,
        forall|k: VoxelKey| !listed(nodes, k),
{
    let l = (level - 1) as nat;
    if current.len() > 0 {
        let a = current[0];
        let p = a.parent_spec()->0;
        lemma_children_among(current, p, l);
        assert(is_child(a, p, l));
        assert(children_among(current, p, l).contains(a));
    }
    assert forall|k: VoxelKey| !listed(nodes, k) by {
        if listed(nodes, k) {
            lemma_ancestor_on_level(nodes, current, level, depth, k);
            let a = choose|a: VoxelKey| #[trigger] listed(nodes, a) && a.level == level;
            assert(current.contains(a));
        }
    }
}

proof fn lemma_ancestor_on_level(
    nodes: Seq<(VoxelKey, usize)>,
    current: Seq<VoxelKey>,
    level: nat,
    depth: nat,
    key: VoxelKey,
)
    requires
        closed_up_to(nodes, current, level, depth),
        listed(nodes, key),
    ensures
        exists|a: VoxelKey| #[trigger] listed(nodes, a) && a.level == level,
    decreases key.level,
{
    if key.level > level {
        lemma_ancestor_on_level(nodes, current, level, depth, key.parent_spec()->0);
    }
}

/// Once the map is closed up to the root, its nodes form a tree of distinct nodes, in which
/// every node above the leaves has a child, and which can be written if it is not too deep.
pub proof fn finished_map_is_tree(
    nodes: Seq<(VoxelKey, usize)>,
    current: Seq<VoxelKey>,
    depth: nat,
)
    requires
        closed_up_to(nodes, current, 0, depth),
    ensures
        is_tree(nodes),
        distinct_nodes(nodes),
        forall|k: VoxelKey|
            listed(nodes, k) && k.level < depth ==> #[trigger] has_child(nodes, k),
        depth <= MAX_PARENT_LEVEL ==> levels_in_range(nodes),
{
    if depth <= MAX_PARENT_LEVEL {
        assert forall|i: int| 0 <= i < nodes.len() implies (#[trigger] nodes[i]).0.level
            <= MAX_PARENT_LEVEL by {
            lemma_listed_entry(nodes, nodes[i].0);
            assert(listed(nodes, nodes[i].0));
        }
        shallow_nodes_are_in_range(nodes);
    }
}

/// Whether every node has points, and as many in its file as the map says.
///
/// `files` gives the contents of each node's file; a node without a file has no bytes.
pub open spec fn counts_match(
    nodes: Seq<(VoxelKey, usize)>,
    files: spec_fn(VoxelKey) -> Seq<u8>,
) -> bool {
    forall|i: int|
        0 <= i < nodes.len() ==> (#[trigger] nodes[i]).1 > 0 && decoded_points(
            files(nodes[i].0),
        ).len() == nodes[i].1
}

/// Whether every key that the next level up is built from is a node if its file holds points.
pub open spec fn current_match(
    nodes: Seq<(VoxelKey, usize)>,
    current: Seq<VoxelKey>,
    files: spec_fn(VoxelKey) -> Seq<u8>,
) -> bool {
    forall|i: int|
        0 <= i < current.len() && decoded_points(files(#[trigger] current[i])).len() > 0 ==> listed(
            nodes,
            current[i],
        )
}

/// The counts of the leaves are the numbers of points in their files, and every leaf whose
/// file holds points is counted.
pub proof fn leaf_counts_match(leaves: Seq<LeafFile>, files: spec_fn(VoxelKey) -> Seq<u8>)
    requires
        forall|i: int|
            0 <= i < leaves.len() ==> (#[trigger] leaves[i]).len == files(leaves[i].key).len()
                && leaves[i].len <= usize::MAX,
    ensures
        counts_match(leaf_nodes(leaves), files),
        current_match(leaf_nodes(leaves), filled_leaves(leaves), files),
    decreases leaves.len(),
{
    if leaves.len() > 0 {
        let h = leaves.drop_last();
        assert forall|i: int| 0 <= i < h.len() implies (#[trigger] h[i]).len == files(
            h[i].key,
        ).len() && h[i].len <= usize::MAX by {
            assert(h[i] == leaves[i]);
        }
        leaf_counts_match(h, files);
        let n = leaf_nodes(leaves);
        let m = leaf_nodes(h);
        assert(leaves.last() == leaves[leaves.len() - 1]);
        assert forall|i: int| 0 <= i < n.len() implies (#[trigger] n[i]).1 > 0 && decoded_points(
            files(n[i].0),
        ).len() == n[i].1 by {
            if i < m.len() {
                assert(n[i] == m[i]);
            }
        }
        let c = filled_leaves(leaves);
        let b = filled_leaves(h);
        assert forall|i: int|
            0 <= i < c.len() && decoded_points(files(#[trigger] c[i])).len() > 0 implies listed(
            n,
            c[i],
        ) by {
            lemma_listed_entry(m, c[i]);
            lemma_listed_entry(n, c[i]);
            if i < b.len() {
                assert(c[i] == b[i]);
                let e = choose|e: int| 0 <= e < m.len() && (#[trigger] m[e]).0 == c[i];
                assert(n[e] == m[e]);
            } else {
                assert(c[i] == leaves.last().key);
                assert(n[n.len() - 1].0 == c[i]);
            }
        }
    }
}

/// How many points the nodes on the leaves' level have together.
pub open spec fn leaf_total(nodes: Seq<(VoxelKey, usize)>, depth: nat) -> nat
    decreases nodes.len(),
{
    if nodes.len() == 0 {
        0
    } else {
        leaf_total(nodes.drop_last(), depth) + if nodes.last().0.level == depth {
            nodes.last().1 as nat
        } else {
            0
        }
    }
}

proof fn lemma_leaf_total_concat(
    a: Seq<(VoxelKey, usize)>,
    b: Seq<(VoxelKey, usize)>,
    depth: nat,
)
    requires
        forall|i: int| 0 <= i < b.len() ==> (#[trigger] b[i]).0.level != depth,
    ensures
        leaf_total(a + b, depth) == leaf_total(a, depth),
    decreases b.len(),
{
    if b.len() == 0 {
        assert(a + b =~= a);
    } else {
        let h = b.drop_last();
        assert forall|i: int| 0 <= i < h.len() implies (#[trigger] h[i]).0.level != depth by {
            assert(h[i] == b[i]);
        }
        lemma_leaf_total_concat(a, h, depth);
        assert((a + b).drop_last() =~= a + h);
        assert((a + b).last() == b[b.len() - 1]);
    }
}

/// Building one level from the files of its children keeps the map closed and its counts
/// right, and leaves the total of the leaves alone.
///
/// `points` holds, for each family, the points of its children as they are read from
/// `files`. Parents that get points are written, and no other file is changed.
pub proof fn built_level_matches_files(
    nodes: Seq<(VoxelKey, usize)>,
    current: Seq<VoxelKey>,
    level: nat,
    depth: nat,
    families: Seq<Family>,
    points: Seq<Seq<Vec<RawPoint>>>,
    new_nodes: Seq<(VoxelKey, usize)>,
    files: spec_fn(VoxelKey) -> Seq<u8>,
    files_after: spec_fn(VoxelKey) -> Seq<u8>,
)
    requires
        closed_up_to(nodes, current, level, depth),
        counts_match(nodes, files),
        current_match(nodes, current, files),
        0 < level <= depth,
        groups(families, current, (level - 1) as nat),
        points.len() == families.len(),
        forall|i: int|
            0 <= i < families.len() ==> (#[trigger] points[i]).len() == families[i].children@.len(),
        forall|i: int, j: int|
            0 <= i < families.len() && 0 <= j < points[i].len() ==> (#[trigger] points[i][j])@
                == decoded_points(files(families[i].children@[j])),
        new_nodes.len() == families.len(),
        forall|i: int|
            0 <= i < families.len() ==> (#[trigger] new_nodes[i]).0 == families[i].parent
                && new_nodes[i].1 == parent_points_spec(points[i]).len(),
        forall|i: int|
            0 <= i < families.len() && (#[trigger] new_nodes[i]).1 > 0 ==> files_after(
                new_nodes[i].0,
            ) == encoded_points(parent_points_spec(points[i])),
        forall|k: VoxelKey|
            (forall|i: int| 0 <= i < families.len() ==> (#[trigger] new_nodes[i]).0 != k)
                ==> #[trigger] files_after(k) == files(k),
    ensures
        closed_up_to(
            nodes + with_points(new_nodes),
            if new_nodes.len() == 0 {
                current
            } else {
                keys_of(with_points(new_nodes))
            },
            (level - 1) as nat,
            depth,
        ),
        counts_match(nodes + with_points(new_nodes), files_after),
        current_match(
            nodes + with_points(new_nodes),
            if new_nodes.len() == 0 {
                current
            } else {
                keys_of(with_points(new_nodes))
            },
            files_after,
        ),
        leaf_total(nodes + with_points(new_nodes), depth) == leaf_total(nodes, depth),
{
    let l = (level - 1) as nat;
    let w = with_points(new_nodes);
    let all = nodes + w;
    lemma_with_points(new_nodes);
    assert forall|i: int| 0 <= i < families.len() implies ((#[trigger] new_nodes[i]).1 > 0 <==> exists|
        k: VoxelKey,
    | #[trigger]
        families[i].children@.contains(k) && listed(nodes, k)) by {
        lemma_parent_has_points(nodes, current, l, families[i], points[i], files);
        assert(new_nodes[i].1 == parent_points_spec(points[i]).len());
    }
    level_keeps_map_closed(nodes, current, level, depth, families, new_nodes);
    lemma_level_distinct(nodes, current, level, depth, families, new_nodes);
    assert forall|i: int| 0 <= i < all.len() implies (#[trigger] all[i]).1 > 0 && decoded_points(
        files_after(all[i].0),
    ).len() == all[i].1 by {
        if i < nodes.len() {
            let k = nodes[i].0;
            assert(all[i] == nodes[i]);
            lemma_listed_entry(nodes, k);
            assert(listed(nodes, k));
            assert(k.level >= level);
            assert(forall|j: int| 0 <= j < families.len() ==> (#[trigger] new_nodes[j]).0 != k);
            assert(files_after(k) == files(k));
        } else {
            let e = w[i - nodes.len()];
            assert(all[i] == e);
            let j = new_nodes.index_of(e);
            assert(new_nodes[j] == e);
            node_file_gives_back_points(parent_points_spec(points[j]));
        }
    }
    assert forall|i: int| 0 <= i < w.len() implies (#[trigger] w[i]).0.level != depth by {
        let j = new_nodes.index_of(w[i]);
        assert(new_nodes[j].0.level == l);
    }
    lemma_leaf_total_concat(nodes, w, depth);
    if new_nodes.len() > 0 {
        let next = keys_of(w);
        assert forall|i: int|
            0 <= i < next.len() && decoded_points(files_after(#[trigger] next[i])).len()
                > 0 implies listed(all, next[i]) by {
            lemma_listed_entry(w, next[i]);
            assert(w[i].0 == next[i]);
            lemma_listed_concat(nodes, w, next[i]);
        }
    } else {
        lemma_no_families(nodes, current, level, depth, families);
    }
}

/// A parent gets points exactly if one of its children is a node.
proof fn lemma_parent_has_points(
    nodes: Seq<(VoxelKey, usize)>,
    current: Seq<VoxelKey>,
    level: nat,
    family: Family,
    points: Seq<Vec<RawPoint>>,
    files: spec_fn(VoxelKey) -> Seq<u8>,
)
    requires
        counts_match(nodes, files),
        current_match(nodes, current, files),
        family.children@ == children_among(current, family.parent, level),
        points.len() == family.children@.len(),
        forall|j: int|
            0 <= j < points.len() ==> (#[trigger] points[j])@ == decoded_points(
                files(family.children@[j]),
            ),
    ensures
        parent_points_spec(points).len() > 0 <==> exists|k: VoxelKey| #[trigger]
            family.children@.contains(k) && listed(nodes, k),
{
    overview_empty_only_without_points(points);
    if exists|k: VoxelKey| #[trigger] family.children@.contains(k) && listed(nodes, k) {
        let k = choose|k: VoxelKey| #[trigger] family.children@.contains(k) && listed(nodes, k);
        lemma_listed_entry(nodes, k);
        let e = choose|e: int| 0 <= e < nodes.len() && (#[trigger] nodes[e]).0 == k;
        let j = family.children@.index_of(k);
        assert(points[j]@ == decoded_points(files(family.children@[j])));
        assert(points[j]@.len() == nodes[e].1);
    }
    if parent_points_spec(points).len() > 0 {
        let j = choose|j: int| 0 <= j < points.len() && (#[trigger] points[j])@.len() > 0;
        let k = family.children@[j];
        assert(family.children@.contains(k));
        lemma_children_among(current, family.parent, level);
        assert(children_among(current, family.parent, level).contains(k));
        let i = current.index_of(k);
        assert(current[i] == k);
        assert(listed(nodes, k));
    }
}

/// All points of all files in turn.
pub open spec fn joined(per_file: Seq<Seq<(VoxelKey, RawPoint)>>) -> Seq<(VoxelKey, RawPoint)>
    decreases per_file.len(),
{
    if per_file.len() == 0 {
        Seq::empty()
    } else {
        joined(per_file.drop_last()) + per_file.last()
    }
}

proof fn lemma_joined_len(results: Seq<FileScan>, per_file: Seq<Seq<(VoxelKey, RawPoint)>>)
    requires
        per_file.len() == results.len(),
        forall|i: int|
            0 <= i < results.len() ==> (#[trigger] per_file[i]).len() == results[i].point_count,
    ensures
        joined(per_file).len() == total_points_spec(results),
    decreases results.len(),
{
    if results.len() > 0 {
        let r = results.drop_last();
        let f = per_file.drop_last();
        assert forall|i: int| 0 <= i < r.len() implies (#[trigger] f[i]).len()
            == r[i].point_count by {
            assert(f[i] == per_file[i]);
        }
        lemma_joined_len(r, f);
        assert(per_file.last() == per_file[results.len() - 1]);
    }
}

/// How many of the points belong to one of the leaves, counted leaf by leaf.
spec fn total_of(leaves: Seq<LeafFile>, history: Seq<(VoxelKey, RawPoint)>) -> nat
    decreases leaves.len(),
{
    if leaves.len() == 0 {
        0
    } else {
        total_of(leaves.drop_last(), history) + points_of(history, leaves.last().key).len()
    }
}

/// Whether no two leaves have the same key.
pub open spec fn distinct_leaves(leaves: Seq<LeafFile>) -> bool {
    forall|i: int, j: int|
        0 <= i < j < leaves.len() ==> (#[trigger] leaves[i]).key != (#[trigger] leaves[j]).key
}

/// Whether one of the leaves has the key.
pub open spec fn has_leaf(leaves: Seq<LeafFile>, key: VoxelKey) -> bool {
    exists|i: int| 0 <= i < leaves.len() && (#[trigger] leaves[i]).key == key
}

proof fn lemma_total_of_one_more(
    leaves: Seq<LeafFile>,
    history: Seq<(VoxelKey, RawPoint)>,
    key: VoxelKey,
    p: RawPoint,
)
    requires
        distinct_leaves(leaves),
    ensures
        total_of(leaves, history.push((key, p))) == total_of(leaves, history) + if has_leaf(
            leaves,
            key,
        ) {
            1nat
        } else {
            0
        },
    decreases leaves.len(),
{
    assert(history.push((key, p)).drop_last() =~= history);
    if leaves.len() > 0 {
        let h = leaves.drop_last();
        let n = h.len() as int;
        assert forall|i: int, j: int| 0 <= i < j < h.len() implies (#[trigger] h[i]).key != (
        #[trigger] h[j]).key by {
            assert(leaves[i].key != leaves[j].key);
        }
        lemma_total_of_one_more(h, history, key, p);
        assert(leaves.last() == leaves[n]);
        if has_leaf(h, key) {
            let i = choose|i: int| 0 <= i < h.len() && (#[trigger] h[i]).key == key;
            assert(leaves[i].key == key);
            assert(leaves[i].key != leaves[n].key);
        }
        if has_leaf(leaves, key) && leaves[n].key != key {
            let i = choose|i: int| 0 <= i < leaves.len() && (#[trigger] leaves[i]).key == key;
            assert(h[i].key == key);
        }
    }
}

proof fn lemma_total_of_nothing(leaves: Seq<LeafFile>)
    ensures
        total_of(leaves, Seq::empty()) == 0,
    decreases leaves.len(),
{
    if leaves.len() > 0 {
        lemma_total_of_nothing(leaves.drop_last());
    }
}

proof fn lemma_total_of_all(leaves: Seq<LeafFile>, history: Seq<(VoxelKey, RawPoint)>)
    requires
        distinct_leaves(leaves),
        forall|i: int| 0 <= i < history.len() ==> has_leaf(leaves, (#[trigger] history[i]).0),
    ensures
        total_of(leaves, history) == history.len(),
    decreases history.len(),
{
    if history.len() == 0 {
        assert(history =~= Seq::empty());
        lemma_total_of_nothing(leaves);
    } else {
        let h = history.drop_last();
        let (key, p) = history.last();
        assert forall|i: int| 0 <= i < h.len() implies has_leaf(leaves, (#[trigger] h[i]).0) by {
            assert(h[i] == history[i]);
        }
        lemma_total_of_all(leaves, h);
        lemma_total_of_one_more(leaves, h, key, p);
        assert(h.push((key, p)) =~= history);
        assert(history[history.len() - 1].0 == key);
    }
}

proof fn lemma_leaf_total_of_files(
    leaves: Seq<LeafFile>,
    depth: nat,
    history: Seq<(VoxelKey, RawPoint)>,
)
    requires
        forall|i: int|
            0 <= i < leaves.len() ==> (#[trigger] leaves[i]).key.level == depth && leaves[i].len
                == RawPoint::BYTE_SIZE * points_of(history, leaves[i].key).len() && leaves[i].len
                <= usize::MAX,
    ensures
        leaf_total(leaf_nodes(leaves), depth) == total_of(leaves, history),
    decreases leaves.len(),
{
    if leaves.len() > 0 {
        let h = leaves.drop_last();
        let leaf = leaves.last();
        assert forall|i: int| 0 <= i < h.len() implies (#[trigger] h[i]).key.level == depth
            && h[i].len == RawPoint::BYTE_SIZE * points_of(history, h[i].key).len() && h[i].len
            <= usize::MAX by {
            assert(h[i] == leaves[i]);
        }
        lemma_leaf_total_of_files(h, depth, history);
        assert(leaf == leaves[leaves.len() - 1]);
        let n = points_of(history, leaf.key).len();
        assert(leaf.len as usize / RawPoint::BYTE_SIZE == n);
        if n > 0 {
            let count = leaf.len as usize / RawPoint::BYTE_SIZE;
            assert(leaf_nodes(h).push((leaf.key, count)).drop_last() =~= leaf_nodes(h));
        }
    }
}

proof fn lemma_point_of_its_leaf(history: Seq<(VoxelKey, RawPoint)>, i: int)
    requires
        0 <= i < history.len(),
    ensures
        points_of(history, history[i].0).len() > 0,
    decreases history.len(),
{
    if i < history.len() - 1 {
        lemma_point_of_its_leaf(history.drop_last(), i);
    }
}

/// No point is lost or duplicated on its way to the leaves: starting without leaf files, if
/// every input file holds as many points as its header says, and the leaves are all keys
/// that have data, then the counts of the leaves add up to the number of points that the
/// headers give.
pub proof fn leaf_counts_add_up(
    results: Seq<FileScan>,
    per_file: Seq<Seq<(VoxelKey, RawPoint)>>,
    depth: nat,
    files: spec_fn(VoxelKey) -> Seq<u8>,
    buffers: LeafBuffers,
    leaves: Seq<LeafFile>,
)
    requires
        per_file.len() == results.len(),
        forall|i: int|
            0 <= i < results.len() ==> (#[trigger] per_file[i]).len() == results[i].point_count,
        forall|i: int|
            0 <= i < joined(per_file).len() ==> (#[trigger] joined(per_file)[i]).0.level == depth,
        accounted(joined(per_file), no_files(), files, buffers),
        forall|k: VoxelKey| #[trigger] buffers.pending(k) == Seq::<RawPoint>::empty(),
        distinct_leaves(leaves),
        forall|i: int|
            0 <= i < leaves.len() ==> (#[trigger] leaves[i]).key.level == depth && leaves[i].len
                == files(leaves[i].key).len() && leaves[i].len <= usize::MAX,
        forall|k: VoxelKey|
            k.level == depth && (#[trigger] files(k)).len() >= RawPoint::BYTE_SIZE ==> has_leaf(
                leaves,
                k,
            ),
    ensures
        leaf_total(leaf_nodes(leaves), depth) == total_points_spec(results),
{
    let history = joined(per_file);
    lemma_joined_len(results, per_file);
    assert forall|k: VoxelKey| (#[trigger] files(k)).len() == RawPoint::BYTE_SIZE * points_of(
        history,
        k,
    ).len() by {
        assert(buffers.pending(k) == Seq::<RawPoint>::empty());
        leaf_file_holds_its_points(history, no_files(), files, buffers, k);
        node_file_gives_back_points(points_of(history, k));
    }
    assert forall|i: int| 0 <= i < history.len() implies has_leaf(
        leaves,
        (#[trigger] history[i]).0,
    ) by {
        lemma_point_of_its_leaf(history, i);
        assert(files(history[i].0).len() >= RawPoint::BYTE_SIZE);
    }
    lemma_total_of_all(leaves, history);
    lemma_leaf_total_of_files(leaves, depth, history);
}

/// The nodes that are kept of a new level are those with points, in order, unchanged.
pub proof fn kept_nodes_are_filtered(
    nodes: Seq<(VoxelKey, usize)>,
    keep: spec_fn((VoxelKey, usize)) -> bool,
)
    requires
        forall|n: (VoxelKey, usize)| #[trigger] keep(n) <==> n.1 > 0,
    ensures
        with_points(nodes) == nodes.filter(keep),
        keys_of(nodes).len() == nodes.len(),
        forall|i: int| 0 <= i < nodes.len() ==> #[trigger] keys_of(nodes)[i] == nodes[i].0,
    decreases nodes.len(),
{
    reveal(Seq::filter);
    if nodes.len() > 0 {
        kept_nodes_are_filtered(nodes.drop_last(), keep);
    } else {
        assert(with_points(nodes) =~= nodes.filter(keep));
    }
}

/// Every leaf whose file holds at least one record of 38 bytes is a node, with the number of
/// whole records, and every leaf whose file has a byte takes part in building the next level;
/// both in the order of the leaves.
pub proof fn leaves_are_counted(
    leaves: Seq<LeafFile>,
    node: spec_fn(LeafFile) -> Option<(VoxelKey, usize)>,
    filled: spec_fn(LeafFile) -> Option<VoxelKey>,
)
    requires
        forall|i: int| 0 <= i < leaves.len() ==> (#[trigger] leaves[i]).len <= usize::MAX,
        forall|f: LeafFile|
            f.len <= usize::MAX ==> #[trigger] node(f) == (if f.len >= 38 {
                Some((f.key, (f.len as int / 38) as usize))
            } else {
                None
            }),
        forall|f: LeafFile| #[trigger]
            filled(f) == (if f.len > 0 {
                Some(f.key)
            } else {
                None
            }),
    ensures
        leaf_nodes(leaves) == leaves.filter_map(node),
        filled_leaves(leaves) == leaves.filter_map(filled),
    decreases leaves.len(),
{
    if leaves.len() > 0 {
        let h = leaves.drop_last();
        let f = leaves.last();
        assert forall|i: int| 0 <= i < h.len() implies (#[trigger] h[i]).len <= usize::MAX by {
            assert(h[i] == leaves[i]);
        }
        leaves_are_counted(h, node, filled);
        assert(leaves[leaves.len() - 1].len <= usize::MAX);
        assert(f.len as usize as int == f.len as int);
        assert(node(f) is Some <==> f.len >= 38);
        assert(filled(f) is Some <==> f.len > 0);
        assert(leaf_nodes(leaves) =~= leaves.filter_map(node));
        assert(filled_leaves(leaves) =~= leaves.filter_map(filled));
    }
}

/// A family's children are the keys one level below its parent whose places, halved and
/// rounded down, give the parent's place; they keep the order of the keys.
pub proof fn children_are_filtered(
    keys: Seq<VoxelKey>,
    parent: VoxelKey,
    level: nat,
    child: spec_fn(VoxelKey) -> bool,
)
    requires
        forall|k: VoxelKey| #[trigger]
            child(k) <==> k.level == level + 1 && parent.level == level && parent.x == k.x as int
                / 2 && parent.y == k.y as int / 2 && parent.z == k.z as int / 2,
    ensures
        children_among(keys, parent, level) == keys.filter(child),
    decreases keys.len(),
{
    reveal(Seq::filter);
    if keys.len() > 0 {
        children_are_filtered(keys.drop_last(), parent, level, child);
        assert(is_child(keys.last(), parent, level) <==> child(keys.last()));
    } else {
        assert(children_among(keys, parent, level) =~= keys.filter(child));
    }
}

/// Grouping puts every key of the level into exactly one family, that of its parent, and
/// nothing else into any family.
pub proof fn grouping_covers_level(
    families: Seq<Family>,
    keys: Seq<VoxelKey>,
    level: nat,
    key: VoxelKey,
) -> (f: int)
    requires
        groups(families, keys, level),
        keys.contains(key),
        key.level == level + 1,
    ensures
        0 <= f < families.len(),
        families[f].children@.contains(key),
        families[f].parent.level == level,
        families[f].parent.x == key.x as int / 2,
        families[f].parent.y == key.y as int / 2,
        families[f].parent.z == key.z as int / 2,
        forall|i: int|
            0 <= i < families.len() && (#[trigger] families[i]).children@.contains(key) ==> i == f,
        forall|i: int, k: VoxelKey|
            0 <= i < families.len() && #[trigger] families[i].children@.contains(k)
                ==> keys.contains(k) && k.level == level + 1,
{
    let p = key.parent_spec()->0;
    assert(is_child(key, p, level));
    lemma_children_among(keys, p, level);
    assert(children_among(keys, p, level).contains(key));
    let f = choose|f: int| 0 <= f < families.len() && (#[trigger] families[f]).parent == p;
    assert(families[f].children@ == children_among(keys, p, level));
    assert forall|i: int, k: VoxelKey|
        0 <= i < families.len() && #[trigger] families[i].children@.contains(k) implies keys.contains(
        k,
    ) && k.level == level + 1 by {
        lemma_children_among(keys, families[i].parent, level);
        assert(children_among(keys, families[i].parent, level).contains(k));
    }
    assert forall|i: int|
        0 <= i < families.len() && (#[trigger] families[i]).children@.contains(key) implies i == f by {
        lemma_children_among(keys, families[i].parent, level);
        assert(children_among(keys, families[i].parent, level).contains(key));
        assert(is_child(key, families[i].parent, level));
        assert(families[i].parent == families[f].parent);
    }
    f
}

/// A sample that leaves points out takes them at equal distances, from the first on, as many
/// as asked for; the distance is as large as it can be with that many whole steps.
pub proof fn sample_takes_equal_steps(pts: Seq<RawPoint>, max_count: nat) -> (step: nat)
    requires
        0 < max_count < pts.len(),
    ensures
        step >= 1,
        max_count * step <= pts.len() < max_count * (step + 1),
        thinned(pts, max_count).len() == max_count,
        forall|i: int|
            0 <= i < max_count ==> #[trigger] thinned(pts, max_count)[i] == pts[i * step],
{
    let step = pts.len() / max_count;
    lemma_step(pts.len(), max_count);
    vstd::arithmetic::div_mod::lemma_fundamental_div_mod(pts.len() as int, max_count as int);
    assert(max_count * (step + 1) == max_count * step + max_count) by (nonlinear_arith);
    step
}

} // verus!
