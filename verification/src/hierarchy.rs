//! The order in which the nodes of the octree are written.
use crate::key_index::map_index;
use crate::voxel::{
    child_of_parent, children_distinct, grid_steps, id_identifies, parent_of_child, VoxelKey,
    MAX_PARENT_LEVEL,
};
use std::collections::{HashMap, VecDeque};
use vstd::arithmetic::power2::{lemma2_to64, lemma_pow2_strictly_increases};
use vstd::prelude::*;
use vstd::seq_lib::{lemma_no_dup_in_concat, seq_to_set_is_finite};
use vstd::set_lib::lemma_len_subset;
use vstd::std_specs::hash::group_hash_axioms;

verus! {

/// The point count that a list of nodes gives for a key; of several entries for
/// one key the last counts.
pub open spec fn count_of(nodes: Seq<(VoxelKey, usize)>, key: VoxelKey) -> Option<usize>
    decreases nodes.len(),
{
    if nodes.len() == 0 {
        None
    } else if nodes.last().0 == key {
        Some(nodes.last().1)
    } else {
        count_of(nodes.drop_last(), key)
    }
}

/// Whether a list of nodes has an entry for a key.
pub open spec fn listed(nodes: Seq<(VoxelKey, usize)>, key: VoxelKey) -> bool {
    count_of(nodes, key) is Some
}

/// Whether no two nodes have the same key.
pub open spec fn distinct_nodes(nodes: Seq<(VoxelKey, usize)>) -> bool {
    forall|i: int, j: int|
        0 <= i < j < nodes.len() ==> (#[trigger] nodes[i]).0 != (#[trigger] nodes[j]).0
}

/// Whether one of the nodes is a child of a voxel.
pub open spec fn has_child(nodes: Seq<(VoxelKey, usize)>, key: VoxelKey) -> bool {
    exists|c: VoxelKey| #[trigger] listed(nodes, c) && c.parent_spec() == Some(key)
}

/// The keys of `s` that are listed, in the order of `s`.
pub open spec fn keep_listed(s: Seq<VoxelKey>, nodes: Seq<(VoxelKey, usize)>) -> Seq<VoxelKey>
    decreases s.len(),
{
    if s.len() == 0 {
        Seq::empty()
    } else {
        let head = keep_listed(s.drop_last(), nodes);
        if listed(nodes, s.last()) {
            head.push(s.last())
        } else {
            head
        }
    }
}

/// The children of each key of `s` in turn.
pub open spec fn all_children(s: Seq<VoxelKey>) -> Seq<VoxelKey>
    decreases s.len(),
{
    if s.len() == 0 {
        Seq::empty()
    } else {
        all_children(s.drop_last()) + s.last().children_spec()
    }
}

/// The keys of one level that are looked at: the root, or the children of the keys
/// that are reached one level up.
pub open spec fn candidates(nodes: Seq<(VoxelKey, usize)>, level: nat) -> Seq<VoxelKey>
    decreases level,
{
    if level == 0 {
        seq![VoxelKey::root_spec()]
    } else {
        all_children(keep_listed(candidates(nodes, (level - 1) as nat), nodes))
    }
}

/// The listed keys of one level that the root leads to through listed keys.
pub open spec fn reached(nodes: Seq<(VoxelKey, usize)>, level: nat) -> Seq<VoxelKey> {
    keep_listed(candidates(nodes, level), nodes)
}

/// The keys of the first `levels` levels that are reached, level by level.
pub open spec fn breadth_first(nodes: Seq<(VoxelKey, usize)>, levels: nat) -> Seq<VoxelKey>
    decreases levels,
{
    if levels == 0 {
        Seq::empty()
    } else {
        breadth_first(nodes, (levels - 1) as nat) + reached(nodes, (levels - 1) as nat)
    }
}

/// How many levels a key can lie on and still have children.
pub open spec fn level_count() -> nat {
    (MAX_PARENT_LEVEL + 1) as nat
}

/// Whether every listed key that the root leads to lies on a level whose voxels can be
/// split.
pub open spec fn levels_in_range(nodes: Seq<(VoxelKey, usize)>) -> bool {
    reached(nodes, level_count()).len() == 0
}

/// Whether `m` holds the point counts of `nodes`.
pub open spec fn indexes(m: Map<u128, usize>, nodes: Seq<(VoxelKey, usize)>) -> bool {
    forall|k: VoxelKey| #[trigger]
        count_of(nodes, k) == (if m.contains_key(map_index(k)) {
            Some(m[map_index(k)])
        } else {
            None
        })
}

/// The point counts of a list of nodes, by key.
pub fn index_counts(nodes: &Vec<(VoxelKey, usize)>) -> (r: HashMap<u128, usize>)
    ensures
        indexes(r@, nodes@),
{
    broadcast use group_hash_axioms;

    let mut m: HashMap<u128, usize> = HashMap::new();
    let mut i: usize = 0;
    assert(nodes@.take(0) =~= Seq::empty());
    while i < nodes.len()
        invariant
            0 <= i <= nodes.len(),
            indexes(m@, nodes@.take(i as int)),
        decreases nodes.len() - i,
    {
        broadcast use group_hash_axioms;

        let ghost before = m@;
        let (key, count) = nodes[i];
        m.insert(key.id(), count);
        proof {
            let now = nodes@.take(i + 1);
            assert(now.drop_last() =~= nodes@.take(i as int));
            assert(now.last() == (key, count));
            assert forall|k: VoxelKey| #[trigger]
                count_of(now, k) == (if m@.contains_key(map_index(k)) {
                    Some(m@[map_index(k)])
                } else {
                    None
                }) by {
                assert(count_of(nodes@.take(i as int), k) == (if before.contains_key(
                    map_index(k),
                ) {
                    Some(before[map_index(k)])
                } else {
                    None
                }));
                if map_index(k) == map_index(key) {
                    id_identifies(k, key);
                }
            }
        }
        i = i + 1;
    }
    assert(nodes@.take(nodes.len() as int) =~= nodes@);
    m
}

pub(crate) proof fn lemma_listed_entry(nodes: Seq<(VoxelKey, usize)>, key: VoxelKey)
    ensures
        listed(nodes, key) <==> exists|i: int| 0 <= i < nodes.len() && (#[trigger] nodes[i]).0 == key,
    decreases nodes.len(),
{
    if nodes.len() > 0 {
        let h = nodes.drop_last();
        lemma_listed_entry(h, key);
        if exists|i: int| 0 <= i < h.len() && (#[trigger] h[i]).0 == key {
            let i = choose|i: int| 0 <= i < h.len() && (#[trigger] h[i]).0 == key;
            assert(nodes[i].0 == key);
        }
        if exists|i: int| 0 <= i < nodes.len() && (#[trigger] nodes[i]).0 == key {
            let i = choose|i: int| 0 <= i < nodes.len() && (#[trigger] nodes[i]).0 == key;
            if i < h.len() {
                assert(h[i].0 == key);
            }
        }
        assert(nodes[nodes.len() - 1] == nodes.last());
    }
}

proof fn lemma_keep_listed(s: Seq<VoxelKey>, nodes: Seq<(VoxelKey, usize)>)
    ensures
        forall|k: VoxelKey| #[trigger]
            keep_listed(s, nodes).contains(k) <==> s.contains(k) && listed(nodes, k),
        s.no_duplicates() ==> keep_listed(s, nodes).no_duplicates(),
    decreases s.len(),
{
    if s.len() > 0 {
        let h = s.drop_last();
        lemma_keep_listed(h, nodes);
        let kept = keep_listed(s, nodes);
        let head = keep_listed(h, nodes);
        assert forall|k: VoxelKey| #[trigger] kept.contains(k) <==> s.contains(k) && listed(
            nodes,
            k,
        ) by {
            if s.contains(k) {
                let i = s.index_of(k);
                if i < s.len() - 1 {
                    assert(h[i] == k);
                    assert(h.contains(k));
                }
            }
            if h.contains(k) {
                let i = h.index_of(k);
                assert(s[i] == k);
            }
            if listed(nodes, s.last()) {
                assert(kept[kept.len() - 1] == s.last());
                if head.contains(k) {
                    let i = head.index_of(k);
                    assert(kept[i] == k);
                }
                if kept.contains(k) {
                    let i = kept.index_of(k);
                    if i < head.len() {
                        assert(head[i] == k);
                    }
                }
            }
            assert(s[s.len() - 1] == s.last());
        }
        if s.no_duplicates() {
            assert(h.no_duplicates());
            if listed(nodes, s.last()) {
                assert(!head.contains(s.last())) by {
                    if head.contains(s.last()) {
                        let i = h.index_of(s.last());
                        assert(s[i] == s[s.len() - 1]);
                    }
                }
                assert forall|i: int, j: int|
                    0 <= i < kept.len() && 0 <= j < kept.len() && i != j implies kept[i]
                    != kept[j] by {
                    if i < head.len() && j < head.len() {
                        assert(head[i] != head[j]);
                    } else if i < head.len() {
                        assert(head.contains(head[i]));
                    } else {
                        assert(head.contains(head[j]));
                    }
                }
            }
        }
    }
}

/// Whether `s` holds distinct keys of one level's grid.
spec fn one_level(s: Seq<VoxelKey>, level: nat) -> bool {
    &&& s.no_duplicates()
    &&& forall|i: int| 0 <= i < s.len() ==> (#[trigger] s[i]).in_grid() && s[i].level == level
}

proof fn lemma_can_split(key: VoxelKey)
    requires
        key.in_grid(),
        key.level <= MAX_PARENT_LEVEL,
    ensures
        key.can_split(),
{
    lemma2_to64();
    if key.level < 30 {
        lemma_pow2_strictly_increases(key.level as nat, 30);
    }
}

proof fn lemma_all_children(s: Seq<VoxelKey>, level: nat)
    requires
        one_level(s, level),
        level <= MAX_PARENT_LEVEL,
    ensures
        one_level(all_children(s), level + 1),
        all_children(s).len() == 8 * s.len(),
        forall|k: VoxelKey| #[trigger]
            all_children(s).contains(k) ==> k.parent_spec() is Some && s.contains(
                k.parent_spec()->0,
            ),
        forall|k: VoxelKey| k.level > 0 && s.contains(k.parent_spec()->0) ==> #[trigger] all_children(
            s,
        ).contains(k),
    decreases s.len(),
{
    if s.len() > 0 {
        let h = s.drop_last();
        let p = s.last();
        let a = all_children(h);
        let b = p.children_spec();
        let c = all_children(s);
        assert(s[s.len() - 1] == p);
        assert(h.no_duplicates());
        assert forall|i: int| 0 <= i < h.len() implies (#[trigger] h[i]).in_grid() && h[i].level
            == level by {
            assert(h[i] == s[i]);
        }
        lemma_all_children(h, level);
        lemma_can_split(p);
        children_distinct(p);
        assert forall|j: int| 0 <= j < 8 implies (#[trigger] b[j]).in_grid() && b[j].level == level
            + 1 && b[j].parent_spec() == Some(p) by {
            grid_steps(p, j % 2 == 1, (j / 2) % 2 == 1, (j / 4) % 2 == 1);
            parent_of_child(p, j % 2 == 1, (j / 2) % 2 == 1, (j / 4) % 2 == 1);
        }
        assert forall|i: int, j: int| 0 <= i < a.len() && 0 <= j < b.len() implies a[i] != b[j] by {
            if a[i] == b[j] {
                assert(a.contains(a[i]));
                assert(h.contains(p));
                let m = h.index_of(p);
                assert(s[m] == s[s.len() - 1]);
            }
        }
        lemma_no_dup_in_concat(a, b);
        assert forall|k: VoxelKey| #[trigger] c.contains(k) implies k.parent_spec() is Some
            && s.contains(k.parent_spec()->0) by {
            let i = c.index_of(k);
            if i < a.len() {
                assert(a[i] == k);
                assert(a.contains(k));
                let m = h.index_of(k.parent_spec()->0);
                assert(s[m] == k.parent_spec()->0);
            } else {
                assert(b[i - a.len()] == k);
            }
        }
        assert forall|k: VoxelKey|
            k.level > 0 && s.contains(k.parent_spec()->0) implies #[trigger] c.contains(k) by {
            let q = k.parent_spec()->0;
            let m = s.index_of(q);
            if m < s.len() - 1 {
                assert(h[m] == q);
                assert(h.contains(q));
                assert(a.contains(k));
                let i = a.index_of(k);
                assert(c[i] == k);
            } else {
                child_of_parent(k);
                let i = b.index_of(k);
                assert(c[a.len() + i] == k);
            }
        }
    }
}

proof fn lemma_candidates_split(nodes: Seq<(VoxelKey, usize)>, level: nat)
    requires
        level <= level_count(),
    ensures
        one_level(candidates(nodes, level), level),
        one_level(reached(nodes, level), level),
        forall|k: VoxelKey| #[trigger] reached(nodes, level).contains(k) ==> listed(nodes, k),
    decreases level,
{
    let c = candidates(nodes, level);
    let r = reached(nodes, level);
    if level == 0 {
        lemma2_to64();
    } else {
        lemma_candidates_split(nodes, (level - 1) as nat);
        lemma_all_children(reached(nodes, (level - 1) as nat), (level - 1) as nat);
    }
    lemma_keep_listed(c, nodes);
    assert forall|i: int| 0 <= i < r.len() implies (#[trigger] r[i]).in_grid() && r[i].level
        == level by {
        assert(r.contains(r[i]));
        let j = c.index_of(r[i]);
        assert(c[j] == r[i]);
    }
}

proof fn lemma_candidates(nodes: Seq<(VoxelKey, usize)>, level: nat)
    requires
        levels_in_range(nodes),
    ensures
        one_level(candidates(nodes, level), level),
        one_level(reached(nodes, level), level),
        forall|k: VoxelKey| #[trigger] reached(nodes, level).contains(k) ==> listed(nodes, k),
        level > MAX_PARENT_LEVEL ==> reached(nodes, level).len() == 0,
{
    if level <= level_count() {
        lemma_candidates_split(nodes, level);
    } else {
        lemma_empty_below(nodes, level_count(), (level - 1 - level_count()) as nat);
        assert(reached(nodes, (level - 1) as nat) =~= Seq::empty());
        assert(candidates(nodes, level) =~= Seq::empty());
    }
}

/// Nodes that all lie on levels whose voxels can be split are in range.
pub proof fn shallow_nodes_are_in_range(nodes: Seq<(VoxelKey, usize)>)
    requires
        forall|i: int| 0 <= i < nodes.len() ==> (#[trigger] nodes[i]).0.level <= MAX_PARENT_LEVEL,
    ensures
        levels_in_range(nodes),
{
    lemma_candidates_split(nodes, level_count());
    let r = reached(nodes, level_count());
    if r.len() > 0 {
        assert(r.contains(r[0]));
        lemma_listed_entry(nodes, r[0]);
    }
}

proof fn lemma_breadth_first(nodes: Seq<(VoxelKey, usize)>, levels: nat)
    requires
        levels_in_range(nodes),
    ensures
        breadth_first(nodes, levels).no_duplicates(),
        forall|i: int|
            0 <= i < breadth_first(nodes, levels).len() ==> 0 <= (#[trigger] breadth_first(
                nodes,
                levels,
            )[i]).level < levels && listed(nodes, breadth_first(nodes, levels)[i]),
    decreases levels,
{
    if levels > 0 {
        let l = (levels - 1) as nat;
        lemma_breadth_first(nodes, l);
        lemma_candidates(nodes, l);
        let a = breadth_first(nodes, l);
        let b = reached(nodes, l);
        assert forall|i: int, j: int| 0 <= i < a.len() && 0 <= j < b.len() implies a[i] != b[j] by {
            assert(a[i].level < l && b[j].level == l);
        }
        lemma_no_dup_in_concat(a, b);
        let c = breadth_first(nodes, levels);
        assert forall|i: int| 0 <= i < c.len() implies 0 <= (#[trigger] c[i]).level < levels && listed(
            nodes,
            c[i],
        ) by {
            if i >= a.len() {
                assert(b.contains(b[i - a.len()]));
            } else {
                assert(c[i] == a[i]);
            }
        }
    }
}

/// Once a level is empty, so is every deeper one.
proof fn lemma_empty_below(nodes: Seq<(VoxelKey, usize)>, level: nat, more: nat)
    requires
        reached(nodes, level).len() == 0,
    ensures
        reached(nodes, level + more).len() == 0,
        breadth_first(nodes, level + more) == breadth_first(nodes, level),
    decreases more,
{
    if more > 0 {
        let m = (more - 1) as nat;
        lemma_empty_below(nodes, level, m);
        let l = (level + m) as nat;
        assert(reached(nodes, l) =~= Seq::empty());
        assert(candidates(nodes, l + 1) =~= Seq::empty());
        assert(breadth_first(nodes, l + 1) =~= breadth_first(nodes, l));
    }
}

proof fn lemma_distinct_listed_len(r: Seq<VoxelKey>, nodes: Seq<(VoxelKey, usize)>)
    requires
        r.no_duplicates(),
        forall|i: int| 0 <= i < r.len() ==> listed(nodes, #[trigger] r[i]),
    ensures
        r.len() <= nodes.len(),
{
    let ks = Seq::new(nodes.len(), |i: int| nodes[i].0);
    r.unique_seq_to_set();
    seq_to_set_is_finite(ks);
    ks.lemma_cardinality_of_set();
    assert(r.to_set().subset_of(ks.to_set())) by {
        assert forall|k: VoxelKey| r.to_set().contains(k) implies ks.to_set().contains(k) by {
            let i = r.index_of(k);
            assert(listed(nodes, r[i]));
            lemma_listed_entry(nodes, k);
            let j = choose|j: int| 0 <= j < nodes.len() && (#[trigger] nodes[j]).0 == k;
            assert(ks[j] == k);
        }
    }
    lemma_len_subset(r.to_set(), ks.to_set());
}

proof fn lemma_keep_listed_push(s: Seq<VoxelKey>, k: VoxelKey, nodes: Seq<(VoxelKey, usize)>)
    ensures
        keep_listed(s.push(k), nodes) == (if listed(nodes, k) {
            keep_listed(s, nodes).push(k)
        } else {
            keep_listed(s, nodes)
        }),
{
    assert(s.push(k).drop_last() =~= s);
}

proof fn lemma_keep_listed_take(s: Seq<VoxelKey>, i: int, nodes: Seq<(VoxelKey, usize)>)
    requires
        0 <= i <= s.len(),
    ensures
        keep_listed(s.take(i), nodes).is_prefix_of(keep_listed(s, nodes)),
    decreases s.len(),
{
    if i < s.len() {
        lemma_keep_listed_take(s.drop_last(), i, nodes);
        assert(s.drop_last().take(i) =~= s.take(i));
    } else {
        assert(s.take(i) =~= s);
    }
}

/// A listed candidate can be split, and is one more node than those found before it.
proof fn lemma_one_more(nodes: Seq<(VoxelKey, usize)>, level: nat, i: int)
    requires
        levels_in_range(nodes),
        0 <= i < candidates(nodes, level).len(),
        listed(nodes, candidates(nodes, level)[i]),
    ensures
        candidates(nodes, level)[i].can_split(),
        (breadth_first(nodes, level) + keep_listed(candidates(nodes, level).take(i), nodes)).len()
            < nodes.len(),
{
    let c = candidates(nodes, level);
    let k = c[i];
    let a = breadth_first(nodes, level);
    let r = reached(nodes, level);
    let now = keep_listed(c.take(i), nodes).push(k);
    let n = a.len() as int;
    lemma_candidates(nodes, level);
    lemma_keep_listed(c, nodes);
    assert(c.contains(k));
    assert(r.contains(k));
    lemma_can_split(k);
    lemma_breadth_first(nodes, level);
    assert(c.take(i + 1) =~= c.take(i).push(k));
    lemma_keep_listed_push(c.take(i), k, nodes);
    lemma_keep_listed_take(c, i + 1, nodes);
    assert(forall|x: int| 0 <= x < now.len() ==> #[trigger] now[x] == r[x]);
    let f = a + now;
    assert forall|x: int, y: int| 0 <= x < f.len() && 0 <= y < f.len() && x != y implies f[x]
        != f[y] by {
        if x < n && y < n {
            assert(a[x] != a[y]);
        } else if x < n {
            assert(a[x].level < level && now[y - n].level == level);
        } else if y < n {
            assert(a[y].level < level && now[x - n].level == level);
        } else {
            assert(now[x - n] == r[x - n] && now[y - n] == r[y - n]);
            assert(r[x - n] != r[y - n]);
        }
    }
    assert forall|x: int| 0 <= x < f.len() implies listed(nodes, #[trigger] f[x]) by {
        if x < n {
            assert(f[x] == a[x]);
        } else {
            assert(f[x] == now[x - n]);
            assert(r.contains(r[x - n]));
        }
    }
    lemma_distinct_listed_len(f, nodes);
}

/// Orders the listed nodes for the output: breadth first from the root, the
/// children of each node in their own order. Nodes that the root does not lead to
/// through listed nodes are left out.
pub fn ordered_keys(node_keys: &Vec<(VoxelKey, usize)>) -> (r: Vec<VoxelKey>)
    requires
        levels_in_range(node_keys@),
    ensures
        r@ == breadth_first(node_keys@, level_count()),
        r@.no_duplicates(),
{
    let index = index_counts(node_keys);
    let ghost nodes = node_keys@;
    let mut result: Vec<VoxelKey> = Vec::new();
    let mut queue: VecDeque<VoxelKey> = VecDeque::new();
    queue.push_back(VoxelKey::root());
    let ghost mut level: nat = 0;
    let ghost mut i: int = 0;
    proof {
        let c = candidates(nodes, 0);
        assert(c.take(0) =~= Seq::empty());
        assert(queue@ =~= c.skip(0) + all_children(keep_listed(c.take(0), nodes)));
        assert(result@ =~= breadth_first(nodes, 0) + keep_listed(c.take(0), nodes));
        lemma_breadth_first(nodes, 0);
    }
    while queue.len() > 0
        invariant
            nodes == node_keys@,
            levels_in_range(nodes),
            indexes(index@, nodes),
            0 <= i <= candidates(nodes, level).len(),
            queue@ == candidates(nodes, level).skip(i) + all_children(
                keep_listed(candidates(nodes, level).take(i), nodes),
            ),
            result@ == breadth_first(nodes, level) + keep_listed(
                candidates(nodes, level).take(i),
                nodes,
            ),
            result@.len() <= nodes.len(),
        decreases 9 * (nodes.len() - result@.len()) + queue@.len(),
    {
        broadcast use group_hash_axioms;

        proof {
            if i == candidates(nodes, level).len() {
                let c = candidates(nodes, level);
                assert(c.take(i) =~= c);
                assert(c.skip(i) =~= Seq::empty());
                let d = candidates(nodes, level + 1);
                assert(d.take(0) =~= Seq::empty());
                assert(queue@ =~= d.skip(0) + all_children(keep_listed(d.take(0), nodes)));
                assert(result@ =~= breadth_first(nodes, level + 1) + keep_listed(d.take(0), nodes));
                level = level + 1;
                i = 0;
            }
            lemma_candidates(nodes, level);
        }
        let ghost c = candidates(nodes, level);
        let ghost kept = keep_listed(c.take(i), nodes);
        let ghost found = result@;
        let k: VoxelKey = queue.pop_front().unwrap();
        assert(k == c[i]);
        proof {
            assert(c.take(i + 1) =~= c.take(i).push(k));
            lemma_keep_listed_push(c.take(i), k, nodes);
            assert(count_of(nodes, k) == count_of(nodes, k));
        }
        if index.contains_key(&k.id()) {
            proof {
                assert(listed(nodes, k));
                assert(found =~= breadth_first(nodes, level) + kept);
                lemma_one_more(nodes, level, i);
            }
            result.push(k);
            let children = k.children();
            let ghost rest = queue@;
            let mut j: usize = 0;
            while j < 8
                invariant
                    0 <= j <= 8,
                    children@ == k.children_spec(),
                    queue@ == rest + k.children_spec().take(j as int),
                decreases 8 - j,
            {
                queue.push_back(children[j]);
                j = j + 1;
                assert(queue@ =~= rest + k.children_spec().take(j as int));
            }
            proof {
                assert(kept.push(k).drop_last() =~= kept);
                assert(k.children_spec().take(8) =~= k.children_spec());
                assert(queue@ =~= c.skip(i + 1) + all_children(kept.push(k)));
                assert(result@ =~= breadth_first(nodes, level) + kept.push(k));
            }
        } else {
            assert(!listed(nodes, k));
            assert(queue@ =~= c.skip(i + 1) + all_children(kept));
        }
        proof {
            i = i + 1;
        }
    }
    proof {
        let c = candidates(nodes, level);
        assert(c.skip(i).len() == 0);
        assert(c.take(i) =~= c);
        lemma_candidates(nodes, level);
        let q = reached(nodes, level);
        if q.len() > 0 {
            lemma_all_children_nonempty(q);
        }
        assert(q =~= Seq::empty());
        assert(result@ =~= breadth_first(nodes, level));
        let top = level_count();
        if level <= top {
            lemma_empty_below(nodes, level, (top - level) as nat);
        } else {
            lemma_candidates(nodes, top);
            lemma_empty_below(nodes, top, (level - top) as nat);
        }
        lemma_breadth_first(nodes, top);
    }
    result
}

proof fn lemma_all_children_nonempty(s: Seq<VoxelKey>)
    requires
        s.len() > 0,
    ensures
        all_children(s).len() > 0,
{
    assert(all_children(s).len() >= s.last().children_spec().len());
}

/// Whether the nodes form a tree: each lies in its level's grid, and the parent of each
/// is a node too.
pub open spec fn is_tree(nodes: Seq<(VoxelKey, usize)>) -> bool {
    forall|k: VoxelKey| #[trigger]
        listed(nodes, k) ==> k.in_grid() && (k.level > 0 ==> listed(nodes, k.parent_spec()->0))
}

proof fn lemma_tree_reached(nodes: Seq<(VoxelKey, usize)>, key: VoxelKey)
    requires
        is_tree(nodes),
        levels_in_range(nodes),
        listed(nodes, key),
    ensures
        reached(nodes, key.level as nat).contains(key),
    decreases key.level,
{
    let l = key.level as nat;
    lemma_keep_listed(candidates(nodes, l), nodes);
    if l == 0 {
        lemma2_to64();
        assert(key == VoxelKey::root_spec());
        assert(candidates(nodes, 0)[0] == key);
    } else {
        let p = key.parent_spec()->0;
        lemma_tree_reached(nodes, p);
        lemma_candidates(nodes, (l - 1) as nat);
        lemma_all_children(reached(nodes, (l - 1) as nat), (l - 1) as nat);
        assert(candidates(nodes, l).contains(key));
    }
}

proof fn lemma_level_in_order(nodes: Seq<(VoxelKey, usize)>, level: nat, levels: nat, key: VoxelKey)
    requires
        level < levels,
        reached(nodes, level).contains(key),
    ensures
        breadth_first(nodes, levels).contains(key),
    decreases levels,
{
    let l = (levels - 1) as nat;
    let a = breadth_first(nodes, l);
    let b = reached(nodes, l);
    if level < l {
        lemma_level_in_order(nodes, level, l, key);
        let i = a.index_of(key);
        assert(breadth_first(nodes, levels)[i] == key);
    } else {
        let i = b.index_of(key);
        assert(breadth_first(nodes, levels)[a.len() + i] == key);
    }
}

/// The output order holds every node of a tree exactly once, and nothing else.
pub proof fn order_covers_tree(nodes: Seq<(VoxelKey, usize)>)
    requires
        is_tree(nodes),
        levels_in_range(nodes),
    ensures
        breadth_first(nodes, level_count()).no_duplicates(),
        forall|k: VoxelKey| #[trigger]
            breadth_first(nodes, level_count()).contains(k) <==> listed(nodes, k),
{
    lemma_breadth_first(nodes, level_count());
    let order = breadth_first(nodes, level_count());
    assert forall|k: VoxelKey| #[trigger] order.contains(k) <==> listed(nodes, k) by {
        if order.contains(k) {
            let i = order.index_of(k);
            assert(listed(nodes, order[i]));
        }
        if listed(nodes, k) {
            lemma_tree_reached(nodes, k);
            lemma_candidates(nodes, k.level as nat);
            lemma_level_in_order(nodes, k.level as nat, level_count(), k);
        }
    }
}

/// In the output order every node but the root comes after its parent.
pub proof fn parents_come_first(nodes: Seq<(VoxelKey, usize)>, i: int)
    requires
        levels_in_range(nodes),
        0 <= i < breadth_first(nodes, level_count()).len(),
    ensures
        ({
            let order = breadth_first(nodes, level_count());
            order[i].level > 0 ==> exists|j: int|
                0 <= j < i && #[trigger] order[j] == order[i].parent_spec()->0
        }),
{
    lemma_parent_before(nodes, level_count(), i);
}

proof fn lemma_parent_before(nodes: Seq<(VoxelKey, usize)>, levels: nat, i: int)
    requires
        levels_in_range(nodes),
        0 <= i < breadth_first(nodes, levels).len(),
    ensures
        ({
            let order = breadth_first(nodes, levels);
            order[i].level > 0 ==> exists|j: int|
                0 <= j < i && #[trigger] order[j] == order[i].parent_spec()->0
        }),
    decreases levels,
{
    let l = (levels - 1) as nat;
    let a = breadth_first(nodes, l);
    let b = reached(nodes, l);
    let order = breadth_first(nodes, levels);
    if i < a.len() {
        lemma_parent_before(nodes, l, i);
        if a[i].level > 0 {
            let j = choose|j: int| 0 <= j < i && #[trigger] a[j] == a[i].parent_spec()->0;
            assert(order[j] == a[j]);
        }
    } else {
        let k = b[i - a.len()];
        lemma_candidates(nodes, l);
        assert(b.contains(k));
        if l > 0 {
            let m = (l - 1) as nat;
            lemma_candidates(nodes, m);
            lemma_keep_listed(candidates(nodes, l), nodes);
            lemma_all_children(reached(nodes, m), m);
            assert(candidates(nodes, l).contains(k));
            let p = k.parent_spec()->0;
            lemma_level_in_order(nodes, m, l, p);
            let j = a.index_of(p);
            assert(order[j] == p);
        }
    }
}

proof fn lemma_count_of_distinct(nodes: Seq<(VoxelKey, usize)>, key: VoxelKey, count: usize)
    requires
        distinct_nodes(nodes),
    ensures
        count_of(nodes, key) == Some(count) <==> nodes.contains((key, count)),
    decreases nodes.len(),
{
    if nodes.len() > 0 {
        let h = nodes.drop_last();
        let n = h.len() as int;
        assert forall|i: int, j: int| 0 <= i < j < h.len() implies (#[trigger] h[i]).0 != (
        #[trigger] h[j]).0 by {
            assert(nodes[i].0 != nodes[j].0);
        }
        lemma_count_of_distinct(h, key, count);
        assert(nodes[n] == nodes.last());
        if h.contains((key, count)) {
            let i = h.index_of((key, count));
            assert(nodes[i] == (key, count));
            assert(nodes[i].0 != nodes[n].0);
        }
        if nodes.contains((key, count)) {
            let i = nodes.index_of((key, count));
            if i < n {
                assert(h[i] == (key, count));
            }
        }
    }
}

proof fn lemma_keep_listed_same(
    s: Seq<VoxelKey>,
    a: Seq<(VoxelKey, usize)>,
    b: Seq<(VoxelKey, usize)>,
)
    requires
        forall|k: VoxelKey| #[trigger] count_of(a, k) == count_of(b, k),
    ensures
        keep_listed(s, a) == keep_listed(s, b),
    decreases s.len(),
{
    if s.len() > 0 {
        lemma_keep_listed_same(s.drop_last(), a, b);
        assert(count_of(a, s.last()) == count_of(b, s.last()));
    }
}

proof fn lemma_candidates_same(
    a: Seq<(VoxelKey, usize)>,
    b: Seq<(VoxelKey, usize)>,
    level: nat,
)
    requires
        forall|k: VoxelKey| #[trigger] count_of(a, k) == count_of(b, k),
    ensures
        candidates(a, level) == candidates(b, level),
        reached(a, level) == reached(b, level),
    decreases level,
{
    if level > 0 {
        lemma_candidates_same(a, b, (level - 1) as nat);
    }
    lemma_keep_listed_same(candidates(a, level), a, b);
}

proof fn lemma_breadth_first_same(
    a: Seq<(VoxelKey, usize)>,
    b: Seq<(VoxelKey, usize)>,
    levels: nat,
)
    requires
        forall|k: VoxelKey| #[trigger] count_of(a, k) == count_of(b, k),
    ensures
        breadth_first(a, levels) == breadth_first(b, levels),
    decreases levels,
{
    if levels > 0 {
        lemma_breadth_first_same(a, b, (levels - 1) as nat);
        lemma_candidates_same(a, b, (levels - 1) as nat);
    }
}

/// The output order and the point counts depend on the nodes alone, not on the order in which
/// they are listed.
pub proof fn order_ignores_listing(a: Seq<(VoxelKey, usize)>, b: Seq<(VoxelKey, usize)>)
    requires
        distinct_nodes(a),
        distinct_nodes(b),
        forall|e: (VoxelKey, usize)| #[trigger] a.contains(e) <==> b.contains(e),
    ensures
        forall|k: VoxelKey| #[trigger] count_of(a, k) == count_of(b, k),
        breadth_first(a, level_count()) == breadth_first(b, level_count()),
        levels_in_range(a) <==> levels_in_range(b),
{
    assert forall|k: VoxelKey| #[trigger] count_of(a, k) == count_of(b, k) by {
        if count_of(a, k) is Some {
            let c = count_of(a, k)->0;
            lemma_count_of_distinct(a, k, c);
            lemma_count_of_distinct(b, k, c);
            assert(a.contains((k, c)));
        }
        if count_of(b, k) is Some {
            let c = count_of(b, k)->0;
            lemma_count_of_distinct(a, k, c);
            lemma_count_of_distinct(b, k, c);
            assert(a.contains((k, c)) <==> b.contains((k, c)));
        }
    }
    lemma_breadth_first_same(a, b, level_count());
    lemma_candidates_same(a, b, level_count());
}

proof fn lemma_last_entry(nodes: Seq<(VoxelKey, usize)>, i: int)
    requires
        0 <= i < nodes.len(),
        forall|j: int| i < j < nodes.len() ==> (#[trigger] nodes[j]).0 != nodes[i].0,
    ensures
        count_of(nodes, nodes[i].0) == Some(nodes[i].1),
    decreases nodes.len(),
{
    let h = nodes.drop_last();
    let n = h.len() as int;
    assert(nodes[n] == nodes.last());
    if i < n {
        assert forall|j: int| i < j < h.len() implies (#[trigger] h[j]).0 != h[i].0 by {
            assert(nodes[j].0 != nodes[i].0);
        }
        lemma_last_entry(h, i);
    }
}

/// The count of a key is that of its last entry; a key without an entry has none.
pub proof fn last_entry_counts(nodes: Seq<(VoxelKey, usize)>, key: VoxelKey)
    ensures
        forall|i: int|
            0 <= i < nodes.len() && (#[trigger] nodes[i]).0 == key && (forall|j: int|
                i < j < nodes.len() ==> (#[trigger] nodes[j]).0 != key) ==> count_of(nodes, key)
                == Some(nodes[i].1),
        (forall|i: int| 0 <= i < nodes.len() ==> (#[trigger] nodes[i]).0 != key) <==> count_of(
            nodes,
            key,
        ) is None,
        listed(nodes, key) <==> count_of(nodes, key) is Some,
{
    lemma_listed_entry(nodes, key);
    assert forall|i: int|
        0 <= i < nodes.len() && (#[trigger] nodes[i]).0 == key && (forall|j: int|
            i < j < nodes.len() ==> (#[trigger] nodes[j]).0 != key) implies count_of(nodes, key)
        == Some(nodes[i].1) by {
        lemma_last_entry(nodes, i);
    }
}

proof fn lemma_all_children_at(s: Seq<VoxelKey>, m: int, c: int)
    requires
        0 <= m < s.len(),
        0 <= c < 8,
    ensures
        all_children(s).len() == 8 * s.len(),
        all_children(s)[8 * m + c] == s[m].nth_child(c),
    decreases s.len(),
{
    let h = s.drop_last();
    if h.len() > 0 {
        lemma_all_children_at(h, if m < h.len() { m } else { 0 }, c);
    } else {
        assert(all_children(h).len() == 0);
    }
    assert(s.last().children_spec().len() == 8);
}

proof fn lemma_kept_at(s: Seq<VoxelKey>, nodes: Seq<(VoxelKey, usize)>, i: int) -> (a: int)
    requires
        0 <= i < keep_listed(s, nodes).len(),
    ensures
        0 <= a < s.len(),
        s[a] == keep_listed(s, nodes)[i],
    decreases s.len(),
{
    let h = s.drop_last();
    if i < keep_listed(h, nodes).len() {
        lemma_kept_at(h, nodes, i)
    } else {
        s.len() - 1
    }
}

proof fn lemma_kept_order(
    s: Seq<VoxelKey>,
    nodes: Seq<(VoxelKey, usize)>,
    i: int,
    j: int,
) -> (r: (int, int))
    requires
        0 <= i < j < keep_listed(s, nodes).len(),
    ensures
        0 <= r.0 < r.1 < s.len(),
        s[r.0] == keep_listed(s, nodes)[i],
        s[r.1] == keep_listed(s, nodes)[j],
    decreases s.len(),
{
    let h = s.drop_last();
    if j < keep_listed(h, nodes).len() {
        lemma_kept_order(h, nodes, i, j)
    } else {
        (lemma_kept_at(h, nodes, i), s.len() - 1)
    }
}

proof fn lemma_level_place(nodes: Seq<(VoxelKey, usize)>, level: nat, levels: nat)
    requires
        level < levels,
    ensures
        breadth_first(nodes, level).len() + reached(nodes, level).len() <= breadth_first(
            nodes,
            levels,
        ).len(),
        forall|x: int|
            0 <= x < reached(nodes, level).len() ==> #[trigger] reached(nodes, level)[x]
                == breadth_first(nodes, levels)[breadth_first(nodes, level).len() + x],
    decreases levels,
{
    let l = (levels - 1) as nat;
    if level < l {
        lemma_level_place(nodes, level, l);
    }
}

proof fn lemma_place_level(nodes: Seq<(VoxelKey, usize)>, levels: nat, i: int) -> (level: nat)
    requires
        0 <= i < breadth_first(nodes, levels).len(),
    ensures
        level < levels,
        breadth_first(nodes, level).len() <= i < breadth_first(nodes, level).len() + reached(
            nodes,
            level,
        ).len(),
        breadth_first(nodes, levels)[i] == reached(nodes, level)[i - breadth_first(
            nodes,
            level,
        ).len()],
    decreases levels,
{
    let l = (levels - 1) as nat;
    if i < breadth_first(nodes, l).len() {
        lemma_place_level(nodes, l, i)
    } else {
        l
    }
}

/// In the output order levels come one after the other, from the root's on.
pub proof fn order_goes_down(nodes: Seq<(VoxelKey, usize)>, i: int, j: int)
    requires
        levels_in_range(nodes),
        0 <= i < j < breadth_first(nodes, level_count()).len(),
    ensures
        breadth_first(nodes, level_count())[i].level <= breadth_first(
            nodes,
            level_count(),
        )[j].level,
{
    let a = lemma_place_level(nodes, level_count(), i);
    let b = lemma_place_level(nodes, level_count(), j);
    lemma_candidates(nodes, a);
    lemma_candidates(nodes, b);
    if b < a {
        lemma_level_place(nodes, b, a);
    }
}

/// Nodes of one level stand in the order of their parents, and those with the same parent in
/// the order of their places below it: x counts one, y two and z four.
///
/// The result tells where the two parents stand.
pub proof fn order_follows_parents(nodes: Seq<(VoxelKey, usize)>, i: int, j: int) -> (r: (
    int,
    int,
))
    requires
        levels_in_range(nodes),
        0 <= i < j < breadth_first(nodes, level_count()).len(),
        breadth_first(nodes, level_count())[i].level == breadth_first(
            nodes,
            level_count(),
        )[j].level,
        breadth_first(nodes, level_count())[i].level > 0,
    ensures
        ({
            let order = breadth_first(nodes, level_count());
            let (p, q) = r;
            let (dx, dy, dz) = (
                order[i].x - 2 * order[p].x,
                order[i].y - 2 * order[p].y,
                order[i].z - 2 * order[p].z,
            );
            let (ex, ey, ez) = (
                order[j].x - 2 * order[q].x,
                order[j].y - 2 * order[q].y,
                order[j].z - 2 * order[q].z,
            );
            &&& 0 <= p <= q < i
            &&& order[p].level == order[i].level - 1
            &&& order[q].level == order[j].level - 1
            &&& 0 <= dx <= 1 && 0 <= dy <= 1 && 0 <= dz <= 1
            &&& 0 <= ex <= 1 && 0 <= ey <= 1 && 0 <= ez <= 1
            &&& p < q || dx + 2 * dy + 4 * dz < ex + 2 * ey + 4 * ez
        }),
{
    let order = breadth_first(nodes, level_count());
    let l = lemma_place_level(nodes, level_count(), i);
    let o = lemma_place_level(nodes, level_count(), j);
    lemma_candidates(nodes, l);
    lemma_candidates(nodes, o);
    assert(reached(nodes, l)[i - breadth_first(nodes, l).len()].level == l);
    assert(reached(nodes, o)[j - breadth_first(nodes, o).len()].level == o);
    assert(l == o && l > 0);
    let m = (l - 1) as nat;
    let start = breadth_first(nodes, l).len() as int;
    let up = breadth_first(nodes, m).len() as int;
    let (a, b) = lemma_kept_order(candidates(nodes, l), nodes, i - start, j - start);
    let above = reached(nodes, m);
    lemma_candidates(nodes, m);
    lemma_all_children(above, m);
    lemma_all_children_at(above, a / 8, a % 8);
    lemma_all_children_at(above, b / 8, b % 8);
    lemma_can_split(above[a / 8]);
    lemma_can_split(above[b / 8]);
    lemma_level_place(nodes, m, level_count());
    lemma_level_place(nodes, m, l);
    let p = up + a / 8;
    let q = up + b / 8;
    assert(order[p] == above[a / 8]);
    assert(order[q] == above[b / 8]);
    assert(order[i] == above[a / 8].nth_child(a % 8));
    assert(order[j] == above[b / 8].nth_child(b % 8));
    let (u, v) = (a % 8, b % 8);
    assert(u == u % 2 + 2 * ((u / 2) % 2) + 4 * ((u / 4) % 2));
    assert(v == v % 2 + 2 * ((v / 2) % 2) + 4 * ((v / 4) % 2));
    (p, q)
}

/// A key is in the output order exactly if it has an entry, and is the root or one of the
/// eight children of a key that is in the order.
pub proof fn order_membership(nodes: Seq<(VoxelKey, usize)>, key: VoxelKey)
    requires
        levels_in_range(nodes),
    ensures
        breadth_first(nodes, level_count()).contains(key) <==> (exists|i: int|
            0 <= i < nodes.len() && (#[trigger] nodes[i]).0 == key) && ((key.level == 0 && key.x
            == 0 && key.y == 0 && key.z == 0) || exists|p: VoxelKey| #[trigger]
            breadth_first(nodes, level_count()).contains(p) && p.level + 1 == key.level && p.x
                == key.x as int / 2 && p.y == key.y as int / 2 && p.z == key.z as int / 2),
{
    let order = breadth_first(nodes, level_count());
    lemma_listed_entry(nodes, key);
    if order.contains(key) {
        let i = order.index_of(key);
        let l = lemma_place_level(nodes, level_count(), i);
        lemma_candidates(nodes, l);
        lemma_keep_listed(candidates(nodes, l), nodes);
        assert(reached(nodes, l).contains(key));
        assert(candidates(nodes, l).contains(key));
        if l > 0 {
            let m = (l - 1) as nat;
            lemma_candidates(nodes, m);
            lemma_all_children(reached(nodes, m), m);
            lemma_level_in_order(nodes, m, level_count(), key.parent_spec()->0);
        }
    }
    if listed(nodes, key) {
        if key == VoxelKey::root_spec() {
            lemma_keep_listed(candidates(nodes, 0), nodes);
            assert(candidates(nodes, 0)[0] == key);
            assert(reached(nodes, 0).contains(key));
            lemma_level_in_order(nodes, 0, level_count(), key);
        }
        if exists|p: VoxelKey| #[trigger]
            order.contains(p) && p.level + 1 == key.level && p.x == key.x as int / 2 && p.y
                == key.y as int / 2 && p.z == key.z as int / 2 {
            let p = choose|p: VoxelKey| #[trigger]
                order.contains(p) && p.level + 1 == key.level && p.x == key.x as int / 2 && p.y
                    == key.y as int / 2 && p.z == key.z as int / 2;
            let m = lemma_place_level(nodes, level_count(), order.index_of(p));
            lemma_candidates(nodes, m);
            lemma_all_children(reached(nodes, m), m);
            lemma_keep_listed(candidates(nodes, m + 1), nodes);
            assert(reached(nodes, m).contains(p));
            assert(key.parent_spec() == Some(p));
            assert(candidates(nodes, m + 1).contains(key));
            assert(reached(nodes, m + 1).contains(key));
            lemma_level_in_order(nodes, m + 1, level_count(), key);
        }
    }
}

/// With distinct keys every entry's count is the one of its key.
pub proof fn count_of_distinct_entry(nodes: Seq<(VoxelKey, usize)>, node: (VoxelKey, usize))
    requires
        distinct_nodes(nodes),
        nodes.contains(node),
    ensures
        count_of(nodes, node.0) == Some(node.1),
{
    lemma_count_of_distinct(nodes, node.0, node.1);
}

/// Trees of up to 30 levels below the root can be ordered, whatever nodes they have.
pub proof fn thirty_levels_are_in_range(nodes: Seq<(VoxelKey, usize)>)
    requires
        forall|i: int| 0 <= i < nodes.len() ==> (#[trigger] nodes[i]).0.level <= 30,
    ensures
        levels_in_range(nodes),
{
    shallow_nodes_are_in_range(nodes);
}

} // verus!
