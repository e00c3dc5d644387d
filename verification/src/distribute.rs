//! Pass 2: the buffers that points wait in until they are appended to their leaf's
//! file.
use crate::key_index::KeyIndex;
use crate::memory::{
    flush_interval, flush_interval_spec, plan_read, plan_read_spec, PipelineConfig, ReadPlan,
    DECODED_POINT_BYTES,
};
use crate::octree::OctreeBuilder;
use crate::point::{
    appended_records_are_read_in_order, decoded_points, encode_points, encoded_points,
    node_file_gives_back_points, written_in_parts, RawPoint,
};
use crate::voxel::VoxelKey;
use vstd::prelude::*;

verus! {

/// The points of one leaf among classified points, in order.
pub open spec fn points_of(classified: Seq<(VoxelKey, RawPoint)>, key: VoxelKey) -> Seq<RawPoint>
    decreases classified.len(),
{
    if classified.len() == 0 {
        Seq::empty()
    } else {
        let head = points_of(classified.drop_last(), key);
        if classified.last().0 == key {
            head.push(classified.last().1)
        } else {
            head
        }
    }
}

/// Whether one of `slots` is the buffer of a leaf.
pub open spec fn has_slot(slots: Seq<(VoxelKey, Vec<RawPoint>)>, key: VoxelKey) -> bool {
    exists|i: int| 0 <= i < slots.len() && (#[trigger] slots[i]).0 == key
}

/// Which of `slots` is the buffer of a leaf.
pub open spec fn slot_of(slots: Seq<(VoxelKey, Vec<RawPoint>)>, key: VoxelKey) -> int {
    choose|i: int| 0 <= i < slots.len() && (#[trigger] slots[i]).0 == key
}

/// The points of one leaf that wait in `slots`.
pub open spec fn waiting(slots: Seq<(VoxelKey, Vec<RawPoint>)>, key: VoxelKey) -> Seq<RawPoint> {
    if has_slot(slots, key) {
        slots[slot_of(slots, key)].1@
    } else {
        Seq::empty()
    }
}

/// How many points wait in `slots`.
pub open spec fn waiting_total(slots: Seq<(VoxelKey, Vec<RawPoint>)>) -> nat
    decreases slots.len(),
{
    if slots.len() == 0 {
        0
    } else {
        waiting_total(slots.drop_last()) + slots.last().1@.len()
    }
}

proof fn lemma_total_updated(
    a: Seq<(VoxelKey, Vec<RawPoint>)>,
    b: Seq<(VoxelKey, Vec<RawPoint>)>,
    at: int,
)
    requires
        a.len() == b.len(),
        0 <= at < a.len(),
        forall|i: int|
            0 <= i < a.len() ==> (#[trigger] b[i]).1@.len() == a[i].1@.len() + if i == at {
                1int
            } else {
                0
            },
    ensures
        waiting_total(b) == waiting_total(a) + 1,
    decreases a.len(),
{
    let n = a.len() - 1;
    if at < n {
        lemma_total_updated(a.drop_last(), b.drop_last(), at);
    } else {
        lemma_total_same(a.drop_last(), b.drop_last());
    }
    assert(b.last() == b[n] && a.last() == a[n]);
}

proof fn lemma_total_same(a: Seq<(VoxelKey, Vec<RawPoint>)>, b: Seq<(VoxelKey, Vec<RawPoint>)>)
    requires
        a.len() == b.len(),
        forall|i: int| 0 <= i < a.len() ==> (#[trigger] b[i]).1@.len() == a[i].1@.len(),
    ensures
        waiting_total(b) == waiting_total(a),
    decreases a.len(),
{
    if a.len() > 0 {
        lemma_total_same(a.drop_last(), b.drop_last());
        assert(b.last() == b[a.len() - 1]);
    }
}

proof fn lemma_total_at_least(a: Seq<(VoxelKey, Vec<RawPoint>)>, i: int)
    requires
        0 <= i < a.len(),
    ensures
        a[i].1@.len() <= waiting_total(a),
    decreases a.len(),
{
    if i < a.len() - 1 {
        lemma_total_at_least(a.drop_last(), i);
    }
}

proof fn lemma_total_zero(a: Seq<(VoxelKey, Vec<RawPoint>)>)
    requires
        forall|i: int| 0 <= i < a.len() ==> (#[trigger] a[i]).1@.len() == 0,
    ensures
        waiting_total(a) == 0,
    decreases a.len(),
{
    if a.len() > 0 {
        lemma_total_zero(a.drop_last());
        assert(a.last() == a[a.len() - 1]);
    }
}

/// Whether the buffers are flushed once `count` points were taken in.
pub open spec fn flush_due(count: nat, flush_every: usize) -> bool {
    count % flush_every as nat == 0
}

/// What remains to be done after points were taken into the buffers.
#[derive(Debug, Clone, Copy, PartialEq, Eq, Structural)]
pub struct Progress {
    /// The first point that was not taken in yet.
    pub next: usize,
    /// Whether the buffers have to be flushed before it is.
    pub flush: bool,
}

/// The points that wait to be written, by leaf.
pub struct LeafBuffers {
    /// The place of each leaf's buffer.
    pub index: KeyIndex,
    /// The buffers, each with its leaf.
    pub slots: Vec<(VoxelKey, Vec<RawPoint>)>,
    /// How many points were taken in so far.
    pub point_idx: u64,
    /// After how many points the buffers are flushed.
    pub flush_every: usize,
}

/// The leaves whose buffers `slots` are.
pub open spec fn slot_keys(slots: Seq<(VoxelKey, Vec<RawPoint>)>) -> Seq<VoxelKey> {
    Seq::new(slots.len(), |i: int| slots[i].0)
}

proof fn lemma_waiting_at(slots: Seq<(VoxelKey, Vec<RawPoint>)>, key: VoxelKey)
    requires
        slot_keys(slots).no_duplicates(),
    ensures
        has_slot(slots, key) <==> slot_keys(slots).contains(key),
        forall|i: int|
            0 <= i < slots.len() && (#[trigger] slots[i]).0 == key ==> waiting(slots, key)
                == slots[i].1@,
{
    let keys = slot_keys(slots);
    if keys.contains(key) {
        assert(slots[keys.index_of(key)].0 == key);
    }
    if has_slot(slots, key) {
        let j = slot_of(slots, key);
        assert(keys[j] == key);
        assert forall|i: int| 0 <= i < slots.len() && (#[trigger] slots[i]).0 == key implies waiting(
            slots,
            key,
        ) == slots[i].1@ by {
            assert(keys[i] == keys[j]);
        }
    }
}

/// Whether one of `slots` accounts for bytes that are sent to a leaf's file.
spec fn sent_by(slots: Seq<(VoxelKey, Vec<RawPoint>)>, sent: (VoxelKey, Vec<u8>)) -> bool {
    exists|j: int|
        0 <= j < slots.len() && (#[trigger] slots[j]).0 == sent.0 && slots[j].1@.len() > 0
            && sent.1@ == encoded_points(slots[j].1@)
}

proof fn lemma_sent_by_more(
    slots: Seq<(VoxelKey, Vec<RawPoint>)>,
    i: int,
    sent: (VoxelKey, Vec<u8>),
)
    requires
        0 <= i < slots.len(),
        sent_by(slots.take(i), sent),
    ensures
        sent_by(slots.take(i + 1), sent),
{
    let a = slots.take(i);
    let b = slots.take(i + 1);
    let j = choose|j: int|
        0 <= j < a.len() && (#[trigger] a[j]).0 == sent.0 && a[j].1@.len() > 0 && sent.1@
            == encoded_points(a[j].1@);
    assert(b[j] == a[j]);
}

impl LeafBuffers {
    pub open spec fn wf(self) -> bool {
        &&& self.index.wf()
        &&& self.index@ == slot_keys(self.slots@)
        &&& self.flush_every > 0
    }

    /// The points of one leaf that wait to be written.
    pub open spec fn pending(self, key: VoxelKey) -> Seq<RawPoint> {
        waiting(self.slots@, key)
    }

    /// Whether a leaf has a buffer, be it empty.
    pub open spec fn has_buffer(self, key: VoxelKey) -> bool {
        has_slot(self.slots@, key)
    }

    /// How many points wait to be written.
    pub open spec fn pending_total(self) -> nat {
        waiting_total(self.slots@)
    }

    /// Whether the points that wait are those taken in since the last time that a flush
    /// was due.
    pub open spec fn in_step(self) -> bool {
        self.pending_total() == self.point_idx as nat % self.flush_every as nat
    }

    /// Empty buffers that are to be flushed after every `flush_every` points.
    pub fn new(flush_every: usize) -> (r: LeafBuffers)
        requires
            flush_every > 0,
        ensures
            r.wf(),
            r.point_idx == 0,
            r.flush_every == flush_every,
            r.pending_total() == 0,
            r.in_step(),
            forall|k: VoxelKey| !(#[trigger] r.has_buffer(k)),
            forall|k: VoxelKey| #[trigger] r.pending(k) == Seq::<RawPoint>::empty(),
    {
        let r = LeafBuffers { index: KeyIndex::new(), slots: Vec::new(), point_idx: 0, flush_every };
        assert(r.index@ =~= slot_keys(r.slots@));
        r
    }

    /// Puts one point into its leaf's buffer.
    fn push(&mut self, key: VoxelKey, raw: RawPoint)
        requires
            old(self).wf(),
        ensures
            final(self).wf(),
            final(self).point_idx == old(self).point_idx,
            final(self).flush_every == old(self).flush_every,
            final(self).pending_total() == old(self).pending_total() + 1,
            forall|k: VoxelKey| #[trigger]
                final(self).has_buffer(k) <==> old(self).has_buffer(k) || k == key,
            forall|k: VoxelKey| #[trigger]
                final(self).pending(k) == (if k == key {
                    old(self).pending(k).push(raw)
                } else {
                    old(self).pending(k)
                }),
    {
        let ghost before = self.slots@;
        proof {
            self.index.lemma_distinct();
        }
        match self.index.find(&key) {
            Some(at) => {
                self.slots[at].1.push(raw);
                proof {
                    let after = self.slots@;
                    assert(before[at as int].0 == key);
                    assert forall|i: int| 0 <= i < after.len() implies (#[trigger] after[i]).0
                        == before[i].0 && after[i].1@ == (if i == at {
                        before[i].1@.push(raw)
                    } else {
                        before[i].1@
                    }) by {}
                    lemma_total_updated(before, after, at as int);
                    assert(slot_keys(after) =~= slot_keys(before));
                    assert forall|k: VoxelKey| #[trigger]
                        self.has_buffer(k) <==> old(self).has_buffer(k) || k == key by {
                        lemma_waiting_at(before, k);
                        lemma_waiting_at(after, k);
                        if k == key {
                            assert(after[at as int].0 == k);
                        }
                    }
                    assert forall|k: VoxelKey| #[trigger] self.pending(k) == (if k == key {
                        old(self).pending(k).push(raw)
                    } else {
                        old(self).pending(k)
                    }) by {
                        lemma_waiting_at(before, k);
                        lemma_waiting_at(after, k);
                        if has_slot(after, k) {
                            let j = choose|j: int| 0 <= j < after.len() && (#[trigger] after[j]).0 == k;
                            assert(before[j].0 == k);
                            if k == key {
                                assert(after[at as int].0 == k);
                            }
                        }
                    }
                }
            },
            None => {
                let mut points: Vec<RawPoint> = Vec::new();
                points.push(raw);
                self.index.push(key, self.slots.len());
                self.slots.push((key, points));
                proof {
                    let after = self.slots@;
                    let n = before.len() as int;
                    assert(after.drop_last() =~= before);
                    assert(slot_keys(after) =~= slot_keys(before).push(key));
                    self.index.lemma_distinct();
                    assert forall|k: VoxelKey| #[trigger]
                        self.has_buffer(k) <==> old(self).has_buffer(k) || k == key by {
                        if old(self).has_buffer(k) {
                            let j = choose|j: int| 0 <= j < before.len() && (#[trigger] before[j]).0 == k;
                            assert(after[j].0 == k);
                        }
                        if self.has_buffer(k) {
                            let j = choose|j: int| 0 <= j < after.len() && (#[trigger] after[j]).0 == k;
                            if j < n {
                                assert(before[j].0 == k);
                            }
                        }
                        assert(after[n].0 == key);
                    }
                    assert forall|k: VoxelKey| #[trigger] self.pending(k) == (if k == key {
                        old(self).pending(k).push(raw)
                    } else {
                        old(self).pending(k)
                    }) by {
                        lemma_waiting_at(before, k);
                        lemma_waiting_at(after, k);
                        if k == key {
                            assert(after[n].0 == k);
                            assert(after[n].1@ =~= Seq::<RawPoint>::empty().push(raw));
                        } else if old(self).has_buffer(k) {
                            let j = choose|j: int| 0 <= j < before.len() && (#[trigger] before[j]).0 == k;
                            assert(after[j] == before[j]);
                        } else {
                            assert(!self.has_buffer(k));
                        }
                    }
                }
            },
        }
    }

    /// Merge classified points into per-key buffers, from the point at `from` on, up to
    /// the point after which a flush is due: one at which the number of points taken in
    /// reaches a multiple of the flush interval.
    pub fn merge_into_buffers(
        &mut self,
        classified: &Vec<(VoxelKey, RawPoint)>,
        from: usize,
    ) -> (r: Progress)
        requires
            old(self).wf(),
            from <= classified.len(),
            old(self).point_idx + (classified.len() - from) <= u64::MAX,
        ensures
            final(self).wf(),
            final(self).flush_every == old(self).flush_every,
            from <= r.next <= classified.len(),
            final(self).point_idx == old(self).point_idx + (r.next - from),
            final(self).pending_total() == old(self).pending_total() + (r.next - from),
            // as long as flushes are made when due, the interval bounds what waits
            old(self).in_step() ==> final(self).pending_total() <= final(self).flush_every && (
            !r.flush ==> final(self).in_step()),
            r.flush <==> from < r.next && flush_due(
                final(self).point_idx as nat,
                old(self).flush_every,
            ),
            !r.flush ==> r.next == classified.len(),
            forall|n: nat|
                old(self).point_idx < n < final(self).point_idx ==> !flush_due(
                    n,
                    old(self).flush_every,
                ),
            forall|k: VoxelKey| #[trigger]
                final(self).has_buffer(k) <==> old(self).has_buffer(k) || points_of(
                    classified@.subrange(from as int, r.next as int),
                    k,
                ).len() > 0,
            forall|k: VoxelKey| #[trigger]
                final(self).pending(k) == old(self).pending(k) + points_of(
                    classified@.subrange(from as int, r.next as int),
                    k,
                ),
    {
        let mut i: usize = from;
        assert(classified@.subrange(from as int, from as int) =~= Seq::empty());
        assert forall|k: VoxelKey| #[trigger] self.pending(k) == old(self).pending(k) + points_of(
            classified@.subrange(from as int, from as int),
            k,
        ) by {
            assert(old(self).pending(k) + Seq::<RawPoint>::empty() =~= old(self).pending(k));
        }
        while i < classified.len()
            invariant
                from <= i <= classified.len(),
                self.wf(),
                self.flush_every == old(self).flush_every,
                self.point_idx == old(self).point_idx + (i - from),
                self.pending_total() == old(self).pending_total() + (i - from),
                old(self).point_idx + (classified.len() - from) <= u64::MAX,
                i > from ==> !flush_due(self.point_idx as nat, self.flush_every),
                forall|n: nat|
                    old(self).point_idx < n < self.point_idx ==> !flush_due(n, self.flush_every),
                forall|k: VoxelKey| #[trigger]
                    self.has_buffer(k) <==> old(self).has_buffer(k) || points_of(
                        classified@.subrange(from as int, i as int),
                        k,
                    ).len() > 0,
                forall|k: VoxelKey| #[trigger]
                    self.pending(k) == old(self).pending(k) + points_of(
                        classified@.subrange(from as int, i as int),
                        k,
                    ),
            decreases classified.len() - i,
        {
            let ghost before = *self;
            let (key, raw) = classified[i];
            self.push(key, raw);
            let ghost pushed = *self;
            self.point_idx = self.point_idx + 1;
            proof {
                let a = classified@.subrange(from as int, i as int);
                let b = classified@.subrange(from as int, i + 1);
                assert(b.drop_last() =~= a);
                assert(b.last() == (key, raw));
                assert forall|k: VoxelKey| #[trigger] self.has_buffer(k) <==> old(self).has_buffer(k)
                    || points_of(b, k).len() > 0 by {
                    assert(self.has_buffer(k) == pushed.has_buffer(k));
                    assert(before.has_buffer(k) <==> old(self).has_buffer(k) || points_of(a, k).len()
                        > 0);
                }
                assert forall|k: VoxelKey| #[trigger] self.pending(k) == old(self).pending(k)
                    + points_of(b, k) by {
                    assert(self.pending(k) == pushed.pending(k));
                    assert(before.pending(k) == old(self).pending(k) + points_of(a, k));
                    if k == key {
                        assert(self.pending(k) =~= old(self).pending(k) + points_of(a, k).push(raw));
                    }
                }
            }
            i = i + 1;
            if self.point_idx % self.flush_every as u64 == 0 {
                proof {
                    if old(self).in_step() {
                        lemma_within_interval(
                            self.flush_every,
                            old(self).point_idx as nat,
                            old(self).pending_total(),
                            self.point_idx as nat,
                        );
                    }
                }
                return Progress { next: i, flush: true };
            }
        }
        proof {
            if old(self).in_step() {
                lemma_within_interval(
                    self.flush_every,
                    old(self).point_idx as nat,
                    old(self).pending_total(),
                    self.point_idx as nat,
                );
            }
        }
        Progress { next: i, flush: false }
    }

    /// Empties all buffers. Gives what is to be appended to the files of the leaves that
    /// had points waiting.
    pub fn flush_buffers(&mut self) -> (r: Vec<(VoxelKey, Vec<u8>)>)
        requires
            old(self).wf(),
        ensures
            final(self).wf(),
            final(self).point_idx == old(self).point_idx,
            final(self).flush_every == old(self).flush_every,
            final(self).pending_total() == 0,
            flush_due(old(self).point_idx as nat, old(self).flush_every) ==> final(self).in_step(),
            forall|k: VoxelKey| #[trigger] final(self).has_buffer(k) <==> old(self).has_buffer(k),
            // with nothing waiting, as straight after a flush, there is nothing to write
            old(self).pending_total() == 0 ==> r.len() == 0,
            forall|k: VoxelKey| #[trigger] final(self).pending(k) == Seq::<RawPoint>::empty(),
            forall|i: int, j: int|
                0 <= i < r.len() && 0 <= j < r.len() && i != j ==> (#[trigger] r[i]).0 != (
                #[trigger] r[j]).0,
            forall|i: int|
                0 <= i < r.len() ==> old(self).pending((#[trigger] r[i]).0).len() > 0 && r[i].1@
                    == encoded_points(old(self).pending(r[i].0)),
            forall|k: VoxelKey| #[trigger]
                old(self).pending(k).len() > 0 ==> exists|i: int|
                    0 <= i < r.len() && (#[trigger] r[i]).0 == k,
    {
        let ghost start = self.slots@;
        proof {
            self.index.lemma_distinct();
        }
        let mut r: Vec<(VoxelKey, Vec<u8>)> = Vec::new();
        let mut i: usize = 0;
        while i < self.slots.len()
            invariant
                0 <= i <= self.slots.len(),
                self.index.wf(),
                self.index@ == slot_keys(start),
                slot_keys(start).no_duplicates(),
                self.flush_every > 0,
                self.point_idx == old(self).point_idx,
                self.flush_every == old(self).flush_every,
                self.slots@.len() == start.len(),
                forall|j: int|
                    0 <= j < start.len() ==> (#[trigger] self.slots@[j]).0 == start[j].0 && (if j < i {
                        self.slots@[j].1@ == Seq::<RawPoint>::empty()
                    } else {
                        self.slots@[j].1@ == start[j].1@
                    }),
                forall|a: int| 0 <= a < r.len() ==> sent_by(start.take(i as int), #[trigger] r[a]),
                forall|a: int, b: int|
                    0 <= a < r.len() && 0 <= b < r.len() && a != b ==> (#[trigger] r[a]).0 != (
                    #[trigger] r[b]).0,
                forall|j: int|
                    0 <= j < i && (#[trigger] start[j]).1@.len() > 0 ==> exists|a: int|
                        0 <= a < r.len() && (#[trigger] r[a]).0 == start[j].0,
            decreases self.slots.len() - i,
        {
            let ghost sent = r@;
            if self.slots[i].1.len() > 0 {
                let bytes = encode_points(&self.slots[i].1);
                let key: VoxelKey = self.slots[i].0;
                assert(self.slots@[i as int].0 == start[i as int].0);
                r.push((key, bytes));
                self.slots[i].1.clear();
                proof {
                    assert forall|a: int| 0 <= a < r.len() implies sent_by(
                        start.take(i + 1),
                        #[trigger] r[a],
                    ) by {
                        if a < sent.len() {
                            assert(r[a] == sent[a]);
                            lemma_sent_by_more(start, i as int, sent[a]);
                        } else {
                            assert(start.take(i + 1)[i as int].0 == r[a].0);
                        }
                    }
                    assert forall|a: int, b: int|
                        0 <= a < r.len() && 0 <= b < r.len() && a != b implies (#[trigger] r[a]).0
                        != (#[trigger] r[b]).0 by {
                        let n = sent.len() as int;
                        if a < n && b < n {
                            assert(sent[a].0 != sent[b].0);
                        } else {
                            let o = if a < n { a } else { b };
                            assert(r[o] == sent[o]);
                            assert(sent_by(start.take(i as int), sent[o]));
                            let t = start.take(i as int);
                            let j = choose|j: int|
                                0 <= j < t.len() && (#[trigger] t[j]).0 == sent[o].0 && t[j].1@.len() > 0
                                    && sent[o].1@ == encoded_points(t[j].1@);
                            assert(start[j].0 == sent[o].0);
                            assert(slot_keys(start)[j] != slot_keys(start)[i as int]);
                        }
                    }
                    assert forall|j: int|
                        0 <= j < i + 1 && (#[trigger] start[j]).1@.len() > 0 implies exists|a: int|
                        0 <= a < r.len() && (#[trigger] r[a]).0 == start[j].0 by {
                        if j < i {
                            let a = choose|a: int|
                                0 <= a < sent.len() && (#[trigger] sent[a]).0 == start[j].0;
                            assert(r[a] == sent[a]);
                        } else {
                            assert(r[sent.len() as int].0 == start[j].0);
                        }
                    }
                }
            } else {
                proof {
                    assert(self.slots@[i as int].1@ == start[i as int].1@);
                    assert(start[i as int].1@ =~= Seq::<RawPoint>::empty());
                    assert forall|a: int| 0 <= a < r.len() implies sent_by(
                        start.take(i + 1),
                        #[trigger] r[a],
                    ) by {
                        lemma_sent_by_more(start, i as int, r[a]);
                    }
                }
            }
            i = i + 1;
        }
        proof {
            let after = self.slots@;
            assert(slot_keys(after) =~= slot_keys(start));
            lemma_total_zero(after);
            assert forall|k: VoxelKey| #[trigger] self.pending(k) == Seq::<RawPoint>::empty() by {
                lemma_waiting_at(after, k);
            }
            assert forall|k: VoxelKey| #[trigger]
                self.has_buffer(k) <==> old(self).has_buffer(k) by {
                lemma_waiting_at(start, k);
                lemma_waiting_at(after, k);
            }
            assert forall|a: int| 0 <= a < r.len() implies old(self).pending((#[trigger] r[a]).0).len()
                > 0 && r[a].1@ == encoded_points(old(self).pending(r[a].0)) by {
                lemma_waiting_at(start, r[a].0);
                assert(start.take(start.len() as int) =~= start);
                assert(sent_by(start, r[a]));
            }
            if r.len() > 0 {
                assert(sent_by(start, r[0]));
                let j = choose|j: int|
                    0 <= j < start.len() && (#[trigger] start[j]).0 == r[0].0 && start[j].1@.len() > 0
                        && r[0].1@ == encoded_points(start[j].1@);
                lemma_total_at_least(start, j);
            }
            assert forall|k: VoxelKey| #[trigger]
                old(self).pending(k).len() > 0 implies exists|a: int|
                0 <= a < r.len() && (#[trigger] r[a]).0 == k by {
                lemma_waiting_at(start, k);
                let j = choose|j: int| 0 <= j < start.len() && (#[trigger] start[j]).0 == k;
                assert(start[j].1@.len() > 0);
            }
        }
        r
    }
}

/// What pass 2 does next.
#[derive(Debug, Clone, Copy, PartialEq, Eq, Structural)]
pub enum Step {
    /// Open the input file with this index.
    Open { file: usize },
    /// Read all points of the open file and merge them into the buffers.
    ReadAll,
    /// Read at most this many points of the open file and merge them into the buffers.
    ReadBatch { batch_size: u64 },
    /// Flush the buffers one last time.
    Finish,
}

/// How far pass 2 has come.
pub struct Distribution {
    pub buffers: LeafBuffers,
    pub memory_budget: u64,
    /// How many input files there are.
    pub file_count: usize,
    /// How many of them were opened.
    pub files_opened: usize,
    /// How the open file is read, as long as points may be left in it.
    pub reading: Option<ReadPlan>,
}

impl OctreeBuilder {
    /// Pass 2: assign all points of the input files to leaf files. Starts with empty
    /// buffers, which are flushed as often as the memory budget asks for.
    pub fn distribute(&self, file_count: usize, config: &PipelineConfig) -> (r: Distribution)
        ensures
            r.wf(),
            r.memory_budget == config.memory_budget,
            r.file_count == file_count,
            r.files_opened == 0,
            r.reading is None,
            r.buffers.point_idx == 0,
            r.buffers.flush_every == flush_interval_spec(config.memory_budget),
            r.buffers.pending_total() == 0,
            r.buffers.in_step(),
            forall|k: VoxelKey| !(#[trigger] r.buffers.has_buffer(k)),
            forall|k: VoxelKey| #[trigger] r.buffers.pending(k) == Seq::<RawPoint>::empty(),
    {
        Distribution {
            buffers: LeafBuffers::new(flush_interval(config.memory_budget)),
            memory_budget: config.memory_budget,
            file_count,
            files_opened: 0,
            reading: None,
        }
    }
}

impl Distribution {
    pub open spec fn wf(self) -> bool {
        &&& self.buffers.wf()
        &&& self.files_opened <= self.file_count
        &&& self.reading is Some ==> self.files_opened > 0
    }

    /// What to do next: read on in the open file, else open the next one, until all are
    /// read.
    pub open spec fn next_step_spec(self) -> Step {
        match self.reading {
            Some(ReadPlan::Whole) => Step::ReadAll,
            Some(ReadPlan::Batched { batch_size }) => Step::ReadBatch { batch_size },
            None => if self.files_opened < self.file_count {
                Step::Open { file: self.files_opened }
            } else {
                Step::Finish
            },
        }
    }

    pub fn next_step(&self) -> (r: Step)
        ensures
            r == self.next_step_spec(),
            self.reading == Some(ReadPlan::Whole) ==> r == Step::ReadAll,
            self.reading matches Some(ReadPlan::Batched { batch_size }) ==> r == (Step::ReadBatch {
                batch_size,
            }),
            self.reading is None && self.files_opened < self.file_count ==> r == (Step::Open {
                file: self.files_opened,
            }),
            self.reading is None && self.files_opened >= self.file_count ==> r == Step::Finish,
    {
        match self.reading {
            Some(ReadPlan::Whole) => Step::ReadAll,
            Some(ReadPlan::Batched { batch_size }) => Step::ReadBatch { batch_size },
            None => if self.files_opened < self.file_count {
                Step::Open { file: self.files_opened }
            } else {
                Step::Finish
            },
        }
    }

    /// Takes note that the next file was opened, and decides how to read its points.
    pub fn file_opened(&mut self, point_count: u64)
        requires
            old(self).wf(),
            old(self).next_step_spec() is Open,
            point_count * DECODED_POINT_BYTES <= u64::MAX,
        ensures
            final(self).wf(),
            *final(self) == (Distribution {
                files_opened: (old(self).files_opened + 1) as usize,
                reading: Some(plan_read_spec(point_count, old(self).memory_budget)),
                ..*old(self)
            }),
            final(self).files_opened == old(self).files_opened + 1,
            final(self).reading == Some(ReadPlan::Whole) <==> point_count * 120
                <= old(self).memory_budget / 2,
            final(self).reading is Some,
            final(self).reading->0 matches ReadPlan::Batched { batch_size } ==> batch_size >= 1 && (
            batch_size * 120 <= old(self).memory_budget / 2 || batch_size == 1)
                && old(self).memory_budget / 2 < (batch_size + 1) * 120,
            final(self).buffers == old(self).buffers,
            final(self).memory_budget == old(self).memory_budget,
            final(self).file_count == old(self).file_count,
    {
        self.reading = Some(plan_read(point_count, self.memory_budget));
        self.files_opened = self.files_opened + 1;
    }

    /// Takes note that `count` points were read from the open file. One that is read whole
    /// is then done; one that is read in batches is done once a batch is empty.
    pub fn points_read(&mut self, count: u64)
        requires
            old(self).wf(),
            old(self).reading is Some,
        ensures
            final(self).wf(),
            *final(self) == (Distribution {
                reading: if old(self).reading is Some && old(self).reading->0 is Batched && count
                    > 0 {
                    old(self).reading
                } else {
                    None
                },
                ..*old(self)
            }),
            old(self).reading == Some(ReadPlan::Whole) || count == 0 ==> final(self).reading is None,
            old(self).reading != Some(ReadPlan::Whole) && count > 0 ==> final(self).reading
                == old(self).reading,
            final(self).buffers == old(self).buffers,
            final(self).memory_budget == old(self).memory_budget,
            final(self).file_count == old(self).file_count,
            final(self).files_opened == old(self).files_opened,
    {
        match self.reading {
            Some(ReadPlan::Batched { .. }) => {
                if count == 0 {
                    self.reading = None;
                }
            },
            _ => {
                self.reading = None;
            },
        }
    }
}

/// The leaf files after the bytes of a flush were appended to them.
pub open spec fn appended(
    files: spec_fn(VoxelKey) -> Seq<u8>,
    sent: Seq<(VoxelKey, Vec<u8>)>,
) -> spec_fn(VoxelKey) -> Seq<u8>
    decreases sent.len(),
{
    if sent.len() == 0 {
        files
    } else {
        let head = appended(files, sent.drop_last());
        |k: VoxelKey|
            if k == sent.last().0 {
                head(k) + sent.last().1@
            } else {
                head(k)
            }
    }
}

/// Leaf files before any is written: a leaf without a file has no bytes.
pub open spec fn no_files() -> spec_fn(VoxelKey) -> Seq<u8> {
    |k: VoxelKey| Seq::empty()
}

/// Whether each leaf's file, followed by the points that wait to be written, is what it was
/// before, followed by the leaf's points in `history`.
pub open spec fn accounted(
    history: Seq<(VoxelKey, RawPoint)>,
    before: spec_fn(VoxelKey) -> Seq<u8>,
    files: spec_fn(VoxelKey) -> Seq<u8>,
    buffers: LeafBuffers,
) -> bool {
    forall|k: VoxelKey| #[trigger]
        files(k) + encoded_points(buffers.pending(k)) == before(k) + encoded_points(
            points_of(history, k),
        )
}

proof fn lemma_points_of_concat(
    a: Seq<(VoxelKey, RawPoint)>,
    b: Seq<(VoxelKey, RawPoint)>,
    key: VoxelKey,
)
    ensures
        points_of(a + b, key) == points_of(a, key) + points_of(b, key),
    decreases b.len(),
{
    if b.len() == 0 {
        assert(a + b =~= a);
        assert(points_of(a, key) + points_of(b, key) =~= points_of(a, key));
    } else {
        lemma_points_of_concat(a, b.drop_last(), key);
        assert((a + b).drop_last() =~= a + b.drop_last());
        assert((a + b).last() == b.last());
        assert(points_of(a + b, key) =~= points_of(a, key) + points_of(b, key));
    }
}

/// Merging points into the buffers loses none, invents none and keeps their order.
pub proof fn merge_accounts_for_points(
    history: Seq<(VoxelKey, RawPoint)>,
    start: spec_fn(VoxelKey) -> Seq<u8>,
    files: spec_fn(VoxelKey) -> Seq<u8>,
    before: LeafBuffers,
    merged: Seq<(VoxelKey, RawPoint)>,
    after: LeafBuffers,
)
    requires
        accounted(history, start, files, before),
        forall|k: VoxelKey| #[trigger]
            after.pending(k) == before.pending(k) + points_of(merged, k),
    ensures
        accounted(history + merged, start, files, after),
{
    assert forall|k: VoxelKey| #[trigger]
        files(k) + encoded_points(after.pending(k)) == start(k) + encoded_points(
            points_of(history + merged, k),
        ) by {
        let h = points_of(history, k);
        let m = points_of(merged, k);
        assert(after.pending(k) == before.pending(k) + m);
        written_in_parts(before.pending(k), m);
        written_in_parts(h, m);
        lemma_points_of_concat(history, merged, k);
        assert(files(k) + encoded_points(before.pending(k)) == start(k) + encoded_points(h));
        assert(files(k) + (encoded_points(before.pending(k)) + encoded_points(m)) =~= (files(k)
            + encoded_points(before.pending(k))) + encoded_points(m));
        assert(start(k) + (encoded_points(h) + encoded_points(m)) =~= (start(k) + encoded_points(
            h,
        )) + encoded_points(m));
    }
}

proof fn lemma_appended(
    files: spec_fn(VoxelKey) -> Seq<u8>,
    sent: Seq<(VoxelKey, Vec<u8>)>,
    key: VoxelKey,
)
    requires
        forall|i: int, j: int|
            0 <= i < sent.len() && 0 <= j < sent.len() && i != j ==> (#[trigger] sent[i]).0 != (
            #[trigger] sent[j]).0,
    ensures
        forall|i: int|
            0 <= i < sent.len() && (#[trigger] sent[i]).0 == key ==> appended(files, sent)(key)
                == files(key) + sent[i].1@,
        (forall|i: int| 0 <= i < sent.len() ==> (#[trigger] sent[i]).0 != key) ==> appended(
            files,
            sent,
        )(key) == files(key),
    decreases sent.len(),
{
    if sent.len() > 0 {
        let h = sent.drop_last();
        let n = sent.len() - 1;
        assert forall|i: int, j: int|
            0 <= i < h.len() && 0 <= j < h.len() && i != j implies (#[trigger] h[i]).0 != (
        #[trigger] h[j]).0 by {
            assert(sent[i].0 != sent[j].0);
        }
        lemma_appended(files, h, key);
        assert(sent.last() == sent[n]);
        assert forall|i: int| 0 <= i < sent.len() && (#[trigger] sent[i]).0 == key implies appended(
            files,
            sent,
        )(key) == files(key) + sent[i].1@ by {
            if i < n {
                assert(sent[i].0 != sent[n].0);
                assert(h[i].0 == key);
            } else {
                assert forall|j: int| 0 <= j < h.len() implies (#[trigger] h[j]).0 != key by {
                    assert(sent[j].0 != sent[n].0);
                }
            }
        }
        if forall|i: int| 0 <= i < sent.len() ==> (#[trigger] sent[i]).0 != key {
            assert forall|j: int| 0 <= j < h.len() implies (#[trigger] h[j]).0 != key by {
                assert(sent[j].0 != key);
            }
            assert(sent[n].0 != key);
        }
    }
}

/// Flushing the buffers and appending what they give to the leaf files loses no point,
/// invents none and keeps their order.
pub proof fn flush_accounts_for_points(
    history: Seq<(VoxelKey, RawPoint)>,
    start: spec_fn(VoxelKey) -> Seq<u8>,
    files: spec_fn(VoxelKey) -> Seq<u8>,
    before: LeafBuffers,
    sent: Seq<(VoxelKey, Vec<u8>)>,
    after: LeafBuffers,
)
    requires
        accounted(history, start, files, before),
        forall|k: VoxelKey| #[trigger] after.pending(k) == Seq::<RawPoint>::empty(),
        forall|i: int, j: int|
            0 <= i < sent.len() && 0 <= j < sent.len() && i != j ==> (#[trigger] sent[i]).0 != (
            #[trigger] sent[j]).0,
        forall|i: int|
            0 <= i < sent.len() ==> (#[trigger] sent[i]).1@ == encoded_points(
                before.pending(sent[i].0),
            ),
        forall|k: VoxelKey| #[trigger]
            before.pending(k).len() > 0 ==> exists|i: int|
                0 <= i < sent.len() && (#[trigger] sent[i]).0 == k,
    ensures
        accounted(history, start, appended(files, sent), after),
{
    assert forall|k: VoxelKey| #[trigger]
        appended(files, sent)(k) + encoded_points(after.pending(k)) == start(k) + encoded_points(
            points_of(history, k),
        ) by {
        lemma_appended(files, sent, k);
        assert(files(k) + encoded_points(before.pending(k)) == start(k) + encoded_points(
            points_of(history, k),
        ));
        assert(after.pending(k) == Seq::<RawPoint>::empty());
        let f = appended(files, sent)(k);
        assert(f + Seq::<u8>::empty() =~= f);
        if exists|i: int| 0 <= i < sent.len() && (#[trigger] sent[i]).0 == k {
            let i = choose|i: int| 0 <= i < sent.len() && (#[trigger] sent[i]).0 == k;
            assert(f == files(k) + sent[i].1@);
        } else {
            assert(before.pending(k).len() == 0);
            assert(before.pending(k) =~= Seq::<RawPoint>::empty());
            assert(files(k) + Seq::<u8>::empty() =~= files(k));
        }
    }
}

/// What a leaf file holds already stays in front of what a flush appends to it.
pub proof fn files_only_grow(
    files: spec_fn(VoxelKey) -> Seq<u8>,
    sent: Seq<(VoxelKey, Vec<u8>)>,
    key: VoxelKey,
)
    ensures
        files(key).is_prefix_of(appended(files, sent)(key)),
    decreases sent.len(),
{
    if sent.len() > 0 {
        files_only_grow(files, sent.drop_last(), key);
    }
}

/// Before the first point everything is accounted for, whatever the leaf files hold.
pub proof fn nothing_to_account_for(files: spec_fn(VoxelKey) -> Seq<u8>, buffers: LeafBuffers)
    requires
        forall|k: VoxelKey| #[trigger] buffers.pending(k) == Seq::<RawPoint>::empty(),
    ensures
        accounted(Seq::empty(), files, files, buffers),
{
    let none = Seq::<(VoxelKey, RawPoint)>::empty();
    assert forall|k: VoxelKey| #[trigger]
        files(k) + encoded_points(buffers.pending(k)) == files(k) + encoded_points(
            points_of(none, k),
        ) by {
        assert(buffers.pending(k) == Seq::<RawPoint>::empty());
    }
}

/// After the last flush each leaf file holds what it held before, and then exactly the
/// points of its leaf, in the order in which they were read.
pub proof fn leaf_file_holds_its_points(
    history: Seq<(VoxelKey, RawPoint)>,
    before: spec_fn(VoxelKey) -> Seq<u8>,
    files: spec_fn(VoxelKey) -> Seq<u8>,
    buffers: LeafBuffers,
    key: VoxelKey,
)
    requires
        accounted(history, before, files, buffers),
        buffers.pending(key).len() == 0,
    ensures
        files(key) == before(key) + encoded_points(points_of(history, key)),
        before(key).len() % (RawPoint::BYTE_SIZE as nat) == 0 ==> decoded_points(files(key))
            == decoded_points(before(key)) + points_of(history, key),
        before(key).len() == 0 ==> decoded_points(files(key)) == points_of(history, key),
{
    let f = files(key);
    let p = points_of(history, key);
    assert(f + encoded_points(buffers.pending(key)) == before(key) + encoded_points(p));
    assert(f + encoded_points(buffers.pending(key)) =~= f);
    node_file_gives_back_points(p);
    if before(key).len() % (RawPoint::BYTE_SIZE as nat) == 0 {
        appended_records_are_read_in_order(before(key), encoded_points(p));
    }
    if before(key).len() == 0 {
        assert(decoded_points(before(key)) + p =~= p);
    }
}

/// How often the buffers are flushed, and so the memory budget, makes no difference to the
/// leaf files.
pub proof fn flush_interval_does_not_matter(
    history: Seq<(VoxelKey, RawPoint)>,
    before: spec_fn(VoxelKey) -> Seq<u8>,
    files_a: spec_fn(VoxelKey) -> Seq<u8>,
    buffers_a: LeafBuffers,
    files_b: spec_fn(VoxelKey) -> Seq<u8>,
    buffers_b: LeafBuffers,
    key: VoxelKey,
)
    requires
        accounted(history, before, files_a, buffers_a),
        accounted(history, before, files_b, buffers_b),
        buffers_a.pending(key).len() == 0,
        buffers_b.pending(key).len() == 0,
    ensures
        files_a(key) == files_b(key),
{
    leaf_file_holds_its_points(history, before, files_a, buffers_a, key);
    leaf_file_holds_its_points(history, before, files_b, buffers_b, key);
}

/// Distributing two lists of points in turn does the same as distributing both as one.
pub proof fn runs_add_up(
    first: Seq<(VoxelKey, RawPoint)>,
    second: Seq<(VoxelKey, RawPoint)>,
    before: spec_fn(VoxelKey) -> Seq<u8>,
    between: spec_fn(VoxelKey) -> Seq<u8>,
    buffers_between: LeafBuffers,
    files: spec_fn(VoxelKey) -> Seq<u8>,
    buffers: LeafBuffers,
)
    requires
        accounted(first, before, between, buffers_between),
        forall|k: VoxelKey| #[trigger] buffers_between.pending(k) == Seq::<RawPoint>::empty(),
        accounted(second, between, files, buffers),
    ensures
        accounted(first + second, before, files, buffers),
{
    assert forall|k: VoxelKey| #[trigger]
        files(k) + encoded_points(buffers.pending(k)) == before(k) + encoded_points(
            points_of(first + second, k),
        ) by {
        let p = points_of(first, k);
        let q = points_of(second, k);
        assert(buffers_between.pending(k) == Seq::<RawPoint>::empty());
        leaf_file_holds_its_points(first, before, between, buffers_between, k);
        lemma_points_of_concat(first, second, k);
        written_in_parts(p, q);
        assert(files(k) + encoded_points(buffers.pending(k)) == between(k) + encoded_points(q));
        assert((before(k) + encoded_points(p)) + encoded_points(q) =~= before(k) + (
        encoded_points(p) + encoded_points(q)));
    }
}

proof fn lemma_within_interval(
    flush_every: usize,
    idx_before: nat,
    waiting_before: nat,
    idx_after: nat,
)
    requires
        flush_every > 0,
        waiting_before == idx_before % flush_every as nat,
        idx_before <= idx_after,
        forall|n: nat| idx_before < n < idx_after ==> !flush_due(n, flush_every),
    ensures
        waiting_before + (idx_after - idx_before) <= flush_every,
        !flush_due(idx_after, flush_every) ==> waiting_before + (idx_after - idx_before)
            == idx_after % flush_every as nat,
{
    let f = flush_every as nat;
    let room = (f - idx_before % f) as nat;
    let next = idx_before + room;
    vstd::arithmetic::div_mod::lemma_fundamental_div_mod(idx_before as int, f as int);
    let q = idx_before / f;
    assert((q + 1) * f == f * q + f) by (nonlinear_arith);
    assert(q * f == f * q) by (nonlinear_arith);
    vstd::arithmetic::div_mod::lemma_mod_multiples_basic((q + 1) as int, f as int);
    assert(next == (q + 1) * f);
    assert(flush_due(next, flush_every));
    assert(idx_after <= next);
    if idx_after < next {
        let d = idx_after - idx_before;
        vstd::arithmetic::div_mod::lemma_fundamental_div_mod_converse(
            idx_after as int,
            f as int,
            q as int,
            idx_before % f + d,
        );
    }
}

/// While no file is being read, the next one in order is opened, and pass 2 finishes exactly
/// if all files were opened; while one is, it is read on as its plan says.
pub proof fn steps_follow_the_files(d: Distribution)
    ensures
        d.reading is None && d.files_opened != d.file_count && d.wf() ==> d.next_step_spec() == (
        Step::Open { file: d.files_opened }),
        d.wf() ==> (d.next_step_spec() is Finish <==> d.reading is None && d.files_opened
            == d.file_count),
        d.next_step_spec() is ReadAll <==> d.reading == Some(ReadPlan::Whole),
        forall|n: u64|
            d.next_step_spec() == (Step::ReadBatch { batch_size: n }) <==> #[trigger] d.reading
                == Some(ReadPlan::Batched { batch_size: n }),
{
}

/// A run of pass 2 opens every input file exactly once, in order, and reads after each
/// opening before it opens the next file or finishes.
///
/// `run` holds the states and `steps` what was done in each. After a file was opened it is
/// being read, and reading opens no file.
pub proof fn run_opens_every_file(
    run: Seq<Distribution>,
    steps: Seq<Step>,
    opened: spec_fn(Step) -> Option<usize>,
)
    requires
        run.len() > 0,
        steps.len() == run.len(),
        run[0].files_opened == 0,
        run[0].reading is None,
        forall|i: int| 0 <= i < run.len() ==> #[trigger] steps[i] == run[i].next_step_spec(),
        forall|i: int|
            0 <= i < run.len() - 1 ==> {
                &&& (#[trigger] run[i + 1]).file_count == run[i].file_count
                &&& steps[i] is Open ==> run[i + 1].files_opened == run[i].files_opened + 1
                    && run[i + 1].reading is Some
                &&& steps[i] !is Open ==> run[i + 1].files_opened == run[i].files_opened
            },
        forall|i: int| 0 <= i < run.len() - 1 ==> #[trigger] steps[i] !is Finish,
        forall|s: Step| #[trigger]
            opened(s) == (match s {
                Step::Open { file } => Some(file),
                _ => None,
            }),
    ensures
        steps.last() is Finish ==> steps.filter_map(opened) == Seq::new(
            run[0].file_count as nat,
            |i: int| i as usize,
        ),
        forall|i: int|
            0 <= i < steps.len() - 1 && #[trigger] steps[i] is Open ==> steps[i + 1] is ReadAll
                || steps[i + 1] is ReadBatch,
{
    let n = run.len() - 1;
    lemma_opened_so_far(run, steps, opened, n);
    assert(steps.last() == steps[n]);
    if steps.last() is Finish {
        let h = steps.drop_last();
        assert(h =~= steps.take(n));
        assert(opened(steps.last()) is None);
        assert(run[n].files_opened == run[0].file_count);
        assert(steps.filter_map(opened) =~= Seq::new(
            run[0].file_count as nat,
            |i: int| i as usize,
        ));
    }
    assert forall|i: int| 0 <= i < steps.len() - 1 && #[trigger] steps[i] is Open implies steps[i
        + 1] is ReadAll || steps[i + 1] is ReadBatch by {
        assert(run[i + 1].reading is Some);
    }
}

proof fn lemma_opened_so_far(
    run: Seq<Distribution>,
    steps: Seq<Step>,
    opened: spec_fn(Step) -> Option<usize>,
    n: int,
)
    requires
        0 <= n < run.len(),
        steps.len() == run.len(),
        run[0].files_opened == 0,
        forall|i: int| 0 <= i < run.len() ==> #[trigger] steps[i] == run[i].next_step_spec(),
        forall|i: int|
            0 <= i < run.len() - 1 ==> {
                &&& (#[trigger] run[i + 1]).file_count == run[i].file_count
                &&& steps[i] is Open ==> run[i + 1].files_opened == run[i].files_opened + 1
                    && run[i + 1].reading is Some
                &&& steps[i] !is Open ==> run[i + 1].files_opened == run[i].files_opened
            },
        forall|s: Step| #[trigger]
            opened(s) == (match s {
                Step::Open { file } => Some(file),
                _ => None,
            }),
    ensures
        run[n].file_count == run[0].file_count,
        run[n].files_opened <= run[0].file_count,
        steps.take(n).filter_map(opened) == Seq::new(
            run[n].files_opened as nat,
            |i: int| i as usize,
        ),
    decreases n,
{
    if n > 0 {
        lemma_opened_so_far(run, steps, opened, n - 1);
        let t = steps.take(n);
        assert(t.drop_last() =~= steps.take(n - 1));
        assert(t.last() == steps[n - 1]);
        assert(run[n - 1 + 1].file_count == run[n - 1].file_count);
        assert(opened(steps[n - 1]) is Some <==> steps[n - 1] is Open);
        if steps[n - 1] is Open {
            assert(opened(steps[n - 1]) == Some(run[n - 1].files_opened));
        }
        assert(t.filter_map(opened) =~= Seq::new(run[n].files_opened as nat, |i: int| i as usize));
    } else {
        assert(steps.take(0).filter_map(opened) =~= Seq::new(0, |i: int| i as usize));
    }
}

/// The points of a leaf are those classified under its key, in order.
pub proof fn points_of_leaf_are_filtered(
    classified: Seq<(VoxelKey, RawPoint)>,
    key: VoxelKey,
    point: spec_fn((VoxelKey, RawPoint)) -> Option<RawPoint>,
)
    requires
        forall|c: (VoxelKey, RawPoint)| #[trigger]
            point(c) == (if c.0 == key {
                Some(c.1)
            } else {
                None
            }),
    ensures
        points_of(classified, key) == classified.filter_map(point),
    decreases classified.len(),
{
    if classified.len() > 0 {
        points_of_leaf_are_filtered(classified.drop_last(), key, point);
        assert(point(classified.last()) is Some <==> classified.last().0 == key);
        assert(points_of(classified, key) =~= classified.filter_map(point));
    }
}

/// The points that wait for a leaf are those in its slot; a leaf without a slot has none
/// waiting.
pub proof fn pending_points_are_in_slots(buffers: LeafBuffers, key: VoxelKey)
    requires
        buffers.wf(),
    ensures
        forall|i: int|
            0 <= i < buffers.slots@.len() && (#[trigger] buffers.slots@[i]).0 == key
                ==> buffers.has_buffer(key) && buffers.pending(key) == buffers.slots@[i].1@,
        (forall|i: int| 0 <= i < buffers.slots@.len() ==> (#[trigger] buffers.slots@[i]).0 != key)
            ==> !buffers.has_buffer(key) && buffers.pending(key).len() == 0,
{
    buffers.index.lemma_distinct();
    lemma_waiting_at(buffers.slots@, key);
}

/// How many points wait is the sum over all slots, given here from the first slot on.
pub proof fn pending_total_is_sum(buffers: LeafBuffers) -> (sums: Seq<nat>)
    ensures
        sums.len() == buffers.slots@.len() + 1,
        sums[0] == 0,
        forall|i: int|
            0 <= i < buffers.slots@.len() ==> #[trigger] sums[i + 1] == sums[i]
                + buffers.slots@[i].1@.len(),
        buffers.pending_total() == sums.last(),
{
    let slots = buffers.slots@;
    let sums = Seq::new(slots.len() + 1, |i: int| waiting_total(slots.take(i)));
    assert(slots.take(0) =~= Seq::empty());
    assert(slots.take(slots.len() as int) =~= slots);
    assert forall|i: int| 0 <= i < slots.len() implies #[trigger] sums[i + 1] == sums[i]
        + slots[i].1@.len() by {
        assert(slots.take(i + 1).drop_last() =~= slots.take(i));
    }
    sums
}

/// A flush is due exactly at the multiples of the flush interval.
pub proof fn flush_is_due_at_multiples(count: nat, flush_every: usize, m: nat)
    requires
        flush_every > 0,
    ensures
        flush_due(m * flush_every as nat, flush_every),
        m * flush_every < count < (m + 1) * flush_every ==> !flush_due(count, flush_every),
{
    let f = flush_every as nat;
    vstd::arithmetic::div_mod::lemma_mod_multiples_basic(m as int, f as int);
    if m * f < count && count < (m + 1) * f {
        let r = count - m * f;
        assert((m + 1) * f == m * f + f) by (nonlinear_arith);
        assert(m * f == f * m) by (nonlinear_arith);
        vstd::arithmetic::div_mod::lemma_fundamental_div_mod_converse(
            count as int,
            f as int,
            m as int,
            r,
        );
    }
}

/// Appending the bytes for one leaf puts them behind what its file holds, and leaves all
/// other files as they are; several leaves' bytes are appended one after the other.
pub proof fn bytes_are_appended(
    files: spec_fn(VoxelKey) -> Seq<u8>,
    sent: Seq<(VoxelKey, Vec<u8>)>,
    one: (VoxelKey, Vec<u8>),
    key: VoxelKey,
)
    ensures
        appended(files, Seq::empty())(key) == files(key),
        appended(files, sent.push(one))(key) == (if key == one.0 {
            appended(files, sent)(key) + one.1@
        } else {
            appended(files, sent)(key)
        }),
{
    assert(sent.push(one).drop_last() =~= sent);
}

} // verus!
