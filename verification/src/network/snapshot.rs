use vstd::prelude::*;
use crate::config::{SIMULATION_DT_NANOS, BROADCAST_DT_NANOS};
use crate::network::world::NetEntityId;
use crate::time::DURATION_MAX_NANOS;

verus! {

/// The state of one replicated entity in a snapshot.
pub struct EntitySnapshot<P> {
    pub net_entity_id: NetEntityId,
    pub transform: P,
}

/// The states of the replicated entities at one server time (nanoseconds).
pub struct Snapshot<P> {
    pub server_time: u128,
    pub snapshots: Vec<EntitySnapshot<P>>,
}

impl<P> Snapshot<P> {
    pub fn new(server_time: u128, snapshots: Vec<EntitySnapshot<P>>) -> (r: Self)
        ensures
            r.server_time == server_time,
            r.snapshots == snapshots,
    {
        Snapshot { server_time, snapshots }
    }
}

/// Number of snapshots the buffer holds.
pub const SNAP_BUFFER_SIZE: usize = 20;

/// How far the client renders behind the estimated server time, in nanoseconds
/// (six frames of 16 ms).
pub const INTERPOLATION_DELAY_NANOS: u128 = 96_000_000u128;

/// Slot `i` holds a snapshot taken no later than `target`.
pub open spec fn older_candidate<P>(buf: Seq<Option<Snapshot<P>>>, target: u128, i: int) -> bool {
    0 <= i < buf.len() && buf[i] is Some && buf[i]->0.server_time <= target
}

/// Slot `i` holds a snapshot taken after `target`.
pub open spec fn newer_candidate<P>(buf: Seq<Option<Snapshot<P>>>, target: u128, i: int) -> bool {
    0 <= i < buf.len() && buf[i] is Some && buf[i]->0.server_time > target
}

/// Slot `i` holds the latest snapshot taken no later than `target`, and no earlier slot
/// holds one taken at the same time.
pub open spec fn is_older_choice<P>(buf: Seq<Option<Snapshot<P>>>, target: u128, i: int) -> bool {
    &&& older_candidate(buf, target, i)
    &&& forall|j: int| #[trigger] older_candidate(buf, target, j) ==> buf[j]->0.server_time <= buf[i]->0.server_time
    &&& forall|j: int| 0 <= j < i && #[trigger] older_candidate(buf, target, j) ==> buf[j]->0.server_time < buf[i]->0.server_time
}

/// Slot `i` holds the earliest snapshot taken after `target`, and no earlier slot holds
/// one taken at the same time.
pub open spec fn is_newer_choice<P>(buf: Seq<Option<Snapshot<P>>>, target: u128, i: int) -> bool {
    &&& newer_candidate(buf, target, i)
    &&& forall|j: int| #[trigger] newer_candidate(buf, target, j) ==> buf[j]->0.server_time >= buf[i]->0.server_time
    &&& forall|j: int| 0 <= j < i && #[trigger] newer_candidate(buf, target, j) ==> buf[j]->0.server_time > buf[i]->0.server_time
}

/// Client-side interpolation buffer: a ring of the latest snapshots and the server time
/// the client renders at.
pub struct SnapshotManager<P> {
    snapshot_buffer: Vec<Option<Snapshot<P>>>,
    head: usize,
    render_server_time: u128,
}

impl<P> SnapshotManager<P> {
    pub closed spec fn wf(self) -> bool {
        &&& self.snapshot_buffer@.len() == SNAP_BUFFER_SIZE
        &&& self.head < SNAP_BUFFER_SIZE
        &&& self.render_server_time <= DURATION_MAX_NANOS
    }

    /// The slots of the ring.
    pub closed spec fn buffer(self) -> Seq<Option<Snapshot<P>>> {
        self.snapshot_buffer@
    }

    /// The slot the next snapshot is stored in.
    pub closed spec fn spec_head(self) -> int {
        self.head as int
    }

    /// In a well-formed manager the head is a slot of the ring.
    pub proof fn lemma_head_in_ring(self)
        requires
            self.wf(),
        ensures
            0 <= self.spec_head() < SNAP_BUFFER_SIZE,
            self.buffer().len() == SNAP_BUFFER_SIZE,
    {
    }

    /// The server time, in nanoseconds, the client renders at.
    pub closed spec fn spec_render_time(self) -> u128 {
        self.render_server_time
    }

    /// An empty buffer, rendering at server time zero.
    pub fn new() -> (r: Self)
        ensures
            r.wf(),
            r.spec_head() == 0,
            r.spec_render_time() == 0,
            forall|i: int| 0 <= i < SNAP_BUFFER_SIZE ==> #[trigger] r.buffer()[i] is None,
    {
        let mut buf: Vec<Option<Snapshot<P>>> = Vec::new();
        for k in 0..SNAP_BUFFER_SIZE
            invariant
                buf@.len() == k,
                forall|i: int| 0 <= i < k ==> #[trigger] buf@[i] is None,
        {
            buf.push(None);
        }
        SnapshotManager { snapshot_buffer: buf, head: 0, render_server_time: 0 }
    }

    /// Stores the entity states of simulation frame `frame` in the current slot, taken at
    /// server time `frame` ticks, and moves on to the next slot.
    pub fn store_snapshot(&mut self, frame: u32, data: Vec<EntitySnapshot<P>>)
        requires
            old(self).wf(),
        ensures
            final(self).wf(),
            final(self).spec_head() == (old(self).spec_head() + 1) % (SNAP_BUFFER_SIZE as int),
            final(self).spec_render_time() == old(self).spec_render_time(),
            final(self).buffer() == old(self).buffer().update(
                old(self).spec_head(),
                Some(Snapshot { server_time: (frame * SIMULATION_DT_NANOS) as u128, snapshots: data }),
            ),
    {
        let server_ingame_time = (frame as u128) * SIMULATION_DT_NANOS;
        let h = self.head;
        self.snapshot_buffer.set(h, Some(Snapshot::new(server_ingame_time, data)));
        self.head = (self.head + 1) % SNAP_BUFFER_SIZE;
    }

    /// The two stored snapshots around `target_time`: the latest taken no later than it
    /// and the earliest taken after it; `None` where either is missing.
    pub fn sample(&self, target_time: u128) -> (r: Option<(&Snapshot<P>, &Snapshot<P>)>)
        requires
            self.wf(),
        ensures
            r is Some <==> (exists|i: int| older_candidate(self.buffer(), target_time, i)) && (
            exists|k: int| newer_candidate(self.buffer(), target_time, k)),
            r matches Some((a, b)) ==> exists|i: int, k: int|
                is_older_choice(self.buffer(), target_time, i) && is_newer_choice(
                    self.buffer(),
                    target_time,
                    k,
                ) && *a == self.buffer()[i]->0 && *b == self.buffer()[k]->0,
    {
        let ghost buf = self.snapshot_buffer@;
        let mut older: Option<usize> = None;
        let mut newer: Option<usize> = None;
        let mut i: usize = 0;
        while i < SNAP_BUFFER_SIZE
            invariant
                0 <= i <= SNAP_BUFFER_SIZE,
                buf == self.snapshot_buffer@,
                buf.len() == SNAP_BUFFER_SIZE,
                match older {
                    None => forall|j: int| 0 <= j < i ==> !#[trigger] older_candidate(buf, target_time, j),
                    Some(o) => o < i && older_candidate(buf, target_time, o as int)
                        && (forall|j: int| 0 <= j < i && #[trigger] older_candidate(buf, target_time, j) ==> buf[j]->0.server_time <= buf[o as int]->0.server_time)
                        && (forall|j: int| 0 <= j < o && #[trigger] older_candidate(buf, target_time, j) ==> buf[j]->0.server_time < buf[o as int]->0.server_time),
                },
                match newer {
                    None => forall|j: int| 0 <= j < i ==> !#[trigger] newer_candidate(buf, target_time, j),
                    Some(o) => o < i && newer_candidate(buf, target_time, o as int)
                        && (forall|j: int| 0 <= j < i && #[trigger] newer_candidate(buf, target_time, j) ==> buf[j]->0.server_time >= buf[o as int]->0.server_time)
                        && (forall|j: int| 0 <= j < o && #[trigger] newer_candidate(buf, target_time, j) ==> buf[j]->0.server_time > buf[o as int]->0.server_time),
                },
            decreases SNAP_BUFFER_SIZE - i,
        {
            match &self.snapshot_buffer[i] {
                Some(snap) => {
                    if snap.server_time <= target_time {
                        let replace = match older {
                            None => true,
                            Some(o) => match &self.snapshot_buffer[o] {
                                Some(prev) => snap.server_time > prev.server_time,
                                None => true,
                            },
                        };
                        if replace {
                            older = Some(i);
                        }
                    } else {
                        let replace = match newer {
                            None => true,
                            Some(o) => match &self.snapshot_buffer[o] {
                                Some(prev) => snap.server_time < prev.server_time,
                                None => true,
                            },
                        };
                        if replace {
                            newer = Some(i);
                        }
                    }
                },
                None => {},
            }
            i = i + 1;
        }
        match (older, newer) {
            (Some(o), Some(n)) => {
                proof {
                    assert(older_candidate(buf, target_time, o as int));
                    assert(newer_candidate(buf, target_time, n as int));
                }
                match (&self.snapshot_buffer[o], &self.snapshot_buffer[n]) {
                    (Some(a), Some(b)) => {
                        proof {
                            assert(is_older_choice(buf, target_time, o as int));
                            assert(is_newer_choice(buf, target_time, n as int));
                            assert(older_candidate(self.buffer(), target_time, o as int));
                            assert(newer_candidate(self.buffer(), target_time, n as int));
                            assert(is_older_choice(self.buffer(), target_time, o as int));
                            assert(is_newer_choice(self.buffer(), target_time, n as int));
                        }
                        Some((a, b))
                    },
                    _ => None,
                }
            },
            _ => {
                proof {
                    if older is None {
                        assert(!exists|j: int| older_candidate(self.buffer(), target_time, j));
                    } else {
                        assert(!exists|j: int| newer_candidate(self.buffer(), target_time, j));
                    }
                }
                None
            },
        }
    }

    /// The server time the client should render at: the estimate of the server's time
    /// less the interpolation delay, and zero where the estimate is smaller.
    pub fn target_render_time(estimated_server_now: u128) -> (r: u128)
        ensures
            r == if estimated_server_now >= INTERPOLATION_DELAY_NANOS {
                (estimated_server_now - INTERPOLATION_DELAY_NANOS) as u128
            } else {
                0
            },
    {
        estimated_server_now.saturating_sub(INTERPOLATION_DELAY_NANOS)
    }

    /// Moves the render time on by `dt`, first snapping it to `target_server_time` where it
    /// has drifted two broadcast intervals or more away from it.
    pub fn advance_render_time(&mut self, target_server_time: u128, dt: u128)
        requires
            old(self).wf(),
            target_server_time <= DURATION_MAX_NANOS,
            dt <= DURATION_MAX_NANOS,
            (if abs_diff(old(self).spec_render_time(), target_server_time) >= 2 * BROADCAST_DT_NANOS {
                target_server_time
            } else {
                old(self).spec_render_time()
            }) + dt <= DURATION_MAX_NANOS,
        ensures
            final(self).wf(),
            final(self).buffer() == old(self).buffer(),
            final(self).spec_head() == old(self).spec_head(),
            final(self).spec_render_time() == (if abs_diff(old(self).spec_render_time(), target_server_time)
                >= 2 * BROADCAST_DT_NANOS {
                target_server_time
            } else {
                old(self).spec_render_time()
            }) + dt,
    {
        let diff = if self.render_server_time >= target_server_time {
            self.render_server_time - target_server_time
        } else {
            target_server_time - self.render_server_time
        };
        if diff >= BROADCAST_DT_NANOS * 2 {
            self.render_server_time = target_server_time;
        }
        self.render_server_time = self.render_server_time + dt;
    }

    /// The server time, in nanoseconds, the client renders at.
    pub fn render_time(&self) -> (r: u128)
        ensures
            r == self.spec_render_time(),
    {
        self.render_server_time
    }
}

/// The ring `buf` after the snapshots `stored` were stored in turn, the first in slot
/// `head`, each next one in the slot after.
pub open spec fn ring_after<P>(buf: Seq<Option<Snapshot<P>>>, head: int, stored: Seq<Snapshot<P>>) -> Seq<
    Option<Snapshot<P>>,
>
    decreases stored.len(),
{
    if stored.len() == 0 {
        buf
    } else {
        ring_after(buf, head, stored.drop_last()).update(
            (head + stored.len() - 1) % (SNAP_BUFFER_SIZE as int),
            Some(stored.last()),
        )
    }
}

/// After any number of stores, the ring holds the last `SNAP_BUFFER_SIZE` snapshots
/// stored (all of them, where fewer were stored), each in the slot it was stored in;
/// older ones were overwritten.
pub proof fn lemma_ring_holds_latest<P>(buf: Seq<Option<Snapshot<P>>>, head: int, stored: Seq<Snapshot<P>>)
    requires
        buf.len() == SNAP_BUFFER_SIZE,
        0 <= head < SNAP_BUFFER_SIZE,
    ensures
        ring_after(buf, head, stored).len() == SNAP_BUFFER_SIZE,
        forall|k: int|
            0 <= k < stored.len() && stored.len() - (SNAP_BUFFER_SIZE as int) <= k ==> #[trigger] ring_after(
                buf,
                head,
                stored,
            )[(head + k) % (SNAP_BUFFER_SIZE as int)] == Some(stored[k]),
    decreases stored.len(),
{
    if stored.len() > 0 {
        let before = stored.drop_last();
        lemma_ring_holds_latest(buf, head, before);
        let n = stored.len() as int;
        let last_slot = (head + n - 1) % (SNAP_BUFFER_SIZE as int);
        assert forall|k: int|
            0 <= k < stored.len() && stored.len() - (SNAP_BUFFER_SIZE as int) <= k implies #[trigger] ring_after(
                buf,
                head,
                stored,
            )[(head + k) % (SNAP_BUFFER_SIZE as int)] == Some(stored[k]) by {
            if k < n - 1 {
                assert(before[k] == stored[k]);
                assert(ring_after(buf, head, before)[(head + k) % (SNAP_BUFFER_SIZE as int)] == Some(before[k]));
                assert((head + k) % 20 != (head + n - 1) % 20) by (nonlinear_arith)
                    requires
                        0 <= k < n - 1,
                        n - 1 - k < 20,
                        0 <= head,
                ;
            }
        }
    }
}

/// `after` is `before` with `snapshot` stored: what `store_snapshot` does.
pub open spec fn stored_one<P>(before: SnapshotManager<P>, after: SnapshotManager<P>, snapshot: Snapshot<P>) -> bool {
    &&& after.spec_head() == (before.spec_head() + 1) % (SNAP_BUFFER_SIZE as int)
    &&& after.buffer() == before.buffer().update(before.spec_head(), Some(snapshot))
}

/// A run of stores, `ms[i + 1]` being `ms[i]` after storing `stored[i]`, leaves the ring
/// that `ring_after` describes, and the head moved on by one per store; so, by
/// `lemma_ring_holds_latest`, it holds the last `SNAP_BUFFER_SIZE` snapshots stored.
pub proof fn lemma_stores_fill_ring<P>(ms: Seq<SnapshotManager<P>>, stored: Seq<Snapshot<P>>)
    requires
        ms.len() == stored.len() + 1,
        ms[0].wf(),
        forall|i: int| 0 <= i < stored.len() ==> #[trigger] stored_one(ms[i], ms[i + 1], stored[i]),
    ensures
        ms.last().buffer() == ring_after(ms[0].buffer(), ms[0].spec_head(), stored),
        ms.last().spec_head() == (ms[0].spec_head() + stored.len()) % (SNAP_BUFFER_SIZE as int),
    decreases stored.len(),
{
    if stored.len() > 0 {
        let n = stored.len() as int;
        let ms2 = ms.drop_last();
        let st2 = stored.drop_last();
        assert forall|i: int| 0 <= i < st2.len() implies #[trigger] stored_one(ms2[i], ms2[i + 1], st2[i]) by {
            assert(stored_one(ms[i], ms[i + 1], stored[i]));
        }
        lemma_stores_fill_ring(ms2, st2);
        assert(stored_one(ms[n - 1], ms[n], stored[n - 1]));
        let h0 = ms[0].spec_head();
        assert(0 <= h0 < 20) by {
            ms[0].lemma_head_in_ring();
        }
        assert(((h0 + n - 1) % 20 + 1) % 20 == (h0 + n) % 20) by (nonlinear_arith)
            requires
                0 <= h0,
                n >= 1,
        ;
    }
}

/// The distance between two points in time.
pub open spec fn abs_diff(a: u128, b: u128) -> int {
    if a >= b { a - b } else { b - a }
}

/// The net entity ids of a list of entity states, in order.
pub open spec fn entity_ids<P>(s: Seq<EntitySnapshot<P>>) -> Seq<NetEntityId> {
    s.map_values(|e: EntitySnapshot<P>| e.net_entity_id)
}

/// The ids are in ascending order.
pub open spec fn sorted_ids(ids: Seq<NetEntityId>) -> bool {
    forall|i: int, j: int| 0 <= i < j < ids.len() ==> ids[i] <= ids[j]
}

/// `slice::binary_search_by_key` with the net entity id as the key. For a list sorted by
/// id, std documents `Ok` with the index of an element whose id matches (any one of
/// several), or `Err` with the index where such an element could be inserted keeping the
/// order. For an unsorted list the result is unspecified, and nothing is claimed.
#[verifier::external_body]
fn search_entity<P>(snapshots: &Vec<EntitySnapshot<P>>, id: NetEntityId) -> (r: Result<usize, usize>)
    ensures
        sorted_ids(entity_ids(snapshots@)) ==> match r {
            Ok(i) => i < snapshots@.len() && snapshots@[i as int].net_entity_id == id,
            Err(i) => i <= snapshots@.len() && (forall|j: int| 0 <= j < i ==> #[trigger] snapshots@[j].net_entity_id < id)
                && (forall|j: int| i <= j < snapshots@.len() ==> #[trigger] snapshots@[j].net_entity_id > id),
        },
{
    snapshots.binary_search_by_key(&id, |e| e.net_entity_id)
}

/// The state stored for the entity `net_entity_id` in `snapshot`, found by binary search
/// over the list, which the sender keeps sorted by id.
pub fn extract_transform<P>(snapshot: &Snapshot<P>, net_entity_id: NetEntityId) -> (r: Option<&P>)
    ensures
        sorted_ids(entity_ids(snapshot.snapshots@)) ==> (r is Some <==> entity_ids(snapshot.snapshots@).contains(net_entity_id)),
        sorted_ids(entity_ids(snapshot.snapshots@)) ==> (r matches Some(p) ==> exists|i: int|
            0 <= i < snapshot.snapshots@.len() && snapshot.snapshots@[i].net_entity_id == net_entity_id
                && *p == snapshot.snapshots@[i].transform),
{
    let entity_snapshots = &snapshot.snapshots;
    match search_entity(entity_snapshots, net_entity_id) {
        Ok(idx) => {
            proof {
                if sorted_ids(entity_ids(snapshot.snapshots@)) {
                    assert(entity_ids(snapshot.snapshots@)[idx as int] == net_entity_id);
                }
            }
            if idx < entity_snapshots.len() {
                Some(&entity_snapshots[idx].transform)
            } else {
                None
            }
        },
        Err(_) => {
            proof {
                if sorted_ids(entity_ids(snapshot.snapshots@)) {
                    assert forall|j: int| 0 <= j < entity_ids(snapshot.snapshots@).len() implies entity_ids(snapshot.snapshots@)[j] != net_entity_id by {
                        assert(entity_ids(snapshot.snapshots@)[j] == snapshot.snapshots@[j].net_entity_id);
                    }
                }
            }
            None
        },
    }
}

/// How an entity's state at render time comes from the two snapshots around it.
pub enum Interpolation<'a, P> {
    /// Blend the state in the earlier snapshot into that in the later one.
    Between(&'a P, &'a P),
    /// Only one snapshot holds the entity: take its state as it is.
    Only(&'a P),
    /// Neither snapshot holds the entity.
    Nothing,
}

/// Chooses how to render an entity from its state in the earlier snapshot (`prev`) and
/// in the later one (`next`): blend both where both are there, else take the one there.
pub fn interpolation<'a, P>(prev: Option<&'a P>, next: Option<&'a P>) -> (r: Interpolation<'a, P>)
    ensures
        match (prev, next) {
            (Some(a), Some(b)) => r matches Interpolation::Between(x, y) && x == a && y == b,
            (Some(a), None) => r matches Interpolation::Only(x) && x == a,
            (None, Some(b)) => r matches Interpolation::Only(x) && x == b,
            (None, None) => r matches Interpolation::Nothing,
        },
{
    match prev {
        Some(a) => match next {
            Some(b) => Interpolation::Between(a, b),
            None => Interpolation::Only(a),
        },
        None => match next {
            Some(b) => Interpolation::Only(b),
            None => Interpolation::Nothing,
        },
    }
}

} // verus!
