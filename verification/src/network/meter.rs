use vstd::prelude::*;
use std::time::Instant;
use crate::time::{instant_now, nanos_elapsed_since, DURATION_MAX_NANOS, NANOS_PER_SEC};

verus! {

/// Length of the sliding window, in one-second slots.
pub const WINDOW_SECS: usize = 10;

/// The sum of a sequence of counters.
pub open spec fn seq_sum(s: Seq<u64>) -> int
    decreases s.len(),
{
    if s.len() == 0 {
        0
    } else {
        seq_sum(s.drop_last()) + s.last()
    }
}

/// Adding `size` to slot `cur` stays within `u64`.
pub open spec fn room_in_current(slots: Seq<u64>, cur: int, size: int) -> bool {
    slots[cur] + size <= u64::MAX
}

/// How the window moves: moving on by no step changes no slot; moving on by a full turn
/// zeroes every slot; otherwise exactly the `steps` slots after the current one are
/// zeroed and every other slot keeps its count.
pub proof fn lemma_window_moves(ring: Seq<u64>, cur: int, steps: int)
    requires
        ring.len() == WINDOW_SECS,
        0 <= cur < WINDOW_SECS,
        0 <= steps <= WINDOW_SECS,
    ensures
        advanced_ring(ring, cur, steps).len() == WINDOW_SECS,
        steps == 0 ==> advanced_ring(ring, cur, steps) == ring,
        steps == WINDOW_SECS ==> forall|j: int| 0 <= j < WINDOW_SECS ==> #[trigger] advanced_ring(ring, cur, steps)[j] == 0,
        forall|k: int| 1 <= k <= steps ==> #[trigger] advanced_ring(ring, cur, steps)[(cur + k) % (WINDOW_SECS as int)] == 0,
        forall|k: int|
            steps < k <= WINDOW_SECS ==> #[trigger] advanced_ring(ring, cur, steps)[(cur + k) % (WINDOW_SECS as int)]
                == ring[(cur + k) % (WINDOW_SECS as int)],
{
    if steps == 0 {
        assert forall|j: int| 0 <= j < WINDOW_SECS implies advanced_ring(ring, cur, 0)[j] == ring[j] by {
            assert(0 <= (j - cur - 1) % 10);
        }
        assert(advanced_ring(ring, cur, 0) =~= ring);
    }
    assert forall|k: int| 1 <= k <= steps implies #[trigger] advanced_ring(ring, cur, steps)[(cur + k) % (WINDOW_SECS as int)] == 0 by {
        let j = (cur + k) % 10;
        assert((j - cur - 1) % 10 == k - 1) by (nonlinear_arith)
            requires
                j == (cur + k) % 10,
                0 <= cur < 10,
                1 <= k <= 10,
        ;
    }
    assert forall|k: int|
        steps < k <= WINDOW_SECS implies #[trigger] advanced_ring(ring, cur, steps)[(cur + k) % (WINDOW_SECS as int)]
            == ring[(cur + k) % (WINDOW_SECS as int)] by {
        let j = (cur + k) % 10;
        assert((j - cur - 1) % 10 == k - 1) by (nonlinear_arith)
            requires
                j == (cur + k) % 10,
                0 <= cur < 10,
                1 <= k <= 10,
        ;
    }
}

/// After moving on by `steps`, the current slot holds what it held where the window did
/// not move, and zero otherwise.
proof fn lemma_current_after_advance(ring: Seq<u64>, cur: int, steps: int)
    requires
        ring.len() == WINDOW_SECS,
        0 <= cur < WINDOW_SECS,
        0 <= steps <= WINDOW_SECS,
    ensures
        advanced_ring(ring, cur, steps)[(cur + steps) % (WINDOW_SECS as int)] == if steps == 0 {
            ring[cur]
        } else {
            0u64
        },
{
    let j = (cur + steps) % (WINDOW_SECS as int);
    if steps == 0 {
        assert(j == cur);
        assert((j - cur - 1) % 10 == 9);
    } else {
        assert((j - cur - 1) % 10 == steps - 1) by (nonlinear_arith)
            requires
                j == (cur + steps) % 10,
                0 <= cur < 10,
                1 <= steps <= 10,
        ;
    }
}

/// Slot `j` is among the `steps` slots that follow slot `cur` around the ring.
pub open spec fn slot_cleared(j: int, cur: int, steps: int) -> bool {
    (j - cur - 1) % (WINDOW_SECS as int) < steps
}

/// The ring after moving `steps` slots on from `cur`, zeroing each slot reached.
pub open spec fn advanced_ring(ring: Seq<u64>, cur: int, steps: int) -> Seq<u64> {
    Seq::new(ring.len(), |j: int| if slot_cleared(j, cur, steps) { 0u64 } else { ring[j] })
}

/// Counts bytes sent and received over a sliding window of one-second slots.
pub struct TrafficMeter {
    downstream: [u64; WINDOW_SECS],
    upstream: [u64; WINDOW_SECS],
    clock_start: Instant,
    last_tick_nanos: u128,
    current_index: usize,
}

/// The time from `then` to `now` on a clock, zero where `now` comes first.
pub open spec fn clock_since(then: u128, now: u128) -> int {
    if now >= then {
        now - then
    } else {
        0
    }
}

/// The whole seconds from `then` to `now`, in nanoseconds on a clock.
pub open spec fn whole_secs(then: u128, now: u128) -> u64 {
    (clock_since(then, now) / (NANOS_PER_SEC as int)) as u64
}

impl TrafficMeter {
    pub closed spec fn wf(self) -> bool {
        self.current_index < WINDOW_SECS
    }

    /// Bytes received per slot, oldest first from the slot after the current one.
    pub closed spec fn downstream_slots(self) -> Seq<u64> {
        self.downstream@
    }

    /// Bytes sent per slot.
    pub closed spec fn upstream_slots(self) -> Seq<u64> {
        self.upstream@
    }

    /// The slot that traffic is counted in now.
    pub closed spec fn current(self) -> int {
        self.current_index as int
    }

    /// When the window last moved, in nanoseconds on the meter's clock, which starts
    /// when the meter is made.
    pub closed spec fn spec_last_tick(self) -> u128 {
        self.last_tick_nanos
    }

    /// A meter with every slot at zero.
    pub fn new() -> (r: Self)
        ensures
            r.wf(),
            r.current() == 0,
            r.spec_last_tick() == 0,
            r.downstream_slots() == Seq::new(WINDOW_SECS as nat, |j: int| 0u64),
            r.upstream_slots() == Seq::new(WINDOW_SECS as nat, |j: int| 0u64),
    {
        let r = TrafficMeter {
            downstream: [0u64; WINDOW_SECS],
            upstream: [0u64; WINDOW_SECS],
            clock_start: instant_now(),
            last_tick_nanos: 0,
            current_index: 0,
        };
        proof {
            assert(r.downstream@ =~= Seq::new(WINDOW_SECS as nat, |j: int| 0u64));
            assert(r.upstream@ =~= Seq::new(WINDOW_SECS as nat, |j: int| 0u64));
        }
        r
    }

    /// Moves the window on by `elapsed_secs` whole seconds: at most a full turn of the
    /// ring, each slot reached being zeroed; the window's clock moves on by exactly those
    /// seconds, so a part of a second carries over to the next move.
    pub fn advance_window_by(&mut self, elapsed_secs: u64)
        requires
            old(self).wf(),
            old(self).spec_last_tick() + elapsed_secs * NANOS_PER_SEC <= u128::MAX,
        ensures
            final(self).wf(),
            final(self).spec_last_tick() == old(self).spec_last_tick() + elapsed_secs * NANOS_PER_SEC,
            final(self).current() == (old(self).current() + window_steps(elapsed_secs)) % (WINDOW_SECS as int),
            final(self).downstream_slots() == advanced_ring(old(self).downstream_slots(), old(self).current(), window_steps(elapsed_secs)),
            final(self).upstream_slots() == advanced_ring(old(self).upstream_slots(), old(self).current(), window_steps(elapsed_secs)),
    {
        if elapsed_secs == 0 {
            proof {
                assert(self.downstream@ =~= advanced_ring(old(self).downstream@, old(self).current_index as int, 0));
                assert(self.upstream@ =~= advanced_ring(old(self).upstream@, old(self).current_index as int, 0));
            }
            return;
        }
        let steps: usize = if elapsed_secs < WINDOW_SECS as u64 { elapsed_secs as usize } else { WINDOW_SECS };
        let ghost start = self.current_index as int;
        let ghost down0 = self.downstream@;
        let ghost up0 = self.upstream@;
        let mut k: usize = 0;
        while k < steps
            invariant
                0 <= k <= steps <= WINDOW_SECS,
                0 <= start < WINDOW_SECS,
                self.current_index < WINDOW_SECS,
                self.current_index as int == (start + k) % (WINDOW_SECS as int),
                down0.len() == WINDOW_SECS,
                up0.len() == WINDOW_SECS,
                self.downstream@ == advanced_ring(down0, start, k as int),
                self.upstream@ == advanced_ring(up0, start, k as int),
                self.last_tick_nanos == old(self).last_tick_nanos,
                old(self).last_tick_nanos + elapsed_secs * NANOS_PER_SEC <= u128::MAX,
            decreases steps - k,
        {
            self.current_index = (self.current_index + 1) % WINDOW_SECS;
            self.downstream[self.current_index] = 0;
            self.upstream[self.current_index] = 0;
            proof {
                assert(self.current_index as int == (start + k + 1) % (WINDOW_SECS as int));
                assert forall|j: int| 0 <= j < WINDOW_SECS implies
                    slot_cleared(j, start, k as int + 1) == (slot_cleared(j, start, k as int) || j == self.current_index as int) by {
                }
                assert(self.downstream@ =~= advanced_ring(down0, start, k as int + 1));
                assert(self.upstream@ =~= advanced_ring(up0, start, k as int + 1));
            }
            k = k + 1;
        }
        self.last_tick_nanos = self.last_tick_nanos + (elapsed_secs as u128) * NANOS_PER_SEC;
    }
}

/// How many slots the window moves on after `elapsed_secs` whole seconds: one per
/// second, at most a full turn.
pub open spec fn window_steps(elapsed_secs: u64) -> int {
    if elapsed_secs < WINDOW_SECS {
        elapsed_secs as int
    } else {
        WINDOW_SECS as int
    }
}

/// `ring` with `size` more bytes counted in slot `cur`.
pub open spec fn counted(ring: Seq<u64>, cur: int, size: int) -> Seq<u64> {
    ring.update(cur, (ring[cur] + size) as u64)
}

impl TrafficMeter {
    /// A well-formed meter has a full window of slots of each kind, and its current slot
    /// is one of them.
    pub proof fn lemma_wf_window(self)
        requires
            self.wf(),
        ensures
            self.downstream_slots().len() == WINDOW_SECS,
            self.upstream_slots().len() == WINDOW_SECS,
            0 <= self.current() < WINDOW_SECS,
    {
    }

    /// Reads the meter's clock: the nanoseconds since the meter was made, and the whole
    /// seconds since the window last moved.
    fn read_clock(&self) -> (r: (u128, u64))
        ensures
            r.0 <= DURATION_MAX_NANOS,
            r.1 == whole_secs(self.spec_last_tick(), r.0),
            r.1 == clock_since(self.spec_last_tick(), r.0) / (NANOS_PER_SEC as int),
    {
        let now = nanos_elapsed_since(&self.clock_start);
        let passed = now.saturating_sub(self.last_tick_nanos);
        proof {
            vstd::arithmetic::div_mod::lemma_div_is_ordered(passed as int, DURATION_MAX_NANOS as int, NANOS_PER_SEC as int);
            assert(DURATION_MAX_NANOS as int / NANOS_PER_SEC as int == u64::MAX);
        }
        (now, (passed / NANOS_PER_SEC) as u64)
    }

    /// Moving the window's clock on by the whole seconds read at `now` leaves it less than a
    /// second before `now`, and not past it.
    proof fn lemma_whole_secs(last: u128, now: u128)
        requires
            now <= DURATION_MAX_NANOS,
        ensures
            last + whole_secs(last, now) * NANOS_PER_SEC <= if now >= last { now as int } else { last as int },
            clock_since((last + whole_secs(last, now) * NANOS_PER_SEC) as u128, now) < NANOS_PER_SEC,
    {
        let d = clock_since(last, now);
        vstd::arithmetic::div_mod::lemma_fundamental_div_mod(d, NANOS_PER_SEC as int);
        vstd::arithmetic::div_mod::lemma_div_is_ordered(d, DURATION_MAX_NANOS as int, NANOS_PER_SEC as int);
        assert(DURATION_MAX_NANOS as int / NANOS_PER_SEC as int == u64::MAX);
        vstd::arithmetic::div_mod::lemma_mod_bound(d, NANOS_PER_SEC as int);
    }

    /// Records `size` bytes received `elapsed_secs` whole seconds after the window last
    /// moved: the window moves on first, then the bytes count in the current slot.
    pub fn track_downstream_after(&mut self, elapsed_secs: u64, size: usize)
        requires
            old(self).wf(),
            window_steps(elapsed_secs) > 0 || room_in_current(old(self).downstream_slots(), old(self).current(), size as int),
            old(self).spec_last_tick() + elapsed_secs * NANOS_PER_SEC <= u128::MAX,
        ensures
            final(self).wf(),
            final(self).spec_last_tick() == old(self).spec_last_tick() + elapsed_secs * NANOS_PER_SEC,
            final(self).current() == (old(self).current() + window_steps(elapsed_secs)) % (WINDOW_SECS as int),
            final(self).downstream_slots() == counted(
                advanced_ring(old(self).downstream_slots(), old(self).current(), window_steps(elapsed_secs)),
                final(self).current(),
                size as int,
            ),
            final(self).upstream_slots() == advanced_ring(
                old(self).upstream_slots(),
                old(self).current(),
                window_steps(elapsed_secs),
            ),
    {
        self.advance_window_by(elapsed_secs);
        let ghost mid = *self;
        proof {
            lemma_current_after_advance(old(self).downstream@, old(self).current_index as int, window_steps(elapsed_secs));
        }
        let i = self.current_index;
        self.downstream[i] = self.downstream[i] + size as u64;
        proof {
            assert(self.downstream@ =~= mid.downstream@.update(i as int, (mid.downstream@[i as int] + size) as u64));
        }
    }

    /// Records `size` bytes sent `elapsed_secs` whole seconds after the window last
    /// moved: the window moves on first, then the bytes count in the current slot.
    pub fn track_upstream_after(&mut self, elapsed_secs: u64, size: usize)
        requires
            old(self).wf(),
            window_steps(elapsed_secs) > 0 || room_in_current(old(self).upstream_slots(), old(self).current(), size as int),
            old(self).spec_last_tick() + elapsed_secs * NANOS_PER_SEC <= u128::MAX,
        ensures
            final(self).wf(),
            final(self).spec_last_tick() == old(self).spec_last_tick() + elapsed_secs * NANOS_PER_SEC,
            final(self).current() == (old(self).current() + window_steps(elapsed_secs)) % (WINDOW_SECS as int),
            final(self).upstream_slots() == counted(
                advanced_ring(old(self).upstream_slots(), old(self).current(), window_steps(elapsed_secs)),
                final(self).current(),
                size as int,
            ),
            final(self).downstream_slots() == advanced_ring(
                old(self).downstream_slots(),
                old(self).current(),
                window_steps(elapsed_secs),
            ),
    {
        self.advance_window_by(elapsed_secs);
        let ghost mid = *self;
        proof {
            lemma_current_after_advance(old(self).upstream@, old(self).current_index as int, window_steps(elapsed_secs));
        }
        let i = self.current_index;
        self.upstream[i] = self.upstream[i] + size as u64;
        proof {
            assert(self.upstream@ =~= mid.upstream@.update(i as int, (mid.upstream@[i as int] + size) as u64));
        }
    }

    /// Records `size` bytes received, in the current slot after moving the window on by
    /// the whole seconds read from the clock since it last moved; the window's clock moves
    /// on by exactly those seconds.
    pub fn track_downstream(&mut self, size: usize)
        requires
            old(self).wf(),
            room_in_current(old(self).downstream_slots(), old(self).current(), size as int),
        ensures
            final(self).wf(),
            exists|now: u128| {
                let e = #[trigger] whole_secs(old(self).spec_last_tick(), now);
                &&& now <= DURATION_MAX_NANOS
                &&& final(self).spec_last_tick() == old(self).spec_last_tick() + e * NANOS_PER_SEC
                &&& clock_since(final(self).spec_last_tick(), now) < NANOS_PER_SEC
                &&& final(self).current() == (old(self).current() + window_steps(e)) % (WINDOW_SECS as int)
                &&& final(self).downstream_slots() == counted(
                    advanced_ring(old(self).downstream_slots(), old(self).current(), window_steps(e)),
                    final(self).current(),
                    size as int,
                )
                &&& final(self).upstream_slots() == advanced_ring(
                    old(self).upstream_slots(),
                    old(self).current(),
                    window_steps(e),
                )
            },
    {
        let (now, e) = self.read_clock();
        proof {
            Self::lemma_whole_secs(self.last_tick_nanos, now);
        }
        self.track_downstream_after(e, size);
        proof {
            assert(whole_secs(old(self).spec_last_tick(), now) == e);
        }
    }

    /// Records `size` bytes sent, in the current slot after moving the window on by the
    /// whole seconds read from the clock since it last moved; the window's clock moves on
    /// by exactly those seconds.
    pub fn track_upstream(&mut self, size: usize)
        requires
            old(self).wf(),
            room_in_current(old(self).upstream_slots(), old(self).current(), size as int),
        ensures
            final(self).wf(),
            exists|now: u128| {
                let e = #[trigger] whole_secs(old(self).spec_last_tick(), now);
                &&& now <= DURATION_MAX_NANOS
                &&& final(self).spec_last_tick() == old(self).spec_last_tick() + e * NANOS_PER_SEC
                &&& clock_since(final(self).spec_last_tick(), now) < NANOS_PER_SEC
                &&& final(self).current() == (old(self).current() + window_steps(e)) % (WINDOW_SECS as int)
                &&& final(self).upstream_slots() == counted(
                    advanced_ring(old(self).upstream_slots(), old(self).current(), window_steps(e)),
                    final(self).current(),
                    size as int,
                )
                &&& final(self).downstream_slots() == advanced_ring(
                    old(self).downstream_slots(),
                    old(self).current(),
                    window_steps(e),
                )
            },
    {
        let (now, e) = self.read_clock();
        proof {
            Self::lemma_whole_secs(self.last_tick_nanos, now);
        }
        self.track_upstream_after(e, size);
        proof {
            assert(whole_secs(old(self).spec_last_tick(), now) == e);
        }
    }

    /// Whether `size` more bytes fit in the current downstream slot. Moving the window on
    /// only ever makes a zeroed slot current, so this is what recording them needs.
    pub fn room_for_downstream(&self, size: usize) -> (r: bool)
        requires
            self.wf(),
        ensures
            r == room_in_current(self.downstream_slots(), self.current(), size as int),
    {
        self.downstream[self.current_index] <= u64::MAX - size as u64
    }

    /// Whether `size` more bytes fit in the current upstream slot.
    pub fn room_for_upstream(&self, size: usize) -> (r: bool)
        requires
            self.wf(),
        ensures
            r == room_in_current(self.upstream_slots(), self.current(), size as int),
    {
        self.upstream[self.current_index] <= u64::MAX - size as u64
    }

    /// Bytes received over the window, `None` where the total exceeds `u64`.
    pub fn total_downstream(&self) -> (r: Option<u64>)
        ensures
            r == if seq_sum(self.downstream_slots()) <= u64::MAX {
                Some(seq_sum(self.downstream_slots()) as u64)
            } else {
                None
            },
    {
        checked_sum_slots(&self.downstream)
    }

    /// Bytes sent over the window, `None` where the total exceeds `u64`.
    pub fn total_upstream(&self) -> (r: Option<u64>)
        ensures
            r == if seq_sum(self.upstream_slots()) <= u64::MAX {
                Some(seq_sum(self.upstream_slots()) as u64)
            } else {
                None
            },
    {
        checked_sum_slots(&self.upstream)
    }

    /// Average bytes received per second over the window.
    pub fn downstream_bps(&self) -> (r: u64)
        requires
            seq_sum(self.downstream_slots()) <= u64::MAX,
        ensures
            r == seq_sum(self.downstream_slots()) / (WINDOW_SECS as int),
    {
        sum_slots(&self.downstream) / (WINDOW_SECS as u64)
    }

    /// Average bytes sent per second over the window.
    pub fn upstream_bps(&self) -> (r: u64)
        requires
            seq_sum(self.upstream_slots()) <= u64::MAX,
        ensures
            r == seq_sum(self.upstream_slots()) / (WINDOW_SECS as int),
    {
        sum_slots(&self.upstream) / (WINDOW_SECS as u64)
    }
}

proof fn lemma_seq_sum_prefix_bound(s: Seq<u64>, i: int)
    requires
        0 <= i <= s.len(),
    ensures
        seq_sum(s.take(i)) <= seq_sum(s),
        seq_sum(s.take(i)) >= 0,
    decreases s.len() - i,
{
    if i < s.len() {
        lemma_seq_sum_prefix_bound(s, i + 1);
        assert(s.take(i + 1).drop_last() =~= s.take(i));
    } else {
        assert(s.take(i) =~= s);
    }
    lemma_seq_sum_nonneg(s.take(i));
}

proof fn lemma_seq_sum_nonneg(s: Seq<u64>)
    ensures
        seq_sum(s) >= 0,
    decreases s.len(),
{
    if s.len() > 0 {
        lemma_seq_sum_nonneg(s.drop_last());
    }
}

/// The sum of the slots, `None` where it exceeds `u64`.
fn checked_sum_slots(slots: &[u64; WINDOW_SECS]) -> (r: Option<u64>)
    ensures
        r == if seq_sum(slots@) <= u64::MAX {
            Some(seq_sum(slots@) as u64)
        } else {
            None
        },
{
    let mut total: u64 = 0;
    let mut i: usize = 0;
    while i < WINDOW_SECS
        invariant
            0 <= i <= WINDOW_SECS,
            slots@.len() == WINDOW_SECS,
            total == seq_sum(slots@.take(i as int)),
        decreases WINDOW_SECS - i,
    {
        proof {
            assert(slots@.take(i as int + 1).drop_last() =~= slots@.take(i as int));
        }
        if slots[i] > u64::MAX - total {
            proof {
                lemma_seq_sum_prefix_bound(slots@, i as int + 1);
            }
            return None;
        }
        total = total + slots[i];
        i = i + 1;
    }
    proof {
        assert(slots@.take(WINDOW_SECS as int) =~= slots@);
    }
    Some(total)
}

/// The sum of the slots.
fn sum_slots(slots: &[u64; WINDOW_SECS]) -> (r: u64)
    requires
        seq_sum(slots@) <= u64::MAX,
    ensures
        r == seq_sum(slots@),
{
    let mut total: u64 = 0;
    let mut i: usize = 0;
    while i < WINDOW_SECS
        invariant
            0 <= i <= WINDOW_SECS,
            slots@.len() == WINDOW_SECS,
            seq_sum(slots@) <= u64::MAX,
            total == seq_sum(slots@.take(i as int)),
        decreases WINDOW_SECS - i,
    {
        proof {
            assert(slots@.take(i as int + 1).drop_last() =~= slots@.take(i as int));
            lemma_seq_sum_prefix_bound(slots@, i as int + 1);
        }
        total = total + slots[i];
        i = i + 1;
    }
    proof {
        assert(slots@.take(WINDOW_SECS as int) =~= slots@);
    }
    total
}

} // verus!
