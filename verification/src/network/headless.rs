use vstd::prelude::*;
use crate::config::SIMULATION_DT_NANOS;
use crate::time::DURATION_MAX_NANOS;

verus! {

/// Decides how many fixed simulation ticks are due as time passes: elapsed time is
/// gathered, and every full tick of it is handed out, the rest kept for later.
pub struct TickSchedule {
    tick_accumulator: u128,
    tick_duration: u128,
}

impl TickSchedule {
    pub closed spec fn wf(self) -> bool {
        &&& 0 < self.tick_duration <= DURATION_MAX_NANOS
        &&& self.tick_accumulator < self.tick_duration
    }

    /// Time gathered that does not yet make a full tick, in nanoseconds.
    pub closed spec fn pending(self) -> u128 {
        self.tick_accumulator
    }

    /// Length of a tick, in nanoseconds.
    pub closed spec fn tick(self) -> u128 {
        self.tick_duration
    }

    /// Nothing gathered yet, ticking at the simulation rate.
    pub fn new() -> (r: Self)
        ensures
            r.wf(),
            r.pending() == 0,
            r.tick() == SIMULATION_DT_NANOS,
    {
        TickSchedule { tick_accumulator: 0, tick_duration: SIMULATION_DT_NANOS }
    }

    /// Gathers `delta` nanoseconds and returns how many ticks are now due; what is left
    /// over stays gathered.
    pub fn on_elapsed(&mut self, delta: u128) -> (ticks: u128)
        requires
            old(self).wf(),
            delta <= DURATION_MAX_NANOS,
        ensures
            final(self).wf(),
            final(self).tick() == old(self).tick(),
            ticks == (old(self).pending() + delta) / (old(self).tick() as int),
            final(self).pending() == (old(self).pending() + delta) % (old(self).tick() as int),
            ticks * old(self).tick() + final(self).pending() == old(self).pending() + delta,
    {
        let total = self.tick_accumulator + delta;
        let ticks = total / self.tick_duration;
        self.tick_accumulator = total % self.tick_duration;
        proof {
            vstd::arithmetic::div_mod::lemma_fundamental_div_mod(total as int, self.tick_duration as int);
            assert(ticks * self.tick_duration == self.tick_duration * ticks) by (nonlinear_arith);
        }
        ticks
    }
}

/// The ticks handed out, and the time left gathered, after the schedule with `pending`
/// gathered and ticks of length `tick` has been given the elapsed times `deltas` in turn.
pub open spec fn ticks_over(pending: int, tick: int, deltas: Seq<int>) -> (int, int)
    decreases deltas.len(),
{
    if deltas.len() == 0 {
        (0, pending)
    } else {
        let before = ticks_over(pending, tick, deltas.drop_last());
        let total = before.1 + deltas.last();
        (before.0 + total / tick, total % tick)
    }
}

/// The sum of the elapsed times.
pub open spec fn total_time(deltas: Seq<int>) -> int
    decreases deltas.len(),
{
    if deltas.len() == 0 {
        0
    } else {
        total_time(deltas.drop_last()) + deltas.last()
    }
}

/// However the elapsed time comes in, no tick is lost or made up: after any sequence of
/// elapsed times, the ticks handed out are the whole ticks in all the time gathered, and
/// what is left is the remainder.
pub proof fn lemma_ticks_over_time(pending: int, tick: int, deltas: Seq<int>)
    requires
        tick > 0,
        0 <= pending,
        forall|i: int| 0 <= i < deltas.len() ==> #[trigger] deltas[i] >= 0,
    ensures
        ticks_over(pending, tick, deltas).0 * tick + ticks_over(pending, tick, deltas).1 == pending + total_time(deltas),
        0 <= pending + total_time(deltas),
        deltas.len() > 0 ==> 0 <= ticks_over(pending, tick, deltas).1 < tick,
        deltas.len() > 0 ==> ticks_over(pending, tick, deltas).0 == (pending + total_time(deltas)) / tick,
    decreases deltas.len(),
{
    if deltas.len() > 0 {
        let before = deltas.drop_last();
        assert forall|i: int| 0 <= i < before.len() implies #[trigger] before[i] >= 0 by {
            assert(before[i] == deltas[i]);
        }
        lemma_ticks_over_time(pending, tick, before);
        let b = ticks_over(pending, tick, before);
        let total = b.1 + deltas.last();
        let t = b.0;
        let p = b.1;
        assert(deltas.last() >= 0);
        assert(p >= 0) by {
            if before.len() == 0 {
            }
        }
        assert(total >= 0);
        vstd::arithmetic::div_mod::lemma_fundamental_div_mod(total, tick);
        assert((t + total / tick) * tick + total % tick == t * tick + total) by (nonlinear_arith)
            requires
                total == tick * (total / tick) + total % tick,
        ;
        assert(0 <= total % tick < tick) by {
            vstd::arithmetic::div_mod::lemma_mod_bound(total, tick);
        }
        vstd::arithmetic::div_mod::lemma_fundamental_div_mod_converse(
            pending + total_time(deltas),
            tick,
            t + total / tick,
            total % tick,
        );
    }
}

/// The sum of the ticks handed out.
pub open spec fn total_ticks(ticks: Seq<int>) -> int
    decreases ticks.len(),
{
    if ticks.len() == 0 {
        0
    } else {
        total_ticks(ticks.drop_last()) + ticks.last()
    }
}

/// `after` is `before` given `delta`, with `ticks` handed out: what `on_elapsed` does.
pub open spec fn elapsed_one(before: TickSchedule, after: TickSchedule, delta: int, ticks: int) -> bool {
    &&& after.tick() == before.tick()
    &&& ticks == (before.pending() + delta) / (before.tick() as int)
    &&& after.pending() == (before.pending() + delta) % (before.tick() as int)
}

/// A run of calls, `ss[i + 1]` being `ss[i]` after `on_elapsed(deltas[i])` handed out
/// `ticks[i]`, hands out in all what `ticks_over` says; so, by `lemma_ticks_over_time`,
/// the whole ticks in the time gathered, the rest left pending.
pub proof fn lemma_run_of_calls(ss: Seq<TickSchedule>, deltas: Seq<int>, ticks: Seq<int>)
    requires
        ss.len() == deltas.len() + 1,
        ticks.len() == deltas.len(),
        forall|i: int| 0 <= i < deltas.len() ==> #[trigger] elapsed_one(ss[i], ss[i + 1], deltas[i], ticks[i]),
    ensures
        ss.last().tick() == ss[0].tick(),
        total_ticks(ticks) == ticks_over(ss[0].pending() as int, ss[0].tick() as int, deltas).0,
        ss.last().pending() == ticks_over(ss[0].pending() as int, ss[0].tick() as int, deltas).1,
    decreases deltas.len(),
{
    if deltas.len() > 0 {
        let n = deltas.len() as int;
        let ss2 = ss.drop_last();
        let d2 = deltas.drop_last();
        let t2 = ticks.drop_last();
        assert forall|i: int| 0 <= i < d2.len() implies #[trigger] elapsed_one(ss2[i], ss2[i + 1], d2[i], t2[i]) by {
            assert(elapsed_one(ss[i], ss[i + 1], deltas[i], ticks[i]));
        }
        lemma_run_of_calls(ss2, d2, t2);
        assert(elapsed_one(ss[n - 1], ss[n], deltas[n - 1], ticks[n - 1]));
    }
}

} // verus!
