use vstd::prelude::*;
use crate::time::DURATION_MAX_NANOS;

verus! {

/// The time from `then` to `now`, zero where `now` comes first (as
/// `Instant::duration_since` saturates).
pub open spec fn since(then: u128, now: u128) -> int {
    if now >= then {
        now - then
    } else {
        0
    }
}

/// Keeps an estimate of the server's clock: the server time (in nanoseconds) last
/// agreed on, and the time on the client's clock (nanoseconds from a fixed starting
/// moment of the client) at which that happened.
pub struct TimeSync {
    last_update_server_time: u128,
    last_update_client_nanos: u128,
}

impl TimeSync {
    pub closed spec fn wf(self) -> bool {
        self.last_update_server_time <= DURATION_MAX_NANOS
    }

    /// The server time, in nanoseconds, at the last update.
    pub closed spec fn spec_last_server_time(self) -> u128 {
        self.last_update_server_time
    }

    /// The client's clock, in nanoseconds, at the last update.
    pub closed spec fn spec_last_client_nanos(self) -> u128 {
        self.last_update_client_nanos
    }

    /// The estimated server time when the client's clock reads `now_nanos`: the last agreed
    /// server time moved on by the client time since then.
    pub open spec fn spec_server_time_at(self, now_nanos: u128) -> int {
        self.spec_last_server_time() + since(self.spec_last_client_nanos(), now_nanos)
    }

    /// No agreement yet: server time zero, at `now_nanos` on the client's clock.
    pub fn new(now_nanos: u128) -> (r: Self)
        ensures
            r.wf(),
            r.spec_last_server_time() == 0,
            r.spec_last_client_nanos() == now_nanos,
    {
        TimeSync { last_update_server_time: 0, last_update_client_nanos: now_nanos }
    }

    /// The server time a snapshot was taken at, moved on by half the round trip.
    pub fn estimated_server_now(snapshot_server_time: u128, rtt: u128) -> (r: u128)
        requires
            snapshot_server_time + rtt / 2 <= DURATION_MAX_NANOS,
        ensures
            r == snapshot_server_time + rtt / 2,
    {
        snapshot_server_time + rtt / 2
    }

    /// The server time, in nanoseconds, at the last update.
    pub fn last_server_time(&self) -> (r: u128)
        ensures
            r == self.spec_last_server_time(),
    {
        self.last_update_server_time
    }

    /// Takes `server_time` as the server time when the client's clock reads
    /// `receive_nanos`.
    pub fn record(&mut self, server_time: u128, receive_nanos: u128)
        requires
            server_time <= DURATION_MAX_NANOS,
        ensures
            final(self).wf(),
            final(self).spec_last_server_time() == server_time,
            final(self).spec_last_client_nanos() == receive_nanos,
    {
        self.last_update_server_time = server_time;
        self.last_update_client_nanos = receive_nanos;
    }

    /// The server time once `elapsed` nanoseconds have passed on the client since the
    /// last update.
    pub fn server_time_after(&self, elapsed: u128) -> (r: u128)
        requires
            self.wf(),
            elapsed <= DURATION_MAX_NANOS,
        ensures
            r == self.spec_last_server_time() + elapsed,
    {
        self.last_update_server_time + elapsed
    }

    /// The estimated server time when the client's clock reads `now_nanos` (none of the
    /// client's time counts where `now_nanos` comes before the last update).
    pub fn server_time_at(&self, now_nanos: u128) -> (r: u128)
        requires
            self.wf(),
            since(self.spec_last_client_nanos(), now_nanos) <= DURATION_MAX_NANOS,
        ensures
            r == self.spec_server_time_at(now_nanos),
    {
        let elapsed = now_nanos.saturating_sub(self.last_update_client_nanos);
        self.server_time_after(elapsed)
    }

    /// The estimate never runs backwards: a later reading of the client's clock never
    /// gives an earlier server time.
    pub proof fn lemma_server_time_monotone(self, now1: u128, now2: u128)
        requires
            now1 <= now2,
        ensures
            self.spec_server_time_at(now1) <= self.spec_server_time_at(now2),
    {
    }
}

} // verus!
