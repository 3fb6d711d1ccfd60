use vstd::prelude::*;

verus! {

/// How often, in nanoseconds, the server looks for clients that went quiet.
pub const INACTIVE_CLIENT_CHECK_INTERVAL_NANOS: u128 = 1_000_000_000;

/// How long, in nanoseconds, a client may go without a ping before it counts as gone.
pub const INACTIVE_CLIENT_TIMEOUT_NANOS: u128 = 3_000_000_000;

/// A client's socket address as plain values: the bits of its IP address (an IPv4 address
/// in the low 32 bits), whether that is an IPv6 address, the port, and for IPv6 the flow
/// information and scope id, which also tell two addresses apart.
#[derive(Clone, Copy, Debug, PartialEq, Eq, Structural, Hash)]
pub struct ClientAddress {
    pub ip: u128,
    pub v6: bool,
    pub port: u16,
    pub flowinfo: u32,
    pub scope_id: u32,
}

/// A connected client and the server time, in nanoseconds since the server started, of its
/// last ping.
pub type ClientEntry = (ClientAddress, u128);

/// The addresses of the clients, in order.
pub open spec fn addresses(entries: Seq<ClientEntry>) -> Seq<ClientAddress> {
    entries.map_values(|e: ClientEntry| e.0)
}

/// The time from `then` to `now`, zero where `now` comes first.
pub open spec fn elapsed(then: u128, now: u128) -> int {
    if now >= then {
        now - then
    } else {
        0
    }
}

/// Whether a client last heard from at `last_ping` counts as gone at `now`.
pub open spec fn timed_out(last_ping: u128, now: u128) -> bool {
    elapsed(last_ping, now) > INACTIVE_CLIENT_TIMEOUT_NANOS
}

/// The entries after a ping from `client` at `now`: a known client gets the new time, a new
/// one is added at the end.
pub open spec fn with_ping(entries: Seq<ClientEntry>, client: ClientAddress, now: u128) -> Seq<
    ClientEntry,
> {
    if addresses(entries).contains(client) {
        entries.map_values(|e: ClientEntry| if e.0 == client { (client, now) } else { e })
    } else {
        entries.push((client, now))
    }
}

/// The entries of the clients still active at `now`.
pub open spec fn active_at(entries: Seq<ClientEntry>, now: u128) -> Seq<ClientEntry> {
    entries.filter(|e: ClientEntry| !timed_out(e.1, now))
}

/// The entries of the clients gone at `now`.
pub open spec fn gone_at(entries: Seq<ClientEntry>, now: u128) -> Seq<ClientEntry> {
    entries.filter(|e: ClientEntry| timed_out(e.1, now))
}

/// The clients connected to a server, each with the time of its last ping, and the time of
/// the last look for clients that went quiet. The clients are kept in a list with no
/// address twice: an address is several integers, and a map keyed by such a struct has no
/// specification here that proofs could use.
pub struct ClientRegistry {
    entries: Vec<ClientEntry>,
    last_inactive_check: u128,
}

impl ClientRegistry {
    /// The connected clients, in the order in which they first pinged.
    pub closed spec fn entries(&self) -> Seq<ClientEntry> {
        self.entries@
    }

    /// When the last look for clients that went quiet was made.
    pub closed spec fn last_check(&self) -> u128 {
        self.last_inactive_check
    }

    /// No client is listed twice.
    pub open spec fn wf(&self) -> bool {
        addresses(self.entries()).no_duplicates()
    }

    /// A registry with no clients, made at `now`.
    pub fn new(now: u128) -> (r: Self)
        ensures
            r.wf(),
            r.entries() == Seq::<ClientEntry>::empty(),
            r.last_check() == now,
    {
        let r = ClientRegistry { entries: Vec::new(), last_inactive_check: now };
        proof {
            assert(addresses(r.entries@) =~= Seq::<ClientAddress>::empty());
        }
        r
    }

    /// The position of `client` among the entries, if it is connected.
    fn find(&self, client: ClientAddress) -> (r: Option<usize>)
        requires
            self.wf(),
        ensures
            match r {
                Some(i) => i < self.entries().len() && self.entries()[i as int].0 == client,
                None => !addresses(self.entries()).contains(client),
            },
    {
        let mut i: usize = 0;
        while i < self.entries.len()
            invariant
                i <= self.entries@.len(),
                forall|k: int| 0 <= k < i ==> self.entries@[k].0 != client,
            decreases self.entries@.len() - i,
        {
            if self.entries[i].0 == client {
                return Some(i);
            }
            i = i + 1;
        }
        proof {
            if addresses(self.entries()).contains(client) {
                let k = choose|k: int|
                    0 <= k < addresses(self.entries()).len() && addresses(self.entries())[k]
                        == client;
                assert(self.entries@[k].0 == client);
            }
        }
        None
    }

    /// Whether `client` is connected.
    pub fn is_connected(&self, client: ClientAddress) -> (r: bool)
        requires
            self.wf(),
        ensures
            r == addresses(self.entries()).contains(client),
    {
        match self.find(client) {
            Some(i) => {
                proof {
                    assert(addresses(self.entries())[i as int] == client);
                }
                true
            },
            None => false,
        }
    }

    /// The connected clients, in order.
    pub fn clients(&self) -> (r: Vec<ClientAddress>)
        ensures
            r@ == addresses(self.entries()),
    {
        let mut out: Vec<ClientAddress> = Vec::new();
        let mut i: usize = 0;
        while i < self.entries.len()
            invariant
                i <= self.entries@.len(),
                out@ == addresses(self.entries@.take(i as int)),
            decreases self.entries@.len() - i,
        {
            out.push(self.entries[i].0);
            proof {
                assert(addresses(self.entries@.take(i + 1)) =~= addresses(
                    self.entries@.take(i as int),
                ).push(self.entries@[i as int].0));
            }
            i = i + 1;
        }
        proof {
            assert(self.entries@.take(i as int) =~= self.entries@);
        }
        out
    }

    /// Records a ping from `client` at `now`; says whether the client is new, that is, was
    /// not connected before.
    pub fn record_ping(&mut self, client: ClientAddress, now: u128) -> (connected: bool)
        requires
            old(self).wf(),
        ensures
            final(self).wf(),
            final(self).entries() == with_ping(old(self).entries(), client, now),
            final(self).last_check() == old(self).last_check(),
            connected == !addresses(old(self).entries()).contains(client),
    {
        let ghost old_entries = self.entries@;
        match self.find(client) {
            Some(i) => {
                self.entries.set(i, (client, now));
                proof {
                    let expected = old_entries.map_values(
                        |e: ClientEntry| if e.0 == client { (client, now) } else { e },
                    );
                    assert(addresses(old_entries)[i as int] == client);
                    assert(addresses(old_entries).contains(client));
                    assert forall|k: int| 0 <= k < old_entries.len() && k != i implies old_entries[k].0
                        != client by {
                        assert(addresses(old_entries)[k] == old_entries[k].0);
                    }
                    assert(self.entries@ =~= expected);
                    assert(addresses(self.entries@) =~= addresses(old_entries));
                }
                false
            },
            None => {
                self.entries.push((client, now));
                proof {
                    assert(addresses(self.entries@) =~= addresses(old_entries).push(client));
                }
                true
            },
        }
    }

    /// Whether it is time to look for clients that went quiet: more than the check interval
    /// has passed since the last look.
    pub fn inactive_check_due(&self, now: u128) -> (r: bool)
        ensures
            r == (elapsed(self.last_check(), now) > INACTIVE_CLIENT_CHECK_INTERVAL_NANOS),
    {
        now.saturating_sub(self.last_inactive_check) > INACTIVE_CLIENT_CHECK_INTERVAL_NANOS
    }

    /// Drops the clients that went quiet by `now` and returns their addresses, in order;
    /// `now` becomes the time of the last look.
    pub fn remove_inactive(&mut self, now: u128) -> (gone: Vec<ClientAddress>)
        requires
            old(self).wf(),
        ensures
            final(self).wf(),
            final(self).entries() == active_at(old(self).entries(), now),
            gone@ == addresses(gone_at(old(self).entries(), now)),
            final(self).last_check() == now,
    {
        let ghost old_entries = self.entries@;
        let mut kept: Vec<ClientEntry> = Vec::new();
        let mut gone: Vec<ClientAddress> = Vec::new();
        let mut i: usize = 0;
        proof {
            reveal(Seq::filter);
            assert(old_entries.take(0) =~= Seq::<ClientEntry>::empty());
        }
        while i < self.entries.len()
            invariant
                i <= self.entries@.len(),
                self.entries@ == old_entries,
                kept@ == active_at(old_entries.take(i as int), now),
                gone@ == addresses(gone_at(old_entries.take(i as int), now)),
            decreases self.entries@.len() - i,
        {
            let e = self.entries[i];
            proof {
                reveal(Seq::filter);
                assert(old_entries.take(i + 1).drop_last() =~= old_entries.take(i as int));
                assert(old_entries.take(i + 1).last() == e);
            }
            if now.saturating_sub(e.1) > INACTIVE_CLIENT_TIMEOUT_NANOS {
                let ghost before = gone@;
                gone.push(e.0);
                proof {
                    assert(addresses(gone_at(old_entries.take(i + 1), now)) =~= before.push(e.0));
                }
            } else {
                kept.push(e);
            }
            i = i + 1;
        }
        proof {
            assert(old_entries.take(i as int) =~= old_entries);
            lemma_filter_keeps_distinct(old_entries, now);
        }
        self.entries = kept;
        self.last_inactive_check = now;
        gone
    }
}

impl ClientRegistry {
    /// One pass of the server's watch over its clients at `now`: where the check is due,
    /// drops the clients that went quiet and returns them; otherwise changes nothing and
    /// returns no client.
    pub fn check_inactive(&mut self, now: u128) -> (gone: Vec<ClientAddress>)
        requires
            old(self).wf(),
        ensures
            final(self).wf(),
            elapsed(old(self).last_check(), now) > INACTIVE_CLIENT_CHECK_INTERVAL_NANOS ==> {
                &&& final(self).entries() == active_at(old(self).entries(), now)
                &&& gone@ == addresses(gone_at(old(self).entries(), now))
                &&& final(self).last_check() == now
            },
            elapsed(old(self).last_check(), now) <= INACTIVE_CLIENT_CHECK_INTERVAL_NANOS ==> {
                &&& final(self).entries() == old(self).entries()
                &&& final(self).last_check() == old(self).last_check()
                &&& gone@.len() == 0
            },
    {
        if self.inactive_check_due(now) {
            self.remove_inactive(now)
        } else {
            Vec::new()
        }
    }
}

/// A message from a client, as far as the server's decisions read it.
#[derive(Clone, Copy, Debug, PartialEq, Eq, Structural)]
pub enum ClientMessage {
    /// A ping, stamped with the client's clock.
    Ping { client_timestamp: u128 },
    /// A pong, which only the server sends.
    Pong,
    /// A packet for the game.
    GamePacket,
}

/// What the server does with a message from a client.
#[derive(Debug, PartialEq, Eq)]
pub enum ServerReaction {
    /// Answer with a pong that echoes `client_timestamp` and carries `server_uptime`;
    /// `connected` tells whether the client is new.
    AnswerPing { connected: bool, client_timestamp: u128, server_uptime: u128 },
    /// Hand the game packet on to the game.
    ForwardGamePacket,
    /// Refuse the message, for the reason given.
    Refuse { reason: String },
}

impl ClientRegistry {
    /// Decides what to do with `msg` from `client`, received `now` nanoseconds after the
    /// server started: a ping records the client and is answered; a game packet is handed
    /// on; a pong is refused.
    pub fn on_message(&mut self, client: ClientAddress, msg: ClientMessage, now: u128) -> (r:
        ServerReaction)
        requires
            old(self).wf(),
        ensures
            final(self).wf(),
            final(self).last_check() == old(self).last_check(),
            match msg {
                ClientMessage::Ping { client_timestamp } => {
                    &&& final(self).entries() == with_ping(old(self).entries(), client, now)
                    &&& r == ServerReaction::AnswerPing {
                        connected: !addresses(old(self).entries()).contains(client),
                        client_timestamp,
                        server_uptime: now,
                    }
                },
                ClientMessage::Pong => {
                    &&& final(self).entries() == old(self).entries()
                    &&& r matches ServerReaction::Refuse { reason }
                    &&& reason@ == "Server received pong. This should never happen"@
                },
                ClientMessage::GamePacket => {
                    &&& final(self).entries() == old(self).entries()
                    &&& r == ServerReaction::ForwardGamePacket
                },
            },
    {
        match msg {
            ClientMessage::Ping { client_timestamp } => {
                let connected = self.record_ping(client, now);
                ServerReaction::AnswerPing { connected, client_timestamp, server_uptime: now }
            },
            ClientMessage::Pong => ServerReaction::Refuse {
                reason: "Server received pong. This should never happen".to_owned(),
            },
            ClientMessage::GamePacket => ServerReaction::ForwardGamePacket,
        }
    }
}

/// A message from the server, as far as the client's decisions read it.
#[derive(Clone, Copy, Debug, PartialEq, Eq, Structural)]
pub enum ServerMessage {
    /// A ping, which only clients send.
    Ping,
    /// The answer to a ping: the client's own address as the server saw it, and the
    /// client's stamp from the ping.
    Pong { client_id: ClientAddress, client_timestamp: u128 },
    /// A packet for the game.
    GamePacket,
}

/// What the client does with a message from the server.
#[derive(Debug, PartialEq, Eq)]
pub enum ClientReaction {
    /// Log the message as wrong, for the reason given.
    Complain { reason: String },
    /// Take `round_trip` nanoseconds as a sample of the ping time, and `client_id` as the
    /// client's own address.
    TakePong { client_id: ClientAddress, round_trip: u128 },
    /// Hand the game packet on to the game and count it as received.
    ForwardGamePacket,
}

/// Decides what the client does with `msg`, received `recv_time` nanoseconds after the
/// client started: a pong gives the round trip since the ping's stamp; a game packet is
/// handed on; a ping is wrong.
pub fn client_on_message(msg: ServerMessage, recv_time: u128) -> (r: ClientReaction)
    requires
        msg matches ServerMessage::Pong { client_timestamp, .. } ==> client_timestamp <= recv_time,
    ensures
        match msg {
            ServerMessage::Ping => {
                &&& r matches ClientReaction::Complain { reason }
                &&& reason@ == "Client received ping, this should not happen"@
            },
            ServerMessage::Pong { client_id, client_timestamp } => r == ClientReaction::TakePong {
                client_id,
                round_trip: (recv_time - client_timestamp) as u128,
            },
            ServerMessage::GamePacket => r == ClientReaction::ForwardGamePacket,
        },
{
    match msg {
        ServerMessage::Ping => ClientReaction::Complain {
            reason: "Client received ping, this should not happen".to_owned(),
        },
        ServerMessage::Pong { client_id, client_timestamp } => ClientReaction::TakePong {
            client_id,
            round_trip: recv_time - client_timestamp,
        },
        ServerMessage::GamePacket => ClientReaction::ForwardGamePacket,
    }
}

/// A ping touches only the client that sent it: every other client keeps its entry, in
/// its place; the sender's entry carries the time of the ping; a new sender is added at
/// the end, and a known one stays where it was.
pub proof fn lemma_ping_touches_only_sender(
    entries: Seq<ClientEntry>,
    client: ClientAddress,
    now: u128,
)
    ensures
        ({
            let after = with_ping(entries, client, now);
            &&& forall|k: int| 0 <= k < entries.len() && entries[k].0 != client ==> #[trigger] after[k] == entries[k]
            &&& forall|k: int| 0 <= k < entries.len() && entries[k].0 == client ==> #[trigger] after[k] == (client, now)
            &&& after.len() == if addresses(entries).contains(client) { entries.len() } else { entries.len() + 1 }
            &&& !addresses(entries).contains(client) ==> after[entries.len() as int] == (client, now)
            &&& addresses(after).contains(client)
        }),
{
    let after = with_ping(entries, client, now);
    if addresses(entries).contains(client) {
        let k = choose|k: int| 0 <= k < addresses(entries).len() && addresses(entries)[k] == client;
        assert(addresses(after)[k] == client);
    } else {
        assert(addresses(after)[entries.len() as int] == client);
        assert forall|k: int| 0 <= k < entries.len() implies entries[k].0 != client by {
            assert(addresses(entries)[k] == entries[k].0);
        }
    }
}

/// A client that pinged at `t` is still connected after a look at `now` made within the
/// timeout of that ping.
pub proof fn lemma_ping_keeps_client(entries: Seq<ClientEntry>, client: ClientAddress, t: u128, now: u128)
    requires
        !timed_out(t, now),
    ensures
        addresses(active_at(with_ping(entries, client, t), now)).contains(client),
{
    let after = with_ping(entries, client, t);
    let pred = |e: ClientEntry| !timed_out(e.1, now);
    let i: int = if addresses(entries).contains(client) {
        choose|k: int| 0 <= k < addresses(entries).len() && addresses(entries)[k] == client
    } else {
        entries.len() as int
    };
    assert(after[i] == (client, t));
    after.lemma_filter_contains(pred, i);
    let kept = active_at(after, now);
    let j = choose|j: int| 0 <= j < kept.len() && kept[j] == (client, t);
    assert(addresses(kept)[j] == client);
}

/// A client whose last ping lies more than the timeout before `now` is among those a look
/// at `now` drops, and not among those it keeps.
pub proof fn lemma_quiet_client_dropped(entries: Seq<ClientEntry>, i: int, now: u128)
    requires
        addresses(entries).no_duplicates(),
        0 <= i < entries.len(),
        timed_out(entries[i].1, now),
    ensures
        addresses(gone_at(entries, now)).contains(entries[i].0),
        !addresses(active_at(entries, now)).contains(entries[i].0),
{
    let e = entries[i];
    entries.lemma_filter_contains(|x: ClientEntry| timed_out(x.1, now), i);
    let g = gone_at(entries, now);
    let j = choose|j: int| 0 <= j < g.len() && g[j] == e;
    assert(addresses(g)[j] == e.0);
    if addresses(active_at(entries, now)).contains(e.0) {
        let kept = active_at(entries, now);
        let k = choose|k: int| 0 <= k < addresses(kept).len() && addresses(kept)[k] == e.0;
        entries.lemma_filter_pred(|x: ClientEntry| !timed_out(x.1, now), k);
        lemma_filtered_from(entries, now, k);
        let m = choose|m: int| 0 <= m < entries.len() && entries[m] == kept[k];
        assert(addresses(entries)[m] == addresses(entries)[i]);
    }
}

/// Dropping entries keeps the addresses distinct.
proof fn lemma_filter_keeps_distinct(entries: Seq<ClientEntry>, now: u128)
    requires
        addresses(entries).no_duplicates(),
    ensures
        addresses(active_at(entries, now)).no_duplicates(),
    decreases entries.len(),
{
    reveal(Seq::filter);
    if entries.len() > 0 {
        let before = entries.drop_last();
        assert(addresses(before) =~= addresses(entries).drop_last());
        lemma_filter_keeps_distinct(before, now);
        let kept = active_at(before, now);
        let e = entries.last();
        if !timed_out(e.1, now) {
            assert(addresses(active_at(entries, now)) =~= addresses(kept).push(e.0));
            assert forall|k: int| 0 <= k < kept.len() implies kept[k].0 != e.0 by {
                before.lemma_filter_pred(|x: ClientEntry| !timed_out(x.1, now), k);
                assert(before.filter(|x: ClientEntry| !timed_out(x.1, now)).len() <= before.len());
                lemma_filtered_from(before, now, k);
                let j = choose|j: int| 0 <= j < before.len() && before[j] == kept[k];
                assert(addresses(entries)[j] == kept[k].0);
                assert(addresses(entries)[entries.len() - 1] == e.0);
            }
        } else {
            assert(active_at(entries, now) == kept);
        }
    }
}

/// Each kept entry is one of the entries.
proof fn lemma_filtered_from(entries: Seq<ClientEntry>, now: u128, k: int)
    requires
        0 <= k < active_at(entries, now).len(),
    ensures
        exists|j: int| 0 <= j < entries.len() && entries[j] == active_at(entries, now)[k],
    decreases entries.len(),
{
    reveal(Seq::filter);
    let before = entries.drop_last();
    let kept = active_at(before, now);
    if k < kept.len() {
        lemma_filtered_from(before, now, k);
        let j = choose|j: int| 0 <= j < before.len() && before[j] == kept[k];
        assert(entries[j] == before[j]);
    } else {
        assert(entries[entries.len() - 1] == active_at(entries, now)[k]);
    }
}

} // verus!
