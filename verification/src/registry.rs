//! Session registry: the single owner of the session table. It consumes
//! events one at a time, mutates the table, decides which datagrams go out
//! (chat fan-out and liveness probes), and evicts stale sessions.

use vstd::prelude::*;
use crate::codec::{encode, spec_encode, TAG_PING};
use crate::protocol::{ChatError, ChatNotifyPacket, PacketModel, Packets, MAX_PACKET_SIZE};

verus! {

/// A session is evicted when more than this many milliseconds pass without
/// a liveness signal. Strictly greater than the probe period, so one missed
/// beat is tolerated.
pub const EXPIRY_THRESHOLD_MS: u64 = 5000;

/// Whether a session last heard from at `last_ping` is stale at `now`.
pub open spec fn spec_expired(last_ping: u64, now: u64) -> bool {
    now - last_ping > EXPIRY_THRESHOLD_MS
}

/// Mathematical model of one session: display name and the monotonic time
/// (milliseconds) of its most recent liveness signal.
#[verifier::ext_equal]
pub struct SessionModel {
    pub name: Seq<char>,
    pub last_ping: u64,
}

/// One logically connected client.
pub struct User {
    pub name: String,
    pub last_ping: u64,
}

impl View for User {
    type V = SessionModel;

    open spec fn view(&self) -> SessionModel {
        SessionModel { name: self.name@, last_ping: self.last_ping }
    }
}

impl User {
    /// A fresh session; the login itself counts as a liveness signal.
    pub fn new(name: String, now: u64) -> (u: User)
        ensures
            u@ == (SessionModel { name: name@, last_ping: now }),
    {
        User { name, last_ping: now }
    }

    /// Record a liveness signal, keeping the display name.
    pub fn update_ping(&mut self, now: u64)
        ensures
            final(self)@ == (SessionModel { name: old(self)@.name, last_ping: now }),
    {
        self.last_ping = now;
    }

    /// Whether this session is stale at `now`.
    pub fn is_expired(&self, now: u64) -> (r: bool)
        ensures
            r == spec_expired(self.last_ping, now),
    {
        now > self.last_ping && now - self.last_ping > EXPIRY_THRESHOLD_MS
    }
}

/// An event fed to the registry, in arrival order: the first four come from
/// decoded datagrams tagged with their sender, the last from the timer.
#[derive(Debug)]
pub enum Message {
    Login(u64, String),
    Chat(u64, String),
    Logout(u64),
    PingReceived(u64),
    Tick,
}

/// Mathematical model of an event.
pub enum EventModel {
    Login(u64, Seq<char>),
    Chat(u64, Seq<char>),
    Logout(u64),
    PingReceived(u64),
    Tick,
}

impl View for Message {
    type V = EventModel;

    open spec fn view(&self) -> EventModel {
        match self {
            Message::Login(a, n) => EventModel::Login(*a, n@),
            Message::Chat(a, t) => EventModel::Chat(*a, t@),
            Message::Logout(a) => EventModel::Logout(*a),
            Message::PingReceived(a) => EventModel::PingReceived(*a),
            Message::Tick => EventModel::Tick,
        }
    }
}

/// An outbound datagram: destination address and encoded payload.
#[derive(Debug)]
pub struct Datagram {
    pub addr: u64,
    pub payload: Vec<u8>,
}

/// The sweep: every stale session removed, the rest untouched.
pub open spec fn spec_sweep(m: Map<u64, SessionModel>, now: u64) -> Map<u64, SessionModel> {
    Map::new(
        |a: u64| m.dom().contains(a) && !spec_expired(m[a].last_ping, now),
        |a: u64| m[a],
    )
}

/// The registry's transition function: how one event changes the table.
pub open spec fn spec_step(m: Map<u64, SessionModel>, ev: EventModel, now: u64) -> Map<
    u64,
    SessionModel,
> {
    match ev {
        EventModel::Login(addr, name) => m.insert(addr, SessionModel { name, last_ping: now }),
        EventModel::Chat(_, _) => m,
        EventModel::Logout(addr) => m.remove(addr),
        EventModel::PingReceived(addr) => if m.dom().contains(addr) {
            m.insert(addr, SessionModel { name: m[addr].name, last_ping: now })
        } else {
            m
        },
        EventModel::Tick => spec_sweep(m, now),
    }
}

/// `out` delivers `payload` to exactly the addresses of `m`, once each.
pub open spec fn spec_fanout(out: Seq<Datagram>, m: Map<u64, SessionModel>, payload: Seq<u8>) -> bool {
    &&& forall|k1: int, k2: int|
        #![trigger out[k1].addr, out[k2].addr]
        0 <= k1 < k2 < out.len() ==> out[k1].addr != out[k2].addr
    &&& forall|k: int|
        0 <= k < out.len() ==> m.dom().contains((#[trigger] out[k]).addr) && out[k].payload@
            == payload
    &&& forall|a: u64| #[trigger] m.dom().contains(a) ==> exists|k: int|
        0 <= k < out.len() && out[k].addr == a
}

struct SessionEntry {
    addr: u64,
    user: User,
}

/// Same address and same session model (the display name compared as its
/// character sequence).
spec fn entry_matches(e1: SessionEntry, e2: SessionEntry) -> bool {
    e1.addr == e2.addr && e1.user@ == e2.user@
}

/// The session table: address to session, keys unique. Exclusively owned by
/// the registry's single consumer; nothing else reads or writes it.
pub struct Users {
    entries: Vec<SessionEntry>,
}

impl Users {
    /// Keys are unique.
    pub closed spec fn wf(&self) -> bool {
        forall|i: int, j: int|
            #![trigger self.entries@[i].addr, self.entries@[j].addr]
            0 <= i < j < self.entries@.len() ==> self.entries@[i].addr != self.entries@[j].addr
    }

    closed spec fn has_addr(&self, a: u64) -> bool {
        exists|i: int| 0 <= i < self.entries@.len() && self.entries@[i].addr == a
    }

    closed spec fn index_of(&self, a: u64) -> int {
        choose|i: int| 0 <= i < self.entries@.len() && self.entries@[i].addr == a
    }

    /// The table as a map from address to session model.
    pub closed spec fn view(&self) -> Map<u64, SessionModel> {
        Map::new(
            |a: u64| self.has_addr(a),
            |a: u64| self.entries@[self.index_of(a)].user@,
        )
    }

    /// An empty table.
    pub fn new() -> (u: Users)
        ensures
            u.wf(),
            u@ == Map::<u64, SessionModel>::empty(),
    {
        let u = Users { entries: Vec::new() };
        proof {
            assert(u@ =~= Map::<u64, SessionModel>::empty());
        }
        u
    }

    fn find(&self, addr: u64) -> (r: Option<usize>)
        ensures
            (match r {
                Some(i) => i < self.entries@.len() && self.entries@[i as int].addr == addr,
                None => !self.has_addr(addr),
            }),
    {
        let mut i: usize = 0;
        while i < self.entries.len()
            invariant
                i <= self.entries@.len(),
                forall|j: int| 0 <= j < i ==> self.entries@[j].addr != addr,
            decreases self.entries@.len() - i,
        {
            if self.entries[i].addr == addr {
                return Some(i);
            }
            i = i + 1;
        }
        None
    }

    /// Insert a session for `addr`, overwriting any session already there;
    /// the login counts as a liveness signal.
    pub fn add_user(&mut self, addr: u64, name: String, now: u64)
        requires
            old(self).wf(),
        ensures
            final(self).wf(),
            final(self)@ == old(self)@.insert(addr, SessionModel { name: name@, last_ping: now }),
    {
        let entry = SessionEntry { addr, user: User::new(name, now) };
        let ghost mut widx: int = 0;
        match self.find(addr) {
            Some(i) => {
                self.entries[i] = entry;
                proof {
                    widx = i as int;
                }
            },
            None => {
                self.entries.push(entry);
                proof {
                    widx = self.entries@.len() - 1;
                }
            },
        }
        proof {
            assert(final(self).entries@[widx].addr == addr);
            assert forall|a: u64| #[trigger] final(self).has_addr(a) implies a == addr
                || old(self).has_addr(a) by {
                let i = choose|i: int|
                    0 <= i < final(self).entries@.len() && final(self).entries@[i].addr == a;
                if a != addr {
                    assert(old(self).entries@[i].addr == a);
                }
            }
            assert forall|a: u64| a != addr && #[trigger] old(self).has_addr(a) implies
                final(self).has_addr(a) && final(self)@[a] == old(self)@[a] by {
                let i = old(self).index_of(a);
                assert(final(self).entries@[i].addr == a);
                let j = final(self).index_of(a);
                assert(old(self).entries@[j].addr == a);
            }
            assert(final(self).has_addr(addr));
            assert(final(self).entries@[final(self).index_of(addr)].user@ == (SessionModel {
                name: name@,
                last_ping: now,
            }));
            assert(final(self)@ =~= old(self)@.insert(
                addr,
                SessionModel { name: name@, last_ping: now },
            ));
        }
    }

    /// Remove the session at `addr`, if any.
    pub fn remove_user(&mut self, addr: u64)
        requires
            old(self).wf(),
        ensures
            final(self).wf(),
            final(self)@ == old(self)@.remove(addr),
    {
        match self.find(addr) {
            Some(i) => {
                self.entries.remove(i);
                proof {
                    let s = old(self).entries@;
                    assert forall|k: int| 0 <= k < final(self).entries@.len() implies
                        final(self).entries@[k] == (if k < i { s[k] } else { s[k + 1] }) by {
                        assert(final(self).entries@ == s.remove(i as int));
                    }
                    assert forall|a: u64| #[trigger] final(self).has_addr(a) implies a != addr
                        && old(self).has_addr(a) && final(self)@[a] == old(self)@[a] by {
                        let k = choose|k: int|
                            0 <= k < final(self).entries@.len() && final(self).entries@[k].addr
                                == a;
                        let j: int = if k < i { k } else { k + 1 };
                        assert(s[j].addr == a);
                        assert(a != addr);
                        let j2 = old(self).index_of(a);
                        assert(s[j2].addr == a);
                        let k2 = final(self).index_of(a);
                    }
                    assert forall|a: u64| a != addr && #[trigger] old(self).has_addr(a) implies
                        final(self).has_addr(a) by {
                        let j = old(self).index_of(a);
                        assert(s[j].addr == a);
                        assert(j != i);
                        if j < i {
                            assert(final(self).entries@[j].addr == a);
                        } else {
                            assert(final(self).entries@[j - 1].addr == a);
                        }
                    }
                    assert(final(self)@ =~= old(self)@.remove(addr));
                }
            },
            None => {
                proof {
                    assert(!old(self)@.dom().contains(addr));
                    assert(final(self)@ =~= old(self)@.remove(addr));
                }
            },
        }
    }

    /// The display name of the session at `addr`, if one is registered.
    pub fn get_name(&self, addr: u64) -> (r: Option<String>)
        requires
            self.wf(),
        ensures
            r is Some <==> self@.dom().contains(addr),
            (match r {
                Some(n) => n@ == self@[addr].name,
                None => true,
            }),
    {
        match self.find(addr) {
            Some(i) => {
                proof {
                    let j = self.index_of(addr);
                    assert(self.entries@[j].addr == addr);
                }
                Some(self.entries[i].user.name.clone())
            },
            None => None,
        }
    }

    /// Record a liveness signal from `addr`; a signal from an unregistered
    /// address is a silent no-op.
    pub fn ping_received(&mut self, addr: u64, now: u64)
        requires
            old(self).wf(),
        ensures
            final(self).wf(),
            final(self)@ == (if old(self)@.dom().contains(addr) {
                old(self)@.insert(
                    addr,
                    SessionModel { name: old(self)@[addr].name, last_ping: now },
                )
            } else {
                old(self)@
            }),
    {
        match self.find(addr) {
            Some(i) => {
                proof {
                    let j = old(self).index_of(addr);
                    assert(old(self).entries@[j].addr == addr);
                    assert(j == i);
                }
                let nm = self.entries[i].user.name.clone();
                self.entries[i] = SessionEntry { addr, user: User { name: nm, last_ping: now } };
                proof {
                    assert forall|a: u64| #[trigger] final(self).has_addr(a) implies
                        old(self).has_addr(a) by {
                        let k = choose|k: int|
                            0 <= k < final(self).entries@.len() && final(self).entries@[k].addr
                                == a;
                        if k != i {
                            assert(old(self).entries@[k].addr == a);
                        } else {
                            assert(old(self).entries@[i as int].addr == addr);
                        }
                    }
                    assert forall|a: u64| #[trigger] old(self).has_addr(a) implies
                        final(self).has_addr(a) by {
                        let k = old(self).index_of(a);
                        assert(final(self).entries@[k].addr == a);
                    }
                    assert forall|a: u64| a != addr && #[trigger] final(self).has_addr(a) implies
                        final(self)@[a] == old(self)@[a] by {
                        let k = final(self).index_of(a);
                        assert(final(self).entries@[k].addr == a);
                        assert(k != i);
                        let k2 = old(self).index_of(a);
                        assert(old(self).entries@[k2].addr == a);
                        assert(k2 == k);
                    }
                    assert(final(self).has_addr(addr));
                    assert(final(self).index_of(addr) == i);
                    assert(final(self)@ =~= old(self)@.insert(
                        addr,
                        SessionModel { name: old(self)@[addr].name, last_ping: now },
                    ));
                }
            },
            None => {
                proof {
                    assert(!old(self)@.dom().contains(addr));
                }
            },
        }
    }

    /// One timer tick: first the sweep (every stale session removed), then
    /// the probe (one heartbeat datagram per surviving session). A session
    /// evicted by the sweep receives no probe in the same tick.
    pub fn tick(&mut self, now: u64) -> (out: Vec<Datagram>)
        requires
            old(self).wf(),
        ensures
            final(self).wf(),
            final(self)@ == spec_sweep(old(self)@, now),
            spec_fanout(out@, final(self)@, spec_encode(PacketModel::Ping)),
    {
        self.sweep(now);
        self.probe()
    }

    /// Remove every stale session, leaving the rest untouched.
    #[verifier::rlimit(60)]
    fn sweep(&mut self, now: u64)
        requires
            old(self).wf(),
        ensures
            final(self).wf(),
            final(self)@ == spec_sweep(old(self)@, now),
    {
        let ghost s = self.entries@;
        let mut kept: Vec<SessionEntry> = Vec::new();
        let mut i: usize = 0;
        while i < self.entries.len()
            invariant
                self.wf(),
                self.entries@ == s,
                i <= s.len(),
                forall|k: int| 0 <= k < kept@.len() ==> exists|j: int|
                    0 <= j < i && entry_matches(#[trigger] kept@[k], s[j]),
                forall|j: int|
                    0 <= j < i && !spec_expired(s[j].user.last_ping, now) ==> exists|k: int|
                        0 <= k < kept@.len() && entry_matches(kept@[k], #[trigger] s[j]),
                forall|k: int| 0 <= k < kept@.len() ==> !spec_expired(
                    (#[trigger] kept@[k]).user.last_ping,
                    now,
                ),
                forall|k1: int, k2: int|
                    #![trigger kept@[k1].addr, kept@[k2].addr]
                    0 <= k1 < k2 < kept@.len() ==> kept@[k1].addr != kept@[k2].addr,
            decreases s.len() - i,
        {
            let e = &self.entries[i];
            if !e.user.is_expired(now) {
                let nm = e.user.name.clone();
                let a = e.addr;
                let lp = e.user.last_ping;
                let ghost kept0 = kept@;
                proof {
                    assert forall|k: int| 0 <= k < kept0.len() implies kept0[k].addr != a by {
                        let j = choose|j: int| 0 <= j < i && entry_matches(kept0[k], s[j]);
                        assert(s[j].addr != s[i as int].addr);
                    }
                }
                kept.push(SessionEntry { addr: a, user: User { name: nm, last_ping: lp } });
                proof {
                    assert(entry_matches(kept@[kept@.len() - 1], s[i as int]));
                    assert forall|k: int| 0 <= k < kept@.len() implies exists|j: int|
                        0 <= j < i + 1 && entry_matches(#[trigger] kept@[k], s[j]) by {
                        if k < kept0.len() {
                            assert(kept@[k] == kept0[k]);
                            let j = choose|j: int| 0 <= j < i && entry_matches(kept0[k], s[j]);
                            assert(entry_matches(kept@[k], s[j]));
                        } else {
                            assert(entry_matches(kept@[k], s[i as int]));
                        }
                    }
                    assert forall|j: int|
                        0 <= j < i + 1 && !spec_expired(s[j].user.last_ping, now) implies exists|
                        k: int,
                    |
                        0 <= k < kept@.len() && entry_matches(kept@[k], #[trigger] s[j]) by {
                        if j < i {
                            let k = choose|k: int|
                                0 <= k < kept0.len() && entry_matches(kept0[k], s[j]);
                            assert(kept@[k] == kept0[k]);
                            assert(entry_matches(kept@[k], s[j]));
                        } else {
                            assert(entry_matches(kept@[kept@.len() - 1], s[j]));
                        }
                    }
                }
            }
            i = i + 1;
        }
        self.entries = kept;
        proof {
            assert forall|a: u64| #[trigger] final(self).has_addr(a) implies
                spec_sweep(old(self)@, now).dom().contains(a)
                && final(self)@[a] == spec_sweep(old(self)@, now)[a] by {
                let k = choose|k: int|
                    0 <= k < final(self).entries@.len() && final(self).entries@[k].addr == a;
                let j = choose|j: int|
                    0 <= j < s.len() && entry_matches(final(self).entries@[k], s[j]);
                assert(s[j].addr == a);
                assert(old(self).has_addr(a));
                let j2 = old(self).index_of(a);
                assert(s[j2].addr == a);
                assert(j2 == j);
                let k2 = final(self).index_of(a);
                assert(final(self).entries@[k2].addr == a);
                assert(k2 == k);
            }
            assert forall|a: u64| #[trigger] spec_sweep(old(self)@, now).dom().contains(
                a,
            ) implies final(self).has_addr(a) by {
                let j = old(self).index_of(a);
                assert(s[j].addr == a);
                assert(!spec_expired(s[j].user.last_ping, now));
                let k = choose|k: int|
                    0 <= k < final(self).entries@.len() && entry_matches(
                        final(self).entries@[k],
                        s[j],
                    );
                assert(final(self).entries@[k].addr == a);
            }
            assert(final(self)@ =~= spec_sweep(old(self)@, now));
        }
    }

    /// Send one heartbeat probe to every registered session.
    fn probe(&self) -> (out: Vec<Datagram>)
        requires
            self.wf(),
        ensures
            spec_fanout(out@, self@, spec_encode(PacketModel::Ping)),
    {
        let mut out: Vec<Datagram> = Vec::new();
        let mut i: usize = 0;
        while i < self.entries.len()
            invariant
                self.wf(),
                i <= self.entries@.len(),
                out@.len() == i,
                forall|k: int| 0 <= k < i ==> (#[trigger] out@[k]).addr == self.entries@[k].addr
                    && out@[k].payload@ == spec_encode(PacketModel::Ping),
            decreases self.entries@.len() - i,
        {
            let a = self.entries[i].addr;
            let mut payload: Vec<u8> = Vec::new();
            payload.push(TAG_PING);
            proof {
                assert(payload@ =~= spec_encode(PacketModel::Ping));
            }
            out.push(Datagram { addr: a, payload });
            i = i + 1;
        }
        proof {
            assert forall|a: u64| #[trigger] self@.dom().contains(a) implies exists|k: int|
                0 <= k < out@.len() && out@[k].addr == a by {
                let j = self.index_of(a);
                assert(self.entries@[j].addr == a);
                assert(out@[j].addr == a);
            }
            assert forall|k: int| 0 <= k < out@.len() implies self@.dom().contains(
                (#[trigger] out@[k]).addr,
            ) by {
                assert(self.entries@[k].addr == out@[k].addr);
            }
        }
        out
    }

    /// Fan a chat notification out to every registered session, the sender
    /// included. A message whose encoding would reach the size ceiling is
    /// refused and nothing is sent.
    pub fn send(&self, name: &str, contents: &str) -> (r: Result<Vec<Datagram>, ChatError>)
        requires
            self.wf(),
        ensures
            (match r {
                Ok(out) => {
                    &&& spec_encode(
                        PacketModel::Notify { name: name@, contents: contents@ },
                    ).len() < MAX_PACKET_SIZE
                    &&& spec_fanout(
                        out@,
                        self@,
                        spec_encode(PacketModel::Notify { name: name@, contents: contents@ }),
                    )
                },
                Err(e) => {
                    &&& e == ChatError::OversizedMessage
                    &&& spec_encode(
                        PacketModel::Notify { name: name@, contents: contents@ },
                    ).len() >= MAX_PACKET_SIZE
                },
            }),
    {
        let packet = Packets::ChatNotify(
            ChatNotifyPacket { name: name.to_owned(), contents: contents.to_owned() },
        );
        let bytes = match encode(&packet) {
            Ok(b) => b,
            Err(e) => {
                return Err(e);
            },
        };
        let ghost payload = spec_encode(PacketModel::Notify { name: name@, contents: contents@ });
        let mut out: Vec<Datagram> = Vec::new();
        let mut i: usize = 0;
        while i < self.entries.len()
            invariant
                self.wf(),
                bytes@ == payload,
                i <= self.entries@.len(),
                out@.len() == i,
                forall|k: int| 0 <= k < i ==> (#[trigger] out@[k]).addr == self.entries@[k].addr
                    && out@[k].payload@ == payload,
            decreases self.entries@.len() - i,
        {
            let a = self.entries[i].addr;
            let mut copy: Vec<u8> = Vec::new();
            copy.extend_from_slice(bytes.as_slice());
            proof {
                assert(copy@ =~= bytes@);
            }
            out.push(Datagram { addr: a, payload: copy });
            i = i + 1;
        }
        proof {
            assert forall|a: u64| #[trigger] self@.dom().contains(a) implies exists|k: int|
                0 <= k < out@.len() && out@[k].addr == a by {
                let j = self.index_of(a);
                assert(self.entries@[j].addr == a);
                assert(out@[j].addr == a);
            }
            assert forall|k: int| 0 <= k < out@.len() implies self@.dom().contains(
                (#[trigger] out@[k]).addr,
            ) by {
                assert(self.entries@[k].addr == out@[k].addr);
            }
        }
        Ok(out)
    }

    /// Dispatch one event: the registry's transition table. The returned
    /// datagrams are everything this event sends; a chat from an
    /// unregistered address, and an oversized notification, send nothing.
    pub fn handle_message(&mut self, msg: Message, now: u64) -> (out: Vec<Datagram>)
        requires
            old(self).wf(),
        ensures
            final(self).wf(),
            final(self)@ == spec_step(old(self)@, msg@, now),
            (match msg {
                Message::Login(_, _) | Message::Logout(_) | Message::PingReceived(_) => out@.len()
                    == 0,
                Message::Chat(addr, text) => {
                    if !old(self)@.dom().contains(addr) {
                        out@.len() == 0
                    } else {
                        let payload = spec_encode(
                            PacketModel::Notify {
                                name: old(self)@[addr].name,
                                contents: text@,
                            },
                        );
                        if payload.len() >= MAX_PACKET_SIZE {
                            out@.len() == 0
                        } else {
                            spec_fanout(out@, old(self)@, payload)
                        }
                    }
                },
                Message::Tick => spec_fanout(out@, final(self)@, spec_encode(PacketModel::Ping)),
            }),
    {
        match msg {
            Message::Login(addr, name) => {
                self.add_user(addr, name, now);
                Vec::new()
            },
            Message::Logout(addr) => {
                self.remove_user(addr);
                Vec::new()
            },
            Message::Chat(addr, contents) => {
                match self.get_name(addr) {
                    Some(name) => {
                        match self.send(name.as_str(), contents.as_str()) {
                            Ok(out) => out,
                            Err(_) => Vec::new(),
                        }
                    },
                    None => Vec::new(),
                }
            },
            Message::PingReceived(addr) => {
                self.ping_received(addr, now);
                Vec::new()
            },
            Message::Tick => self.tick(now),
        }
    }
}

/// The table after a sequence of events, starting from an empty table. Each
/// event is paired with the monotonic time at which it was processed.
pub open spec fn spec_run(evs: Seq<(EventModel, u64)>) -> Map<u64, SessionModel>
    decreases evs.len(),
{
    if evs.len() == 0 {
        Map::empty()
    } else {
        spec_step(spec_run(evs.drop_last()), evs.last().0, evs.last().1)
    }
}

/// The time of `addr`'s most recent liveness signal in `evs`: its last
/// login, or a later ping received while it was registered.
pub open spec fn spec_last_liveness(evs: Seq<(EventModel, u64)>, addr: u64) -> u64
    decreases evs.len(),
{
    if evs.len() == 0 {
        0
    } else {
        let prefix = evs.drop_last();
        let now = evs.last().1;
        match evs.last().0 {
            EventModel::Login(a, _) => if a == addr {
                now
            } else {
                spec_last_liveness(prefix, addr)
            },
            EventModel::PingReceived(a) => if a == addr && spec_alive(prefix, addr) {
                now
            } else {
                spec_last_liveness(prefix, addr)
            },
            _ => spec_last_liveness(prefix, addr),
        }
    }
}

/// Whether `addr` has logged in, has not since logged out, and has not been
/// caught stale by any tick: exactly the sessions the table should hold.
pub open spec fn spec_alive(evs: Seq<(EventModel, u64)>, addr: u64) -> bool
    decreases evs.len(),
{
    if evs.len() == 0 {
        false
    } else {
        let prefix = evs.drop_last();
        let now = evs.last().1;
        match evs.last().0 {
            EventModel::Login(a, _) => a == addr || spec_alive(prefix, addr),
            EventModel::Logout(a) => a != addr && spec_alive(prefix, addr),
            EventModel::Tick => spec_alive(prefix, addr) && !spec_expired(
                spec_last_liveness(prefix, addr),
                now,
            ),
            _ => spec_alive(prefix, addr),
        }
    }
}

/// Law: after any sequence of events fed to the registry, the table holds
/// exactly the addresses with an unevicted, unexpired login and no later
/// logout; and a live session's liveness clock reads its most recent
/// liveness signal.
pub proof fn lemma_registry_membership(evs: Seq<(EventModel, u64)>, addr: u64)
    ensures
        spec_run(evs).dom().contains(addr) <==> spec_alive(evs, addr),
        spec_alive(evs, addr) ==> spec_run(evs)[addr].last_ping == spec_last_liveness(evs, addr),
    decreases evs.len(),
{
    if evs.len() > 0 {
        lemma_registry_membership(evs.drop_last(), addr);
    }
}

/// Law: a session that is stale at `now` is removed by the sweep, so the
/// probes of that same tick (sent to the swept table only) never reach it.
pub proof fn lemma_stale_session_evicted(
    m: Map<u64, SessionModel>,
    addr: u64,
    now: u64,
    out: Seq<Datagram>,
    payload: Seq<u8>,
)
    requires
        m.dom().contains(addr),
        spec_expired(m[addr].last_ping, now),
        spec_fanout(out, spec_sweep(m, now), payload),
    ensures
        !spec_sweep(m, now).dom().contains(addr),
        forall|k: int| 0 <= k < out.len() ==> (#[trigger] out[k]).addr != addr,
{
}

/// Law: logging in again at a registered address overwrites the display
/// name, resets the liveness clock, and creates no second entry: the set of
/// addresses only gains `addr`.
pub proof fn lemma_relogin_overwrites(
    m: Map<u64, SessionModel>,
    addr: u64,
    name: Seq<char>,
    now: u64,
)
    ensures
        spec_step(m, EventModel::Login(addr, name), now)[addr] == (SessionModel {
            name,
            last_ping: now,
        }),
        spec_step(m, EventModel::Login(addr, name), now).dom() =~= m.dom().insert(addr),
{
}

} // verus!
