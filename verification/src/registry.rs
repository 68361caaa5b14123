//! The shared registry of live client connections.
//!
//! The registry is keyed by peer address. It models the lock-protected
//! collection of write handles: the application holds one socket write handle
//! per entry, in the same order, and performs the actual writes that a
//! broadcast plan calls for.

use vstd::prelude::*;

verus! {

/// A transport-level peer address (IP and port), as plain values.
///
/// IPv4 addresses are carried in the low 32 bits of `ip`; IPv6 addresses use
/// the full 128 bits. Identity is field equality, which is all the relay ever
/// asks of an address.
#[derive(Clone, Copy, Debug, PartialEq, Eq, Structural)]
pub struct PeerAddr {
    pub ip: u128,
    pub port: u16,
}

/// True when `a` occurs somewhere in `s`.
pub open spec fn contains_addr(s: Seq<PeerAddr>, a: PeerAddr) -> bool {
    exists|i: int| 0 <= i < s.len() && s[i] == a
}

/// True when `i` is the first position of `a` in `s`.
pub open spec fn is_first_match(s: Seq<PeerAddr>, a: PeerAddr, i: int) -> bool {
    &&& 0 <= i < s.len()
    &&& s[i] == a
    &&& forall|j: int| 0 <= j < i ==> s[j] != a
}

/// The ordered collection of live client connections, one entry per
/// registered and not yet deregistered connection.
pub struct Registry {
    clients: Vec<PeerAddr>,
}

impl View for Registry {
    type V = Seq<PeerAddr>;

    closed spec fn view(&self) -> Seq<PeerAddr> {
        self.clients@
    }
}

impl Registry {
    /// A registry with no connections.
    pub fn new() -> (r: Registry)
        ensures
            r@ == Seq::<PeerAddr>::empty(),
    {
        Registry { clients: Vec::new() }
    }

    /// How many connections are registered.
    pub fn len(&self) -> (n: usize)
        ensures
            n == self@.len(),
    {
        self.clients.len()
    }

    /// The entry at `index`.
    pub fn get(&self, index: usize) -> (a: PeerAddr)
        requires
            index < self@.len(),
        ensures
            a == self@[index as int],
    {
        self.clients[index]
    }

    /// Registers a newly accepted connection: its entry is appended, and
    /// every existing entry is kept.
    pub fn register(&mut self, addr: PeerAddr)
        ensures
            final(self)@ == old(self)@.push(addr),
    {
        self.clients.push(addr);
    }

    /// Looks up the first entry whose peer address equals `addr`.
    pub fn find(&self, addr: PeerAddr) -> (r: Option<usize>)
        ensures
            match r {
                Some(i) => is_first_match(self@, addr, i as int),
                None => !contains_addr(self@, addr),
            },
    {
        let mut i: usize = 0;
        while i < self.clients.len()
            invariant
                i <= self.clients.len(),
                forall|j: int| 0 <= j < i ==> self@[j] != addr,
            decreases self.clients.len() - i,
        {
            if self.clients[i] == addr {
                return Some(i);
            }
            i = i + 1;
        }
        None
    }

    /// Removes the entry at `index`; all other entries are kept, in order.
    pub fn remove_at(&mut self, index: usize)
        requires
            index < old(self)@.len(),
        ensures
            final(self)@ == old(self)@.remove(index as int),
    {
        self.clients.remove(index);
    }

    /// Deregisters a disconnected connection: the first entry with its peer
    /// address is removed — exactly one entry, never more — and the removed
    /// index is returned. When no entry matches (removal raced with another
    /// mutation), nothing changes and that is not an error.
    pub fn remove_by_address(&mut self, addr: PeerAddr) -> (r: Option<usize>)
        ensures
            match r {
                Some(i) => {
                    &&& is_first_match(old(self)@, addr, i as int)
                    &&& final(self)@ == old(self)@.remove(i as int)
                    &&& final(self)@.len() == old(self)@.len() - 1
                },
                None => {
                    &&& !contains_addr(old(self)@, addr)
                    &&& final(self)@ == old(self)@
                },
            },
    {
        match self.find(addr) {
            Some(index) => {
                self.remove_at(index);
                Some(index)
            },
            None => None,
        }
    }

    /// Plans one broadcast of `bytes`: one outbound write per registered
    /// connection, in registry order, each carrying exactly `bytes`. The
    /// application issues these writes in order while holding the registry
    /// lock, and aborts the remaining fan-out on the first write failure.
    pub fn broadcast_plan(&self, bytes: &Vec<u8>) -> (w: Vec<OutboundWrite>)
        ensures
            w@.len() == self@.len(),
            forall|i: int|
                0 <= i < w@.len() ==> (#[trigger] w@[i]).target == self@[i] && w@[i].bytes@
                    == bytes@,
    {
        let mut w: Vec<OutboundWrite> = Vec::new();
        let mut i: usize = 0;
        while i < self.clients.len()
            invariant
                i <= self.clients.len(),
                w@.len() == i,
                forall|j: int|
                    0 <= j < i ==> (#[trigger] w@[j]).target == self@[j] && w@[j].bytes@ == bytes@,
            decreases self.clients.len() - i,
        {
            w.push(OutboundWrite { target: self.clients[i], bytes: bytes.clone() });
            i = i + 1;
        }
        w
    }
}

/// One planned write of a broadcast fan-out: which peer receives the chunk,
/// and the chunk itself, verbatim.
pub struct OutboundWrite {
    pub target: PeerAddr,
    pub bytes: Vec<u8>,
}

/// A registered address is always found: where `a` occurs in the registry,
/// there is a first position holding it.
pub proof fn lemma_present_addr_has_first_match(s: Seq<PeerAddr>, a: PeerAddr)
    requires
        contains_addr(s, a),
    ensures
        exists|i: int| is_first_match(s, a, i),
    decreases s.len(),
{
    if s[0] == a {
        assert(is_first_match(s, a, 0));
    } else {
        assert(contains_addr(s.drop_first(), a)) by {
            let w = choose|i: int| 0 <= i < s.len() && s[i] == a;
            assert(s.drop_first()[w - 1] == a);
        }
        lemma_present_addr_has_first_match(s.drop_first(), a);
        let i = choose|i: int| is_first_match(s.drop_first(), a, i);
        assert(s[i + 1] == a);
        assert(forall|j: int| 0 < j < i + 1 ==> #[trigger] s[j] == s.drop_first()[j - 1]);
        assert(is_first_match(s, a, i + 1));
    }
}

/// Disconnecting removes exactly one entry: after any number of
/// registrations ending with one of address `a`, deregistering `a` leaves
/// exactly the other entries — the registry's size drops by exactly one.
pub proof fn lemma_register_then_deregister(s: Seq<PeerAddr>, a: PeerAddr, i: int)
    requires
        is_first_match(s.push(a), a, i),
    ensures
        s.push(a).remove(i).len() == s.len(),
{
    assert(s.push(a).len() == s.len() + 1);
}

} // verus!
