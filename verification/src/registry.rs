//! The connection registry: at most one live connection per address.
//!
//! The registry is a plain value; the process wraps it in one mutual-exclusion
//! lock and holds that lock for the whole check-then-act sequence of every
//! mutation, so the contracts here describe exactly the atomic transitions
//! that concurrent callers observe. A sink handle looked up here is used for
//! sending outside the lock; the registry itself never writes to it.

use vstd::prelude::*;

use crate::dispatch::AlreadyConnected;

verus! {

/// Tracks the sink handle of each connected address, together with the
/// connected-client counter.
pub struct Registry<S> {
    connections: Vec<(String, S)>,
    total_clients: usize,
}

/// The mapping described by an association list, later entries overriding
/// earlier ones; the registry keeps its keys distinct, so no overriding ever
/// happens in it.
pub open spec fn connections_map<S>(entries: Seq<(String, S)>) -> Map<Seq<char>, S>
    decreases entries.len(),
{
    if entries.len() == 0 {
        Map::empty()
    } else {
        connections_map(entries.drop_last()).insert(entries.last().0@, entries.last().1)
    }
}

impl<S> View for Registry<S> {
    type V = Map<Seq<char>, S>;

    closed spec fn view(&self) -> Map<Seq<char>, S> {
        connections_map(self.connections@)
    }
}

/// What `register` does to the registry's mapping: a taken address leaves it
/// unchanged and fails; a free one gains the entry.
pub open spec fn register_transition<S>(
    m: Map<Seq<char>, S>,
    address: Seq<char>,
    sink: S,
) -> (Map<Seq<char>, S>, bool) {
    if m.contains_key(address) {
        (m, false)
    } else {
        (m.insert(address, sink), true)
    }
}

/// What `deregister` does to the registry's mapping: the entry goes if it is
/// there; an absent address is a no-op, not an error.
pub open spec fn deregister_transition<S>(m: Map<Seq<char>, S>, address: Seq<char>) -> Map<
    Seq<char>,
    S,
> {
    if m.contains_key(address) {
        m.remove(address)
    } else {
        m
    }
}

proof fn lemma_connections_absent<S>(entries: Seq<(String, S)>, key: Seq<char>)
    requires
        forall|j: int| 0 <= j < entries.len() ==> (#[trigger] entries[j].0)@ != key,
    ensures
        !connections_map(entries).contains_key(key),
    decreases entries.len(),
{
    if entries.len() > 0 {
        lemma_connections_absent(entries.drop_last(), key);
    }
}

proof fn lemma_connections_found<S>(entries: Seq<(String, S)>, i: int, key: Seq<char>)
    requires
        0 <= i < entries.len(),
        entries[i].0@ == key,
        forall|j: int| i < j < entries.len() ==> (#[trigger] entries[j].0)@ != key,
    ensures
        connections_map(entries).contains_key(key),
        connections_map(entries)[key] == entries[i].1,
    decreases entries.len(),
{
    if i == entries.len() - 1 {
    } else {
        lemma_connections_found(entries.drop_last(), i, key);
    }
}

proof fn lemma_connections_remove<S>(entries: Seq<(String, S)>, i: int)
    requires
        0 <= i < entries.len(),
        forall|p: int, q: int|
            0 <= p < q < entries.len() ==> (#[trigger] entries[p].0)@ != (#[trigger] entries[q].0)@,
    ensures
        connections_map(entries.remove(i)) =~= connections_map(entries).remove(entries[i].0@),
    decreases entries.len(),
{
    let key = entries[i].0@;
    if i == entries.len() - 1 {
        assert(entries.remove(i) =~= entries.drop_last());
        assert(forall|j: int|
            0 <= j < entries.drop_last().len() ==> (#[trigger] entries.drop_last()[j].0)@ != key);
        lemma_connections_absent(entries.drop_last(), key);
        assert(connections_map(entries.drop_last()).remove(key) =~= connections_map(
            entries.drop_last(),
        ));
    } else {
        let shorter = entries.drop_last();
        assert(entries.remove(i).drop_last() =~= shorter.remove(i));
        assert(entries.remove(i).last() == entries.last());
        lemma_connections_remove(shorter, i);
        assert(entries.last().0@ != key);
    }
}

impl<S> Registry<S> {
    /// The registry's internal consistency: addresses are pairwise distinct
    /// (at most one entry per address) and the counter equals the number of
    /// live entries.
    pub closed spec fn well_formed(&self) -> bool {
        &&& forall|p: int, q: int|
            0 <= p < q < self.connections@.len() ==> (#[trigger] self.connections@[p].0)@ != (
            #[trigger] self.connections@[q].0)@
        &&& self.total_clients == self.connections@.len()
    }

    /// The connected-client counter.
    pub closed spec fn client_count(&self) -> nat {
        self.total_clients as nat
    }

    /// An empty registry: no connections, counter at zero.
    pub fn new() -> (r: Registry<S>)
        ensures
            r.well_formed(),
            r@ == Map::<Seq<char>, S>::empty(),
            r.client_count() == 0,
    {
        let r = Registry { connections: Vec::new(), total_clients: 0 };
        proof {
            assert(r@ =~= Map::<Seq<char>, S>::empty());
        }
        r
    }

    /// The connected-client counter, as the handlers report it.
    pub fn total_clients(&self) -> (r: usize)
        ensures
            r == self.client_count(),
    {
        self.total_clients
    }

    /// Registers a connection under `address`. If the address already holds
    /// one, nothing changes and the attempt fails; otherwise the entry is
    /// inserted and the counter grows by one. The caller holds the registry
    /// lock for the whole call, so the check and the insertion are atomic.
    pub fn register(&mut self, address: String, sink: S) -> (r: Result<(), AlreadyConnected>)
        requires
            old(self).well_formed(),
        ensures
            final(self).well_formed(),
            (final(self)@, r is Ok) == register_transition(old(self)@, address@, sink),
            r is Ok ==> final(self).client_count() == old(self).client_count() + 1,
            r is Err ==> final(self).client_count() == old(self).client_count(),
    {
        let n = self.connections.len();
        let mut i: usize = 0;
        while i < n
            invariant
                n == self.connections@.len(),
                i <= n,
                forall|j: int| 0 <= j < i ==> (#[trigger] self.connections@[j].0)@ != address@,
                *self == *old(self),
                self.well_formed(),
            decreases n - i,
        {
            if self.connections[i].0 == address {
                proof {
                    assert(forall|j: int|
                        (i as int) < j < self.connections@.len() ==> (
                        #[trigger] self.connections@[j].0)@ != address@) by {
                        assert(forall|j: int|
                            (i as int) < j < self.connections@.len() ==> (self.connections@[
                            i as int].0)@ != (#[trigger] self.connections@[j].0)@);
                    }
                    lemma_connections_found(self.connections@, i as int, address@);
                }
                return Err(AlreadyConnected);
            }
            i = i + 1;
        }
        proof {
            lemma_connections_absent(self.connections@, address@);
            assert(self.connections@.push((address, sink)).drop_last() =~= self.connections@);
        }
        self.connections.push((address, sink));
        self.total_clients = self.connections.len();
        Ok(())
    }

    /// A shared handle to the sink registered under `address`, if any. Pure:
    /// the registry is not changed, and nothing is sent from here.
    pub fn lookup(&self, address: &String) -> (r: Option<&S>)
        requires
            self.well_formed(),
        ensures
            match r {
                Some(sink) => self@.contains_key(address@) && *sink == self@[address@],
                None => !self@.contains_key(address@),
            },
    {
        let n = self.connections.len();
        let mut i: usize = 0;
        while i < n
            invariant
                n == self.connections@.len(),
                i <= n,
                self.well_formed(),
                forall|j: int| 0 <= j < i ==> (#[trigger] self.connections@[j].0)@ != address@,
            decreases n - i,
        {
            if self.connections[i].0 == *address {
                proof {
                    assert(forall|j: int|
                        (i as int) < j < self.connections@.len() ==> (
                        #[trigger] self.connections@[j].0)@ != address@) by {
                        assert(forall|j: int|
                            (i as int) < j < self.connections@.len() ==> (self.connections@[
                            i as int].0)@ != (#[trigger] self.connections@[j].0)@);
                    }
                    lemma_connections_found(self.connections@, i as int, address@);
                }
                return Some(&self.connections[i].1);
            }
            i = i + 1;
        }
        proof {
            lemma_connections_absent(self.connections@, address@);
        }
        None
    }

    /// Removes the entry under `address`, if any, and shrinks the counter
    /// with it. Idempotent: deregistering an absent address is a no-op, so a
    /// cleanup path racing a failed registration elsewhere does no harm.
    pub fn deregister(&mut self, address: &String)
        requires
            old(self).well_formed(),
        ensures
            final(self).well_formed(),
            final(self)@ == deregister_transition(old(self)@, address@),
            old(self)@.contains_key(address@) ==> final(self).client_count() == old(
                self,
            ).client_count() - 1,
            !old(self)@.contains_key(address@) ==> final(self).client_count() == old(
                self,
            ).client_count(),
    {
        let n = self.connections.len();
        let mut i: usize = 0;
        while i < n
            invariant
                n == self.connections@.len(),
                i <= n,
                forall|j: int| 0 <= j < i ==> (#[trigger] self.connections@[j].0)@ != address@,
                *self == *old(self),
                self.well_formed(),
            decreases n - i,
        {
            if self.connections[i].0 == *address {
                proof {
                    assert(forall|j: int|
                        (i as int) < j < self.connections@.len() ==> (
                        #[trigger] self.connections@[j].0)@ != address@) by {
                        assert(forall|j: int|
                            (i as int) < j < self.connections@.len() ==> (self.connections@[
                            i as int].0)@ != (#[trigger] self.connections@[j].0)@);
                    }
                    lemma_connections_found(self.connections@, i as int, address@);
                    lemma_connections_remove(self.connections@, i as int);
                }
                let ghost pre = self.connections@;
                self.connections.remove(i);
                self.total_clients = self.connections.len();
                proof {
                    assert(forall|p: int, q: int|
                        0 <= p < q < self.connections@.len() ==> (
                        #[trigger] self.connections@[p].0)@ != (
                        #[trigger] self.connections@[q].0)@) by {
                        assert(forall|p: int|
                            0 <= p < self.connections@.len() ==> #[trigger] self.connections@[p]
                                == if p < i { pre[p] } else { pre[p + 1] });
                    }
                }
                return ;
            }
            i = i + 1;
        }
        proof {
            lemma_connections_absent(self.connections@, address@);
        }
    }
}

proof fn lemma_connections_map_len<S>(entries: Seq<(String, S)>)
    requires
        forall|p: int, q: int|
            0 <= p < q < entries.len() ==> (#[trigger] entries[p].0)@ != (#[trigger] entries[q].0)@,
    ensures
        connections_map(entries).dom().finite(),
        connections_map(entries).len() == entries.len(),
    decreases entries.len(),
{
    broadcast use vstd::set::axiom_set_empty_len;
    broadcast use vstd::set::axiom_set_insert_len;
    broadcast use vstd::map::axiom_map_insert_domain;

    if entries.len() == 0 {
        assert(connections_map(entries).dom() =~= Set::<Seq<char>>::empty());
    } else {
        let shorter = entries.drop_last();
        lemma_connections_map_len(shorter);
        assert(forall|j: int|
            0 <= j < shorter.len() ==> (#[trigger] shorter[j].0)@ != entries.last().0@);
        lemma_connections_absent(shorter, entries.last().0@);
    }
}

/// Law: the connected-client counter is exactly the number of entries the
/// registry holds — one per connected address.
pub proof fn lemma_count_is_entry_count<S>(r: &Registry<S>)
    requires
        r.well_formed(),
    ensures
        r@.dom().finite(),
        r.client_count() == r@.len(),
{
    lemma_connections_map_len(r.connections@);
}

/// Law: for any address and any starting state with that address free, of two
/// registration attempts for it — in whichever order the registry lock
/// serializes them — exactly the first succeeds, the second fails, and the
/// registry ends with exactly the one entry the first created.
pub proof fn lemma_register_twice<S>(m: Map<Seq<char>, S>, address: Seq<char>, s1: S, s2: S)
    requires
        !m.contains_key(address),
    ensures
        ({
            let (m1, ok1) = register_transition(m, address, s1);
            let (m2, ok2) = register_transition(m1, address, s2);
            &&& ok1
            &&& !ok2
            &&& m2 == m.insert(address, s1)
            &&& m2[address] == s1
        }),
{
}

/// Law: deregistering an address frees it — a lookup afterwards finds
/// nothing — and a subsequent registration for it succeeds.
pub proof fn lemma_deregister_frees<S>(m: Map<Seq<char>, S>, address: Seq<char>, sink: S)
    ensures
        ({
            let m1 = deregister_transition(m, address);
            &&& !m1.contains_key(address)
            &&& register_transition(m1, address, sink).1
            &&& register_transition(m1, address, sink).0 == m1.insert(address, sink)
        }),
{
}

} // verus!
