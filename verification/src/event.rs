use crate::data::{DVec, TVal};
use crate::error::RuntimeError;
use crate::{HashType, Result};
use std::collections::HashMap;
use std::hash::Hash;
use vstd::prelude::*;

verus! {

broadcast use vstd::std_specs::hash::group_hash_axioms;

/// When a system runs: once at startup, on every update, or on each event
/// of a type.
#[derive(Debug, Clone, Copy, PartialEq, Eq, Hash)]
pub enum EventOption<T> where T: Clone + Copy + Eq + PartialEq + Hash {
    Startup,
    Update,
    Event(T),
}

/// The hash that names an event type.
pub type EventHash = HashType;

/// What is known of an event type: the size of its values in bytes, its
/// name, and its hash.
#[derive(Debug)]
pub struct EventTypeEntry {
    pub size: usize,
    pub name: String,
    pub hash: EventHash,
}

/// The events of one type queued for the current update, as bytes.
#[derive(Debug)]
pub struct EventStorage {
    datas: DVec,
}

/// `queue` after an event with bytes `bytes` of a type of `size` bytes was
/// pushed: its first `size` bytes are appended; events of size 0 are not kept.
pub open spec fn pushed(queue: Seq<Seq<u8>>, size: usize, bytes: Seq<u8>) -> Seq<Seq<u8>> {
    if size == 0 {
        queue
    } else {
        queue.push(bytes.subrange(0, size as int))
    }
}

impl EventStorage {
    /// The size of one event in bytes.
    pub closed spec fn size(&self) -> usize {
        self.datas.size()
    }

    /// The queued events, in order.
    pub closed spec fn events(&self) -> Seq<Seq<u8>> {
        self.datas.elems()
    }

    /// The bytes hold whole events.
    pub closed spec fn wf(&self) -> bool {
        self.datas.wf()
    }

    pub fn create(size: usize) -> (s: Self)
        ensures
            s.wf(),
            s.size() == size,
            s.events() == Seq::<Seq<u8>>::empty(),
    {
        EventStorage { datas: DVec::create(size) }
    }

    /// Queues an event given by its bytes.
    pub fn push(&mut self, data: &[u8])
        requires
            old(self).wf(),
            data@.len() >= old(self).size(),
        ensures
            final(self).wf(),
            final(self).size() == old(self).size(),
            final(self).events() == pushed(old(self).events(), old(self).size(), data@),
    {
        self.datas.resize(1, data);
        assert(self.events() =~= pushed(old(self).events(), old(self).size(), data@));
    }

    /// The number of queued events.
    pub fn len(&self) -> (r: usize)
        ensures
            r == self.events().len(),
    {
        self.datas.len()
    }

    /// The bytes of the queued event at `idx`.
    pub fn get(&self, idx: usize) -> (r: Result<&[u8]>)
        requires
            self.wf(),
            idx * self.size() <= usize::MAX,
        ensures
            r is Ok <==> idx < self.events().len(),
            r matches Ok(bytes) ==> bytes@ == self.events()[idx as int],
            r is Err ==> r == Err::<&[u8], RuntimeError>(RuntimeError::BadEventStorageGetIndex { idx }),
    {
        match self.datas.get(idx) {
            Some(bytes) => Ok(bytes),
            None => Err(RuntimeError::BadEventStorageGetIndex { idx }),
        }
    }

    /// Drops every queued event.
    pub fn flush(&mut self)
        ensures
            final(self).wf(),
            final(self).size() == old(self).size(),
            final(self).events() == Seq::<Seq<u8>>::empty(),
    {
        self.datas.clear();
    }
}

/// Events sent during an update, waiting to be queued at its end.
pub struct EventInsert {
    events: Vec<(EventHash, TVal)>,
}

impl View for EventInsert {
    type V = Seq<(EventHash, TVal)>;

    closed spec fn view(&self) -> Seq<(EventHash, TVal)> {
        self.events@
    }
}

impl EventInsert {
    pub fn create() -> (ins: EventInsert)
        ensures
            ins@ == Seq::<(EventHash, TVal)>::empty(),
    {
        EventInsert { events: Vec::new() }
    }

    /// Sends an event of type `ev_hash` with value `val`.
    pub fn insert(&mut self, ev_hash: EventHash, val: TVal)
        ensures
            final(self)@ == old(self)@.push((ev_hash, val)),
    {
        self.events.push((ev_hash, val));
    }

    fn get(&self) -> (r: &Vec<(EventHash, TVal)>)
        ensures
            r@ == self@,
    {
        &self.events
    }

    fn flush(&mut self)
        ensures
            final(self)@ == Seq::<(EventHash, TVal)>::empty(),
    {
        self.events.clear();
    }
}

/// The registered event types and, for each, the events queued for the
/// current update.
#[derive(Debug)]
pub struct EventManager {
    hash_map: HashMap<EventHash, usize>,
    storages: Vec<(EventTypeEntry, EventStorage)>,
}

/// The queues after the events `evs` were pushed in turn, each onto the
/// queue of its type (sized as `types` says); and the first hash that names
/// no type, where pushing stopped.
pub open spec fn queued(
    queues: Map<u64, Seq<Seq<u8>>>,
    types: Map<u64, EventTypeEntry>,
    evs: Seq<(u64, Seq<u8>)>,
) -> (Map<u64, Seq<Seq<u8>>>, Option<u64>)
    decreases evs.len(),
{
    if evs.len() == 0 {
        (queues, None)
    } else {
        let (q, missing) = queued(queues, types, evs.drop_last());
        let (h, bytes) = evs.last();
        if missing is Some {
            (q, missing)
        } else if types.contains_key(h) {
            (q.insert(h, pushed(q[h], types[h].size, bytes)), None)
        } else {
            (q, Some(h))
        }
    }
}

/// The events of an insert list, each as its type's hash and its bytes.
pub open spec fn event_bytes(evs: Seq<(EventHash, TVal)>) -> Seq<(u64, Seq<u8>)> {
    evs.map_values(|p: (EventHash, TVal)| (p.0, p.1.bytes()))
}

impl EventManager {
    /// The registered event types, by hash.
    pub closed spec fn types(&self) -> Map<u64, EventTypeEntry> {
        Map::new(
            |h: u64| self.hash_map@.contains_key(h),
            |h: u64| self.storages@[self.hash_map@[h] as int].0,
        )
    }

    /// The queued events of each registered type, by hash.
    pub closed spec fn queues(&self) -> Map<u64, Seq<Seq<u8>>> {
        Map::new(
            |h: u64| self.hash_map@.contains_key(h),
            |h: u64| self.storages@[self.hash_map@[h] as int].1.events(),
        )
    }

    /// Each hash leads to the entry registered under it, whose queue holds
    /// whole events of the entry's size; no two hashes share an entry.
    pub closed spec fn wf(&self) -> bool {
        &&& forall|h: u64|
            #[trigger] self.hash_map@.contains_key(h) ==> {
                let i = self.hash_map@[h] as int;
                &&& 0 <= i < self.storages@.len()
                &&& self.storages@[i].0.hash == h
                &&& self.storages@[i].1.wf()
                &&& self.storages@[i].1.size() == self.storages@[i].0.size
            }
        &&& forall|d: int|
            0 <= d < self.storages@.len() ==> {
                &&& self.hash_map@.contains_key((#[trigger] self.storages@[d]).0.hash)
                &&& self.hash_map@[self.storages@[d].0.hash] == d
            }
    }

    /// Every registered type has a queue, and every queue a registered type.
    pub proof fn lemma_same_keys(&self)
        ensures
            self.queues().dom() == self.types().dom(),
    {
        assert(self.queues().dom() =~= self.types().dom());
    }

    pub fn create() -> (m: Self)
        ensures
            m.wf(),
            m.types() == Map::<u64, EventTypeEntry>::empty(),
            m.queues() == Map::<u64, Seq<Seq<u8>>>::empty(),
    {
        let m = EventManager { hash_map: HashMap::new(), storages: Vec::new() };
        assert(m.types() =~= Map::<u64, EventTypeEntry>::empty());
        assert(m.queues() =~= Map::<u64, Seq<Seq<u8>>>::empty());
        m
    }

    /// Registers `entry` with an empty queue; refuses a hash that is already
    /// registered.
    pub fn register(&mut self, entry: EventTypeEntry) -> (r: Result<()>)
        requires
            old(self).wf(),
        ensures
            final(self).wf(),
            r is Ok <==> !old(self).types().contains_key(entry.hash),
            r is Ok ==> final(self).types() == old(self).types().insert(entry.hash, entry)
                && final(self).queues() == old(self).queues().insert(entry.hash, Seq::<Seq<u8>>::empty()),
            r is Err ==> *final(self) == *old(self) && r == Err::<(), RuntimeError>(
                RuntimeError::DuplicateEventTypeHash { hash: entry.hash },
            ),
    {
        let hash = entry.hash;
        if self.hash_map.contains_key(&hash) {
            return Err(RuntimeError::DuplicateEventTypeHash { hash });
        }
        let ghost before = *self;
        let storage = EventStorage::create(entry.size);
        let idx = self.storages.len();
        self.storages.push((entry, storage));
        self.hash_map.insert(hash, idx);
        proof {
            assert forall|h: u64| #[trigger] self.hash_map@.contains_key(h) implies {
                let i = self.hash_map@[h] as int;
                &&& 0 <= i < self.storages@.len()
                &&& self.storages@[i].0.hash == h
                &&& self.storages@[i].1.wf()
                &&& self.storages@[i].1.size() == self.storages@[i].0.size
            } by {
                if h != hash {
                    assert(before.hash_map@.contains_key(h));
                    assert(self.storages@[before.hash_map@[h] as int] == before.storages@[before.hash_map@[h] as int]);
                }
            }
            assert forall|d: int| 0 <= d < self.storages@.len() implies {
                &&& self.hash_map@.contains_key((#[trigger] self.storages@[d]).0.hash)
                &&& self.hash_map@[self.storages@[d].0.hash] == d
            } by {
                if d < idx {
                    assert(self.storages@[d] == before.storages@[d]);
                    assert(before.hash_map@.contains_key(before.storages@[d].0.hash));
                }
            }
            assert(self.types() =~= before.types().insert(hash, entry)) by {
                assert forall|h: u64| #[trigger] self.hash_map@.contains_key(h) && h != hash implies self.storages@[self.hash_map@[h] as int]
                    == before.storages@[before.hash_map@[h] as int] by {
                    assert(before.hash_map@.contains_key(h));
                }
            }
            assert(self.queues() =~= before.queues().insert(hash, Seq::<Seq<u8>>::empty())) by {
                assert forall|h: u64| #[trigger] self.hash_map@.contains_key(h) && h != hash implies self.storages@[self.hash_map@[h] as int]
                    == before.storages@[before.hash_map@[h] as int] by {
                    assert(before.hash_map@.contains_key(h));
                }
            }
        }
        Ok(())
    }

    /// The entry registered under `hash`.
    pub fn get(&self, hash: EventHash) -> (r: Result<&EventTypeEntry>)
        requires
            self.wf(),
        ensures
            r is Ok <==> self.types().contains_key(hash),
            r matches Ok(entry) ==> *entry == self.types()[hash],
            r is Err ==> r == Err::<&EventTypeEntry, RuntimeError>(RuntimeError::BadEventTypeHash { hash }),
    {
        match self.hash_map.get(&hash) {
            Some(idx) => Ok(&self.storages[*idx].0),
            None => Err(RuntimeError::BadEventTypeHash { hash }),
        }
    }

    /// The bytes of the queued event of type `hash` at `idx`.
    pub fn get_event(&self, hash: EventHash, idx: usize) -> (r: Result<&[u8]>)
        requires
            self.wf(),
            self.types().contains_key(hash) ==> idx * self.types()[hash].size <= usize::MAX,
        ensures
            !self.types().contains_key(hash) ==> r == Err::<&[u8], RuntimeError>(
                RuntimeError::BadEventTypeHash { hash },
            ),
            self.types().contains_key(hash) ==> {
                &&& r is Ok <==> idx < self.queues()[hash].len()
                &&& r matches Ok(bytes) ==> bytes@ == self.queues()[hash][idx as int]
                &&& r is Err ==> r == Err::<&[u8], RuntimeError>(
                    RuntimeError::BadEventStorageGetIndex { idx },
                )
            },
    {
        match self.hash_map.get(&hash) {
            Some(i) => self.storages[*i].1.get(idx),
            None => Err(RuntimeError::BadEventTypeHash { hash }),
        }
    }

    /// The number of queued events of type `hash`.
    pub fn get_event_count(&self, hash: EventHash) -> (r: Result<usize>)
        requires
            self.wf(),
        ensures
            r is Ok <==> self.types().contains_key(hash),
            r matches Ok(n) ==> n == self.queues()[hash].len(),
            r is Err ==> r == Err::<usize, RuntimeError>(RuntimeError::BadEventTypeHash { hash }),
    {
        match self.hash_map.get(&hash) {
            Some(i) => Ok(self.storages[*i].1.len()),
            None => Err(RuntimeError::BadEventTypeHash { hash }),
        }
    }

    /// Empties every queue, then queues the events of `inserts` in turn and
    /// empties `inserts`. Stops with an error at the first event whose type
    /// is not registered, leaving `inserts` as it was.
    pub fn flush(&mut self, inserts: &mut EventInsert) -> (r: Result<()>)
        requires
            old(self).wf(),
            forall|i: int|
                0 <= i < old(inserts)@.len() && old(self).types().contains_key(#[trigger] old(inserts)@[i].0)
                    ==> old(inserts)@[i].1.bytes().len() >= old(self).types()[old(inserts)@[i].0].size,
        ensures
            final(self).wf(),
            final(self).types() == old(self).types(),
            ({
                let (q, missing) = queued(
                    old(self).queues().map_values(|q: Seq<Seq<u8>>| Seq::<Seq<u8>>::empty()),
                    old(self).types(),
                    event_bytes(old(inserts)@),
                );
                &&& final(self).queues() == q
                &&& missing matches Some(h) ==> r == Err::<(), RuntimeError>(
                    RuntimeError::BadEventTypeHash { hash: h },
                ) && final(inserts)@ == old(inserts)@
                &&& missing is None ==> r is Ok && final(inserts)@ == Seq::<(EventHash, TVal)>::empty()
            }),
    {
        let ghost before = *self;
        let n = self.storages.len();
        let mut i: usize = 0;
        while i < n
            invariant
                before.wf(),
                n == before.storages@.len(),
                i <= n,
                self.hash_map@ == before.hash_map@,
                self.storages@.len() == n,
                forall|d: int|
                    0 <= d < n ==> (#[trigger] self.storages@[d]).0 == before.storages@[d].0
                        && self.storages@[d].1.wf() && self.storages@[d].1.size() == before.storages@[d].1.size(),
                forall|d: int| 0 <= d < i ==> (#[trigger] self.storages@[d]).1.events() == Seq::<Seq<u8>>::empty(),
            decreases n - i,
        {
            self.storages[i].1.flush();
            i = i + 1;
        }
        let ghost empties = before.queues().map_values(|q: Seq<Seq<u8>>| Seq::<Seq<u8>>::empty());
        proof {
            assert(self.wf());
            assert(self.types() =~= before.types());
            assert(self.queues() =~= empties);
        }
        let evs = inserts.get();
        let ghost all = event_bytes(evs@);
        let mut k: usize = 0;
        proof {
            assert(all.take(0) =~= Seq::<(u64, Seq<u8>)>::empty());
        }
        while k < evs.len()
            invariant
                k <= evs@.len(),
                *old(self) == before,
                empties == before.queues().map_values(|q: Seq<Seq<u8>>| Seq::<Seq<u8>>::empty()),
                *inserts == *old(inserts),
                evs@ == old(inserts)@,
                all == event_bytes(evs@),
                self.wf(),
                self.types() == before.types(),
                queued(empties, before.types(), all.take(k as int)) == (self.queues(), None::<u64>),
                forall|i: int|
                    0 <= i < evs@.len() && before.types().contains_key(#[trigger] evs@[i].0)
                        ==> evs@[i].1.bytes().len() >= before.types()[evs@[i].0].size,
            decreases evs@.len() - k,
        {
            let h = evs[k].0;
            proof {
                assert(all.take(k + 1).drop_last() =~= all.take(k as int));
                assert(all.take(k + 1).last() == (h, evs@[k as int].1.bytes()));
            }
            match self.hash_map.get(&h) {
                Some(idx) => {
                    let idx = *idx;
                    let ghost prev = *self;
                    self.storages[idx].1.push(evs[k].1.get());
                    proof {
                        assert forall|g: u64| #[trigger] self.hash_map@.contains_key(g) && g != h implies self.storages@[self.hash_map@[g] as int]
                            == prev.storages@[prev.hash_map@[g] as int] by {
                            assert(prev.storages@[prev.hash_map@[h] as int].0.hash == h);
                            assert(prev.storages@[prev.hash_map@[g] as int].0.hash == g);
                        }
                        assert(self.types() =~= prev.types());
                        assert(self.queues() =~= prev.queues().insert(
                            h,
                            pushed(prev.queues()[h], before.types()[h].size, evs@[k as int].1.bytes()),
                        ));
                    }
                },
                None => {
                    proof {
                        lemma_queued_stops(empties, before.types(), all, k + 1);
                        assert(all == event_bytes(old(inserts)@));
                    }
                    return Err(RuntimeError::BadEventTypeHash { hash: h });
                },
            }
            k = k + 1;
        }
        proof {
            assert(all.take(k as int) =~= all);
        }
        inserts.flush();
        Ok(())
    }
}

/// Once a hash names no type, the later events change nothing.
proof fn lemma_queued_stops(
    queues: Map<u64, Seq<Seq<u8>>>,
    types: Map<u64, EventTypeEntry>,
    evs: Seq<(u64, Seq<u8>)>,
    k: int,
)
    requires
        0 <= k <= evs.len(),
        queued(queues, types, evs.take(k)).1 is Some,
    ensures
        queued(queues, types, evs) == queued(queues, types, evs.take(k)),
    decreases evs.len() - k,
{
    if k < evs.len() {
        assert(evs.take(k + 1).drop_last() =~= evs.take(k));
        lemma_queued_stops(queues, types, evs, k + 1);
    } else {
        assert(evs.take(k) =~= evs);
    }
}

/// The events of `evs` of type `h`, in order, each as its first `size`
/// bytes; events of size 0 are not kept.
pub open spec fn events_of(evs: Seq<(u64, Seq<u8>)>, h: u64, size: usize) -> Seq<Seq<u8>>
    decreases evs.len(),
{
    if evs.len() == 0 {
        Seq::empty()
    } else {
        let rest = events_of(evs.drop_last(), h, size);
        if evs.last().0 == h {
            pushed(rest, size, evs.last().1)
        } else {
            rest
        }
    }
}

/// Flushing into a manager events whose types are all registered refuses
/// none, and queues for each registered type `h` exactly the events sent
/// with its hash, in the order sent (older events are gone).
pub proof fn law_flush_manager(m: EventManager, evs: Seq<(u64, Seq<u8>)>, h: u64)
    requires
        forall|i: int| 0 <= i < evs.len() ==> m.types().contains_key(#[trigger] evs[i].0),
        m.types().contains_key(h),
    ensures
        queued(m.queues().map_values(|q: Seq<Seq<u8>>| Seq::<Seq<u8>>::empty()), m.types(), evs).1 is None,
        queued(m.queues().map_values(|q: Seq<Seq<u8>>| Seq::<Seq<u8>>::empty()), m.types(), evs).0[h]
            == events_of(evs, h, m.types()[h].size),
{
    m.lemma_same_keys();
    let q0 = m.queues().map_values(|q: Seq<Seq<u8>>| Seq::<Seq<u8>>::empty());
    assert(q0.dom() == m.types().dom());
    law_flush_queues_by_type(q0, m.types(), evs, h);
}

/// For a type of positive size, its queued events are the events sent with
/// its hash, in the order sent, each cut to the type's size: the `i`-th
/// event of the type is the `i`-th sent with its hash, and there are as
/// many as were sent.
pub proof fn law_events_of_sent(evs: Seq<(u64, Seq<u8>)>, h: u64, size: usize)
    requires
        size > 0,
    ensures
        events_of(evs, h, size) == evs.filter(|p: (u64, Seq<u8>)| p.0 == h).map_values(
            |p: (u64, Seq<u8>)| p.1.subrange(0, size as int),
        ),
    decreases evs.len(),
{
    let pred = |p: (u64, Seq<u8>)| p.0 == h;
    let cut = |p: (u64, Seq<u8>)| p.1.subrange(0, size as int);
    reveal(Seq::filter);
    if evs.len() > 0 {
        law_events_of_sent(evs.drop_last(), h, size);
        let f = evs.drop_last().filter(pred);
        if pred(evs.last()) {
            assert(f.push(evs.last()).map_values(cut) =~= f.map_values(cut).push(cut(evs.last())));
        }
    }
}

/// Flushing events of registered types only queues, for each type, exactly
/// the events of that type, in the order they were sent; none is refused.
pub proof fn law_flush_queues_by_type(
    queues: Map<u64, Seq<Seq<u8>>>,
    types: Map<u64, EventTypeEntry>,
    evs: Seq<(u64, Seq<u8>)>,
    h: u64,
)
    requires
        queues.dom() == types.dom(),
        forall|g: u64| #[trigger] queues.contains_key(g) ==> queues[g] == Seq::<Seq<u8>>::empty(),
        forall|i: int| 0 <= i < evs.len() ==> types.contains_key(#[trigger] evs[i].0),
        types.contains_key(h),
    ensures
        queued(queues, types, evs).1 is None,
        queued(queues, types, evs).0.dom() == types.dom(),
        queued(queues, types, evs).0[h] == events_of(evs, h, types[h].size),
    decreases evs.len(),
{
    if evs.len() > 0 {
        let rest = evs.drop_last();
        assert forall|i: int| 0 <= i < rest.len() implies types.contains_key(#[trigger] rest[i].0) by {
            assert(rest[i] == evs[i]);
        }
        law_flush_queues_by_type(queues, types, rest, h);
        let g = evs.last().0;
        assert(types.contains_key(evs[evs.len() - 1].0));
        if g != h {
            law_flush_queues_by_type(queues, types, rest, g);
        }
        let q = queued(queues, types, rest).0;
        assert(queued(queues, types, evs).0.dom() =~= q.dom().insert(g));
    }
}

} // verus!
