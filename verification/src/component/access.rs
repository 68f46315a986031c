use super::component_group::ComponentGroup;
use super::locker::LockState;
use super::query::{ComponentGroupQuery, ComponentQueryAccessType, ComponentQueryFilterType};
use super::storage::ArchetypeStorage;
use super::{ComponentGroupId, ComponentTypeId, Entity};
use crate::data::sparse::{law_insert_fresh, SparseModel};
use crate::data::SparseSet;
use crate::Result;
use vstd::prelude::*;

verus! {

/// The lock a query needs for an access: readers share, writers hold alone.
pub open spec fn lock_state_of(a: ComponentQueryAccessType) -> LockState {
    match a {
        ComponentQueryAccessType::Read | ComponentQueryAccessType::OptionRead => LockState::Shared,
        ComponentQueryAccessType::Write | ComponentQueryAccessType::OptionWrite => LockState::Exclusive,
    }
}

/// The access is required: an entity without the component does not match.
pub open spec fn required(a: ComponentQueryAccessType) -> bool {
    a == ComponentQueryAccessType::Read || a == ComponentQueryAccessType::Write
}

/// A group with the ids `group` matches the query: it has every `With`
/// component and required access, and no `Without` component.
pub open spec fn query_matches(
    group: Seq<usize>,
    accesses: Seq<(usize, ComponentQueryAccessType)>,
    filters: Seq<(usize, ComponentQueryFilterType)>,
) -> bool {
    &&& forall|i: int|
        0 <= i < filters.len() ==> (#[trigger] filters[i]).1 == ComponentQueryFilterType::With
            ==> group.contains(filters[i].0)
    &&& forall|i: int|
        0 <= i < filters.len() ==> (#[trigger] filters[i]).1 == ComponentQueryFilterType::Without
            ==> !group.contains(filters[i].0)
    &&& forall|i: int|
        0 <= i < accesses.len() ==> required((#[trigger] accesses[i]).1) ==> group.contains(
            accesses[i].0,
        )
}

/// The accesses whose component the group has, each with the lock it needs, in order.
pub open spec fn reached(group: Seq<usize>, accesses: Seq<(usize, ComponentQueryAccessType)>) -> Seq<
    (usize, LockState),
>
    decreases accesses.len(),
{
    if accesses.len() == 0 {
        Seq::empty()
    } else {
        let rest = reached(group, accesses.drop_last());
        let (c, a) = accesses.last();
        if group.contains(c) {
            rest.push((c, lock_state_of(a)))
        } else {
            rest
        }
    }
}

/// The sparse set that inserting `entries` in order into an empty one gives.
pub open spec fn inserted_all(entries: Seq<(usize, LockState)>) -> SparseModel<LockState>
    decreases entries.len(),
{
    if entries.len() == 0 {
        SparseModel { dense: Seq::empty(), sparse: Seq::empty() }
    } else {
        let (c, l) = entries.last();
        inserted_all(entries.drop_last()).insert(c, l)
    }
}

/// The keys after the new group `gid` with ids `group` was offered to them:
/// each key whose query it matches records it with the locks it needs.
pub open spec fn updated_keys(
    keys: Seq<Seq<(usize, SparseModel<LockState>)>>,
    accesses: Seq<Seq<(usize, ComponentQueryAccessType)>>,
    filters: Seq<Seq<(usize, ComponentQueryFilterType)>>,
    gid: usize,
    group: Seq<usize>,
) -> Seq<Seq<(usize, SparseModel<LockState>)>> {
    Seq::new(
        keys.len(),
        |i: int|
            if query_matches(group, accesses[i], filters[i]) {
                keys[i].push((gid, inserted_all(reached(group, accesses[i]))))
            } else {
                keys[i]
            },
    )
}

/// For one access key, the component groups that match its query, each with
/// the locks to take on that group's storage.
pub struct ArchetypeAccessKeyEntry {
    accesses: Vec<(ComponentGroupId, SparseSet<ComponentTypeId, LockState>)>,
}

impl View for ArchetypeAccessKeyEntry {
    type V = Seq<(usize, SparseModel<LockState>)>;

    closed spec fn view(&self) -> Seq<(usize, SparseModel<LockState>)> {
        Seq::new(self.accesses@.len(), |i: int| (self.accesses@[i].0, self.accesses@[i].1@))
    }
}

impl ArchetypeAccessKeyEntry {
    /// The number of matching groups.
    pub fn get_count(&self) -> (r: usize)
        ensures
            r == self@.len(),
    {
        self.accesses.len()
    }

    /// The matching group at position `idx` and its locks.
    pub fn get_access(&self, idx: usize) -> (r: Option<&(ComponentGroupId, SparseSet<ComponentTypeId, LockState>)>)
        ensures
            r is Some <==> idx < self@.len(),
            r matches Some(p) ==> p.0 == self@[idx as int].0 && p.1@ == self@[idx as int].1,
    {
        if idx < self.accesses.len() {
            Some(&self.accesses[idx])
        } else {
            None
        }
    }
}

/// The access keys: one per registered query, each with its matching groups.
pub struct ArchetypeAccessKeyManager {
    keys: Vec<(ArchetypeAccessKeyEntry, ComponentGroupQuery)>,
}

impl ArchetypeAccessKeyManager {
    /// For each key, its matching groups and their locks.
    pub closed spec fn entries(&self) -> Seq<Seq<(usize, SparseModel<LockState>)>> {
        Seq::new(self.keys@.len(), |i: int| self.keys@[i].0@)
    }

    /// For each key, the accesses of its query.
    pub closed spec fn key_accesses(&self) -> Seq<Seq<(usize, ComponentQueryAccessType)>> {
        Seq::new(self.keys@.len(), |i: int| self.keys@[i].1.accesses())
    }

    /// For each key, the filters of its query.
    pub closed spec fn key_filters(&self) -> Seq<Seq<(usize, ComponentQueryFilterType)>> {
        Seq::new(self.keys@.len(), |i: int| self.keys@[i].1.filters())
    }

    pub fn create() -> (m: Self)
        ensures
            m.entries() == Seq::<Seq<(usize, SparseModel<LockState>)>>::empty(),
            m.key_accesses() == Seq::<Seq<(usize, ComponentQueryAccessType)>>::empty(),
            m.key_filters() == Seq::<Seq<(usize, ComponentQueryFilterType)>>::empty(),
    {
        let m = ArchetypeAccessKeyManager { keys: Vec::new() };
        assert(m.entries() =~= Seq::<Seq<(usize, SparseModel<LockState>)>>::empty());
        assert(m.key_accesses() =~= Seq::<Seq<(usize, ComponentQueryAccessType)>>::empty());
        assert(m.key_filters() =~= Seq::<Seq<(usize, ComponentQueryFilterType)>>::empty());
        m
    }

    /// Registers `query` under a new key that matches no group yet. Groups
    /// that exist already are not matched against it.
    pub fn register(&mut self, query: ComponentGroupQuery) -> (r: usize)
        ensures
            r == old(self).entries().len(),
            final(self).entries() == old(self).entries().push(Seq::empty()),
            final(self).key_accesses() == old(self).key_accesses().push(query.accesses()),
            final(self).key_filters() == old(self).key_filters().push(query.filters()),
    {
        let ghost before = *self;
        let ak = ArchetypeAccessKeyEntry { accesses: Vec::new() };
        assert(ak@ =~= Seq::<(usize, SparseModel<LockState>)>::empty());
        self.keys.push((ak, query));
        assert(self.entries() =~= before.entries().push(Seq::empty()));
        assert(self.key_accesses() =~= before.key_accesses().push(query.accesses()));
        assert(self.key_filters() =~= before.key_filters().push(query.filters()));
        self.keys.len() - 1
    }

    /// The entry of key `akid`.
    pub fn get(&self, akid: usize) -> (r: Option<&ArchetypeAccessKeyEntry>)
        ensures
            r is Some <==> akid < self.entries().len(),
            r matches Some(e) ==> e@ == self.entries()[akid as int],
    {
        if akid < self.keys.len() {
            Some(&self.keys[akid].0)
        } else {
            None
        }
    }

    /// The lock an access needs.
    pub fn query_type_to_lock_state(ctq: ComponentQueryAccessType) -> (r: LockState)
        ensures
            r == lock_state_of(ctq),
            r == needed_lock(ctq),
    {
        match ctq {
            ComponentQueryAccessType::Read | ComponentQueryAccessType::OptionRead => LockState::Shared,
            ComponentQueryAccessType::Write | ComponentQueryAccessType::OptionWrite => LockState::Exclusive,
        }
    }

    /// The locks `group` needs for a query, if the group matches it.
    pub fn filter(
        group: &ComponentGroup,
        accesses: &Vec<(ComponentTypeId, ComponentQueryAccessType)>,
        filters: &Vec<(ComponentTypeId, ComponentQueryFilterType)>,
    ) -> (r: Option<SparseSet<ComponentTypeId, LockState>>)
        requires
            forall|i: int|
                0 <= i < accesses@.len() && group@.contains((#[trigger] accesses@[i]).0) ==> accesses@[i].0
                    < usize::MAX,
        ensures
            r is Some <==> query_matches(group@, accesses@, filters@),
            r matches Some(set) ==> set@ == inserted_all(reached(group@, accesses@)),
            r is Some <==> {
                &&& forall|i: int|
                    0 <= i < filters@.len() && filters@[i].1 == ComponentQueryFilterType::With ==> group@.contains(
                        #[trigger] filters@[i].0,
                    )
                &&& forall|i: int|
                    0 <= i < filters@.len() && filters@[i].1 == ComponentQueryFilterType::Without
                        ==> !group@.contains(#[trigger] filters@[i].0)
                &&& forall|i: int|
                    0 <= i < accesses@.len() && (accesses@[i].1 == ComponentQueryAccessType::Read || accesses@[i].1
                        == ComponentQueryAccessType::Write) ==> group@.contains(#[trigger] accesses@[i].0)
            },
            r matches Some(set) ==> forall|i: int|
                0 <= i < accesses@.len() && group@.contains(#[trigger] accesses@[i].0) && (forall|j: int|
                    i < j < accesses@.len() ==> accesses@[j].0 != accesses@[i].0) ==> set@.lookup(accesses@[i].0)
                    == Some(needed_lock(accesses@[i].1)),
            r matches Some(set) ==> forall|c: usize|
                #[trigger] set@.lookup(c) is Some ==> group@.contains(c) && exists|i: int|
                    0 <= i < accesses@.len() && accesses@[i].0 == c,
    {
        proof {
            law_query_matches(group@, accesses@, filters@);
        }
        let mut lock_map: SparseSet<ComponentTypeId, LockState> = SparseSet::create();
        let mut i: usize = 0;
        while i < filters.len()
            invariant
                i <= filters@.len(),
                forall|j: int|
                    0 <= j < i ==> (#[trigger] filters@[j]).1 == ComponentQueryFilterType::With
                        ==> group@.contains(filters@[j].0),
                forall|j: int|
                    0 <= j < i ==> (#[trigger] filters@[j]).1 == ComponentQueryFilterType::Without
                        ==> !group@.contains(filters@[j].0),
            decreases filters@.len() - i,
        {
            let (cty, ctf) = filters[i];
            match ctf {
                ComponentQueryFilterType::With => {
                    if !group.has(cty) {
                        return None;
                    }
                },
                ComponentQueryFilterType::Without => {
                    if group.has(cty) {
                        return None;
                    }
                },
            }
            i = i + 1;
        }
        let mut k: usize = 0;
        while k < accesses.len()
            invariant
                k <= accesses@.len(),
                forall|j: int|
                    0 <= j < accesses@.len() && group@.contains((#[trigger] accesses@[j]).0)
                        ==> accesses@[j].0 < usize::MAX,
                forall|j: int|
                    0 <= j < k ==> required((#[trigger] accesses@[j]).1) ==> group@.contains(
                        accesses@[j].0,
                    ),
                lock_map@ == inserted_all(reached(group@, accesses@.subrange(0, k as int))),
                lock_map@.dense.len() <= k,
            decreases accesses@.len() - k,
        {
            let (cty, ctq) = accesses[k];
            proof {
                let sub = accesses@.subrange(0, k + 1);
                assert(sub.drop_last() =~= accesses@.subrange(0, k as int));
                assert(sub.last() == accesses@[k as int]);
                lemma_reached_len(group@, accesses@.subrange(0, k as int));
            }
            let present = group.has(cty);
            match ctq {
                ComponentQueryAccessType::Read | ComponentQueryAccessType::Write => {
                    if !present {
                        return None;
                    }
                },
                ComponentQueryAccessType::OptionRead | ComponentQueryAccessType::OptionWrite => {},
            }
            let ghost rest = reached(group@, accesses@.subrange(0, k as int));
            if present {
                lock_map.insert(cty, Self::query_type_to_lock_state(ctq));
                proof {
                    let pushed = rest.push((cty, lock_state_of(ctq)));
                    assert(pushed.drop_last() =~= rest);
                    assert(reached(group@, accesses@.subrange(0, k + 1)) == pushed);
                }
            } else {
                assert(reached(group@, accesses@.subrange(0, k + 1)) == rest);
            }
            k = k + 1;
        }
        assert(accesses@.subrange(0, k as int) =~= accesses@);
        proof {
            assert(accesses@.len() <= usize::MAX) by {
                broadcast use vstd::std_specs::vec::axiom_spec_len;

                assert(vstd::std_specs::vec::spec_vec_len(accesses) == accesses@.len());
            }
            assert forall|i: int|
                0 <= i < accesses@.len() && group@.contains(#[trigger] accesses@[i].0) && (forall|j: int|
                    i < j < accesses@.len() ==> accesses@[j].0 != accesses@[i].0) implies lock_map@.lookup(
                accesses@[i].0,
            ) == Some(needed_lock(accesses@[i].1)) by {
                law_locks_of_accesses(group@, accesses@, i);
            }
            assert forall|c: usize| #[trigger] lock_map@.lookup(c) is Some implies group@.contains(c) && exists|i: int|
                0 <= i < accesses@.len() && accesses@[i].0 == c by {
                law_locks_only_accessed(group@, accesses@, c);
            }
        }
        Some(lock_map)
    }

    /// Offers the new group `gid` with ids `group` to every key: each key
    /// whose query it matches records it with the locks it needs.
    pub fn update(&mut self, gid: ComponentGroupId, group: &ComponentGroup)
        requires
            forall|i: int, j: int|
                0 <= i < old(self).key_accesses().len() && 0 <= j < old(self).key_accesses()[i].len()
                    && group@.contains(#[trigger] old(self).key_accesses()[i][j].0) ==> old(
                    self,
                ).key_accesses()[i][j].0 < usize::MAX,
        ensures
            final(self).key_accesses() == old(self).key_accesses(),
            final(self).key_filters() == old(self).key_filters(),
            final(self).entries() == updated_keys(
                old(self).entries(),
                old(self).key_accesses(),
                old(self).key_filters(),
                gid,
                group@,
            ),
    {
        let ghost before = *self;
        let n = self.keys.len();
        let mut i: usize = 0;
        while i < n
            invariant
                n == before.keys@.len(),
                i <= n,
                self.keys@.len() == n,
                forall|q: int, j: int|
                    0 <= q < before.key_accesses().len() && 0 <= j < before.key_accesses()[q].len()
                        && group@.contains(#[trigger] before.key_accesses()[q][j].0)
                        ==> before.key_accesses()[q][j].0 < usize::MAX,
                forall|q: int| 0 <= q < n ==> (#[trigger] self.keys@[q]).1 == before.keys@[q].1,
                forall|q: int| i <= q < n ==> (#[trigger] self.keys@[q]).0@ == before.keys@[q].0@,
                forall|q: int|
                    0 <= q < i ==> (#[trigger] self.keys@[q]).0@ == if query_matches(
                        group@,
                        before.key_accesses()[q],
                        before.key_filters()[q],
                    ) {
                        before.entries()[q].push(
                            (gid, inserted_all(reached(group@, before.key_accesses()[q]))),
                        )
                    } else {
                        before.entries()[q]
                    },
            decreases n - i,
        {
            proof {
                assert(before.key_accesses()[i as int] == self.keys@[i as int].1.accesses());
                assert forall|j: int|
                    0 <= j < self.keys@[i as int].1.accesses().len() && group@.contains(
                        (#[trigger] self.keys@[i as int].1.accesses()[j]).0,
                    ) implies self.keys@[i as int].1.accesses()[j].0 < usize::MAX by {
                    assert(before.key_accesses()[i as int][j] == self.keys@[i as int].1.accesses()[j]);
                }
            }
            let filtered = Self::filter(
                group,
                self.keys[i].1.get_accesses(),
                self.keys[i].1.get_filters(),
            );
            if let Some(access) = filtered {
                let ghost old_entry = self.keys@[i as int].0@;
                self.keys[i].0.accesses.push((gid, access));
                proof {
                    assert(self.keys@[i as int].0@ =~= old_entry.push((gid, access@)));
                }
            }
            i = i + 1;
        }
        proof {
            assert(self.key_accesses() =~= before.key_accesses());
            assert(self.key_filters() =~= before.key_filters());
            assert(self.entries() =~= updated_keys(
                before.entries(),
                before.key_accesses(),
                before.key_filters(),
                gid,
                group@,
            ));
        }
    }
}

/// Each reached access is one of the accesses.
proof fn lemma_reached_len(group: Seq<usize>, accesses: Seq<(usize, ComponentQueryAccessType)>)
    ensures
        reached(group, accesses).len() <= accesses.len(),
    decreases accesses.len(),
{
    if accesses.len() > 0 {
        lemma_reached_len(group, accesses.drop_last());
    }
}

/// The dense table of the set is the entries in insertion order.
pub proof fn lemma_inserted_all_dense(entries: Seq<(usize, LockState)>)
    ensures
        inserted_all(entries).dense == entries,
    decreases entries.len(),
{
    if entries.len() > 0 {
        lemma_inserted_all_dense(entries.drop_last());
        assert(entries.drop_last().push(entries.last()) =~= entries);
    }
}

/// Every reached access names a component of the group.
pub proof fn lemma_reached_in_group(group: Seq<usize>, accesses: Seq<(usize, ComponentQueryAccessType)>)
    ensures
        forall|i: int|
            0 <= i < reached(group, accesses).len() ==> group.contains(
                #[trigger] reached(group, accesses)[i].0,
            ),
    decreases accesses.len(),
{
    if accesses.len() > 0 {
        let rest = reached(group, accesses.drop_last());
        lemma_reached_in_group(group, accesses.drop_last());
        let r = reached(group, accesses);
        assert forall|i: int| 0 <= i < r.len() implies group.contains(#[trigger] r[i].0) by {
            if i < rest.len() {
                assert(r[i] == rest[i]);
            }
        }
    }
}

/// The lock a reached access of `a` needs, written out by access type.
pub open spec fn needed_lock(a: ComponentQueryAccessType) -> LockState {
    if a == ComponentQueryAccessType::Write || a == ComponentQueryAccessType::OptionWrite {
        LockState::Exclusive
    } else {
        LockState::Shared
    }
}

/// Writing a component, whether the access is required or optional, takes
/// its column alone; reading it, required or optional, shares the column.
pub proof fn law_lock_by_access_type(a: ComponentQueryAccessType)
    ensures
        a == ComponentQueryAccessType::Write ==> lock_state_of(a) == LockState::Exclusive,
        a == ComponentQueryAccessType::OptionWrite ==> lock_state_of(a) == LockState::Exclusive,
        a == ComponentQueryAccessType::Read ==> lock_state_of(a) == LockState::Shared,
        a == ComponentQueryAccessType::OptionRead ==> lock_state_of(a) == LockState::Shared,
{
}

/// A group matches a query exactly when it has every `With` component, has
/// no `Without` component, and has the component of every `Read` and `Write`
/// access; optional (`OptionRead`, `OptionWrite`) accesses never keep a group
/// from matching.
pub proof fn law_query_matches(
    group: Seq<usize>,
    accesses: Seq<(usize, ComponentQueryAccessType)>,
    filters: Seq<(usize, ComponentQueryFilterType)>,
)
    ensures
        query_matches(group, accesses, filters) <==> {
            &&& forall|i: int|
                0 <= i < filters.len() && filters[i].1 == ComponentQueryFilterType::With ==> group.contains(
                    #[trigger] filters[i].0,
                )
            &&& forall|i: int|
                0 <= i < filters.len() && filters[i].1 == ComponentQueryFilterType::Without ==> !group.contains(
                    #[trigger] filters[i].0,
                )
            &&& forall|i: int|
                0 <= i < accesses.len() && (accesses[i].1 == ComponentQueryAccessType::Read || accesses[i].1
                    == ComponentQueryAccessType::Write) ==> group.contains(#[trigger] accesses[i].0)
        },
{
    if query_matches(group, accesses, filters) {
        assert forall|i: int|
            0 <= i < filters.len() && filters[i].1 == ComponentQueryFilterType::With implies group.contains(
                #[trigger] filters[i].0,
            ) by {
            assert(filters[i].1 == ComponentQueryFilterType::With);
        }
        assert forall|i: int|
            0 <= i < filters.len() && filters[i].1 == ComponentQueryFilterType::Without implies !group.contains(
                #[trigger] filters[i].0,
            ) by {
            assert(filters[i].1 == ComponentQueryFilterType::Without);
        }
        assert forall|i: int|
            0 <= i < accesses.len() && (accesses[i].1 == ComponentQueryAccessType::Read || accesses[i].1
                == ComponentQueryAccessType::Write) implies group.contains(#[trigger] accesses[i].0) by {
            assert(required(accesses[i].1));
        }
    }
}

/// A group that has a component a query filters out (`Without`) never
/// matches the query.
pub proof fn law_without_never_matches(
    group: Seq<usize>,
    accesses: Seq<(usize, ComponentQueryAccessType)>,
    filters: Seq<(usize, ComponentQueryFilterType)>,
    i: int,
)
    requires
        0 <= i < filters.len(),
        filters[i].1 == ComponentQueryFilterType::Without,
        group.contains(filters[i].0),
    ensures
        !query_matches(group, accesses, filters),
{
    law_query_matches(group, accesses, filters);
}

/// Every access whose component the group has, required or optional, is
/// among the reached accesses, with the lock its access type needs.
pub proof fn law_reached_has_access(group: Seq<usize>, accesses: Seq<(usize, ComponentQueryAccessType)>, i: int)
    requires
        0 <= i < accesses.len(),
        group.contains(accesses[i].0),
    ensures
        reached(group, accesses).contains((accesses[i].0, needed_lock(accesses[i].1))),
    decreases accesses.len(),
{
    let rest = accesses.drop_last();
    let r = reached(group, accesses);
    let rr = reached(group, rest);
    assert(lock_state_of(accesses[i].1) == needed_lock(accesses[i].1));
    if i == accesses.len() - 1 {
        assert(r[r.len() - 1] == (accesses[i].0, needed_lock(accesses[i].1)));
    } else {
        assert(rest[i] == accesses[i]);
        law_reached_has_access(group, rest, i);
        let w = choose|w: int| 0 <= w < rr.len() && rr[w] == (accesses[i].0, needed_lock(accesses[i].1));
        assert(r[w] == rr[w]);
    }
}

/// Every reached access names a component of the group and one of the
/// accesses, with the lock that access needs.
pub proof fn law_reached_from_access(group: Seq<usize>, accesses: Seq<(usize, ComponentQueryAccessType)>, w: int)
    requires
        0 <= w < reached(group, accesses).len(),
    ensures
        group.contains(reached(group, accesses)[w].0),
        exists|i: int|
            0 <= i < accesses.len() && accesses[i].0 == reached(group, accesses)[w].0 && needed_lock(accesses[i].1)
                == reached(group, accesses)[w].1,
    decreases accesses.len(),
{
    let rest = accesses.drop_last();
    let r = reached(group, accesses);
    let rr = reached(group, rest);
    if w < rr.len() {
        law_reached_from_access(group, rest, w);
        assert(r[w] == rr[w]);
        let i = choose|i: int|
            0 <= i < rest.len() && rest[i].0 == rr[w].0 && needed_lock(rest[i].1) == rr[w].1;
        assert(accesses[i] == rest[i]);
    } else {
        let i = accesses.len() - 1;
        assert(r[w] == (accesses[i].0, lock_state_of(accesses[i].1)));
        assert(lock_state_of(accesses[i].1) == needed_lock(accesses[i].1));
    }
}

/// The lock last given for `k` among `entries`.
spec fn last_lock(entries: Seq<(usize, LockState)>, k: usize) -> Option<LockState>
    decreases entries.len(),
{
    if entries.len() == 0 {
        None
    } else if entries.last().0 == k {
        Some(entries.last().1)
    } else {
        last_lock(entries.drop_last(), k)
    }
}

/// Inserting entries in order leaves, for each key, the last lock given for it.
proof fn lemma_inserted_all_lookup(entries: Seq<(usize, LockState)>)
    requires
        entries.len() <= usize::MAX,
    ensures
        forall|j: usize|
            #[trigger] inserted_all(entries).slot(j) is Some ==> inserted_all(entries).slot(j)->0 < entries.len(),
        forall|k: usize| #[trigger] inserted_all(entries).lookup(k) == last_lock(entries, k),
    decreases entries.len(),
{
    lemma_inserted_all_dense(entries);
    if entries.len() > 0 {
        let rest = entries.drop_last();
        lemma_inserted_all_lookup(rest);
        lemma_inserted_all_dense(rest);
        let m = inserted_all(rest);
        let (c, l) = entries.last();
        let m2 = inserted_all(entries);
        assert(m2 == m.insert(c, l));
        let g = SparseModel::<LockState>::grown(m.sparse, c);
        assert forall|j: usize| j != c implies #[trigger] m2.slot(j) == m.slot(j) by {
            if j < m.sparse.len() {
                assert(g[j as int] == m.sparse[j as int]);
            } else if j < g.len() {
                let tail = Seq::new((c + 1 - m.sparse.len()) as nat, |i: int| None::<usize>);
                assert(g == m.sparse + tail);
                assert(g[j as int] == tail[j - m.sparse.len()]);
            }
        }
        assert(c < g.len());
        assert(m2.slot(c) == Some(rest.len() as usize));
        assert forall|j: usize| #[trigger] m2.slot(j) is Some implies m2.slot(j)->0 < entries.len() by {
            if j != c {
                assert(m.slot(j) is Some);
            }
        }
        assert forall|k: usize| #[trigger] m2.lookup(k) == last_lock(entries, k) by {
            if k == c {
                assert(m2.dense[rest.len() as int] == (c, l));
            } else {
                assert(m.lookup(k) == last_lock(rest, k));
                if m.slot(k) is Some {
                    let d = m.slot(k)->0 as int;
                    assert(m2.dense[d] == m.dense[d]);
                }
            }
        }
    }
}

/// The last reached lock for the component of the last access of it that
/// the group has is the lock that access needs.
proof fn lemma_reached_last(group: Seq<usize>, accesses: Seq<(usize, ComponentQueryAccessType)>, i: int)
    requires
        0 <= i < accesses.len(),
        group.contains(accesses[i].0),
        forall|j: int| i < j < accesses.len() ==> accesses[j].0 != accesses[i].0,
    ensures
        last_lock(reached(group, accesses), accesses[i].0) == Some(needed_lock(accesses[i].1)),
    decreases accesses.len(),
{
    let rest = accesses.drop_last();
    let c = accesses[i].0;
    let r = reached(group, accesses);
    let rr = reached(group, rest);
    if i == accesses.len() - 1 {
        assert(r == rr.push((c, lock_state_of(accesses[i].1))));
        assert(r.drop_last() =~= rr);
    } else {
        assert(rest[i] == accesses[i]);
        assert forall|j: int| i < j < rest.len() implies rest[j].0 != rest[i].0 by {
            assert(rest[j] == accesses[j]);
        }
        lemma_reached_last(group, rest, i);
        let last = accesses.last();
        assert(last.0 != c);
        if group.contains(last.0) {
            assert(r == rr.push((last.0, lock_state_of(last.1))));
            assert(r.drop_last() =~= rr);
        } else {
            assert(r == rr);
        }
    }
}

/// In the locks a matching group needs, the component of every access that
/// the group has, required or optional, is locked as the last access of it
/// needs: alone for a write, shared for a read.
pub proof fn law_locks_of_accesses(group: Seq<usize>, accesses: Seq<(usize, ComponentQueryAccessType)>, i: int)
    requires
        accesses.len() <= usize::MAX,
        0 <= i < accesses.len(),
        group.contains(accesses[i].0),
        forall|j: int| i < j < accesses.len() ==> accesses[j].0 != accesses[i].0,
    ensures
        inserted_all(reached(group, accesses)).lookup(accesses[i].0) == Some(needed_lock(accesses[i].1)),
{
    lemma_reached_len(group, accesses);
    lemma_inserted_all_lookup(reached(group, accesses));
    lemma_reached_last(group, accesses, i);
}

/// The locks a matching group needs lock only components of the group that
/// the query accesses.
pub proof fn law_locks_only_accessed(group: Seq<usize>, accesses: Seq<(usize, ComponentQueryAccessType)>, c: usize)
    requires
        accesses.len() <= usize::MAX,
        inserted_all(reached(group, accesses)).lookup(c) is Some,
    ensures
        group.contains(c),
        exists|i: int| 0 <= i < accesses.len() && accesses[i].0 == c,
{
    let r = reached(group, accesses);
    lemma_reached_len(group, accesses);
    lemma_inserted_all_lookup(r);
    lemma_inserted_all_dense(r);
    let m = inserted_all(r);
    let d = m.slot(c)->0 as int;
    assert(m.contains(c));
    assert(m.dense[d] == r[d]);
    lemma_last_lock_found(r, c);
    let w = choose|w: int| 0 <= w < r.len() && r[w].0 == c;
    law_reached_from_access(group, accesses, w);
}

/// A key with a last lock is one of the entries.
proof fn lemma_last_lock_found(entries: Seq<(usize, LockState)>, k: usize)
    ensures
        last_lock(entries, k) is Some ==> exists|w: int| 0 <= w < entries.len() && entries[w].0 == k,
    decreases entries.len(),
{
    if entries.len() > 0 {
        lemma_last_lock_found(entries.drop_last(), k);
        if last_lock(entries.drop_last(), k) is Some && entries.last().0 != k {
            let w = choose|w: int| 0 <= w < entries.drop_last().len() && entries.drop_last()[w].0 == k;
            assert(entries[w].0 == k);
        }
        if entries.last().0 == k {
            assert(entries[entries.len() - 1].0 == k);
        }
    }
}

/// A query's hold on the storage of one matching group.
pub struct ArchetypeAccess<'amgr> {
    idx: usize,
    storage: &'amgr ArchetypeStorage,
    archetype_access_key: &'amgr ArchetypeAccessKeyEntry,
}

impl<'amgr> ArchetypeAccess<'amgr> {
    /// The position of the group among the key's matching groups.
    pub closed spec fn index(&self) -> usize {
        self.idx
    }

    /// The storage of the group.
    pub closed spec fn storage(&self) -> &'amgr ArchetypeStorage {
        self.storage
    }

    /// The key's matching groups.
    pub closed spec fn key(&self) -> Seq<(usize, SparseModel<LockState>)> {
        self.archetype_access_key@
    }

    pub closed spec fn wf(&self) -> bool {
        self.storage.wf()
    }

    pub(crate) fn create(
        idx: usize,
        storage: &'amgr ArchetypeStorage,
        archetype_access_key: &'amgr ArchetypeAccessKeyEntry,
    ) -> (a: Self)
        requires
            storage.wf(),
        ensures
            a.index() == idx,
            a.storage() == storage,
            a.key() == archetype_access_key@,
            a.wf(),
    {
        ArchetypeAccess { idx, storage, archetype_access_key }
    }

    /// The bytes of the column of `ctyid` in the group's storage, if it has one.
    pub fn get_iter(&self, ctyid: ComponentTypeId) -> (r: Result<Option<&[u8]>>)
        requires
            self.wf(),
        ensures
            self.storage()@.has_ty(ctyid) ==> (r matches Ok(Some(bytes)) && super::storage::column_bytes(
                bytes@,
                self.storage()@.sizes[self.storage()@.row(ctyid)],
                self.storage()@.cols[self.storage()@.row(ctyid)],
            )),
            !self.storage()@.has_ty(ctyid) ==> (r matches Ok(None)),
    {
        self.storage.get_iter(ctyid)
    }

    /// The number of entities in the group's storage.
    pub fn get_iter_count(&self) -> (r: usize)
        ensures
            r == self.storage()@.entities.len(),
    {
        self.storage.get_iter_count()
    }

    /// The entity at position `idx` of the group's storage.
    pub fn get_iter_entity(&self, idx: usize) -> (r: Entity)
        requires
            idx < self.storage()@.entities.len(),
        ensures
            r == self.storage()@.entities[idx as int],
    {
        self.storage.get_iter_entity(idx)
    }
}

} // verus!
