use super::{ComponentGroupId, ComponentTypeId};
use crate::error::RuntimeError;
use crate::Result;
use vstd::prelude::*;
use vstd::relations::{sorted_by, total_ordering};

verus! {

/// The order component type ids are sorted by.
pub open spec fn id_leq() -> spec_fn(usize, usize) -> bool {
    |a: usize, b: usize| a <= b
}

/// The ids in ascending order.
pub open spec fn sorted_ids(ids: Seq<usize>) -> Seq<usize> {
    ids.sort_by(id_leq())
}

/// Every id is smaller than the ones after it.
pub open spec fn strictly_ascending(ids: Seq<usize>) -> bool {
    forall|i: int, j: int| 0 <= i < j < ids.len() ==> ids[i] < ids[j]
}

/// Position `i` of `ids` repeats the id before it.
pub open spec fn repeats_at(ids: Seq<usize>, i: int) -> bool {
    0 < i < ids.len() && ids[i - 1] == ids[i]
}

/// The first position of `ids` that repeats the id before it.
pub open spec fn first_repeat(ids: Seq<usize>) -> int {
    choose|i: int| repeats_at(ids, i) && forall|j: int| 0 < j < i ==> !repeats_at(ids, j)
}

/// A set of component type ids being edited: in any order, possibly with repeats.
pub struct ComponentGroupModify {
    data: Vec<ComponentTypeId>,
}

impl View for ComponentGroupModify {
    type V = Seq<usize>;

    closed spec fn view(&self) -> Seq<usize> {
        self.data@
    }
}

impl ComponentGroupModify {
    pub fn insert(&mut self, cty: ComponentTypeId)
        ensures
            final(self)@ == old(self)@.push(cty),
    {
        self.data.push(cty);
    }

    /// Removes the first occurrence of `cty`, moving the last id into its place.
    pub fn remove(&mut self, cty: ComponentTypeId) -> (r: Result<()>)
        ensures
            r is Ok <==> old(self)@.contains(cty),
            r is Ok ==> exists|i: int|
                0 <= i < old(self)@.len() && old(self)@[i] == cty && (forall|j: int|
                    0 <= j < i ==> old(self)@[j] != cty) && final(self)@ == old(self)@.update(
                    i,
                    old(self)@.last(),
                ).drop_last(),
            r is Err ==> r == Err::<(), RuntimeError>(RuntimeError::BadComponentType { ctyid: cty })
                && final(self)@ == old(self)@,
    {
        let mut i: usize = 0;
        while i < self.data.len()
            invariant
                i <= self.data@.len(),
                self.data@ == old(self).data@,
                forall|j: int| 0 <= j < i ==> self.data@[j] != cty,
            decreases self.data@.len() - i,
        {
            if self.data[i] == cty {
                self.data.swap_remove(i);
                return Ok(());
            }
            i = i + 1;
        }
        Err(RuntimeError::BadComponentType { ctyid: cty })
    }

    /// Sorts the ids and makes a group of them, refusing an id that occurs
    /// twice: the error names the smallest such id.
    pub fn build(self) -> (r: Result<ComponentGroup>)
        ensures
            r is Ok <==> !(exists|i: int| repeats_at(sorted_ids(self@), i)),
            r is Ok <==> self@.no_duplicates(),
            r matches Ok(g) ==> g@ == sorted_ids(self@),
            r matches Ok(g) ==> strictly_ascending(g@) && g@.to_multiset() == self@.to_multiset(),
            r matches Err(RuntimeError::BadComponentType { ctyid }) ==> {
                &&& exists|i: int, j: int| 0 <= i < j < self@.len() && self@[i] == ctyid && self@[j] == ctyid
                &&& forall|i: int, j: int|
                    0 <= i < j < self@.len() && #[trigger] self@[i] == #[trigger] self@[j] ==> ctyid <= self@[i]
            },
            r is Err ==> r == Err::<ComponentGroup, RuntimeError>(
                RuntimeError::BadComponentType {
                    ctyid: sorted_ids(self@)[first_repeat(sorted_ids(self@))],
                },
            ),
    {
        let sorted = sort_ids(&self.data);
        proof {
            lemma_id_leq_total();
            self@.lemma_sort_by_ensures(id_leq());
            law_build_succeeds_iff_distinct(self@);
            lemma_sorted_ids(self@);
        }
        let mut i: usize = 1;
        while i < sorted.len()
            invariant
                1 <= i,
                sorted@ == sorted_ids(self@),
                forall|j: int| 0 < j < i ==> !repeats_at(sorted@, j),
            decreases sorted@.len() - i,
        {
            if sorted[i] == sorted[i - 1] {
                let last = sorted[i];
                proof {
                    assert(repeats_at(sorted@, i as int));
                    let f = first_repeat(sorted@);
                    assert(repeats_at(sorted@, f) && forall|j: int| 0 < j < f ==> !repeats_at(sorted@, j));
                    if f < i {
                    } else if f > i {
                        assert(!repeats_at(sorted@, i as int));
                    }
                    assert(f == i);
                    assert(repeats_at(sorted_ids(self@), i as int));
                    law_build_succeeds_iff_distinct(self@);
                    law_build_names_smallest_repeat(self@);
                }
                return Err(RuntimeError::BadComponentType { ctyid: last });
            }
            i = i + 1;
        }
        proof {
            assert forall|a: int, b: int| 0 <= a < b < sorted@.len() implies sorted@[a] < sorted@[b] by {
                lemma_sorted_leq(sorted@);
                assert(sorted@[b - 1] != sorted@[b]) by {
                    assert(!repeats_at(sorted@, b));
                }
                assert(sorted@[a] <= sorted@[b - 1]);
            }
        }
        Ok(ComponentGroup(sorted))
    }
}

/// In an ascending sequence an earlier id is at most a later one.
proof fn lemma_sorted_leq(ids: Seq<usize>)
    requires
        sorted_by(ids, id_leq()),
    ensures
        forall|a: int, b: int| 0 <= a <= b < ids.len() ==> ids[a] <= ids[b],
{
    assert forall|a: int, b: int| 0 <= a <= b < ids.len() implies ids[a] <= ids[b] by {
        if a < b {
            assert(id_leq()(ids[a], ids[b]));
        }
    }
}

/// `<=` on ids is a total order.
proof fn lemma_id_leq_total()
    ensures
        total_ordering(id_leq()),
{
}

/// Sorts the ids by inserting each into its place in an ascending sequence.
fn sort_ids(ids: &Vec<usize>) -> (r: Vec<usize>)
    ensures
        r@ == sorted_ids(ids@),
{
    let mut sorted: Vec<usize> = Vec::new();
    let mut i: usize = 0;
    proof {
        broadcast use vstd::seq_lib::group_to_multiset_ensures;

        assert(ids@.subrange(0, 0) =~= Seq::<usize>::empty());
        assert(sorted@ =~= Seq::<usize>::empty());
    }
    while i < ids.len()
        invariant
            i <= ids@.len(),
            sorted_by(sorted@, id_leq()),
            sorted@.to_multiset() == ids@.subrange(0, i as int).to_multiset(),
        decreases ids@.len() - i,
    {
        let x = ids[i];
        let mut pos: usize = 0;
        while pos < sorted.len() && sorted[pos] <= x
            invariant
                pos <= sorted@.len(),
                forall|k: int| 0 <= k < pos ==> sorted@[k] <= x,
            decreases sorted@.len() - pos,
        {
            pos = pos + 1;
        }
        proof {
            lemma_sorted_leq(sorted@);
            vstd::seq_lib::to_multiset_insert(sorted@, pos as int, x);
            assert(ids@.subrange(0, i + 1) == ids@.subrange(0, i as int).push(x));
            vstd::seq_lib::lemma_multiset_commutative(ids@.subrange(0, i as int), seq![x]);
            assert(ids@.subrange(0, i as int).push(x) == ids@.subrange(0, i as int) + seq![x]);
            broadcast use vstd::seq_lib::group_to_multiset_ensures;
        }
        let ghost before = sorted@;
        sorted.insert(pos, x);
        proof {
            assert forall|a: int, b: int| 0 <= a < b < sorted@.len() implies #[trigger] id_leq()(
                sorted@[a],
                sorted@[b],
            ) by {
                if b < pos {
                    assert(sorted@[a] == before[a] && sorted@[b] == before[b]);
                } else if b == pos {
                    assert(sorted@[a] == before[a]);
                } else if a == pos {
                    assert(sorted@[b] == before[b - 1]);
                    assert(!(before[pos as int] <= x));
                    assert(before[pos as int] <= before[b - 1]);
                } else if a < pos {
                    assert(sorted@[a] == before[a] && sorted@[b] == before[b - 1]);
                } else {
                    assert(sorted@[a] == before[a - 1] && sorted@[b] == before[b - 1]);
                }
            }
        }
        i = i + 1;
    }
    proof {
        assert(ids@.subrange(0, ids@.len() as int) == ids@);
        lemma_id_leq_total();
        ids@.lemma_sort_by_ensures(id_leq());
        vstd::seq_lib::lemma_sorted_unique(sorted@, sorted_ids(ids@), id_leq());
    }
    sorted
}

/// A set of component type ids, kept in strictly ascending order.
pub struct ComponentGroup(Vec<ComponentTypeId>);

impl View for ComponentGroup {
    type V = Seq<usize>;

    closed spec fn view(&self) -> Seq<usize> {
        self.0@
    }
}

impl ComponentGroup {
    #[verifier::type_invariant]
    spec fn ascending(&self) -> bool {
        strictly_ascending(self.0@)
    }

    pub fn create() -> (g: ComponentGroup)
        ensures
            g@ == Seq::<usize>::empty(),
    {
        ComponentGroup(Vec::new())
    }

    pub fn builder() -> (m: ComponentGroupModify)
        ensures
            m@ == Seq::<usize>::empty(),
    {
        ComponentGroupModify { data: Vec::new() }
    }

    /// Turns the group back into ids being edited.
    pub fn modify(self) -> (m: ComponentGroupModify)
        ensures
            m@ == self@,
    {
        ComponentGroupModify { data: self.0 }
    }

    /// The position of `cty` in the group, if it is there.
    pub fn find(&self, cty: ComponentTypeId) -> (r: Option<usize>)
        ensures
            r is None <==> !self@.contains(cty),
            r matches Some(i) ==> i < self@.len() && self@[i as int] == cty,
    {
        proof {
            use_type_invariant(self);
        }
        if self.0.len() == 0 {
            None
        } else {
            self.binary_search_recurse(cty, 0, self.0.len() - 1)
        }
    }

    pub fn has(&self, cty: ComponentTypeId) -> (r: bool)
        ensures
            r == self@.contains(cty),
    {
        self.find(cty).is_some()
    }

    /// Whether the two groups hold the same ids.
    pub fn compare(&self, other: &ComponentGroup) -> (r: bool)
        ensures
            r == (self@ == other@),
    {
        if self.0.len() != other.0.len() {
            return false;
        }
        let mut idx: usize = 0;
        while idx < self.0.len()
            invariant
                idx <= self@.len(),
                self@.len() == other@.len(),
                forall|j: int| 0 <= j < idx ==> self@[j] == other@[j],
            decreases self@.len() - idx,
        {
            if self.0[idx] != other.0[idx] {
                return false;
            }
            idx = idx + 1;
        }
        assert(self@ =~= other@);
        true
    }

    pub fn get(&self) -> (r: &Vec<ComponentTypeId>)
        ensures
            r@ == self@,
            strictly_ascending(r@),
    {
        proof {
            use_type_invariant(self);
        }
        &self.0
    }

    /// Searches `left..=right` for `find`, halving the range at each step.
    /// A range that runs empty ends the search without a result.
    fn binary_search_recurse(&self, find: ComponentTypeId, left: usize, right: usize) -> (r: Option<
        usize,
    >)
        requires
            left <= right < self@.len(),
            strictly_ascending(self@),
            forall|j: int| 0 <= j < left ==> self@[j] < find,
            forall|j: int| right < j < self@.len() ==> self@[j] > find,
        ensures
            r is None <==> !self@.contains(find),
            r matches Some(i) ==> i < self@.len() && self@[i as int] == find,
        decreases right - left,
    {
        let middle = (right - left) / 2 + left;
        let val = self.0[middle];
        if val == find {
            return Some(middle);
        }
        if middle == right {
            proof {
                assert forall|j: int| 0 <= j < self@.len() implies self@[j] != find by {
                    if j < middle {
                    } else if j > middle {
                    }
                }
            }
            return None;
        }
        if val > find {
            if middle == left {
                proof {
                    assert forall|j: int| 0 <= j < self@.len() implies self@[j] != find by {
                        if left <= j < middle {
                        } else if middle < j <= right {
                            assert(self@[j] > self@[middle as int]);
                        }
                    }
                }
                return None;
            }
            proof {
                assert forall|j: int| middle - 1 < j < self@.len() implies self@[j] > find by {
                    if j > middle {
                        assert(self@[j] > self@[middle as int]);
                    }
                }
            }
            self.binary_search_recurse(find, left, middle - 1)
        } else {
            proof {
                assert forall|j: int| 0 <= j < middle + 1 implies self@[j] < find by {
                    if j < middle {
                        assert(self@[j] < self@[middle as int]);
                    }
                }
            }
            self.binary_search_recurse(find, middle + 1, right)
        }
    }
}

impl Clone for ComponentGroup {
    fn clone(&self) -> (r: Self)
        ensures
            r@ == self@,
    {
        proof {
            use_type_invariant(self);
        }
        let mut ids: Vec<ComponentTypeId> = Vec::with_capacity(self.0.len());
        let mut i: usize = 0;
        while i < self.0.len()
            invariant
                i <= self@.len(),
                ids@ == self@.subrange(0, i as int),
            decreases self@.len() - i,
        {
            ids.push(self.0[i]);
            i = i + 1;
            assert(ids@ =~= self@.subrange(0, i as int));
        }
        assert(ids@ =~= self@);
        ComponentGroup(ids)
    }
}

/// The component groups that exist, each under its id. Id 0 is the empty
/// group, and no group is registered twice.
pub struct ComponentGroupManager {
    empty: usize,
    component_groups: Vec<ComponentGroup>,
}

impl View for ComponentGroupManager {
    type V = Seq<Seq<usize>>;

    closed spec fn view(&self) -> Seq<Seq<usize>> {
        Seq::new(self.component_groups@.len(), |i: int| self.component_groups@[i]@)
    }
}

/// No two entries of `groups` are equal.
pub open spec fn distinct_groups(groups: Seq<Seq<usize>>) -> bool {
    forall|i: int, j: int| 0 <= i < j < groups.len() ==> groups[i] != groups[j]
}

impl ComponentGroupManager {
    /// Id 0 is the empty group and no group is registered twice.
    pub closed spec fn wf(&self) -> bool {
        &&& self.empty == 0
        &&& self@.len() <= usize::MAX
        &&& self@.len() > 0
        &&& self@[0] == Seq::<usize>::empty()
        &&& distinct_groups(self@)
    }

    pub fn create() -> (m: Self)
        ensures
            m@ == seq![Seq::<usize>::empty()],
            m.wf(),
    {
        let mut groups: Vec<ComponentGroup> = Vec::new();
        groups.push(ComponentGroup::create());
        let m = ComponentGroupManager { empty: 0, component_groups: groups };
        assert(m@ =~= seq![Seq::<usize>::empty()]);
        m
    }

    /// Registers `group` under a new id; refuses a group that is already
    /// registered, naming its id.
    pub fn register(&mut self, group: ComponentGroup) -> (r: Result<ComponentGroupId>)
        requires
            old(self).wf(),
        ensures
            final(self).wf(),
            final(self)@.len() <= usize::MAX,
            r matches Ok(id) ==> {
                &&& !old(self)@.contains(group@)
                &&& id == old(self)@.len()
                &&& final(self)@ == old(self)@.push(group@)
            },
            r matches Err(e) ==> {
                &&& old(self)@.contains(group@)
                &&& *final(self) == *old(self)
                &&& e == RuntimeError::BadComponentGroup { gid: old(self)@.index_of(group@) as usize }
            },
    {
        let ghost groups = self@;
        match self.get_id_from_group(&group) {
            Some(id) => {
                proof {
                    assert(groups.contains(group@));
                    lemma_index_of_distinct(groups, group@, id as int);
                }
                Err(RuntimeError::BadComponentGroup { gid: id })
            },
            None => {
                self.component_groups.push(group);
                let n = self.component_groups.len();
                proof {
                    assert(self@ =~= groups.push(group@));
                    assert(distinct_groups(self@)) by {
                        assert forall|i: int, j: int| 0 <= i < j < self@.len() implies self@[i]
                            != self@[j] by {
                            if j == groups.len() {
                                assert(groups[i] == self@[i]);
                            }
                        }
                    }
                }
                Ok(n - 1)
            },
        }
    }

    pub fn get(&self, id: ComponentGroupId) -> (r: Result<&ComponentGroup>)
        ensures
            r is Ok <==> id < self@.len(),
            r matches Ok(g) ==> g@ == self@[id as int],
            r is Err ==> r == Err::<&ComponentGroup, RuntimeError>(
                RuntimeError::BadComponentGroup { gid: id },
            ),
    {
        if id < self.component_groups.len() {
            Ok(&self.component_groups[id])
        } else {
            Err(RuntimeError::BadComponentGroup { gid: id })
        }
    }

    /// The id of the registered group holding the same ids as `group`.
    pub fn get_id_from_group(&self, group: &ComponentGroup) -> (r: Option<ComponentGroupId>)
        ensures
            r is None <==> !self@.contains(group@),
            r matches Some(id) ==> id < self@.len() && self@[id as int] == group@,
    {
        let mut i: usize = 0;
        while i < self.component_groups.len()
            invariant
                i <= self@.len(),
                forall|j: int| 0 <= j < i ==> self@[j] != group@,
            decreases self@.len() - i,
        {
            if self.component_groups[i].compare(group) {
                assert(self@[i as int] == group@);
                return Some(i);
            }
            i = i + 1;
        }
        None
    }

    /// Id 0 is the empty group.
    pub proof fn lemma_null_group(&self)
        requires
            self.wf(),
        ensures
            self@.len() > 0,
            self@.len() <= usize::MAX,
            self@[0] == Seq::<usize>::empty(),
    {
    }

    /// Groups are registered once, so the id where a group is found is its index.
    pub proof fn lemma_id_is_index(&self, g: Seq<usize>, id: int)
        requires
            self.wf(),
            0 <= id < self@.len(),
            self@[id] == g,
        ensures
            self@.index_of(g) == id,
    {
        lemma_index_of_distinct(self@, g, id);
    }

    pub fn get_null_group_id(&self) -> (r: ComponentGroupId)
        requires
            self.wf(),
        ensures
            r == 0,
            self@[r as int] == Seq::<usize>::empty(),
    {
        self.empty
    }
}

/// In a sequence of distinct groups, the position of a group is where it is found.
proof fn lemma_index_of_distinct(groups: Seq<Seq<usize>>, g: Seq<usize>, id: int)
    requires
        distinct_groups(groups),
        0 <= id < groups.len(),
        groups[id] == g,
    ensures
        groups.index_of(g) == id,
{
    assert(groups.contains(g));
    let k = groups.index_of(g);
    assert(groups[k] == g);
    if k != id {
        if k < id {
            assert(groups[k] != groups[id]);
        } else {
            assert(groups[id] != groups[k]);
        }
    }
}

/// Sorting the ids keeps exactly the same ids, each as often.
proof fn lemma_sorted_ids(ids: Seq<usize>)
    ensures
        sorted_ids(ids).to_multiset() == ids.to_multiset(),
        sorted_by(sorted_ids(ids), id_leq()),
{
    lemma_id_leq_total();
    ids.lemma_sort_by_ensures(id_leq());
}

/// Building a group succeeds exactly when no id was inserted twice.
pub proof fn law_build_succeeds_iff_distinct(ids: Seq<usize>)
    ensures
        !(exists|i: int| repeats_at(sorted_ids(ids), i)) <==> ids.no_duplicates(),
{
    broadcast use vstd::multiset::group_multiset_axioms;
    broadcast use vstd::seq_lib::group_to_multiset_ensures;

    let t = sorted_ids(ids);
    lemma_sorted_ids(ids);
    if ids.no_duplicates() {
        ids.lemma_multiset_has_no_duplicates();
        t.lemma_multiset_has_no_duplicates_conv();
        assert forall|i: int| !repeats_at(t, i) by {
            if 0 < i < t.len() {
                assert(t[i - 1] != t[i]);
            }
        }
    }
    if !(exists|i: int| repeats_at(t, i)) {
        lemma_sorted_leq(t);
        assert forall|a: int, b: int| 0 <= a < b < t.len() implies t[a] != t[b] by {
            assert(!repeats_at(t, b));
            assert(t[a] <= t[b - 1]);
        }
        assert(t.no_duplicates());
        t.lemma_multiset_has_no_duplicates();
        ids.lemma_multiset_has_no_duplicates_conv();
    }
}

/// An id found at two positions of `s` is counted at least twice.
proof fn lemma_twice_counted(s: Seq<usize>, i: int, j: int)
    requires
        0 <= i < s.len(),
        0 <= j < s.len(),
        i != j,
        s[i] == s[j],
    ensures
        s.to_multiset().count(s[i]) >= 2,
{
    broadcast use vstd::multiset::group_multiset_axioms;
    broadcast use vstd::seq_lib::group_to_multiset_ensures;

    let x = s[i];
    let r = s.remove(i);
    let k = if j < i { j } else { j - 1 };
    assert(r[k] == x);
    assert(r.contains(x));
    assert(r.to_multiset().count(x) > 0);
    assert(r.to_multiset() == s.to_multiset().remove(x));
    assert(vstd::multiset::Multiset::singleton(x).count(x) == 1);
    assert(s.to_multiset().remove(x).count(x) == if s.to_multiset().count(x) >= 1 {
        s.to_multiset().count(x) - 1
    } else {
        0
    });
}

/// An id counted at least twice in `s` is found at two positions.
proof fn lemma_counted_twice(s: Seq<usize>, x: usize)
    requires
        s.to_multiset().count(x) >= 2,
    ensures
        exists|i: int, j: int| 0 <= i < j < s.len() && s[i] == x && s[j] == x,
{
    broadcast use vstd::multiset::group_multiset_axioms;
    broadcast use vstd::seq_lib::group_to_multiset_ensures;

    assert(s.contains(x));
    let i = choose|i: int| 0 <= i < s.len() && s[i] == x;
    let r = s.remove(i);
    assert(r.to_multiset() == s.to_multiset().remove(s[i]));
    assert(vstd::multiset::Multiset::singleton(x).count(x) == 1);
    assert(r.to_multiset().count(x) == s.to_multiset().count(x) - 1);
    assert(r.to_multiset().count(x) > 0);
    assert(r.contains(x));
    let k = choose|k: int| 0 <= k < r.len() && r[k] == x;
    let j = if k < i { k } else { k + 1 };
    assert(s[j] == x);
    if i < j {
        assert(0 <= i < j < s.len() && s[i] == x && s[j] == x);
    } else {
        assert(0 <= j < i < s.len() && s[j] == x && s[i] == x);
    }
}

/// Building ids with a repeat is refused naming the smallest id that occurs
/// more than once: that id occurs twice, and no smaller id does.
pub proof fn law_build_names_smallest_repeat(ids: Seq<usize>)
    requires
        !ids.no_duplicates(),
    ensures
        exists|i: int| repeats_at(sorted_ids(ids), i),
        ({
            let c = sorted_ids(ids)[first_repeat(sorted_ids(ids))];
            &&& exists|i: int, j: int| 0 <= i < j < ids.len() && ids[i] == c && ids[j] == c
            &&& forall|i: int, j: int|
                0 <= i < j < ids.len() && #[trigger] ids[i] == #[trigger] ids[j] ==> c <= ids[i]
        }),
{
    let t = sorted_ids(ids);
    assert(exists|i: int| repeats_at(t, i)) by {
        law_build_succeeds_iff_distinct(ids);
    }
    let k = choose|i: int| repeats_at(t, i);
    lemma_first_repeat(t, k);
    let p = first_repeat(t);
    assert(t.to_multiset() == ids.to_multiset()) by {
        lemma_sorted_ids(ids);
    }
    assert(forall|a: int, b: int| 0 <= a <= b < t.len() ==> t[a] <= t[b]) by {
        lemma_sorted_ids(ids);
        lemma_sorted_leq(t);
    }
    lemma_smallest_repeat(t, ids, p);
}

/// Where some position repeats the id before it, there is a first such position.
proof fn lemma_first_repeat(t: Seq<usize>, k: int)
    requires
        repeats_at(t, k),
    ensures
        repeats_at(t, first_repeat(t)),
        forall|q: int| 0 < q < first_repeat(t) ==> !repeats_at(t, q),
    decreases k,
{
    if exists|j: int| 0 < j < k && repeats_at(t, j) {
        let j = choose|j: int| 0 < j < k && repeats_at(t, j);
        lemma_first_repeat(t, j);
    } else {
        assert(repeats_at(t, k) && forall|q: int| 0 < q < k ==> !repeats_at(t, q));
    }
}

/// In a sorted sequence with the same ids as `ids`, the first repeat, at
/// `p`, is an id that occurs twice in `ids`, and no smaller id does.
proof fn lemma_smallest_repeat(t: Seq<usize>, ids: Seq<usize>, p: int)
    requires
        t.to_multiset() == ids.to_multiset(),
        forall|a: int, b: int| 0 <= a <= b < t.len() ==> t[a] <= t[b],
        repeats_at(t, p),
        forall|q: int| 0 < q < p ==> !repeats_at(t, q),
    ensures
        exists|i: int, j: int| 0 <= i < j < ids.len() && ids[i] == t[p] && ids[j] == t[p],
        forall|i: int, j: int| 0 <= i < j < ids.len() && #[trigger] ids[i] == #[trigger] ids[j] ==> t[p] <= ids[i],
{
    lemma_twice_counted(t, p - 1, p);
    lemma_counted_twice(ids, t[p]);
    assert forall|i: int, j: int| 0 <= i < j < ids.len() && #[trigger] ids[i] == #[trigger] ids[j] implies t[p] <= ids[i] by {
        let d = ids[i];
        lemma_twice_counted(ids, i, j);
        lemma_counted_twice(t, d);
        let (a, b) = choose|a: int, b: int| 0 <= a < b < t.len() && t[a] == d && t[b] == d;
        assert(t[a] <= t[a + 1] && t[a + 1] <= t[b]);
        assert(repeats_at(t, a + 1));
        assert(a + 1 >= p);
        assert(t[p - 1] <= t[a]);
    }
}

/// A group built from ids holds exactly those ids.
pub proof fn law_build_keeps_ids(ids: Seq<usize>, x: usize)
    ensures
        sorted_ids(ids).contains(x) <==> ids.contains(x),
{
    broadcast use vstd::seq_lib::group_to_multiset_ensures;

    lemma_sorted_ids(ids);
    assert(sorted_ids(ids).to_multiset().count(x) == ids.to_multiset().count(x));
}

/// Sorting distinct ids gives distinct ids, as many as there were.
pub proof fn lemma_sorted_distinct(ids: Seq<usize>)
    requires
        ids.no_duplicates(),
    ensures
        sorted_ids(ids).no_duplicates(),
        sorted_ids(ids).len() == ids.len(),
        strictly_ascending(sorted_ids(ids)),
{
    broadcast use vstd::seq_lib::group_to_multiset_ensures;

    lemma_sorted_ids(ids);
    law_build_succeeds_iff_distinct(ids);
    let t = sorted_ids(ids);
    assert(t.len() == t.to_multiset().len());
    lemma_sorted_leq(t);
    assert forall|a: int, b: int| 0 <= a < b < t.len() implies t[a] < t[b] by {
        assert(!repeats_at(t, b));
        assert(t[a] <= t[b - 1]);
    }
}

} // verus!
