use super::ComponentTypeId;
use vstd::prelude::*;

verus! {

/// How a query reaches a component: read or written, required or optional.
#[derive(Debug, Clone, Copy, PartialEq, Eq, Structural)]
pub enum ComponentQueryAccessType {
    Read,
    Write,
    OptionRead,
    OptionWrite,
}

/// Whether a query wants entities with or without a component.
#[derive(Debug, Clone, Copy, PartialEq, Eq, Structural)]
pub enum ComponentQueryFilterType {
    With,
    Without,
}

/// The components a system reaches and the components it filters on.
#[derive(Debug)]
pub struct ComponentGroupQuery {
    accesses: Vec<(ComponentTypeId, ComponentQueryAccessType)>,
    filters: Vec<(ComponentTypeId, ComponentQueryFilterType)>,
}

impl ComponentGroupQuery {
    pub closed spec fn accesses(&self) -> Seq<(usize, ComponentQueryAccessType)> {
        self.accesses@
    }

    pub closed spec fn filters(&self) -> Seq<(usize, ComponentQueryFilterType)> {
        self.filters@
    }

    pub fn create() -> (q: Self)
        ensures
            q.accesses() == Seq::<(usize, ComponentQueryAccessType)>::empty(),
            q.filters() == Seq::<(usize, ComponentQueryFilterType)>::empty(),
    {
        ComponentGroupQuery { accesses: Vec::new(), filters: Vec::new() }
    }

    pub fn add_access(&mut self, cty: ComponentTypeId, aty: ComponentQueryAccessType)
        ensures
            final(self).accesses() == old(self).accesses().push((cty, aty)),
            final(self).filters() == old(self).filters(),
    {
        self.accesses.push((cty, aty));
    }

    pub fn add_filter(&mut self, cty: ComponentTypeId, fty: ComponentQueryFilterType)
        ensures
            final(self).filters() == old(self).filters().push((cty, fty)),
            final(self).accesses() == old(self).accesses(),
    {
        self.filters.push((cty, fty));
    }

    pub fn get_accesses(&self) -> (r: &Vec<(ComponentTypeId, ComponentQueryAccessType)>)
        ensures
            r@ == self.accesses(),
    {
        &self.accesses
    }

    pub fn get_filters(&self) -> (r: &Vec<(ComponentTypeId, ComponentQueryFilterType)>)
        ensures
            r@ == self.filters(),
    {
        &self.filters
    }
}

impl Clone for ComponentGroupQuery {
    fn clone(&self) -> (r: Self)
        ensures
            r.accesses() == self.accesses(),
            r.filters() == self.filters(),
    {
        let mut accesses: Vec<(ComponentTypeId, ComponentQueryAccessType)> = Vec::with_capacity(
            self.accesses.len(),
        );
        let mut i: usize = 0;
        while i < self.accesses.len()
            invariant
                i <= self.accesses@.len(),
                accesses@ == self.accesses@.subrange(0, i as int),
            decreases self.accesses@.len() - i,
        {
            accesses.push(self.accesses[i]);
            i = i + 1;
            assert(accesses@ =~= self.accesses@.subrange(0, i as int));
        }
        let mut filters: Vec<(ComponentTypeId, ComponentQueryFilterType)> = Vec::with_capacity(
            self.filters.len(),
        );
        let mut j: usize = 0;
        while j < self.filters.len()
            invariant
                j <= self.filters@.len(),
                filters@ == self.filters@.subrange(0, j as int),
            decreases self.filters@.len() - j,
        {
            filters.push(self.filters[j]);
            j = j + 1;
            assert(filters@ =~= self.filters@.subrange(0, j as int));
        }
        assert(accesses@ =~= self.accesses@);
        assert(filters@ =~= self.filters@);
        ComponentGroupQuery { accesses, filters }
    }
}

} // verus!
