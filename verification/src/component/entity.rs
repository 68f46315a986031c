use vstd::prelude::*;

verus! {

/// An entity: an identifier that components are attached to.
#[derive(Debug, Clone, Copy, PartialEq, Eq, Structural)]
pub struct Entity {
    pub id: usize,
}

impl Entity {
    pub fn from_id(id: usize) -> (e: Entity)
        ensures
            e.id == id,
    {
        Entity { id }
    }

    pub fn id(&self) -> (r: usize)
        ensures
            r == self.id,
    {
        self.id
    }
}

/// Hands out fresh entity ids: 0, 1, 2, ... in turn, each once.
#[derive(Debug)]
pub struct EntityIds {
    next: usize,
}

impl EntityIds {
    /// The id that the next entity gets.
    pub closed spec fn next(&self) -> usize {
        self.next
    }

    pub fn create() -> (ids: Self)
        ensures
            ids.next() == 0,
    {
        EntityIds { next: 0 }
    }

    /// A new entity, whose id no earlier call has given; `None` once the
    /// ids are used up.
    pub fn take(&mut self) -> (r: Option<Entity>)
        ensures
            old(self).next() < usize::MAX ==> r == Some(Entity { id: old(self).next() })
                && final(self).next() == old(self).next() + 1,
            old(self).next() == usize::MAX ==> r is None && final(self).next() == old(self).next(),
    {
        if self.next == usize::MAX {
            None
        } else {
            let e = Entity { id: self.next };
            self.next = self.next + 1;
            Some(e)
        }
    }
}

} // verus!
