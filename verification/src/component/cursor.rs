use vstd::prelude::*;

verus! {

/// What an iteration over the entities that an access key reaches does next.
#[derive(Debug, Clone, Copy, PartialEq, Eq, Structural)]
pub enum CursorStep {
    /// Every group was visited.
    Finished,
    /// Take the access of the group at this position of the key.
    Acquire(usize),
    /// Hand out the entity at this position of the current group's storage.
    Yield(usize),
}

/// The position of an iteration over the groups an access key reaches and
/// over the entities of each: the next entity of the current group, the
/// number of entities of the current group once one was taken, the next
/// group, and the number of groups.
#[derive(Debug)]
pub struct ComponentsCursor {
    current_idx: usize,
    current_count: Option<usize>,
    all_idx: usize,
    all_count: usize,
}

/// The mathematical state of a [`ComponentsCursor`].
pub struct CursorState {
    pub current_idx: usize,
    pub current_count: Option<usize>,
    pub all_idx: usize,
    pub all_count: usize,
}

impl View for ComponentsCursor {
    type V = CursorState;

    closed spec fn view(&self) -> CursorState {
        CursorState {
            current_idx: self.current_idx,
            current_count: self.current_count,
            all_idx: self.all_idx,
            all_count: self.all_count,
        }
    }
}

/// The current group still has an entity to hand out.
pub open spec fn has_next_entity(s: CursorState) -> bool {
    s.current_count matches Some(c) && s.current_idx < c
}

/// The next step from state `s` and the state after it: hand out the next
/// entity of the current group while it has one, moving past it; otherwise
/// take the next group, or finish after the last one (at once when there
/// are no groups).
pub open spec fn step(s: CursorState) -> (CursorState, CursorStep) {
    if s.all_count == 0 {
        (s, CursorStep::Finished)
    } else if has_next_entity(s) {
        (CursorState { current_idx: (s.current_idx + 1) as usize, ..s }, CursorStep::Yield(s.current_idx))
    } else if s.all_idx == s.all_count {
        (s, CursorStep::Finished)
    } else {
        (s, CursorStep::Acquire(s.all_idx))
    }
}

/// The state after the next group was taken, holding `count` entities.
pub open spec fn acquire(s: CursorState, count: usize) -> CursorState {
    CursorState {
        current_idx: 0,
        current_count: Some(count),
        all_idx: (s.all_idx + 1) as usize,
        all_count: s.all_count,
    }
}

impl ComponentsCursor {
    /// No group past the last is taken, and no entity past the current
    /// group's last is handed out.
    pub open spec fn wf(&self) -> bool {
        &&& self@.all_idx <= self@.all_count
        &&& self@.current_count matches Some(c) ==> self@.current_idx <= c
    }

    /// An iteration over `all_count` groups, before any was taken.
    pub fn create(all_count: usize) -> (c: Self)
        ensures
            c.wf(),
            c@ == (CursorState { current_idx: 0, current_count: None, all_idx: 0, all_count }),
    {
        ComponentsCursor { current_idx: 0, current_count: None, all_idx: 0, all_count }
    }

    /// Decides and takes the next step.
    pub fn next_step(&mut self) -> (r: CursorStep)
        requires
            old(self).wf(),
        ensures
            final(self).wf(),
            (final(self)@, r) == step(old(self)@),
    {
        if self.all_count == 0 {
            return CursorStep::Finished;
        }
        let current_count = match self.current_count {
            Some(c) => c,
            None => self.current_idx,
        };
        if self.current_idx == current_count {
            if self.all_idx == self.all_count {
                return CursorStep::Finished;
            }
            return CursorStep::Acquire(self.all_idx);
        }
        self.current_idx = self.current_idx + 1;
        CursorStep::Yield(self.current_idx - 1)
    }

    /// The group at the next position was taken and holds `count` entities:
    /// the iteration moves to its first entity.
    pub fn acquired(&mut self, count: usize)
        requires
            old(self).wf(),
            old(self)@.all_idx < old(self)@.all_count,
        ensures
            final(self).wf(),
            final(self)@ == acquire(old(self)@, count),
    {
        self.all_idx = self.all_idx + 1;
        self.current_idx = 0;
        self.current_count = Some(count);
    }
}

/// The steps taken from state `s`, at most `fuel` of them, when each group
/// taken holds as many entities as `counts` says.
pub open spec fn run(s: CursorState, counts: Seq<usize>, fuel: nat) -> Seq<CursorStep>
    decreases fuel,
{
    if fuel == 0 {
        Seq::empty()
    } else {
        let (s1, st) = step(s);
        match st {
            CursorStep::Finished => seq![CursorStep::Finished],
            CursorStep::Yield(i) => seq![CursorStep::Yield(i)] + run(s1, counts, (fuel - 1) as nat),
            CursorStep::Acquire(g) => seq![CursorStep::Acquire(g)] + run(
                acquire(s1, counts[g as int]),
                counts,
                (fuel - 1) as nat,
            ),
        }
    }
}

/// The entities `from..count` of a group, handed out in order.
pub open spec fn yields(from: int, count: int) -> Seq<CursorStep> {
    Seq::new((count - from) as nat, |i: int| CursorStep::Yield((from + i) as usize))
}

/// The steps that visit the groups from `g` on: each group is taken, then
/// each of its entities is handed out in order; then the walk finishes.
pub open spec fn visits(counts: Seq<usize>, g: int) -> Seq<CursorStep>
    decreases counts.len() - g,
{
    if g >= counts.len() || g < 0 {
        seq![CursorStep::Finished]
    } else {
        seq![CursorStep::Acquire(g as usize)] + yields(0, counts[g] as int) + visits(counts, g + 1)
    }
}

/// The number of steps that visiting the groups from `g` on takes.
pub open spec fn visit_steps(counts: Seq<usize>, g: int) -> nat
    decreases counts.len() - g,
{
    if g >= counts.len() || g < 0 {
        1
    } else {
        1 + counts[g] as nat + visit_steps(counts, g + 1)
    }
}

/// From the middle of group `g - 1`, at entity `j`, the walk hands out the
/// rest of that group and then visits the groups from `g` on.
proof fn lemma_run_from(counts: Seq<usize>, g: int, j: int, fuel: nat)
    requires
        counts.len() > 0,
        counts.len() <= usize::MAX,
        1 <= g <= counts.len(),
        0 <= j <= counts[g - 1],
        fuel >= (counts[g - 1] - j) + visit_steps(counts, g),
    ensures
        run(
            CursorState {
                current_idx: j as usize,
                current_count: Some(counts[g - 1]),
                all_idx: g as usize,
                all_count: counts.len() as usize,
            },
            counts,
            fuel,
        ) == yields(j, counts[g - 1] as int) + visits(counts, g),
    decreases counts.len() - g, counts[g - 1] - j,
{
    let s = CursorState {
        current_idx: j as usize,
        current_count: Some(counts[g - 1]),
        all_idx: g as usize,
        all_count: counts.len() as usize,
    };
    if j < counts[g - 1] {
        lemma_run_from(counts, g, j + 1, (fuel - 1) as nat);
        assert(yields(j, counts[g - 1] as int) =~= seq![CursorStep::Yield(j as usize)] + yields(
            j + 1,
            counts[g - 1] as int,
        ));
    } else if g == counts.len() {
        assert(yields(j, counts[g - 1] as int) =~= Seq::<CursorStep>::empty());
        assert(run(s, counts, fuel) == seq![CursorStep::Finished]);
        assert(visits(counts, g) == seq![CursorStep::Finished]);
        assert(yields(j, counts[g - 1] as int) + visits(counts, g) =~= seq![CursorStep::Finished]);
    } else {
        assert(yields(j, counts[g - 1] as int) =~= Seq::<CursorStep>::empty());
        let s1 = acquire(s, counts[g]);
        lemma_run_from(counts, g + 1, 0, (fuel - 1) as nat);
        assert(s1 == CursorState {
            current_idx: 0usize,
            current_count: Some(counts[g]),
            all_idx: (g + 1) as usize,
            all_count: counts.len() as usize,
        });
        assert(run(s, counts, fuel) =~= seq![CursorStep::Acquire(g as usize)] + run(s1, counts, (fuel - 1) as nat));
        assert(visits(counts, g) =~= seq![CursorStep::Acquire(g as usize)] + yields(0, counts[g] as int) + visits(
            counts,
            g + 1,
        ));
        assert(yields(j, counts[g - 1] as int) + visits(counts, g) =~= seq![CursorStep::Acquire(g as usize)] + (
        yields(0, counts[g] as int) + visits(counts, g + 1)));
    }
}

/// A walk over groups holding `counts` entities, started afresh, takes each
/// group in order, hands out each of its entities once and in order, and
/// then finishes: every entity the access key reaches is visited exactly
/// once.
pub proof fn law_walk_visits_every_entity(counts: Seq<usize>, fuel: nat)
    requires
        counts.len() <= usize::MAX,
        fuel >= visit_steps(counts, 0),
    ensures
        run(
            CursorState { current_idx: 0, current_count: None, all_idx: 0, all_count: counts.len() as usize },
            counts,
            fuel,
        ) == visits(counts, 0),
{
    let s = CursorState { current_idx: 0, current_count: None, all_idx: 0, all_count: counts.len() as usize };
    if counts.len() == 0 {
        assert(run(s, counts, fuel) == seq![CursorStep::Finished]);
    } else {
        let s1 = acquire(s, counts[0]);
        lemma_run_from(counts, 1, 0, (fuel - 1) as nat);
        assert(run(s, counts, fuel) =~= seq![CursorStep::Acquire(0usize)] + run(s1, counts, (fuel - 1) as nat));
        assert(visits(counts, 0) =~= seq![CursorStep::Acquire(0usize)] + (yields(0, counts[0] as int) + visits(
            counts,
            1,
        )));
    }
}

} // verus!
