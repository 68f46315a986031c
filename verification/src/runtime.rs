use crate::component::archetype::ArchetypeManager;
use crate::component::component_type::ComponentTypeManager;
use crate::component::query::{ComponentGroupQuery, ComponentQueryAccessType, ComponentQueryFilterType};
use crate::component::ComponentHash;
use crate::error::RuntimeError;
use crate::Result;
use vstd::prelude::*;

verus! {

/// The phases that run before the first update: bootstrapping, then startup.
#[derive(Debug, Clone, Copy, PartialEq, Eq, Structural)]
pub enum EarlySystemPhase {
    Bootstrap,
    Startup,
}

/// Every hash of `hs` names a registered component type.
pub open spec fn all_known<A>(ctymgr: &ComponentTypeManager, hs: Seq<(u64, A)>) -> bool {
    forall|i: int| 0 <= i < hs.len() ==> ctymgr.knows(#[trigger] hs[i].0)
}

/// Position `i` holds the first hash of `hs` that names no registered type.
pub open spec fn first_unknown<A>(ctymgr: &ComponentTypeManager, hs: Seq<(u64, A)>, i: int) -> bool {
    &&& 0 <= i < hs.len()
    &&& !ctymgr.knows(hs[i].0)
    &&& forall|j: int| 0 <= j < i ==> ctymgr.knows(#[trigger] hs[j].0)
}

/// The pairs of `hs` with each hash replaced by its type's id.
pub open spec fn with_ids<A>(ctymgr: &ComponentTypeManager, hs: Seq<(u64, A)>) -> Seq<(usize, A)> {
    hs.map_values(|p: (u64, A)| (ctymgr.id_of(p.0), p.1))
}

/// A system in the making: its name, its plugin's name once set, the
/// components it reaches and filters on, named by hash, and the early phase
/// it runs in, if any.
#[derive(Debug)]
pub struct SystemBuilder {
    name: String,
    plugin_name: Option<String>,
    component_accesses: Vec<(ComponentHash, ComponentQueryAccessType)>,
    component_filters: Vec<(ComponentHash, ComponentQueryFilterType)>,
    phase: Option<EarlySystemPhase>,
}

/// A built system: its query, registered under an access key.
#[derive(Debug)]
pub struct System {
    pub name: String,
    pub plugin_name: String,
    pub query: ComponentGroupQuery,
    pub archetype_access_key: usize,
    pub phase: Option<EarlySystemPhase>,
}

impl SystemBuilder {
    pub closed spec fn name(&self) -> String {
        self.name
    }

    pub closed spec fn plugin_name(&self) -> Option<String> {
        self.plugin_name
    }

    pub closed spec fn accesses(&self) -> Seq<(u64, ComponentQueryAccessType)> {
        self.component_accesses@
    }

    pub closed spec fn filters(&self) -> Seq<(u64, ComponentQueryFilterType)> {
        self.component_filters@
    }

    pub closed spec fn phase(&self) -> Option<EarlySystemPhase> {
        self.phase
    }

    pub fn create(
        name: String,
        component_accesses: Vec<(ComponentHash, ComponentQueryAccessType)>,
        component_filters: Vec<(ComponentHash, ComponentQueryFilterType)>,
        phase: Option<EarlySystemPhase>,
    ) -> (b: SystemBuilder)
        ensures
            b.name() == name,
            b.plugin_name() == None::<String>,
            b.accesses() == component_accesses@,
            b.filters() == component_filters@,
            b.phase() == phase,
    {
        SystemBuilder { name, plugin_name: None, component_accesses, component_filters, phase }
    }

    pub fn set_plugin_name(&mut self, plugin_name: String)
        ensures
            final(self).plugin_name() == Some(plugin_name),
            final(self).name() == old(self).name(),
            final(self).accesses() == old(self).accesses(),
            final(self).filters() == old(self).filters(),
            final(self).phase() == old(self).phase(),
    {
        self.plugin_name = Some(plugin_name);
    }

    /// Resolves the hashes to component type ids, makes the query of them
    /// and registers it under a new access key. Fails on the first unknown
    /// hash, accesses before filters; then when no plugin name was set; then
    /// when the archetype manager is locked.
    pub fn build(self, ctymgr: &ComponentTypeManager, amgr: &mut ArchetypeManager) -> (r: Result<System>)
        requires
            ctymgr.wf(),
            old(amgr).wf(),
        ensures
            final(amgr).wf(),
            !all_known(ctymgr, self.accesses()) ==> *final(amgr) == *old(amgr) && exists|i: int|
                first_unknown(ctymgr, self.accesses(), i) && r == Err::<System, RuntimeError>(
                    RuntimeError::BadComponentTypeHash { hash: self.accesses()[i].0 },
                ),
            all_known(ctymgr, self.accesses()) && !all_known(ctymgr, self.filters()) ==> *final(amgr)
                == *old(amgr) && exists|i: int|
                first_unknown(ctymgr, self.filters(), i) && r == Err::<System, RuntimeError>(
                    RuntimeError::BadComponentTypeHash { hash: self.filters()[i].0 },
                ),
            all_known(ctymgr, self.accesses()) && all_known(ctymgr, self.filters()) && self.plugin_name() is None
                ==> *final(amgr) == *old(amgr) && r == Err::<System, RuntimeError>(
                RuntimeError::SystemNoPluginName { system: self.name() },
            ),
            all_known(ctymgr, self.accesses()) && all_known(ctymgr, self.filters()) && self.plugin_name() is Some
                && old(amgr).lock_count() != 0 ==> *final(amgr) == *old(amgr) && r == Err::<
                System,
                RuntimeError,
            >(RuntimeError::ArchetypeStorageLocked),
            all_known(ctymgr, self.accesses()) && all_known(ctymgr, self.filters()) && self.plugin_name() is Some
                && old(amgr).lock_count() == 0 ==> {
                &&& r matches Ok(sys) && {
                    &&& sys.name == self.name()
                    &&& sys.plugin_name == self.plugin_name()->0
                    &&& sys.query.accesses() == with_ids(ctymgr, self.accesses())
                    &&& sys.query.filters() == with_ids(ctymgr, self.filters())
                    &&& sys.archetype_access_key == old(amgr).keys().len()
                    &&& sys.phase == self.phase()
                }
                &&& final(amgr).keys() == old(amgr).keys().push(Seq::empty())
                &&& final(amgr).key_accesses() == old(amgr).key_accesses().push(
                    with_ids(ctymgr, self.accesses()),
                )
                &&& final(amgr).key_filters() == old(amgr).key_filters().push(with_ids(ctymgr, self.filters()))
                &&& final(amgr).storages() == old(amgr).storages()
                &&& final(amgr).entity_set() == old(amgr).entity_set()
                &&& final(amgr).groups() == old(amgr).groups()
                &&& final(amgr).lock_count() == old(amgr).lock_count()
            },
    {
        let mut accesses: Vec<(Result<usize>, ComponentQueryAccessType)> = Vec::new();
        let mut i: usize = 0;
        while i < self.component_accesses.len()
            invariant
                ctymgr.wf(),
                i <= self.component_accesses@.len(),
                accesses@.len() == i,
                forall|j: int|
                    0 <= j < i ==> (#[trigger] accesses@[j]).1 == self.component_accesses@[j].1 && (if ctymgr.knows(
                        self.component_accesses@[j].0,
                    ) {
                        accesses@[j].0 == Ok::<usize, RuntimeError>(ctymgr.id_of(self.component_accesses@[j].0))
                    } else {
                        accesses@[j].0 == Err::<usize, RuntimeError>(
                            RuntimeError::BadComponentTypeHash { hash: self.component_accesses@[j].0 },
                        )
                    }),
            decreases self.component_accesses@.len() - i,
        {
            let (hash, qt) = self.component_accesses[i];
            accesses.push((ctymgr.get_id_with_hash(hash), qt));
            i = i + 1;
        }
        let mut filters: Vec<(Result<usize>, ComponentQueryFilterType)> = Vec::new();
        let mut k: usize = 0;
        while k < self.component_filters.len()
            invariant
                ctymgr.wf(),
                k <= self.component_filters@.len(),
                filters@.len() == k,
                forall|j: int|
                    0 <= j < k ==> (#[trigger] filters@[j]).1 == self.component_filters@[j].1 && (if ctymgr.knows(
                        self.component_filters@[j].0,
                    ) {
                        filters@[j].0 == Ok::<usize, RuntimeError>(ctymgr.id_of(self.component_filters@[j].0))
                    } else {
                        filters@[j].0 == Err::<usize, RuntimeError>(
                            RuntimeError::BadComponentTypeHash { hash: self.component_filters@[j].0 },
                        )
                    }),
            decreases self.component_filters@.len() - k,
        {
            let (hash, qt) = self.component_filters[k];
            filters.push((ctymgr.get_id_with_hash(hash), qt));
            k = k + 1;
        }
        let mut query = ComponentGroupQuery::create();
        let mut a: usize = 0;
        while a < accesses.len()
            invariant
                *amgr == *old(amgr),
                old(amgr).wf(),
                a <= accesses@.len(),
                accesses@.len() == self.component_accesses@.len(),
                self.component_accesses@ == self.accesses(),
                forall|j: int|
                    0 <= j < accesses@.len() ==> (#[trigger] accesses@[j]).1 == self.component_accesses@[j].1 && (if ctymgr.knows(
                        self.component_accesses@[j].0,
                    ) {
                        accesses@[j].0 == Ok::<usize, RuntimeError>(ctymgr.id_of(self.component_accesses@[j].0))
                    } else {
                        accesses@[j].0 == Err::<usize, RuntimeError>(
                            RuntimeError::BadComponentTypeHash { hash: self.component_accesses@[j].0 },
                        )
                    }),
                forall|j: int| 0 <= j < a ==> ctymgr.knows(#[trigger] self.component_accesses@[j].0),
                query.accesses() == with_ids(ctymgr, self.component_accesses@).take(a as int),
                query.filters() == Seq::<(usize, ComponentQueryFilterType)>::empty(),
            decreases accesses@.len() - a,
        {
            match &accesses[a].0 {
                Ok(cty) => {
                    query.add_access(*cty, accesses[a].1);
                },
                Err(_) => {
                    proof {
                        assert(first_unknown(ctymgr, self.accesses(), a as int));
                    }
                    return Err(RuntimeError::BadComponentTypeHash { hash: self.component_accesses[a].0 });
                },
            }
            a = a + 1;
            assert(query.accesses() =~= with_ids(ctymgr, self.component_accesses@).take(a as int));
        }
        assert(with_ids(ctymgr, self.component_accesses@).take(a as int) =~= with_ids(ctymgr, self.component_accesses@));
        let mut f: usize = 0;
        while f < filters.len()
            invariant
                *amgr == *old(amgr),
                old(amgr).wf(),
                f <= filters@.len(),
                filters@.len() == self.component_filters@.len(),
                self.component_filters@ == self.filters(),
                self.component_accesses@ == self.accesses(),
                all_known(ctymgr, self.accesses()),
                forall|j: int|
                    0 <= j < filters@.len() ==> (#[trigger] filters@[j]).1 == self.component_filters@[j].1 && (if ctymgr.knows(
                        self.component_filters@[j].0,
                    ) {
                        filters@[j].0 == Ok::<usize, RuntimeError>(ctymgr.id_of(self.component_filters@[j].0))
                    } else {
                        filters@[j].0 == Err::<usize, RuntimeError>(
                            RuntimeError::BadComponentTypeHash { hash: self.component_filters@[j].0 },
                        )
                    }),
                forall|j: int| 0 <= j < f ==> ctymgr.knows(#[trigger] self.component_filters@[j].0),
                query.accesses() == with_ids(ctymgr, self.component_accesses@),
                query.filters() == with_ids(ctymgr, self.component_filters@).take(f as int),
            decreases filters@.len() - f,
        {
            match &filters[f].0 {
                Ok(cty) => {
                    query.add_filter(*cty, filters[f].1);
                },
                Err(_) => {
                    proof {
                        assert(first_unknown(ctymgr, self.filters(), f as int));
                    }
                    return Err(RuntimeError::BadComponentTypeHash { hash: self.component_filters[f].0 });
                },
            }
            f = f + 1;
            assert(query.filters() =~= with_ids(ctymgr, self.component_filters@).take(f as int));
        }
        assert(with_ids(ctymgr, self.component_filters@).take(f as int) =~= with_ids(ctymgr, self.component_filters@));
        let SystemBuilder { name, plugin_name, component_accesses: _, component_filters: _, phase } = self;
        let plugin_name = match plugin_name {
            Some(p) => p,
            None => {
                return Err(RuntimeError::SystemNoPluginName { system: name });
            },
        };
        let archetype_access_key = match amgr.create_archetype_access_key(query.clone()) {
            Ok(akid) => akid,
            Err(e) => {
                return Err(e);
            },
        };
        Ok(System { name, plugin_name, query, archetype_access_key, phase })
    }
}

/// How many systems of `systems` run in `phase`.
pub open spec fn systems_in_phase(systems: Seq<System>, phase: EarlySystemPhase) -> nat
    decreases systems.len(),
{
    if systems.len() == 0 {
        0
    } else {
        systems_in_phase(systems.drop_last(), phase) + if systems.last().phase == Some(phase) {
            1nat
        } else {
            0nat
        }
    }
}

/// The systems of `systems` that run in `phase` are counted: exactly those
/// whose phase is `phase`, no others.
pub proof fn law_systems_in_phase(systems: Seq<System>, phase: EarlySystemPhase)
    ensures
        systems_in_phase(systems, phase) == systems.filter(|s: System| s.phase == Some(phase)).len(),
    decreases systems.len(),
{
    reveal(Seq::filter);
    if systems.len() > 0 {
        law_systems_in_phase(systems.drop_last(), phase);
    }
}

/// A system whose phase is not `phase` does not count for it, and adding a
/// system of `phase` counts one more.
pub proof fn law_systems_in_phase_push(systems: Seq<System>, phase: EarlySystemPhase, x: System)
    ensures
        x.phase != Some(phase) ==> systems_in_phase(systems.push(x), phase) == systems_in_phase(systems, phase),
        x.phase == Some(phase) ==> systems_in_phase(systems.push(x), phase) == systems_in_phase(systems, phase) + 1,
{
    assert(systems.push(x).drop_last() =~= systems);
}

/// The number of systems that run in `phase`.
pub fn count_in_phase(systems: &Vec<System>, phase: EarlySystemPhase) -> (r: usize)
    ensures
        r == systems_in_phase(systems@, phase),
        r == systems@.filter(|s: System| s.phase == Some(phase)).len(),
{
    proof {
        law_systems_in_phase(systems@, phase);
    }
    let mut n: usize = 0;
    let mut i: usize = 0;
    while i < systems.len()
        invariant
            i <= systems@.len(),
            n == systems_in_phase(systems@.take(i as int), phase),
            n <= i,
        decreases systems@.len() - i,
    {
        assert(systems@.take(i + 1).drop_last() =~= systems@.take(i as int));
        if systems[i].phase == Some(phase) {
            n = n + 1;
        }
        i = i + 1;
    }
    assert(systems@.take(i as int) =~= systems@);
    n
}

/// A system finished in a round of `phase`: it runs in `phase` and reported done.
pub open spec fn finished(system: System, phase: EarlySystemPhase, done: bool) -> bool {
    system.phase == Some(phase) && done
}

/// The positions, in order, of the first `n` systems that stay after a round
/// of `phase` in which system `i` reported `done[i]`.
pub open spec fn remaining(systems: Seq<System>, phase: EarlySystemPhase, done: Seq<bool>, n: nat) -> Seq<usize>
    decreases n,
{
    if n == 0 {
        Seq::empty()
    } else {
        let rest = remaining(systems, phase, done, (n - 1) as nat);
        if finished(systems[n - 1], phase, done[n - 1]) {
            rest
        } else {
            rest.push((n - 1) as usize)
        }
    }
}

/// The positions, in order, of the systems that stay after a round of
/// `phase`: those that do not run in `phase`, and those of `phase` that did
/// not report done. System `i` reported `done[i]`.
pub fn remaining_after_round(systems: &Vec<System>, phase: EarlySystemPhase, done: &Vec<bool>) -> (r: Vec<usize>)
    requires
        done@.len() == systems@.len(),
    ensures
        r@ == remaining(systems@, phase, done@, systems@.len()),
{
    let mut r: Vec<usize> = Vec::new();
    let mut i: usize = 0;
    while i < systems.len()
        invariant
            i <= systems@.len(),
            done@.len() == systems@.len(),
            r@ == remaining(systems@, phase, done@, i as nat),
        decreases systems@.len() - i,
    {
        if !(systems[i].phase == Some(phase) && done[i]) {
            r.push(i);
        }
        i = i + 1;
    }
    r
}

/// The systems that stay after a round are those that did not finish: each
/// stays exactly when it did not finish in the round, and they keep their order.
pub proof fn law_remaining_keeps_unfinished(systems: Seq<System>, phase: EarlySystemPhase, done: Seq<bool>, n: nat)
    requires
        n <= systems.len(),
        n <= usize::MAX,
        done.len() == systems.len(),
    ensures
        forall|a: int, b: int|
            0 <= a < b < remaining(systems, phase, done, n).len() ==> remaining(systems, phase, done, n)[a]
                < remaining(systems, phase, done, n)[b],
        forall|i: int| 0 <= i < remaining(systems, phase, done, n).len() ==> {
            &&& remaining(systems, phase, done, n)[i] < n
            &&& !finished(systems[remaining(systems, phase, done, n)[i] as int], phase, done[remaining(systems, phase, done, n)[i] as int])
        },
        forall|k: int|
            0 <= k < n && !finished(systems[k], phase, done[k]) ==> remaining(systems, phase, done, n).contains(k as usize),
    decreases n,
{
    if n > 0 {
        law_remaining_keeps_unfinished(systems, phase, done, (n - 1) as nat);
        let rest = remaining(systems, phase, done, (n - 1) as nat);
        let all = remaining(systems, phase, done, n);
        assert forall|i: int| 0 <= i < all.len() implies {
            &&& all[i] < n
            &&& !finished(systems[all[i] as int], phase, done[all[i] as int])
        } by {
            if i < rest.len() {
                assert(all[i] == rest[i]);
            }
        }
        assert forall|a: int, b: int| 0 <= a < b < all.len() implies all[a] < all[b] by {
            if b < rest.len() {
                assert(all[a] == rest[a] && all[b] == rest[b]);
            } else {
                assert(all[a] == rest[a]);
            }
        }
        assert forall|k: int| 0 <= k < n && !finished(systems[k], phase, done[k]) implies all.contains(k as usize) by {
            if k < n - 1 {
                assert(rest.contains(k as usize));
                let w = choose|w: int| 0 <= w < rest.len() && rest[w] == k as usize;
                assert(all[w] == k as usize);
            } else {
                assert(all[all.len() - 1] == k as usize);
            }
        }
    }
}

/// What to do after a round of an early phase.
#[derive(Debug, Clone, Copy, PartialEq, Eq, Structural)]
pub enum EarlyPhaseStep {
    /// Every system of the phase is done.
    Finished,
    /// Run the systems of the phase that are not done once more.
    Again,
    /// The phase took too many rounds.
    TooLong,
}

/// The rounds after which an unfinished early phase takes too long.
pub const EARLY_PHASE_ROUNDS: usize = 5;

/// The progress of an early phase: how many of its systems there are, how
/// many are done, and how many rounds have passed.
#[derive(Debug)]
pub struct EarlyPhaseRun {
    phase_count: usize,
    done_count: usize,
    tick_count: usize,
}

impl EarlyPhaseRun {
    pub closed spec fn phase_count(&self) -> usize {
        self.phase_count
    }

    pub closed spec fn done_count(&self) -> usize {
        self.done_count
    }

    pub closed spec fn tick_count(&self) -> usize {
        self.tick_count
    }

    pub fn create(phase_count: usize) -> (p: Self)
        ensures
            p.phase_count() == phase_count,
            p.done_count() == 0,
            p.tick_count() == 0,
    {
        EarlyPhaseRun { phase_count, done_count: 0, tick_count: 0 }
    }

    /// One more system of the phase is done.
    pub fn system_done(&mut self)
        requires
            old(self).done_count() < old(self).phase_count(),
        ensures
            final(self).done_count() == old(self).done_count() + 1,
            final(self).phase_count() == old(self).phase_count(),
            final(self).tick_count() == old(self).tick_count(),
    {
        self.done_count = self.done_count + 1;
    }

    /// Ends a round: the phase is finished once every system is done;
    /// otherwise it runs again, unless more than `EARLY_PHASE_ROUNDS` rounds
    /// have passed.
    pub fn round_end(&mut self) -> (r: EarlyPhaseStep)
        requires
            old(self).tick_count() <= EARLY_PHASE_ROUNDS + 1,
        ensures
            final(self).phase_count() == old(self).phase_count(),
            final(self).done_count() == old(self).done_count(),
            old(self).done_count() == old(self).phase_count() ==> r == EarlyPhaseStep::Finished
                && final(self).tick_count() == old(self).tick_count(),
            old(self).done_count() != old(self).phase_count() && old(self).tick_count() > EARLY_PHASE_ROUNDS
                ==> r == EarlyPhaseStep::TooLong && final(self).tick_count() == old(self).tick_count(),
            old(self).done_count() != old(self).phase_count() && old(self).tick_count() <= EARLY_PHASE_ROUNDS
                ==> r == EarlyPhaseStep::Again && final(self).tick_count() == old(self).tick_count() + 1,
    {
        if self.done_count == self.phase_count {
            EarlyPhaseStep::Finished
        } else if self.tick_count > EARLY_PHASE_ROUNDS {
            EarlyPhaseStep::TooLong
        } else {
            self.tick_count = self.tick_count + 1;
            EarlyPhaseStep::Again
        }
    }
}

} // verus!
