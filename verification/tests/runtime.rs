use lib::component::component_type::{ComponentTypeEntry, ComponentTypeManager};
use lib::component::cursor::{ComponentsCursor, CursorStep};
use lib::component::query::{ComponentQueryAccessType, ComponentQueryFilterType};
use lib::component::{ArchetypeManager, Entity, EntityIds};
use lib::debug::DebugMessageLevel;
use lib::runtime::{count_in_phase, remaining_after_round, EarlyPhaseRun, EarlyPhaseStep, EarlySystemPhase, SystemBuilder};
use lib::RuntimeError;

fn types() -> ComponentTypeManager {
    let mut ctymgr = ComponentTypeManager::create();
    ctymgr.register(ComponentTypeEntry { name: "p".to_string(), size: 4, hash: 40 }).unwrap();
    ctymgr.register(ComponentTypeEntry { name: "q".to_string(), size: 8, hash: 80 }).unwrap();
    ctymgr
}

#[test]
fn system_builder_resolves_hashes() {
    let ctymgr = types();
    let mut amgr = ArchetypeManager::create();
    let mut b = SystemBuilder::create(
        "s".to_string(),
        vec![(80, ComponentQueryAccessType::Write)],
        vec![(40, ComponentQueryFilterType::Without)],
        Some(EarlySystemPhase::Startup),
    );
    b.set_plugin_name("plug".to_string());
    let sys = b.build(&ctymgr, &mut amgr).unwrap();
    assert_eq!(sys.name, "s");
    assert_eq!(sys.plugin_name, "plug");
    assert_eq!(sys.archetype_access_key, 0);
    assert_eq!(sys.query.get_accesses(), &vec![(1usize, ComponentQueryAccessType::Write)]);
    assert_eq!(sys.query.get_filters(), &vec![(0usize, ComponentQueryFilterType::Without)]);
    assert_eq!(sys.phase, Some(EarlySystemPhase::Startup));
    assert_eq!(amgr.get_access_count(0), 0);
}

#[test]
fn system_builder_errors_in_order() {
    let ctymgr = types();
    let mut amgr = ArchetypeManager::create();
    let b = SystemBuilder::create(
        "s".to_string(),
        vec![(40, ComponentQueryAccessType::Read), (7, ComponentQueryAccessType::Read)],
        vec![(9, ComponentQueryFilterType::With)],
        None,
    );
    assert_eq!(b.build(&ctymgr, &mut amgr).err(), Some(RuntimeError::BadComponentTypeHash { hash: 7 }));
    let b = SystemBuilder::create(
        "s".to_string(),
        vec![(40, ComponentQueryAccessType::Read)],
        vec![(9, ComponentQueryFilterType::With)],
        None,
    );
    assert_eq!(b.build(&ctymgr, &mut amgr).err(), Some(RuntimeError::BadComponentTypeHash { hash: 9 }));
    let b = SystemBuilder::create("t".to_string(), vec![], vec![], None);
    assert_eq!(
        b.build(&ctymgr, &mut amgr).err(),
        Some(RuntimeError::SystemNoPluginName { system: "t".to_string() })
    );
}

#[test]
fn early_phase_counts_and_gives_up() {
    let ctymgr = types();
    let mut amgr = ArchetypeManager::create();
    let mut systems = Vec::new();
    for phase in [Some(EarlySystemPhase::Bootstrap), None, Some(EarlySystemPhase::Bootstrap)] {
        let mut b = SystemBuilder::create("x".to_string(), vec![], vec![], phase);
        b.set_plugin_name("p".to_string());
        systems.push(b.build(&ctymgr, &mut amgr).unwrap());
    }
    assert_eq!(count_in_phase(&systems, EarlySystemPhase::Bootstrap), 2);
    assert_eq!(count_in_phase(&systems, EarlySystemPhase::Startup), 0);

    let mut run = EarlyPhaseRun::create(2);
    run.system_done();
    let mut steps = Vec::new();
    for _ in 0..7 {
        steps.push(run.round_end());
    }
    assert_eq!(steps[..6], [EarlyPhaseStep::Again; 6]);
    assert_eq!(steps[6], EarlyPhaseStep::TooLong);

    let mut run = EarlyPhaseRun::create(1);
    assert_eq!(run.round_end(), EarlyPhaseStep::Again);
    run.system_done();
    assert_eq!(run.round_end(), EarlyPhaseStep::Finished);
}

#[test]
fn cursor_visits_every_entity_of_every_group() {
    let counts = [2usize, 0, 1];
    let mut cursor = ComponentsCursor::create(counts.len());
    let mut visits = Vec::new();
    let mut group = None;
    loop {
        match cursor.next_step() {
            CursorStep::Finished => break,
            CursorStep::Acquire(g) => {
                group = Some(g);
                cursor.acquired(counts[g]);
            }
            CursorStep::Yield(i) => visits.push((group.unwrap(), i)),
        }
    }
    assert_eq!(visits, vec![(0, 0), (0, 1), (2, 0)]);
    let mut empty = ComponentsCursor::create(0);
    assert_eq!(empty.next_step(), CursorStep::Finished);
}

#[test]
fn message_level_names() {
    assert_eq!(DebugMessageLevel::Error.to_string(), "Error");
    assert_eq!(DebugMessageLevel::Internal.to_string(), "Internal");
}

#[test]
fn remaining_after_round_drops_finished_systems() {
    let ctymgr = types();
    let mut amgr = ArchetypeManager::create();
    let phases = [
        Some(EarlySystemPhase::Bootstrap),
        None,
        Some(EarlySystemPhase::Bootstrap),
        Some(EarlySystemPhase::Startup),
        Some(EarlySystemPhase::Bootstrap),
    ];
    let mut systems = Vec::new();
    for phase in phases {
        let mut b = SystemBuilder::create("s".to_string(), vec![], vec![], phase);
        b.set_plugin_name("p".to_string());
        systems.push(b.build(&ctymgr, &mut amgr).unwrap());
    }
    let done = vec![true, true, false, true, true];
    assert_eq!(remaining_after_round(&systems, EarlySystemPhase::Bootstrap, &done), vec![1, 2, 3]);
    assert_eq!(remaining_after_round(&systems, EarlySystemPhase::Startup, &done), vec![0, 1, 2, 4]);
    assert_eq!(remaining_after_round(&systems, EarlySystemPhase::Startup, &vec![false; 5]), vec![0, 1, 2, 3, 4]);
}

#[test]
fn entity_ids_are_handed_out_in_turn() {
    let mut ids = EntityIds::create();
    assert_eq!(ids.take(), Some(Entity::from_id(0)));
    assert_eq!(ids.take(), Some(Entity::from_id(1)));
    assert_eq!(ids.take(), Some(Entity::from_id(2)));
}

#[test]
fn entity_types_names_the_group() {
    let ctymgr = types();
    let mut amgr = ArchetypeManager::create();
    let e = Entity::from_id(6);
    assert_eq!(amgr.entity_types(e), None);
    amgr.insert_entity(e).unwrap();
    assert_eq!(amgr.entity_types(e), Some(&vec![]));
    let _ = ctymgr;
}
