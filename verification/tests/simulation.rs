use nbody::entity::EntityStore;
use nbody::schedule::SystemScheduler;
use nbody::store::{join2, CompStore};
use nbody::time::{Time, UpdateTime};

// A run with zero bodies: the full four-stage graph plans, every stage can
// walk the (empty) entity set, and the clock still ticks.
#[test]
fn zero_bodies_runs_all_four_stages() {
    let ents = EntityStore::new();
    let masses: CompStore<u64> = CompStore::new();
    let accels: CompStore<u64> = CompStore::new();
    let vels: CompStore<u64> = CompStore::new();
    let positions: CompStore<u64> = CompStore::new();
    let mut time = Time::new(0);

    let mut scheduler = SystemScheduler::new(4);
    scheduler.add("update_time".to_string(), vec![]);
    scheduler.add("apply_gravity".to_string(), vec!["update_time".to_string()]);
    scheduler.add(
        "update_vels".to_string(),
        vec!["update_time".to_string(), "apply_gravity".to_string()],
    );
    scheduler.add(
        "update_positions".to_string(),
        vec!["update_time".to_string(), "update_vels".to_string()],
    );
    let order = scheduler.plan().expect("the simulation graph is acyclic");
    assert_eq!(order.len(), 4);

    let clock_stage = UpdateTime;
    let mut touched: usize = 0;
    for tick in 1..=3u64 {
        for &stage in &order {
            match stage {
                0 => clock_stage.run(&mut time, tick * 1_000),
                1 => touched += join2(&masses, &positions, ents.len()).len(),
                2 => touched += join2(&accels, &vels, ents.len()).len(),
                3 => touched += join2(&vels, &positions, ents.len()).len(),
                _ => unreachable!(),
            }
        }
    }
    assert_eq!(touched, 0);
    assert_eq!(time.total_ns(), 3_000);
    assert_eq!(time.delta_ns(), 1_000);
    assert_eq!(ents.len(), 0);
}
