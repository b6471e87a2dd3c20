use nbody::time::{Time, UpdateTime};

#[test]
fn fresh_clock_is_at_its_start() {
    let t = Time::new(1_000);
    assert_eq!(t.last_ns(), 1_000);
    assert_eq!(t.total_ns(), 0);
    assert_eq!(t.delta_ns(), 0);
}

#[test]
fn update_measures_delta_and_total() {
    let mut t = Time::new(0);
    t.update(1_000_000_000);
    assert_eq!(t.delta_ns(), 1_000_000_000);
    assert_eq!(t.total_ns(), 1_000_000_000);
    t.update(1_500_000_000);
    assert_eq!(t.delta_ns(), 500_000_000);
    assert_eq!(t.total_ns(), 1_500_000_000);
    assert_eq!(t.last_ns(), 1_500_000_000);
}

#[test]
fn update_time_stage_advances_the_clock() {
    let stage = UpdateTime;
    let mut t = Time::new(100);
    stage.run(&mut t, 350);
    assert_eq!(t.delta_ns(), 250);
    assert_eq!(t.total_ns(), 250);
    stage.run(&mut t, 600);
    assert_eq!(t.delta_ns(), 250);
    assert_eq!(t.total_ns(), 500);
}

#[test]
fn zero_length_tick_is_allowed() {
    let mut t = Time::new(42);
    t.update(42);
    assert_eq!(t.delta_ns(), 0);
    assert_eq!(t.total_ns(), 0);
}

#[test]
fn injected_instants_make_runs_reproducible() {
    let instants: [u64; 4] = [10, 25, 70, 71];
    let mut first = Time::new(instants[0]);
    let mut second = Time::new(instants[0]);
    for now in &instants[1..] {
        first.update(*now);
        second.update(*now);
    }
    assert_eq!(first.delta_ns(), second.delta_ns());
    assert_eq!(first.total_ns(), second.total_ns());
    assert_eq!(first.last_ns(), second.last_ns());
}
