use nbody::schedule::{GraphError, SystemScheduler};

fn position(order: &[usize], stage: usize) -> usize {
    order.iter().position(|&v| v == stage).expect("stage missing from order")
}

fn simulation_graph(workers: usize) -> SystemScheduler {
    let mut s = SystemScheduler::new(workers);
    s.add("update_time".to_string(), vec![]);
    s.add("apply_gravity".to_string(), vec!["update_time".to_string()]);
    s.add(
        "update_vels".to_string(),
        vec!["update_time".to_string(), "apply_gravity".to_string()],
    );
    s.add(
        "update_positions".to_string(),
        vec!["update_time".to_string(), "update_vels".to_string()],
    );
    s
}

#[test]
fn simulation_graph_plans_every_stage_after_its_prerequisites() {
    let s = simulation_graph(4);
    assert_eq!(s.stage_count(), 4);
    assert_eq!(s.worker_count(), 4);
    let order = s.plan().expect("the simulation graph is acyclic");
    assert_eq!(order.len(), 4);
    let update_time = position(&order, 0);
    let apply_gravity = position(&order, 1);
    let update_vels = position(&order, 2);
    let update_positions = position(&order, 3);
    assert!(update_time < apply_gravity);
    assert!(update_time < update_vels);
    assert!(apply_gravity < update_vels);
    assert!(update_time < update_positions);
    assert!(update_vels < update_positions);
}

#[test]
fn unknown_prerequisite_name_is_rejected() {
    let mut s = SystemScheduler::new(1);
    s.add("apply_gravity".to_string(), vec!["update_time".to_string()]);
    assert_eq!(s.plan(), Err(GraphError::UnknownName));
}

#[test]
fn two_stage_cycle_is_rejected() {
    let mut s = SystemScheduler::new(2);
    s.add("a".to_string(), vec!["b".to_string()]);
    s.add("b".to_string(), vec!["a".to_string()]);
    assert_eq!(s.plan(), Err(GraphError::Cycle));
}

#[test]
fn self_dependency_is_rejected() {
    let mut s = SystemScheduler::new(2);
    s.add("a".to_string(), vec!["a".to_string()]);
    assert_eq!(s.plan(), Err(GraphError::Cycle));
}

#[test]
fn three_stage_cycle_is_rejected() {
    let mut s = SystemScheduler::new(2);
    s.add("a".to_string(), vec!["c".to_string()]);
    s.add("b".to_string(), vec!["a".to_string()]);
    s.add("c".to_string(), vec!["b".to_string()]);
    assert_eq!(s.plan(), Err(GraphError::Cycle));
}

#[test]
fn duplicate_stage_names_are_rejected() {
    let mut s = SystemScheduler::new(2);
    s.add("a".to_string(), vec![]);
    s.add("a".to_string(), vec![]);
    assert_eq!(s.plan(), Err(GraphError::DuplicateName));
}

#[test]
fn prerequisites_may_be_registered_later() {
    let mut s = SystemScheduler::new(1);
    s.add("second".to_string(), vec!["first".to_string()]);
    s.add("first".to_string(), vec![]);
    let order = s.plan().expect("forward references resolve");
    assert_eq!(order, vec![1, 0]);
}

#[test]
fn empty_graph_plans_an_empty_order() {
    let s = SystemScheduler::new(8);
    let order = s.plan().expect("an empty graph is acyclic");
    assert!(order.is_empty());
}

#[test]
fn plan_does_not_depend_on_the_pool_size() {
    let narrow = simulation_graph(1).plan().expect("acyclic");
    let medium = simulation_graph(2).plan().expect("acyclic");
    let wide = simulation_graph(8).plan().expect("acyclic");
    assert_eq!(narrow, medium);
    assert_eq!(narrow, wide);
}
