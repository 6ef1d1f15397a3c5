use rustkit_engine::{EngineViewId, ViewIdCounter};

#[test]
fn test_engine_view_id_uniqueness() {
    let mut counter = ViewIdCounter::new();
    let id1 = EngineViewId::new(&mut counter);
    let id2 = EngineViewId::new(&mut counter);
    assert_ne!(id1, id2);
}

#[test]
fn view_ids_start_at_one_and_count_up() {
    let mut counter = ViewIdCounter::new();
    let ids: Vec<u64> = (0..5).map(|_| EngineViewId::new(&mut counter).raw()).collect();
    assert_eq!(ids, vec![1, 2, 3, 4, 5]);
}

#[test]
fn a_run_of_view_ids_has_no_repeats() {
    let mut counter = ViewIdCounter::new();
    let mut seen = std::collections::HashSet::new();
    for _ in 0..1000 {
        assert!(seen.insert(EngineViewId::new(&mut counter)));
    }
}
