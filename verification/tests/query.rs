use scene_graph::handle::Handle;
use scene_graph::query::{Query, QueryCommand, QueryState};

#[test]
fn a_new_query_knows_no_answer() {
    let query = Query::new(Handle::new(4, 1), 17);
    assert_eq!(query.node(), Handle::new(4, 1));
    assert_eq!(query.id(), 17);
    assert_eq!(query.state(), QueryState::Created);
    assert!(!query.was_occluded());
}

#[test]
fn a_query_runs_through_its_life_cycle() {
    let mut query = Query::new(Handle::new(4, 1), 17);
    assert_eq!(query.begin(), QueryCommand::Begin { id: 17 });
    assert_eq!(query.state(), QueryState::Began);
    assert_eq!(query.end(), QueryCommand::End);
    assert_eq!(query.state(), QueryState::Ended);
    assert!(query.update_occlusion_result(Some(0)));
    assert_eq!(query.state(), QueryState::ResultAvailable);
    assert!(query.was_occluded());
}

#[test]
fn any_passed_sample_means_not_hidden() {
    for samples in [1u32, 2, 1000, u32::MAX] {
        let mut query = Query::new(Handle::new(1, 1), 1);
        query.begin();
        query.end();
        assert!(!query.update_occlusion_result(Some(samples)));
        assert!(!query.was_occluded());
    }
}

#[test]
fn while_the_device_is_not_ready_the_last_answer_stands() {
    let mut query = Query::new(Handle::new(1, 1), 1);
    query.begin();
    query.end();
    assert!(!query.update_occlusion_result(None));
    assert_eq!(query.state(), QueryState::Ended);
    assert!(query.update_occlusion_result(Some(0)));
    query.begin();
    assert!(query.was_occluded());
    query.end();
    assert!(query.update_occlusion_result(None));
    assert_eq!(query.state(), QueryState::Ended);
    assert!(!query.update_occlusion_result(Some(3)));
    assert!(!query.was_occluded());
    assert_eq!(query.state(), QueryState::ResultAvailable);
}
