use hivemind::resources::{
    ChangeOccupationStatusError, ComputeNode, Occupation, OccupationStatus, RegisterNodeError,
    RegisterTaskError, ResourceManager, Task, TaskEndedError, TaskStatus,
};

#[test]
fn resource_promotion() {
    let mut rm = ResourceManager::new();
    rm.register_node(ComputeNode::new("n", 1, 100, 4)).unwrap();
    let first = Occupation::new(9, 1, 1, 2, 40);
    let second = Occupation::new(9, 2, 1, 2, 80);
    let running = rm.register_task(Task::new(9, "t", vec![1, 2]), vec![first, second]).unwrap();
    assert_eq!(running.len(), 1);
    assert_eq!(running[0].stage_id, 1);
    assert_eq!(running[0].status, OccupationStatus::Running);
    let node = rm.node(1).unwrap();
    assert_eq!(node.occupation(2).unwrap().status, OccupationStatus::Scheduled);
    assert_eq!(node.memory_remains(), 60);
    assert_eq!(node.processors_remains(), 2);
    assert_eq!(rm.try_acquire_node_resource(9, 2, 1), Ok(false));
    assert_eq!(rm.release_occupation(9, 1, 1), Ok(true));
    assert_eq!(rm.node(1).unwrap().memory_remains(), 100);
    assert_eq!(rm.try_acquire_node_resource(9, 2, 1), Ok(true));
    let node = rm.node(1).unwrap();
    assert_eq!(node.memory_remains(), 20);
    assert_eq!(node.processors_remains(), 2);
    assert_eq!(node.occupation(2).unwrap().status, OccupationStatus::Running);
    assert_eq!(node.occupation(1).unwrap().status, OccupationStatus::Released);
}

#[test]
fn register_errors() {
    let mut rm = ResourceManager::new();
    rm.register_node(ComputeNode::new("a", 1, 10, 1)).unwrap();
    assert_eq!(rm.register_node(ComputeNode::new("b", 1, 10, 1)), Err(RegisterNodeError::NodeAlreadyExisted));
    let mut running = Occupation::new(1, 1, 1, 1, 1);
    running.status = OccupationStatus::Running;
    assert_eq!(rm.register_task(Task::new(1, "t", vec![]), vec![running]).unwrap_err(), RegisterTaskError::OccupationStatusNotScheduled);
    assert_eq!(
        rm.register_task(Task::new(1, "t", vec![]), vec![Occupation::new(1, 1, 1, 1, 1), Occupation::new(1, 2, 7, 1, 1)]).unwrap_err(),
        RegisterTaskError::NodeIdNotFound(7)
    );
    // nothing was placed by the failed requests
    assert_eq!(rm.node(1).unwrap().memory_remains(), 10);
    assert!(rm.node(1).unwrap().occupations().is_empty());
    assert!(rm.tasks().is_empty());
    assert_eq!(
        rm.register_task(Task::new(1, "t", vec![]), vec![Occupation::new(1, 1, 1, 1, 1), Occupation::new(1, 1, 1, 1, 1)]).unwrap_err(),
        RegisterTaskError::StageOccupied(1)
    );
    rm.register_task(Task::new(1, "t", vec![]), vec![Occupation::new(1, 1, 1, 1, 1)]).unwrap();
    assert_eq!(
        rm.register_task(Task::new(2, "u", vec![]), vec![Occupation::new(2, 1, 1, 1, 1)]).unwrap_err(),
        RegisterTaskError::StageOccupied(1)
    );
    assert_eq!(rm.try_acquire_node_resource(1, 5, 1), Err(ChangeOccupationStatusError::CannotFindOccupation));
    assert_eq!(rm.try_acquire_node_resource(1, 1, 4), Err(ChangeOccupationStatusError::CannotFindOccupation));
    assert_eq!(rm.try_acquire_node_resource(2, 1, 1), Err(ChangeOccupationStatusError::OccupationTaskNotMatch));
    assert_eq!(rm.release_occupation(2, 1, 1), Err(ChangeOccupationStatusError::OccupationTaskNotMatch));
    assert_eq!(rm.try_acquire_node_resource(1, 1, 1), Ok(false));
    assert_eq!(rm.release_occupation(1, 1, 1), Ok(true));
    assert_eq!(rm.release_occupation(1, 1, 1), Ok(false));
}

#[test]
fn task_records() {
    let mut rm = ResourceManager::new();
    rm.register_node(ComputeNode::new("a", 1, 10, 4)).unwrap();
    rm.register_node(ComputeNode::new("b", 2, 10, 4)).unwrap();
    let occs = vec![Occupation::new(3, 1, 1, 1, 1), Occupation::new(3, 2, 1, 1, 1), Occupation::new(3, 3, 2, 1, 1), Occupation::new(3, 4, 1, 1, 1)];
    rm.register_task(Task::new(3, "job", vec![1, 2, 3, 4]), occs).unwrap();
    assert_eq!(rm.tasks()[0].nodes(), &vec![1, 2, 1]);
    assert_eq!(rm.tasks()[0].status(), None);
    assert_eq!(rm.task_ended(3, TaskStatus::Succeed), Ok(()));
    assert_eq!(rm.tasks()[0].status(), Some(TaskStatus::Succeed));
    assert_eq!(rm.task_ended(4, TaskStatus::Failed), Err(TaskEndedError::TaskNotFound(4)));
    assert!(rm.mark_member(2, false));
    assert!(!rm.node(2).unwrap().online());
    assert!(!rm.mark_member(9, false));
    rm.deregister_node(2);
    assert!(rm.node(2).is_none());
    assert_eq!(rm.compute_nodes().len(), 1);
}

#[test]
fn conservation_over_commands() {
    let mut rm = ResourceManager::new();
    rm.register_node(ComputeNode::new("a", 1, 50, 3)).unwrap();
    let occs: Vec<Occupation> = (0..6).map(|s| Occupation::new(1, s, 1, 1, 10)).collect();
    rm.register_task(Task::new(1, "t", vec![]), occs).unwrap();
    for round in 0..4u64 {
        for s in 0..6u64 {
            if (s + round) % 2 == 0 {
                rm.release_occupation(1, s, 1).unwrap();
            } else {
                rm.try_acquire_node_resource(1, s, 1).unwrap();
            }
            let n = rm.node(1).unwrap();
            let running: Vec<&Occupation> = n.occupations().iter().filter(|o| o.status == OccupationStatus::Running).collect();
            let workers: u32 = running.iter().map(|o| o.workers).sum();
            let memory: u64 = running.iter().map(|o| o.memory).sum();
            assert_eq!(n.processors_remains() + workers, n.processors());
            assert_eq!(n.memory_remains() + memory, n.memory());
        }
    }
}

#[test]
fn can_afford() {
    assert!(hivemind::resources::can_afford_occupation(10, 10, 2, 2));
    assert!(!hivemind::resources::can_afford_occupation(9, 10, 2, 2));
    assert!(!hivemind::resources::can_afford_occupation(10, 10, 1, 2));
}

#[test]
fn released_occupations_announce_resources() {
    let mut o = Occupation::new(1, 1, 1, 1, 1);
    assert!(!hivemind::resources::notifies_resource_available(&o));
    o.status = OccupationStatus::Released;
    assert!(hivemind::resources::notifies_resource_available(&o));
}

#[test]
fn rebuild_from_parts() {
    let mut rm = ResourceManager::new();
    rm.register_node(ComputeNode::new("a", 1, 100, 4)).unwrap();
    rm.register_task(Task::new(9, "t", vec![1]), vec![Occupation::new(9, 1, 1, 2, 40)]).unwrap();
    let n = rm.node(1).unwrap();
    let copy = ComputeNode::from_parts(
        n.address().clone(), 1, n.memory(), n.memory_remains(), n.processors(), n.processors_remains(), n.online(), n.occupations().clone(),
    )
    .unwrap();
    assert_eq!(copy.memory_remains(), 60);
    // free counters that do not match the running occupations are refused
    assert!(ComputeNode::from_parts("a".to_owned(), 1, 100, 100, 4, 2, true, n.occupations().clone()).is_none());
    let t = &rm.tasks()[0];
    let task = Task::from_parts(t.id(), t.name().clone(), t.status(), t.stages().clone(), t.nodes().clone());
    let other = ComputeNode::new("b", 1, 10, 1);
    assert!(ResourceManager::from_parts(vec![copy, other], vec![]).is_none());
    let copy = ComputeNode::new("a", 1, 100, 4);
    let rebuilt = ResourceManager::from_parts(vec![copy], vec![task]).unwrap();
    assert_eq!(rebuilt.tasks()[0].nodes(), &vec![1]);
}
