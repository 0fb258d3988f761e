use aura_core_bridge::parallel_bounce_orchestrator::{BounceTaskState, DistributedRenderingOrchestrator, PublishError};

#[test]
fn plans_unique_tasks_without_claiming_render_completion() {
    let mut orchestrator = DistributedRenderingOrchestrator::new();
    orchestrator.render_project_stems(vec![3, 3, 7]);

    assert!(orchestrator.audit_parallel_bounce_orchestrator(&[]));
    assert_eq!(orchestrator.active_tasks.len(), 2);
    assert_eq!(orchestrator.take_next_task().unwrap().track_id, 7);
    assert!(!orchestrator.complete_task(3));
    assert_eq!(orchestrator.completed_count(), 0);
    let task = orchestrator.take_next_task().unwrap();
    assert_eq!(task.track_id, 3);
    assert!(orchestrator.complete_task(task.track_id));
    assert_eq!(orchestrator.completed_count(), 1);
    assert!(orchestrator.audit_parallel_bounce_orchestrator(&[]));
}

#[test]
fn empty_plan_resets_pending_work_and_advances_generation() {
    let mut orchestrator = DistributedRenderingOrchestrator::new();
    orchestrator.render_project_stems(vec![4, 5]);
    let first_generation = orchestrator.generation();
    assert_eq!(orchestrator.pending_count(), 2);

    orchestrator.render_project_stems(Vec::new());
    assert!(orchestrator.generation() > first_generation);
    assert_eq!(orchestrator.pending_count(), 0);
    assert_eq!(orchestrator.completed_count(), 0);
    assert!(orchestrator.statuses().is_empty());
}

#[test]
fn stale_render_completion_cannot_publish_after_new_generation() {
    let mut orchestrator = DistributedRenderingOrchestrator::new();
    orchestrator.render_project_stems(vec![21]);
    let stale = orchestrator.take_next_task().unwrap();
    orchestrator.render_project_stems(vec![21]);
    let current = orchestrator.take_next_task().unwrap();

    assert_ne!(stale.generation, current.generation);
    assert!(!orchestrator.complete_task_for_generation(21, stale.generation));
    assert!(orchestrator.complete_task_for_generation(21, current.generation));
}

#[test]
fn cancelled_render_rejects_late_completion() {
    let mut orchestrator = DistributedRenderingOrchestrator::new();
    orchestrator.render_project_stems(vec![22]);
    let task = orchestrator.take_next_task().unwrap();
    orchestrator.cancel_render();

    assert!(!orchestrator.complete_task_for_generation(22, task.generation));
    assert_eq!(orchestrator.completed_count(), 0);
    assert_eq!(orchestrator.pending_count(), 0);
}

#[test]
fn retry_after_cancel_starts_a_new_publishable_generation() {
    let mut orchestrator = DistributedRenderingOrchestrator::new();
    orchestrator.render_project_stems(vec![23]);
    let first_generation = orchestrator.generation();
    let task = orchestrator.take_next_task().unwrap();
    assert!(orchestrator.fail_task(task.track_id, "temporary worker failure"));
    orchestrator.cancel_render();
    assert!(orchestrator.retry_failed_task(23));
    assert_ne!(first_generation, orchestrator.generation());
    let retry = orchestrator.take_next_task().unwrap();
    assert!(orchestrator.complete_task_for_generation(23, retry.generation));
}

#[test]
fn planned_tasks_are_named_after_their_tracks() {
    let mut orchestrator = DistributedRenderingOrchestrator::default();
    orchestrator.render_project_stems(vec![12, 4, 12]);
    assert_eq!(orchestrator.generation(), 1);
    let names: Vec<&str> = orchestrator.active_tasks.iter().map(|t| t.name.as_str()).collect();
    assert_eq!(names, vec!["Track_12", "Track_4"]);
    let statuses = orchestrator.statuses();
    assert_eq!(statuses.len(), 2);
    assert_eq!(statuses[0].state, BounceTaskState::Queued);
}

#[test]
fn failure_records_the_message_and_blocks_the_audit() {
    let mut orchestrator = DistributedRenderingOrchestrator::new();
    orchestrator.render_project_stems(vec![8]);
    assert!(!orchestrator.fail_task(8, "not yet in flight"));
    orchestrator.take_next_task();
    assert!(orchestrator.fail_task(8, "worker crashed"));
    assert_eq!(orchestrator.last_error(), Some("worker crashed"));
    assert!(!orchestrator.audit_parallel_bounce_orchestrator(&[]));
    let statuses = orchestrator.statuses();
    assert_eq!(statuses[0].state, BounceTaskState::Failed);
    assert_eq!(statuses[0].error.as_deref(), Some("worker crashed"));
    assert!(!orchestrator.retry_failed_task(9));
    assert!(orchestrator.retry_failed_task(8));
    assert_eq!(orchestrator.last_error(), None);
    assert_eq!(orchestrator.active_tasks[0].track_id, 8);
}

#[test]
fn publication_checks_generation_and_path() {
    let mut orchestrator = DistributedRenderingOrchestrator::new();
    orchestrator.render_project_stems(vec![11, 13]);
    let first = orchestrator.take_next_task().unwrap();
    let second = orchestrator.take_next_task().unwrap();
    let g = orchestrator.generation();
    assert_eq!(orchestrator.check_output_for_generation(first.track_id, g + 1, "a.wav"), Err(PublishError::InvalidTask));
    assert_eq!(orchestrator.check_output_for_generation(first.track_id, g, "a.wav"), Ok(()));
    assert_eq!(orchestrator.publish_output_for_generation(first.track_id, g, "a.wav", Ok(())), Ok(()));
    assert_eq!(orchestrator.completed_output_path(13), Some("a.wav"));
    assert_eq!(orchestrator.check_output_for_generation(second.track_id, g, "a.wav"), Err(PublishError::InvalidPath));
    assert_eq!(orchestrator.statuses().last().unwrap().state, BounceTaskState::Failed);
    assert!(orchestrator.audit_parallel_bounce_orchestrator(&[true]) == false);
}

#[test]
fn write_errors_fail_the_task() {
    let mut orchestrator = DistributedRenderingOrchestrator::new();
    orchestrator.render_project_stems(vec![2]);
    let task = orchestrator.take_next_task().unwrap();
    let g = task.generation;
    assert_eq!(
        orchestrator.publish_output_for_generation(2, g, "b.wav", Err("disk full".into())),
        Err(PublishError::Write("disk full".into()))
    );
    assert_eq!(orchestrator.last_error(), Some("disk full"));
    assert_eq!(orchestrator.completed_count(), 0);
    assert_eq!(orchestrator.completed_output_path(2), None);
}
