use aura_core_bridge::offline::{render_file_name, safe_filename, BatchPublication, OfflineOrchestrator, RenderError};

fn orchestrator() -> OfflineOrchestrator {
    let mut o = OfflineOrchestrator::new();
    o.submit_job(7, "Lead Vocal!", vec!["normalize".into()]);
    o.submit_job(12, "Bass", vec!["gain".into()]);
    o
}

#[test]
fn render_files_are_named_by_padded_id_and_safe_region() {
    assert_eq!(render_file_name(7, "Lead Vocal!"), "0007_Lead_Vocal.wav");
    assert_eq!(render_file_name(12345, "a/b.c"), "12345_ab.c.wav");
    assert_eq!(render_file_name(3, "!!!"), "0003_region.wav");
    assert_eq!(safe_filename(&"x".repeat(100)), "x".repeat(80));
    assert_eq!(safe_filename("tab\there"), "tab_here");
    assert_eq!(safe_filename("é"), "region");
}

#[test]
fn completions_publish_only_for_the_current_generation() {
    let mut o = orchestrator();
    let g = o.begin_render_generation();
    assert_eq!(o.check_completion_for_generation(g + 1, 7, "/out/a.wav"), Err(RenderError::InvalidTask));
    assert_eq!(o.check_completion_for_generation(g, 99, "/out/a.wav"), Err(RenderError::InvalidTask));
    assert_eq!(o.check_completion_for_generation(g, 7, "/out/a.wav"), Ok(()));
    assert_eq!(o.publish_completion(7, "/out/a.wav", Ok(())), Ok(()));
    assert_eq!(o.completed_output(7), Some("/out/a.wav"));
    assert!(o.last_error.is_none());
    assert_eq!(o.check_completion_for_generation(g, 7, "/out/b.wav"), Err(RenderError::InvalidTask));
    assert_eq!(o.check_completion_for_generation(g, 12, "/out/a.wav"), Err(RenderError::InvalidTask));
    let cancelled = o.cancel_render_generation();
    assert_ne!(cancelled, g);
    assert_eq!(o.check_completion_for_generation(g, 12, "/out/b.wav"), Err(RenderError::InvalidTask));
}

#[test]
fn failed_writes_keep_the_writer_message() {
    let mut o = orchestrator();
    assert_eq!(
        o.publish_completion(12, "/out/b.wav", Err("disk full".into())),
        Err(RenderError::Write("disk full".into()))
    );
    assert_eq!(o.last_error.as_deref(), Some("offline job 12 failed: disk full"));
    assert_eq!(o.completed_output(12), None);
    o.record_render_failure(7, "renderer crashed");
    assert_eq!(o.last_error.as_deref(), Some("offline job 7 failed: renderer crashed"));
    o.record_empty_render(7);
    assert_eq!(o.last_error.as_deref(), Some("offline job 7 returned an empty buffer"));
}

#[test]
fn batches_are_checked_whole_before_writing() {
    let mut o = orchestrator();
    assert_eq!(o.check_render_batch(&[(7, false)], 0, 2), Err(RenderError::InvalidSampleRate));
    assert_eq!(o.check_render_batch(&[(7, false)], 48_000, 0), Err(RenderError::InvalidChannelCount));
    assert_eq!(o.check_render_batch(&[(7, false)], 384_001, 33), Err(RenderError::InvalidSampleRate));
    assert_eq!(o.check_render_batch(&[(7, false), (12, false)], 48_000, 2), Ok(()));
    assert_eq!(o.check_render_batch(&[(7, false), (7, false)], 48_000, 2), Err(RenderError::InvalidTask));
    assert_eq!(o.check_render_batch(&[(99, false)], 48_000, 2), Err(RenderError::InvalidTask));
    assert_eq!(o.check_render_batch(&[(7, true), (99, false)], 48_000, 2), Err(RenderError::EmptyBuffer));
    assert_eq!(o.check_renderer_batch(48_000, 2), Ok(()));
    assert_eq!(OfflineOrchestrator::new().check_renderer_batch(48_000, 2), Err(RenderError::InvalidTask));
    let g = o.begin_render_generation();
    o.check_completion_for_generation(g, 7, "/out/a.wav").unwrap();
    o.publish_completion(7, "/out/a.wav", Ok(())).unwrap();
    assert_eq!(o.check_render_batch(&[(7, false)], 48_000, 2), Err(RenderError::InvalidTask));
}

#[test]
fn a_failed_batch_withdraws_what_it_published() {
    let mut o = orchestrator();
    let g = o.begin_render_generation();
    o.publish_completion(7, "/out/a.wav", Ok(())).unwrap();
    o.check_completion_for_generation(g, 12, "/out/b.wav").unwrap();
    o.publish_completion(12, "/out/b.wav", Ok(())).unwrap();
    o.withdraw_outputs(&["/out/b.wav".to_owned()]);
    assert_eq!(o.completed_output(7), Some("/out/a.wav"));
    assert_eq!(o.completed_output(12), None);
}

#[test]
fn batch_files_are_named_after_the_job_region() {
    let o = orchestrator();
    assert_eq!(o.render_file_for(7), Some("0007_Lead_Vocal.wav".to_string()));
    assert_eq!(o.render_file_for(12), Some("0012_Bass.wav".to_string()));
    assert_eq!(o.render_file_for(99), None);
}

#[test]
fn a_failed_write_rolls_the_batch_back() {
    let mut o = orchestrator();
    let g = o.begin_render_generation();
    let mut batch = BatchPublication::new();
    assert_eq!(o.check_completion_for_generation(g, 7, "/out/a.wav"), Ok(()));
    assert_eq!(o.publish_completion(7, "/out/a.wav", Ok(())), Ok(()));
    assert_eq!(batch.record(&mut o, Ok("/out/a.wav".to_string())), Ok(()));
    assert_eq!(batch.count(), 1);
    assert_eq!(o.completed_output(7), Some("/out/a.wav"));
    assert_eq!(batch.record(&mut o, Err(RenderError::EmptyBuffer)), Err(RenderError::EmptyBuffer));
    assert_eq!(batch.published, vec!["/out/a.wav".to_string()]);
    assert_eq!(o.completed_output(7), None);
}
