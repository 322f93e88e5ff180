use graphics_jobs::input::JobComputePipeline;
use graphics_jobs::input::JobInputDecl;
use graphics_jobs::input::JobRenderPipeline;
use graphics_jobs::input::PreparedJobBindGroup;
use graphics_jobs::pipeline::PipelineCacheState;
use graphics_jobs::scheduler::GraphicsJobSet;
use graphics_jobs::scheduler::JobError;
use graphics_jobs::scheduler::JobExecutionSettings;
use graphics_jobs::scheduler::JobId;
use graphics_jobs::scheduler::JobScheduler;
use graphics_jobs::scheduler::JobStatus;
use graphics_jobs::status::JobInputStatus;

fn settings(budget: u32, stall: u32) -> JobExecutionSettings {
    JobExecutionSettings {
        max_jobs_per_frame: budget,
        max_job_stall_frames: stall,
    }
}

#[test]
fn job_handles_are_stable_and_raw() {
    let h = JobId::new_unchecked(12);
    assert_eq!(h.id(), 12);
    assert_eq!(h, JobId(12));
}

#[test]
fn job_without_dependencies_starts_waiting() {
    let mut s = JobScheduler::new(settings(4, 8));
    let a = s.add_job(Vec::new(), 1, Vec::new());
    assert_eq!(s.job_status(a), Some(JobStatus::Waiting));
}

#[test]
fn job_with_dependencies_starts_blocked() {
    let mut s = JobScheduler::new(settings(4, 8));
    let a = s.add_job(Vec::new(), 1, Vec::new());
    let b = s.add_job(vec![a], 1, Vec::new());
    assert_eq!(s.job_status(b), Some(JobStatus::Blocked));
}

#[test]
fn dependents_raise_computed_priority() {
    let mut s = JobScheduler::new(settings(4, 8));
    let a = s.add_job(Vec::new(), 5, Vec::new());
    assert_eq!(s.job_computed_priority(a), Some(5));
    let _b = s.add_job(vec![a], 1, Vec::new());
    let _c = s.add_job(vec![a], 1, Vec::new());
    assert_eq!(s.job_computed_priority(a), Some(7));
}

#[test]
fn ready_job_executes_in_its_first_tick() {
    let mut s = JobScheduler::new(settings(1, 8));
    let a = s.add_job(Vec::new(), 1, vec![JobInputDecl::DirectValue]);
    let selected = s.begin_tick();
    assert_eq!(selected, vec![a]);
    assert_eq!(s.job_status(a), Some(JobStatus::Ready));
    s.complete_tick(&vec![Ok(())]);
    assert_eq!(s.job_status(a), None);
}

#[test]
fn phase_tracks_the_tick_halves() {
    let mut s = JobScheduler::new(settings(1, 8));
    let _a = s.add_job(Vec::new(), 1, Vec::new());
    assert_eq!(s.phase(), GraphicsJobSet::Check);
    let selected = s.begin_tick();
    assert_eq!(selected.len(), 1);
    assert_eq!(s.phase(), GraphicsJobSet::Execute);
    s.complete_tick(&vec![Ok(())]);
    assert_eq!(s.phase(), GraphicsJobSet::Check);
}

#[test]
fn execution_budget_caps_a_tick_and_excess_stays_ready() {
    let mut s = JobScheduler::new(settings(1, 8));
    let a = s.add_job(Vec::new(), 10, Vec::new());
    let b = s.add_job(Vec::new(), 5, Vec::new());
    let selected = s.begin_tick();
    assert_eq!(selected.len(), 1);
    s.complete_tick(&vec![Ok(())]);
    assert_eq!(s.job_status(a), None);
    assert_eq!(s.job_status(b), Some(JobStatus::Ready));
    let selected = s.begin_tick();
    assert_eq!(selected, vec![b]);
    s.complete_tick(&vec![Ok(())]);
    assert_eq!(s.job_count(), 0);
}

#[test]
fn higher_priority_executes_first() {
    let mut s = JobScheduler::new(settings(1, 8));
    let five = s.add_job(Vec::new(), 5, Vec::new());
    let ten = s.add_job(Vec::new(), 10, Vec::new());
    let selected = s.begin_tick();
    assert_eq!(selected, vec![ten]);
    assert_eq!(s.job_status(five), Some(JobStatus::Ready));
    s.complete_tick(&vec![Ok(())]);
}

#[test]
fn priority_ties_break_by_admission_order() {
    let mut s = JobScheduler::new(settings(3, 8));
    let a = s.add_job(Vec::new(), 5, Vec::new());
    let b = s.add_job(Vec::new(), 5, Vec::new());
    let c = s.add_job(Vec::new(), 9, Vec::new());
    let selected = s.begin_tick();
    assert_eq!(selected, vec![c, a, b]);
    s.complete_tick(&vec![Ok(()), Ok(()), Ok(())]);
}

#[test]
fn zero_budget_executes_nothing() {
    let mut s = JobScheduler::new(settings(0, 8));
    let a = s.add_job(Vec::new(), 5, Vec::new());
    let selected = s.begin_tick();
    assert!(selected.is_empty());
    s.complete_tick(&Vec::new());
    assert_eq!(s.job_status(a), Some(JobStatus::Ready));
}

#[test]
fn dependency_gates_its_dependent() {
    let mut s = JobScheduler::new(settings(2, 8));
    let a = s.add_job(Vec::new(), 1, Vec::new());
    let b = s.add_job(vec![a], 1, Vec::new());
    let selected = s.begin_tick();
    assert_eq!(selected, vec![a]);
    assert_eq!(s.job_status(b), Some(JobStatus::Blocked));
    s.complete_tick(&vec![Ok(())]);
    assert_eq!(s.job_status(a), None);
    assert_eq!(s.job_status(b), Some(JobStatus::Blocked));
    let selected = s.begin_tick();
    assert_eq!(selected, vec![b]);
    s.complete_tick(&vec![Ok(())]);
    assert_eq!(s.job_count(), 0);
}

#[test]
fn failed_run_fails_dependents_without_reaching_waiting() {
    let mut s = JobScheduler::new(settings(2, 8));
    let a = s.add_job(Vec::new(), 1, Vec::new());
    let b = s.add_job(vec![a], 1, Vec::new());
    let selected = s.begin_tick();
    assert_eq!(selected, vec![a]);
    s.complete_tick(&vec![Err(JobError)]);
    assert_eq!(s.job_status(a), None);
    assert_eq!(s.job_status(b), Some(JobStatus::Done));
    assert_eq!(s.job_failed(b), Some(true));
    let selected = s.begin_tick();
    assert!(selected.is_empty());
    s.complete_tick(&Vec::new());
    assert_eq!(s.job_status(b), None);
}

#[test]
fn failed_input_fails_dependents_transitively() {
    let mut s = JobScheduler::new(settings(2, 8));
    let a = s.add_job(
        Vec::new(),
        1,
        vec![JobInputDecl::Custom(JobInputStatus::Fail)],
    );
    let b = s.add_job(vec![a], 1, Vec::new());
    let c = s.add_job(vec![b], 1, Vec::new());
    let selected = s.begin_tick();
    assert!(selected.is_empty());
    assert_eq!(s.job_status(a), Some(JobStatus::Done));
    assert_eq!(s.job_failed(a), Some(true));
    s.complete_tick(&Vec::new());
    assert_eq!(s.job_status(a), None);
    assert_eq!(s.job_failed(b), Some(true));
    let selected = s.begin_tick();
    assert!(selected.is_empty());
    s.complete_tick(&Vec::new());
    assert_eq!(s.job_status(b), None);
    assert_eq!(s.job_failed(c), Some(true));
}

#[test]
fn stalled_job_fails_after_the_stall_budget() {
    let mut s = JobScheduler::new(settings(1, 2));
    let a = s.add_job(
        Vec::new(),
        1,
        vec![JobInputDecl::Custom(JobInputStatus::Wait)],
    );
    let selected = s.begin_tick();
    assert!(selected.is_empty());
    assert_eq!(s.job_status(a), Some(JobStatus::Waiting));
    assert_eq!(s.job_stall_frames(a), Some(1));
    s.complete_tick(&Vec::new());
    let selected = s.begin_tick();
    assert!(selected.is_empty());
    assert_eq!(s.job_stall_frames(a), Some(2));
    s.complete_tick(&Vec::new());
    let selected = s.begin_tick();
    assert!(selected.is_empty());
    assert_eq!(s.job_status(a), Some(JobStatus::Done));
    assert_eq!(s.job_failed(a), Some(true));
    s.complete_tick(&Vec::new());
    assert_eq!(s.job_status(a), None);
}

#[test]
fn custom_input_report_can_release_a_waiting_job() {
    let mut s = JobScheduler::new(settings(1, 8));
    let a = s.add_job(
        Vec::new(),
        1,
        vec![JobInputDecl::Custom(JobInputStatus::Wait)],
    );
    let selected = s.begin_tick();
    assert!(selected.is_empty());
    s.complete_tick(&Vec::new());
    s.set_custom_input_status(a, 0, JobInputStatus::Ready);
    let selected = s.begin_tick();
    assert_eq!(selected, vec![a]);
    s.complete_tick(&vec![Ok(())]);
}

#[test]
fn bind_group_input_waits_for_the_host_preparation() {
    let mut s = JobScheduler::new(settings(1, 8));
    let a = s.add_job(Vec::new(), 1, vec![JobInputDecl::AsBindGroup]);
    let selected = s.begin_tick();
    assert!(selected.is_empty());
    assert_eq!(s.job_status(a), Some(JobStatus::Waiting));
    s.complete_tick(&Vec::new());
    s.notify_bind_group_prepared(a, PreparedJobBindGroup { bind_group: 4 });
    let selected = s.begin_tick();
    assert_eq!(selected, vec![a]);
    s.complete_tick(&vec![Ok(())]);
}

#[test]
fn one_compile_request_for_a_shared_pipeline_key() {
    let mut s = JobScheduler::new(settings(2, 8));
    let a = s.add_job(
        Vec::new(),
        1,
        vec![JobInputDecl::RenderPipeline(JobRenderPipeline { key: 42 })],
    );
    let b = s.add_job(
        Vec::new(),
        1,
        vec![JobInputDecl::RenderPipeline(JobRenderPipeline { key: 42 })],
    );
    assert_eq!(s.render_pipeline_cache().len(), 1);
    let selected = s.begin_tick();
    assert!(selected.is_empty());
    s.complete_tick(&Vec::new());
    s.notify_render_pipeline_compiled(0, true, 31);
    assert_eq!(s.render_pipeline_cache().status(0), PipelineCacheState::Ready);
    let selected = s.begin_tick();
    assert_eq!(selected, vec![a, b]);
    s.complete_tick(&vec![Ok(()), Ok(())]);
    assert_eq!(s.job_count(), 0);
}

#[test]
fn compute_pipeline_compile_failure_keeps_the_job_waiting() {
    let mut s = JobScheduler::new(settings(1, 3));
    let a = s.add_job(
        Vec::new(),
        1,
        vec![JobInputDecl::ComputePipeline(JobComputePipeline { key: 3 })],
    );
    assert_eq!(s.compute_pipeline_cache().len(), 1);
    s.notify_compute_pipeline_compiled(0, false, 0);
    let selected = s.begin_tick();
    assert!(selected.is_empty());
    assert_eq!(s.job_status(a), Some(JobStatus::Waiting));
    s.complete_tick(&Vec::new());
}

#[test]
fn pipeline_families_memoize_independently() {
    let mut s = JobScheduler::new(settings(2, 8));
    let _a = s.add_job(
        Vec::new(),
        1,
        vec![
            JobInputDecl::RenderPipeline(JobRenderPipeline { key: 7 }),
            JobInputDecl::ComputePipeline(JobComputePipeline { key: 7 }),
        ],
    );
    assert_eq!(s.render_pipeline_cache().len(), 1);
    assert_eq!(s.compute_pipeline_cache().len(), 1);
}

#[test]
fn mixed_inputs_become_ready_only_when_all_are() {
    let mut s = JobScheduler::new(settings(1, 8));
    let a = s.add_job(
        Vec::new(),
        1,
        vec![
            JobInputDecl::DirectValue,
            JobInputDecl::OptionalValue,
            JobInputDecl::JobHandle,
            JobInputDecl::AsBindGroup,
            JobInputDecl::RenderPipeline(JobRenderPipeline { key: 1 }),
            JobInputDecl::Custom(JobInputStatus::Wait),
        ],
    );
    let selected = s.begin_tick();
    assert!(selected.is_empty());
    s.complete_tick(&Vec::new());
    s.notify_bind_group_prepared(a, PreparedJobBindGroup { bind_group: 1 });
    s.notify_render_pipeline_compiled(0, true, 2);
    let selected = s.begin_tick();
    assert!(selected.is_empty());
    assert_eq!(s.job_status(a), Some(JobStatus::Waiting));
    s.complete_tick(&Vec::new());
    s.set_custom_input_status(a, 5, JobInputStatus::Ready);
    let selected = s.begin_tick();
    assert_eq!(selected, vec![a]);
    s.complete_tick(&vec![Ok(())]);
    assert_eq!(s.job_count(), 0);
}

#[test]
fn settings_are_fixed_at_construction() {
    let s = JobScheduler::new(settings(3, 7));
    let got = s.execution_settings();
    assert_eq!(got.max_jobs_per_frame, 3);
    assert_eq!(got.max_job_stall_frames, 7);
    assert_eq!(s.job_count(), 0);
}
