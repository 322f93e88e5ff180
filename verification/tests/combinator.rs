use graphics_jobs::input::JobAsBindGroup;
use graphics_jobs::input::JobComputePipeline;
use graphics_jobs::input::JobRenderPipeline;
use graphics_jobs::input::JobRenderPipelineId;
use graphics_jobs::input::PreparedJobBindGroup;
use graphics_jobs::pipeline::PipelineCacheState;
use graphics_jobs::pipeline::PipelineSpecializationCache;
use graphics_jobs::status::combine_statuses;
use graphics_jobs::status::JobInputStatus;

#[test]
fn combine_fail_dominates() {
    assert_eq!(
        JobInputStatus::Fail.combine(JobInputStatus::Ready),
        JobInputStatus::Fail
    );
    assert_eq!(
        JobInputStatus::Ready.combine(JobInputStatus::Fail),
        JobInputStatus::Fail
    );
    assert_eq!(
        JobInputStatus::Wait.combine(JobInputStatus::Fail),
        JobInputStatus::Fail
    );
    assert_eq!(
        JobInputStatus::Fail.combine(JobInputStatus::Fail),
        JobInputStatus::Fail
    );
}

#[test]
fn combine_ready_identity() {
    assert_eq!(
        JobInputStatus::Ready.combine(JobInputStatus::Ready),
        JobInputStatus::Ready
    );
    assert_eq!(
        JobInputStatus::Ready.combine(JobInputStatus::Wait),
        JobInputStatus::Wait
    );
    assert_eq!(
        JobInputStatus::Wait.combine(JobInputStatus::Ready),
        JobInputStatus::Wait
    );
}

#[test]
fn combine_wait_absorbs_ready() {
    assert_eq!(
        JobInputStatus::Wait.combine(JobInputStatus::Wait),
        JobInputStatus::Wait
    );
}

#[test]
fn combine_commutes_on_all_pairs() {
    let all = [
        JobInputStatus::Ready,
        JobInputStatus::Wait,
        JobInputStatus::Fail,
    ];
    for a in all {
        for b in all {
            assert_eq!(a.combine(b), b.combine(a));
            for c in all {
                assert_eq!(a.combine(b).combine(c), a.combine(b.combine(c)));
            }
        }
    }
}

#[test]
fn combine_statuses_empty_is_ready() {
    let v: Vec<JobInputStatus> = Vec::new();
    assert_eq!(combine_statuses(&v), JobInputStatus::Ready);
}

#[test]
fn combine_statuses_mixed() {
    let v = vec![
        JobInputStatus::Ready,
        JobInputStatus::Wait,
        JobInputStatus::Ready,
    ];
    assert_eq!(combine_statuses(&v), JobInputStatus::Wait);
    let v = vec![
        JobInputStatus::Ready,
        JobInputStatus::Wait,
        JobInputStatus::Fail,
    ];
    assert_eq!(combine_statuses(&v), JobInputStatus::Fail);
    let v = vec![JobInputStatus::Ready, JobInputStatus::Ready];
    assert_eq!(combine_statuses(&v), JobInputStatus::Ready);
}

#[test]
fn specialize_is_idempotent() {
    let mut cache = PipelineSpecializationCache::new();
    let e1 = cache.specialize(42);
    let e2 = cache.specialize(42);
    assert_eq!(e1, e2);
    assert_eq!(cache.len(), 1);
    assert_eq!(cache.status(e1), PipelineCacheState::Compiling);
}

#[test]
fn specialize_distinct_keys_get_distinct_entries() {
    let mut cache = PipelineSpecializationCache::new();
    let e1 = cache.specialize(1);
    let e2 = cache.specialize(2);
    assert_ne!(e1, e2);
    assert_eq!(cache.len(), 2);
}

#[test]
fn notify_compiled_moves_entry_to_ready() {
    let mut cache = PipelineSpecializationCache::new();
    let e = cache.specialize(9);
    cache.notify_compiled(e, true, 77);
    assert_eq!(cache.status(e), PipelineCacheState::Ready);
    assert_eq!(cache.pipeline(e), 77);
}

#[test]
fn notify_compile_failure_moves_entry_to_failed() {
    let mut cache = PipelineSpecializationCache::new();
    let e = cache.specialize(9);
    cache.notify_compiled(e, false, 0);
    assert_eq!(cache.status(e), PipelineCacheState::Failed);
}

#[test]
fn bind_group_input_waits_until_prepared() {
    assert_eq!(JobAsBindGroup::status(&None), JobInputStatus::Wait);
    let prepared = Some(PreparedJobBindGroup { bind_group: 3 });
    assert_eq!(JobAsBindGroup::status(&prepared), JobInputStatus::Ready);
    assert_eq!(JobAsBindGroup::get(&prepared).bind_group, 3);
}

#[test]
fn render_pipeline_input_follows_cache_state() {
    let mut cache = PipelineSpecializationCache::new();
    let e = cache.specialize(5);
    assert_eq!(
        JobRenderPipeline::status(&None, &cache),
        JobInputStatus::Wait
    );
    let id = Some(JobRenderPipelineId { entry: e });
    assert_eq!(JobRenderPipeline::status(&id, &cache), JobInputStatus::Wait);
    cache.notify_compiled(e, true, 11);
    assert_eq!(JobRenderPipeline::status(&id, &cache), JobInputStatus::Ready);
    assert_eq!(JobRenderPipeline::get(&id, &cache), 11);
}

#[test]
fn pipeline_keys_carry_through_inputs() {
    let r = JobRenderPipeline { key: 8 };
    let c = JobComputePipeline { key: 9 };
    assert_eq!(r.key, 8);
    assert_eq!(c.key, 9);
}
