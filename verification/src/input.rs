//! Typed job inputs: each kind reports whether it is ready and, once ready,
//! which value the job consumes.
//!
//! Values that only the GPU side can produce (bind groups, compiled
//! pipelines) appear here as plain handles: the host creates the real
//! objects and hands their identifiers to the scheduler, which owns every
//! readiness decision about them.

use vstd::prelude::*;

use crate::pipeline::PipelineCacheEntry;
use crate::pipeline::PipelineCacheState;
use crate::pipeline::PipelineSpecializationCache;
use crate::status::JobInputStatus;

verus! {

/// A bind group prepared for one job, cached on the job once the host's
/// best-effort preparation succeeds. A later preparation replaces it
/// (change-triggered invalidation).
#[derive(Copy, Clone, PartialEq, Eq, Structural, Debug)]
pub struct PreparedJobBindGroup {
    /// The host's handle to the prepared GPU binding.
    pub bind_group: u64,
}

/// An input that binds the job's own declared resources as a bind group.
pub struct JobAsBindGroup;

impl JobAsBindGroup {
    /// The readiness policy of a bind-group input: `Wait` until a prepared
    /// bind group is cached for the job, then `Ready`. Preparation failures
    /// are not surfaced as `Fail`: they are retried each tick, bounded by
    /// the scheduler's stall timeout.
    pub open spec fn spec_status(prepared: Option<PreparedJobBindGroup>) -> JobInputStatus {
        match prepared {
            Some(_) => JobInputStatus::Ready,
            None => JobInputStatus::Wait,
        }
    }

    /// The status of a bind-group input given the job's cached entry.
    pub fn status(prepared: &Option<PreparedJobBindGroup>) -> (r: JobInputStatus)
        ensures
            r == JobAsBindGroup::spec_status(*prepared),
    {
        match prepared {
            Some(_) => JobInputStatus::Ready,
            None => JobInputStatus::Wait,
        }
    }

    /// The value a ready bind-group input produces. Calling this before the
    /// input is ready is a programming error, so it is ruled out here.
    pub fn get(prepared: &Option<PreparedJobBindGroup>) -> (r: PreparedJobBindGroup)
        requires
            JobAsBindGroup::spec_status(*prepared) == JobInputStatus::Ready,
        ensures
            Some(r) == *prepared,
    {
        match prepared {
            Some(b) => *b,
            None => unreached(),
        }
    }
}

/// The identifier of the specialization-cache entry set up for a job's
/// render-pipeline input.
#[derive(Copy, Clone, PartialEq, Eq, Structural, Debug)]
pub struct JobRenderPipelineId {
    /// The entry in the render-pipeline family's specialization cache.
    pub entry: usize,
}

/// An input that sets up a specialized render pipeline for a job, declared
/// by its specialization key.
#[derive(Copy, Clone, PartialEq, Eq, Structural, Debug)]
pub struct JobRenderPipeline {
    /// The specialization key distinguishing this pipeline variant within
    /// its family.
    pub key: u64,
}

/// The readiness policy shared by both pipeline input kinds: `Wait` until
/// the keyed cache entry exists and reports `Ready`. A failed compile is
/// not surfaced as `Fail`; the job waits, bounded by the stall timeout.
pub open spec fn spec_pipeline_status(
    id: Option<usize>,
    entries: Seq<PipelineCacheEntry>,
) -> JobInputStatus {
    match id {
        Some(entry) => if 0 <= entry < entries.len() && entries[entry as int].state
            == PipelineCacheState::Ready {
            JobInputStatus::Ready
        } else {
            JobInputStatus::Wait
        },
        None => JobInputStatus::Wait,
    }
}

impl JobRenderPipeline {
    /// The status of a render-pipeline input: `Wait` until its cache entry
    /// is assigned and compiled, then `Ready`.
    pub fn status(id: &Option<JobRenderPipelineId>, cache: &PipelineSpecializationCache) -> (r:
        JobInputStatus)
        ensures
            r == spec_pipeline_status(
                match *id {
                    Some(p) => Some(p.entry),
                    None => None,
                },
                cache@,
            ),
    {
        match id {
            Some(p) => {
                if p.entry < cache.len() {
                    let s = cache.status(p.entry);
                    if s == PipelineCacheState::Ready {
                        JobInputStatus::Ready
                    } else {
                        JobInputStatus::Wait
                    }
                } else {
                    JobInputStatus::Wait
                }
            },
            None => JobInputStatus::Wait,
        }
    }

    /// The compiled render pipeline handle of a ready pipeline input.
    pub fn get(id: &Option<JobRenderPipelineId>, cache: &PipelineSpecializationCache) -> (r: u64)
        requires
            spec_pipeline_status(
                match *id {
                    Some(p) => Some(p.entry),
                    None => None,
                },
                cache@,
            ) == JobInputStatus::Ready,
        ensures
            (match *id {
                Some(p) => r == cache@[p.entry as int].pipeline,
                None => false,
            }),
    {
        match id {
            Some(p) => cache.pipeline(p.entry),
            None => unreached(),
        }
    }
}

/// The identifier of the specialization-cache entry set up for a job's
/// compute-pipeline input.
#[derive(Copy, Clone, PartialEq, Eq, Structural, Debug)]
pub struct JobComputePipelineId {
    /// The entry in the compute-pipeline family's specialization cache.
    pub entry: usize,
}

/// An input that sets up a specialized compute pipeline for a job, declared
/// by its specialization key.
#[derive(Copy, Clone, PartialEq, Eq, Structural, Debug)]
pub struct JobComputePipeline {
    /// The specialization key distinguishing this pipeline variant within
    /// its family.
    pub key: u64,
}

impl JobComputePipeline {
    /// The status of a compute-pipeline input: `Wait` until its cache entry
    /// is assigned and compiled, then `Ready`.
    pub fn status(id: &Option<JobComputePipelineId>, cache: &PipelineSpecializationCache) -> (r:
        JobInputStatus)
        ensures
            r == spec_pipeline_status(
                match *id {
                    Some(p) => Some(p.entry),
                    None => None,
                },
                cache@,
            ),
    {
        match id {
            Some(p) => {
                if p.entry < cache.len() {
                    let s = cache.status(p.entry);
                    if s == PipelineCacheState::Ready {
                        JobInputStatus::Ready
                    } else {
                        JobInputStatus::Wait
                    }
                } else {
                    JobInputStatus::Wait
                }
            },
            None => JobInputStatus::Wait,
        }
    }

    /// The compiled compute pipeline handle of a ready pipeline input.
    pub fn get(id: &Option<JobComputePipelineId>, cache: &PipelineSpecializationCache) -> (r: u64)
        requires
            spec_pipeline_status(
                match *id {
                    Some(p) => Some(p.entry),
                    None => None,
                },
                cache@,
            ) == JobInputStatus::Ready,
        ensures
            (match *id {
                Some(p) => r == cache@[p.entry as int].pipeline,
                None => false,
            }),
    {
        match id {
            Some(p) => cache.pipeline(p.entry),
            None => unreached(),
        }
    }
}

/// A job input as declared at admission. Pipeline inputs carry their
/// specialization key; the scheduler resolves them to cache entries.
#[derive(Copy, Clone, PartialEq, Eq, Structural, Debug)]
pub enum JobInputDecl {
    /// A direct reference to job-local data: always ready.
    DirectValue,
    /// The job's own handle: always ready.
    JobHandle,
    /// An optional value, present or absent: always ready, never blocks.
    OptionalValue,
    /// The job itself bound as a bind group: ready once prepared.
    AsBindGroup,
    /// A specialized render pipeline, by key: ready once compiled.
    RenderPipeline(JobRenderPipeline),
    /// A specialized compute pipeline, by key: ready once compiled.
    ComputePipeline(JobComputePipeline),
    /// A job-type-specific readiness predicate whose current report the
    /// host supplies; the one kind that may report `Fail`.
    Custom(JobInputStatus),
}

/// A job input after admission, with pipeline keys resolved to entries in
/// the family's specialization cache.
#[derive(Copy, Clone, PartialEq, Eq, Structural, Debug)]
pub enum ResolvedJobInput {
    /// A direct reference to job-local data: always ready.
    DirectValue,
    /// The job's own handle: always ready.
    JobHandle,
    /// An optional value, present or absent: always ready, never blocks.
    OptionalValue,
    /// The job itself bound as a bind group: ready once prepared.
    AsBindGroup,
    /// A specialized render pipeline, by cache entry.
    RenderPipeline(JobRenderPipelineId),
    /// A specialized compute pipeline, by cache entry.
    ComputePipeline(JobComputePipelineId),
    /// A job-type-specific readiness predicate's current report.
    Custom(JobInputStatus),
}

/// The status of one resolved input, given the job's cached bind group and
/// the two pipeline-family caches.
pub open spec fn spec_input_status(
    inp: ResolvedJobInput,
    bind_group: Option<PreparedJobBindGroup>,
    render: Seq<PipelineCacheEntry>,
    compute: Seq<PipelineCacheEntry>,
) -> JobInputStatus {
    match inp {
        ResolvedJobInput::DirectValue => JobInputStatus::Ready,
        ResolvedJobInput::JobHandle => JobInputStatus::Ready,
        ResolvedJobInput::OptionalValue => JobInputStatus::Ready,
        ResolvedJobInput::AsBindGroup => JobAsBindGroup::spec_status(bind_group),
        ResolvedJobInput::RenderPipeline(p) => spec_pipeline_status(Some(p.entry), render),
        ResolvedJobInput::ComputePipeline(p) => spec_pipeline_status(Some(p.entry), compute),
        ResolvedJobInput::Custom(s) => s,
    }
}

/// The status of one resolved input.
pub fn input_status(
    inp: &ResolvedJobInput,
    bind_group: &Option<PreparedJobBindGroup>,
    render: &PipelineSpecializationCache,
    compute: &PipelineSpecializationCache,
) -> (r: JobInputStatus)
    ensures
        r == spec_input_status(*inp, *bind_group, render@, compute@),
{
    match inp {
        ResolvedJobInput::DirectValue => JobInputStatus::Ready,
        ResolvedJobInput::JobHandle => JobInputStatus::Ready,
        ResolvedJobInput::OptionalValue => JobInputStatus::Ready,
        ResolvedJobInput::AsBindGroup => JobAsBindGroup::status(bind_group),
        ResolvedJobInput::RenderPipeline(p) => JobRenderPipeline::status(
            &Some(JobRenderPipelineId { entry: p.entry }),
            render,
        ),
        ResolvedJobInput::ComputePipeline(p) => JobComputePipeline::status(
            &Some(JobComputePipelineId { entry: p.entry }),
            compute,
        ),
        ResolvedJobInput::Custom(s) => *s,
    }
}

} // verus!
