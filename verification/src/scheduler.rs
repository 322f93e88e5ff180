//! The dependency graph and frame executor: a per-job state machine
//! (`Blocked -> Waiting -> Ready -> Done`) advanced once per tick, with a
//! per-tick execution budget, a stall timeout for jobs that wait too long,
//! and priority-ordered selection of ready jobs.
//!
//! A tick has two halves. [`JobScheduler::begin_tick`] advances blocked jobs
//! whose dependencies are satisfied, polls every waiting job's inputs, and
//! selects up to `max_jobs_per_frame` ready jobs, ordered by computed
//! priority (ties broken by admission order). The host then runs the
//! selected jobs and reports each outcome to
//! [`JobScheduler::complete_tick`], which marks them done, reclaims every
//! done job, and propagates outcomes to dependents: a successfully finished
//! dependency is removed from its dependents' dependency sets, while a
//! failed dependency fails its direct dependents (and, through their own
//! reclamation on later ticks, their dependents in turn).

use vstd::prelude::*;

use crate::input::JobInputDecl;
use crate::input::PreparedJobBindGroup;
use crate::input::ResolvedJobInput;
use crate::input::JobRenderPipelineId;
use crate::input::JobComputePipelineId;
use crate::input::spec_input_status;
use crate::input::input_status;
use crate::pipeline::PipelineCacheEntry;
use crate::pipeline::PipelineCacheState;
use crate::pipeline::PipelineSpecializationCache;
use crate::pipeline::seq_has_key;
use crate::status::JobInputStatus;
use crate::status::combine_all;

verus! {

/// A stable handle to an admitted job.
#[derive(Copy, Clone, PartialEq, Eq, Structural, Hash, Debug)]
pub struct JobId(pub u64);

impl JobId {
    /// Wrap a raw identifier as a job handle without checking that a job
    /// with it exists.
    pub fn new_unchecked(id: u64) -> (r: JobId)
        ensures
            r == (JobId(id)),
    {
        JobId(id)
    }

    /// The raw identifier of this handle.
    pub fn id(&self) -> (r: u64)
        ensures
            r == self.0,
    {
        self.0
    }
}

/// A job failure, reported by the job's own run logic.
#[derive(Copy, Clone, PartialEq, Eq, Structural, Debug)]
pub struct JobError;

/// The per-job state machine. Transitions only move forward; a forced
/// failure jumps straight to `Done` with the failure flag set.
#[derive(Copy, Clone, PartialEq, Eq, Structural, Debug)]
pub enum JobStatus {
    /// Some declared dependency has not finished successfully yet.
    Blocked,
    /// All dependencies are satisfied, but some input is not ready.
    Waiting,
    /// Every input is ready: the job may be selected for execution.
    Ready,
    /// The job has finished, successfully or not.
    Done,
}

/// The position of a status along `Blocked -> Waiting -> Ready -> Done`.
pub open spec fn status_rank(s: JobStatus) -> int {
    match s {
        JobStatus::Blocked => 0,
        JobStatus::Waiting => 1,
        JobStatus::Ready => 2,
        JobStatus::Done => 3,
    }
}

/// The phases of one scheduling tick.
#[derive(Copy, Clone, PartialEq, Eq, Structural, Debug)]
pub enum GraphicsJobSet {
    /// Dependency advancement and readiness polling.
    Check,
    /// Execution of the selected ready jobs.
    Execute,
    /// Reclamation of done jobs and outcome propagation.
    Cleanup,
}

/// The two execution-budget tunables of the scheduler.
#[derive(Copy, Clone, PartialEq, Eq, Structural, Debug)]
pub struct JobExecutionSettings {
    /// How many jobs may execute in a single tick.
    pub max_jobs_per_frame: u32,
    /// How many consecutive ticks a job may remain `Waiting` before it is
    /// forced to `Done` as failed.
    pub max_job_stall_frames: u32,
}

/// One admitted job as the scheduler tracks it.
pub struct ScheduledJob {
    /// The job's stable handle.
    pub id: JobId,
    /// Handles of the jobs that must finish successfully first. A
    /// dependency is removed from this set when it is reclaimed after
    /// finishing successfully.
    pub deps: Vec<JobId>,
    /// The declared priority.
    pub priority: u32,
    /// The derived priority used to order execution: the declared priority
    /// plus one for each direct dependent admitted so far.
    pub computed_priority: u64,
    /// Where the job stands in its state machine.
    pub status: JobStatus,
    /// Whether the job ended in failure; meaningful once `status` is `Done`.
    pub failed: bool,
    /// How many consecutive ticks the job has spent in `Waiting`.
    pub stall_frames: u32,
    /// The job's inputs, with pipeline keys resolved to cache entries.
    pub inputs: Vec<ResolvedJobInput>,
    /// The bind group prepared for this job, once the host reports one.
    pub bind_group: Option<PreparedJobBindGroup>,
}

/// Whether some job in `jobs` has the handle `id`.
pub open spec fn contains_job_id(jobs: Seq<ScheduledJob>, id: JobId) -> bool {
    exists|i: int| 0 <= i < jobs.len() && jobs[i].id == id
}

/// The index of the job with handle `id`, when one exists.
pub open spec fn job_index(jobs: Seq<ScheduledJob>, id: JobId) -> int {
    choose|i: int| 0 <= i < jobs.len() && jobs[i].id == id
}

/// The job with handle `id`, when one exists.
pub open spec fn job_with_id(jobs: Seq<ScheduledJob>, id: JobId) -> ScheduledJob {
    jobs[job_index(jobs, id)]
}

/// Jobs stand in admission order: handles strictly increase.
pub open spec fn sorted_ids(jobs: Seq<ScheduledJob>) -> bool {
    forall|i: int, j: int| 0 <= i < j < jobs.len() ==> jobs[i].id.0 < jobs[j].id.0
}

/// Under sorted handles, a job is found at its own index.
pub proof fn lemma_job_index(jobs: Seq<ScheduledJob>, i: int)
    requires
        sorted_ids(jobs),
        0 <= i < jobs.len(),
    ensures
        contains_job_id(jobs, jobs[i].id),
        job_index(jobs, jobs[i].id) == i,
        job_with_id(jobs, jobs[i].id) == jobs[i],
{
    assert(contains_job_id(jobs, jobs[i].id));
    let w = job_index(jobs, jobs[i].id);
    if w < i {
        assert(jobs[w].id.0 < jobs[i].id.0);
    } else if w > i {
        assert(jobs[i].id.0 < jobs[w].id.0);
    }
}

/// Whether one input's resolved cache entry lies inside its family's cache.
pub open spec fn input_entry_wf(inp: ResolvedJobInput, render_len: nat, compute_len: nat) -> bool {
    match inp {
        ResolvedJobInput::RenderPipeline(p) => p.entry < render_len,
        ResolvedJobInput::ComputePipeline(p) => p.entry < compute_len,
        _ => true,
    }
}

/// The per-job part of the scheduler's invariant.
pub open spec fn job_wf(
    j: ScheduledJob,
    max_stall: u32,
    render_len: nat,
    compute_len: nat,
) -> bool {
    &&& (j.status == JobStatus::Waiting ==> j.stall_frames <= max_stall)
    &&& ((j.status == JobStatus::Waiting || j.status == JobStatus::Ready) ==> j.deps@.len() == 0)
    &&& (forall|k: int|
        0 <= k < j.inputs@.len() ==> input_entry_wf(#[trigger] j.inputs@[k], render_len, compute_len))
    &&& (forall|k: int| 0 <= k < j.deps@.len() ==> (#[trigger] j.deps@[k]).0 < j.id.0)
}

/// The statuses of all of a job's inputs, in declaration order.
pub open spec fn spec_job_statuses(
    j: ScheduledJob,
    render: Seq<PipelineCacheEntry>,
    compute: Seq<PipelineCacheEntry>,
) -> Seq<JobInputStatus> {
    j.inputs@.map_values(|inp: ResolvedJobInput| spec_input_status(inp, j.bind_group, render, compute))
}

/// The combined readiness of a job's whole input set.
pub open spec fn spec_job_readiness(
    j: ScheduledJob,
    render: Seq<PipelineCacheEntry>,
    compute: Seq<PipelineCacheEntry>,
) -> JobInputStatus {
    combine_all(spec_job_statuses(j, render, compute))
}

/// Execution order: a job comes first on higher computed priority, with
/// ties broken by admission order (the lower handle) for determinism.
pub open spec fn prio_before(a: ScheduledJob, b: ScheduledJob) -> bool {
    a.computed_priority > b.computed_priority || (a.computed_priority == b.computed_priority
        && a.id.0 < b.id.0)
}

/// How one job relates to its state one readiness poll later, given the
/// caches it is polled against. A blocked job whose dependency set has
/// emptied advances to `Waiting` and is polled in the same tick. A polled
/// job becomes `Ready` when its inputs combine to `Ready`, fails at once
/// when they combine to `Fail`, and otherwise keeps waiting, failing once
/// it has already waited `max_stall` ticks.
pub open spec fn polls_to(
    o: ScheduledJob,
    n: ScheduledJob,
    render: Seq<PipelineCacheEntry>,
    compute: Seq<PipelineCacheEntry>,
    max_stall: u32,
) -> bool {
    &&& n.id == o.id
    &&& n.deps@ == o.deps@
    &&& n.priority == o.priority
    &&& n.computed_priority == o.computed_priority
    &&& n.inputs@ == o.inputs@
    &&& n.bind_group == o.bind_group
    &&& if (o.status == JobStatus::Blocked && o.deps@.len() == 0) || o.status
        == JobStatus::Waiting {
        let r = spec_job_readiness(o, render, compute);
        if r == JobInputStatus::Fail {
            n.status == JobStatus::Done && n.failed && n.stall_frames == o.stall_frames
        } else if r == JobInputStatus::Ready {
            n.status == JobStatus::Ready && n.failed == o.failed && n.stall_frames
                == o.stall_frames
        } else if o.stall_frames >= max_stall {
            n.status == JobStatus::Done && n.failed && n.stall_frames == o.stall_frames
        } else {
            n.status == JobStatus::Waiting && n.failed == o.failed && n.stall_frames
                == o.stall_frames + 1
        }
    } else {
        n.status == o.status && n.failed == o.failed && n.stall_frames == o.stall_frames
    }
}

/// Whether `id` is reclaimed by the tick that executed the jobs in
/// `inflight`: it is reclaimed when it was already `Done` (a failed or
/// stalled job) or was one of the executed jobs.
pub open spec fn spec_done_after(
    jobs: Seq<ScheduledJob>,
    inflight: Seq<JobId>,
    id: JobId,
) -> bool {
    contains_job_id(jobs, id) && (job_with_id(jobs, id).status == JobStatus::Done
        || inflight.contains(id))
}

/// The position of `id` among the executed jobs.
pub open spec fn inflight_index(inflight: Seq<JobId>, id: JobId) -> int {
    choose|k: int| 0 <= k < inflight.len() && inflight[k] == id
}

/// Whether `id` is reclaimed by this tick as failed: it either was already
/// `Done` with the failure flag set, or it executed and its run outcome was
/// an error.
pub open spec fn spec_dep_failed(
    jobs: Seq<ScheduledJob>,
    inflight: Seq<JobId>,
    outcomes: Seq<Result<(), JobError>>,
    id: JobId,
) -> bool {
    contains_job_id(jobs, id) && {
        let j = job_with_id(jobs, id);
        if inflight.contains(id) {
            j.failed || outcomes[inflight_index(inflight, id)] is Err
        } else {
            j.status == JobStatus::Done && j.failed
        }
    }
}

/// Field-by-field equality of two jobs except that the second one's
/// computed priority was raised by one (when not already at its cap) if
/// `bumped` holds.
pub open spec fn same_job_but_computed(o: ScheduledJob, n: ScheduledJob, bumped: bool) -> bool {
    &&& n.id == o.id
    &&& n.deps@ == o.deps@
    &&& n.priority == o.priority
    &&& n.status == o.status
    &&& n.failed == o.failed
    &&& n.stall_frames == o.stall_frames
    &&& n.inputs@ == o.inputs@
    &&& n.bind_group == o.bind_group
    &&& n.computed_priority == if bumped && o.computed_priority < u64::MAX {
        o.computed_priority + 1
    } else {
        o.computed_priority as int
    }
}

/// Whether a resolved input realizes a declared one: always-ready kinds map
/// to themselves, and a pipeline key maps to an entry of the family's cache
/// holding that key.
pub open spec fn resolved_matches(
    d: JobInputDecl,
    r: ResolvedJobInput,
    render: Seq<PipelineCacheEntry>,
    compute: Seq<PipelineCacheEntry>,
) -> bool {
    match d {
        JobInputDecl::DirectValue => r == ResolvedJobInput::DirectValue,
        JobInputDecl::JobHandle => r == ResolvedJobInput::JobHandle,
        JobInputDecl::OptionalValue => r == ResolvedJobInput::OptionalValue,
        JobInputDecl::AsBindGroup => r == ResolvedJobInput::AsBindGroup,
        JobInputDecl::RenderPipeline(p) => match r {
            ResolvedJobInput::RenderPipeline(q) => q.entry < render.len() && render[q.entry as int].key
                == p.key,
            _ => false,
        },
        JobInputDecl::ComputePipeline(p) => match r {
            ResolvedJobInput::ComputePipeline(q) => q.entry < compute.len()
                && compute[q.entry as int].key == p.key,
            _ => false,
        },
        JobInputDecl::Custom(s) => r == ResolvedJobInput::Custom(s),
    }
}

/// Whether `n` extends `o` with fresh compile requests only: existing
/// entries are untouched and every new entry is a pending compilation of a
/// key that had no entry before.
pub open spec fn cache_extended(
    o: Seq<PipelineCacheEntry>,
    n: Seq<PipelineCacheEntry>,
) -> bool {
    &&& o.len() <= n.len()
    &&& (forall|i: int| 0 <= i < o.len() ==> n[i] == o[i])
    &&& (forall|i: int|
        o.len() <= i < n.len() ==> (#[trigger] n[i]).state == PipelineCacheState::Compiling
            && !seq_has_key(o, n[i].key))
}

/// The frame-synchronized job scheduler: the dependency graph, the two
/// pipeline-family specialization caches, and the execution budget.
pub struct JobScheduler {
    jobs: Vec<ScheduledJob>,
    in_flight: Vec<JobId>,
    next_id: u64,
    settings: JobExecutionSettings,
    render_pipelines: PipelineSpecializationCache,
    compute_pipelines: PipelineSpecializationCache,
}

impl JobScheduler {
    /// The admitted jobs, in admission order.
    pub closed spec fn jobs(self) -> Seq<ScheduledJob> {
        self.jobs@
    }

    /// The jobs selected by `begin_tick` and not yet completed.
    pub closed spec fn in_flight(self) -> Seq<JobId> {
        self.in_flight@
    }

    /// The handle the next admitted job will receive.
    pub closed spec fn next_id(self) -> u64 {
        self.next_id
    }

    /// The execution-budget tunables, fixed at construction.
    pub closed spec fn settings(self) -> JobExecutionSettings {
        self.settings
    }

    /// The render-pipeline family's cache entries.
    pub closed spec fn render_entries(self) -> Seq<PipelineCacheEntry> {
        self.render_pipelines@
    }

    /// The compute-pipeline family's cache entries.
    pub closed spec fn compute_entries(self) -> Seq<PipelineCacheEntry> {
        self.compute_pipelines@
    }

    /// The scheduler's invariant.
    pub open spec fn wf(self) -> bool {
        &&& sorted_ids(self.jobs())
        &&& (forall|i: int|
            0 <= i < self.jobs().len() ==> (#[trigger] self.jobs()[i]).id.0 < self.next_id())
        &&& (forall|i: int|
            0 <= i < self.jobs().len() ==> job_wf(
                #[trigger] self.jobs()[i],
                self.settings().max_job_stall_frames,
                self.render_entries().len(),
                self.compute_entries().len(),
            ))
        &&& (forall|i: int, k: int|
            0 <= i < self.jobs().len() && 0 <= k < (#[trigger] self.jobs()[i]).deps@.len()
                ==> contains_job_id(self.jobs(), #[trigger] self.jobs()[i].deps@[k]))
        &&& crate::pipeline::unique_keys(self.render_entries())
        &&& crate::pipeline::unique_keys(self.compute_entries())
        &&& (forall|k: int, l: int|
            0 <= k < l < self.in_flight().len() ==> self.in_flight()[k] != self.in_flight()[l])
        &&& (forall|k: int|
            0 <= k < self.in_flight().len() ==> contains_job_id(
                self.jobs(),
                #[trigger] self.in_flight()[k],
            ) && job_with_id(self.jobs(), self.in_flight()[k]).status == JobStatus::Ready)
        &&& self.in_flight().len() <= self.settings().max_jobs_per_frame
    }

    /// A fresh scheduler with no jobs and empty caches.
    pub fn new(settings: JobExecutionSettings) -> (r: JobScheduler)
        ensures
            r.wf(),
            r.jobs().len() == 0,
            r.in_flight().len() == 0,
            r.next_id() == 0,
            r.settings() == settings,
            r.render_entries().len() == 0,
            r.compute_entries().len() == 0,
    {
        JobScheduler {
            jobs: Vec::new(),
            in_flight: Vec::new(),
            next_id: 0,
            settings,
            render_pipelines: PipelineSpecializationCache::new(),
            compute_pipelines: PipelineSpecializationCache::new(),
        }
    }

    /// The execution-budget tunables.
    pub fn execution_settings(&self) -> (s: JobExecutionSettings)
        ensures
            s == self.settings(),
    {
        self.settings
    }

    /// How many jobs the scheduler currently tracks.
    pub fn job_count(&self) -> (n: usize)
        ensures
            n == self.jobs().len(),
    {
        self.jobs.len()
    }

    /// The tick phase the scheduler stands in: `Execute` while selected
    /// jobs await their outcomes, `Check` otherwise.
    pub fn phase(&self) -> (p: GraphicsJobSet)
        ensures
            p == if self.in_flight().len() > 0 {
                GraphicsJobSet::Execute
            } else {
                GraphicsJobSet::Check
            },
    {
        if self.in_flight.len() > 0 {
            GraphicsJobSet::Execute
        } else {
            GraphicsJobSet::Check
        }
    }

    /// The render-pipeline family's specialization cache.
    pub fn render_pipeline_cache(&self) -> (c: &PipelineSpecializationCache)
        ensures
            c@ == self.render_entries(),
    {
        &self.render_pipelines
    }

    /// The compute-pipeline family's specialization cache.
    pub fn compute_pipeline_cache(&self) -> (c: &PipelineSpecializationCache)
        ensures
            c@ == self.compute_entries(),
    {
        &self.compute_pipelines
    }

    /// The index of the job with handle `id`, if it is still tracked.
    fn find_job(&self, id: JobId) -> (r: Option<usize>)
        ensures
            (match r {
                Some(i) => i < self.jobs().len() && self.jobs()[i as int].id == id,
                None => !contains_job_id(self.jobs(), id),
            }),
    {
        let mut i: usize = 0;
        while i < self.jobs.len()
            invariant
                0 <= i <= self.jobs@.len(),
                forall|k: int| 0 <= k < i ==> self.jobs@[k].id != id,
            decreases self.jobs@.len() - i,
        {
            if self.jobs[i].id.0 == id.0 {
                return Some(i);
            }
            i = i + 1;
        }
        None
    }

    /// The status of a tracked job, or `None` once it was reclaimed (or
    /// never existed).
    pub fn job_status(&self, id: JobId) -> (r: Option<JobStatus>)
        requires
            self.wf(),
        ensures
            (match r {
                Some(s) => contains_job_id(self.jobs(), id) && s == job_with_id(
                    self.jobs(),
                    id,
                ).status,
                None => !contains_job_id(self.jobs(), id),
            }),
    {
        match self.find_job(id) {
            Some(i) => {
                proof {
                    lemma_job_index(self.jobs(), i as int);
                }
                Some(self.jobs[i].status)
            },
            None => None,
        }
    }

    /// Whether a tracked job ended in failure.
    pub fn job_failed(&self, id: JobId) -> (r: Option<bool>)
        requires
            self.wf(),
        ensures
            (match r {
                Some(f) => contains_job_id(self.jobs(), id) && f == job_with_id(
                    self.jobs(),
                    id,
                ).failed,
                None => !contains_job_id(self.jobs(), id),
            }),
    {
        match self.find_job(id) {
            Some(i) => {
                proof {
                    lemma_job_index(self.jobs(), i as int);
                }
                Some(self.jobs[i].failed)
            },
            None => None,
        }
    }

    /// How many consecutive ticks a tracked job has spent waiting.
    pub fn job_stall_frames(&self, id: JobId) -> (r: Option<u32>)
        requires
            self.wf(),
        ensures
            (match r {
                Some(n) => contains_job_id(self.jobs(), id) && n == job_with_id(
                    self.jobs(),
                    id,
                ).stall_frames,
                None => !contains_job_id(self.jobs(), id),
            }),
    {
        match self.find_job(id) {
            Some(i) => {
                proof {
                    lemma_job_index(self.jobs(), i as int);
                }
                Some(self.jobs[i].stall_frames)
            },
            None => None,
        }
    }

    /// The computed priority of a tracked job.
    pub fn job_computed_priority(&self, id: JobId) -> (r: Option<u64>)
        requires
            self.wf(),
        ensures
            (match r {
                Some(p) => contains_job_id(self.jobs(), id) && p == job_with_id(
                    self.jobs(),
                    id,
                ).computed_priority,
                None => !contains_job_id(self.jobs(), id),
            }),
    {
        match self.find_job(id) {
            Some(i) => {
                proof {
                    lemma_job_index(self.jobs(), i as int);
                }
                Some(self.jobs[i].computed_priority)
            },
            None => None,
        }
    }
}

/// Field-by-field equality of two jobs except for the cached bind group,
/// which the second one holds as `bg`.
pub open spec fn same_job_but_bind_group(
    o: ScheduledJob,
    n: ScheduledJob,
    bg: Option<PreparedJobBindGroup>,
) -> bool {
    &&& n.id == o.id
    &&& n.deps@ == o.deps@
    &&& n.priority == o.priority
    &&& n.computed_priority == o.computed_priority
    &&& n.status == o.status
    &&& n.failed == o.failed
    &&& n.stall_frames == o.stall_frames
    &&& n.inputs@ == o.inputs@
    &&& n.bind_group == bg
}

/// Cache growth is transitive.
pub proof fn lemma_cache_extended_trans(
    a: Seq<PipelineCacheEntry>,
    b: Seq<PipelineCacheEntry>,
    c: Seq<PipelineCacheEntry>,
)
    requires
        cache_extended(a, b),
        cache_extended(b, c),
    ensures
        cache_extended(a, c),
{
    assert forall|i: int|
        a.len() <= i < c.len() implies (#[trigger] c[i]).state == PipelineCacheState::Compiling
        && !seq_has_key(a, c[i].key) by {
        if i < b.len() {
            assert(c[i] == b[i]);
        } else {
            if seq_has_key(a, c[i].key) {
                let w = choose|w: int| 0 <= w < a.len() && a[w].key == c[i].key;
                assert(b[w] == a[w]);
                assert(seq_has_key(b, c[i].key));
            }
        }
    }
}

/// One specialization step only extends a cache with a fresh compile
/// request.
pub proof fn lemma_specialize_extends(
    pre: Seq<PipelineCacheEntry>,
    post: Seq<PipelineCacheEntry>,
    key: u64,
    e: int,
)
    requires
        (post, e) == crate::pipeline::spec_specialize(pre, key),
    ensures
        cache_extended(pre, post),
        0 <= e < post.len(),
        post[e].key == key,
{
    if seq_has_key(pre, key) {
        let w = crate::pipeline::seq_index_of_key(pre, key);
        assert(0 <= w < pre.len() && pre[w].key == key);
    }
}

/// A job stays well formed when only its computed priority changes and the
/// caches only grow.
pub proof fn lemma_job_wf_grow(
    o: ScheduledJob,
    n: ScheduledJob,
    max_stall: u32,
    rl0: nat,
    cl0: nat,
    rl: nat,
    cl: nat,
    bumped: bool,
)
    requires
        job_wf(o, max_stall, rl0, cl0),
        same_job_but_computed(o, n, bumped),
        rl0 <= rl,
        cl0 <= cl,
    ensures
        job_wf(n, max_stall, rl, cl),
{
    assert forall|k: int|
        0 <= k < n.inputs@.len() implies input_entry_wf(#[trigger] n.inputs@[k], rl, cl) by {
        assert(n.inputs@[k] == o.inputs@[k]);
        assert(input_entry_wf(o.inputs@[k], rl0, cl0));
    }
    assert forall|k: int| 0 <= k < n.deps@.len() implies (#[trigger] n.deps@[k]).0 < n.id.0 by {
        assert(n.deps@[k] == o.deps@[k]);
    }
}

impl JobScheduler {
    /// Admit a job with its dependency set, declared priority and input
    /// declarations; returns the job's stable handle. A job with an empty
    /// dependency set starts `Waiting`, never `Blocked`; otherwise it
    /// starts `Blocked`. Pipeline inputs are resolved against their
    /// family's specialization cache, issuing a compile request only for
    /// keys that have none yet. Each direct dependency's computed priority
    /// is raised by one, so jobs with more dependents execute first among
    /// equal declared priorities.
    pub fn add_job(&mut self, deps: Vec<JobId>, priority: u32, inputs: Vec<JobInputDecl>) -> (id:
        JobId)
        requires
            old(self).wf(),
            forall|k: int|
                0 <= k < deps@.len() ==> contains_job_id(old(self).jobs(), #[trigger] deps@[k]),
            old(self).next_id() < u64::MAX,
            old(self).jobs().len() < usize::MAX,
            old(self).render_entries().len() + inputs@.len() < usize::MAX,
            old(self).compute_entries().len() + inputs@.len() < usize::MAX,
        ensures
            final(self).wf(),
            id == (JobId(old(self).next_id())),
            !contains_job_id(old(self).jobs(), id),
            contains_job_id(final(self).jobs(), id),
            final(self).next_id() == old(self).next_id() + 1,
            final(self).settings() == old(self).settings(),
            final(self).in_flight() == old(self).in_flight(),
            final(self).jobs().len() == old(self).jobs().len() + 1,
            forall|i: int|
                0 <= i < old(self).jobs().len() ==> same_job_but_computed(
                    #[trigger] old(self).jobs()[i],
                    final(self).jobs()[i],
                    deps@.contains(old(self).jobs()[i].id),
                ),
            ({
                let j = final(self).jobs().last();
                &&& j.id == id
                &&& j.deps@ == deps@
                &&& j.priority == priority
                &&& j.computed_priority == priority as u64
                &&& j.status == (if deps@.len() == 0 {
                    JobStatus::Waiting
                } else {
                    JobStatus::Blocked
                })
                &&& !j.failed
                &&& j.stall_frames == 0
                &&& j.bind_group is None
                &&& j.inputs@.len() == inputs@.len()
                &&& (forall|k: int|
                    0 <= k < inputs@.len() ==> resolved_matches(
                        #[trigger] inputs@[k],
                        j.inputs@[k],
                        final(self).render_entries(),
                        final(self).compute_entries(),
                    ))
            }),
            cache_extended(old(self).render_entries(), final(self).render_entries()),
            cache_extended(old(self).compute_entries(), final(self).compute_entries()),
            final(self).render_entries().len() <= old(self).render_entries().len()
                + inputs@.len(),
            final(self).compute_entries().len() <= old(self).compute_entries().len()
                + inputs@.len(),
    {
        let ghost jobs0 = self.jobs@;
        let ghost render0 = self.render_pipelines@;
        let ghost compute0 = self.compute_pipelines@;

        // raise the computed priority of each direct dependency
        let mut i: usize = 0;
        while i < self.jobs.len()
            invariant
                self.jobs@.len() == jobs0.len(),
                0 <= i <= jobs0.len(),
                self.next_id == old(self).next_id(),
                self.settings == old(self).settings(),
                self.in_flight@ == old(self).in_flight(),
                self.render_pipelines@ == render0,
                self.compute_pipelines@ == compute0,
                forall|k: int|
                    0 <= k < i ==> same_job_but_computed(
                        #[trigger] jobs0[k],
                        self.jobs@[k],
                        deps@.contains(jobs0[k].id),
                    ),
                forall|k: int| i <= k < jobs0.len() ==> self.jobs@[k] == jobs0[k],
            decreases jobs0.len() - i,
        {
            if id_vec_contains(&deps, self.jobs[i].id) {
                let cur = self.jobs[i].computed_priority;
                if cur < u64::MAX {
                    self.jobs[i].computed_priority = cur + 1;
                }
            }
            i = i + 1;
        }
        let ghost jobs1 = self.jobs@;

        // resolve the declared inputs, issuing compile requests for new keys
        let mut resolved: Vec<ResolvedJobInput> = Vec::new();
        let mut k: usize = 0;
        while k < inputs.len()
            invariant
                resolved@.len() == k,
                0 <= k <= inputs@.len(),
                self.jobs@ == jobs1,
                self.next_id == old(self).next_id(),
                self.settings == old(self).settings(),
                self.in_flight@ == old(self).in_flight(),
                render0 == old(self).render_entries(),
                compute0 == old(self).compute_entries(),
                render0.len() + inputs@.len() < usize::MAX,
                compute0.len() + inputs@.len() < usize::MAX,
                self.render_pipelines@.len() <= render0.len() + k,
                self.compute_pipelines@.len() <= compute0.len() + k,
                crate::pipeline::unique_keys(self.render_pipelines@),
                crate::pipeline::unique_keys(self.compute_pipelines@),
                cache_extended(render0, self.render_pipelines@),
                cache_extended(compute0, self.compute_pipelines@),
                forall|m: int|
                    0 <= m < k ==> resolved_matches(
                        #[trigger] inputs@[m],
                        resolved@[m],
                        self.render_pipelines@,
                        self.compute_pipelines@,
                    ),
            decreases inputs@.len() - k,
        {
            let ghost render_pre = self.render_pipelines@;
            let ghost compute_pre = self.compute_pipelines@;
            let ghost resolved_pre = resolved@;
            let d = inputs[k];
            match d {
                JobInputDecl::DirectValue => resolved.push(ResolvedJobInput::DirectValue),
                JobInputDecl::JobHandle => resolved.push(ResolvedJobInput::JobHandle),
                JobInputDecl::OptionalValue => resolved.push(ResolvedJobInput::OptionalValue),
                JobInputDecl::AsBindGroup => resolved.push(ResolvedJobInput::AsBindGroup),
                JobInputDecl::RenderPipeline(p) => {
                    let e = self.render_pipelines.specialize(p.key);
                    resolved.push(
                        ResolvedJobInput::RenderPipeline(JobRenderPipelineId { entry: e }),
                    );
                    proof {
                        lemma_specialize_extends(
                            render_pre,
                            self.render_pipelines@,
                            p.key,
                            e as int,
                        );
                        lemma_cache_extended_trans(render0, render_pre, self.render_pipelines@);
                    }
                },
                JobInputDecl::ComputePipeline(p) => {
                    let e = self.compute_pipelines.specialize(p.key);
                    resolved.push(
                        ResolvedJobInput::ComputePipeline(JobComputePipelineId { entry: e }),
                    );
                    proof {
                        lemma_specialize_extends(
                            compute_pre,
                            self.compute_pipelines@,
                            p.key,
                            e as int,
                        );
                        lemma_cache_extended_trans(compute0, compute_pre, self.compute_pipelines@);
                    }
                },
                JobInputDecl::Custom(s) => resolved.push(ResolvedJobInput::Custom(s)),
            }
            proof {
                assert(cache_extended(render_pre, self.render_pipelines@));
                assert(cache_extended(compute_pre, self.compute_pipelines@));
                assert forall|m: int|
                    0 <= m < k + 1 implies resolved_matches(
                    #[trigger] inputs@[m],
                    resolved@[m],
                    self.render_pipelines@,
                    self.compute_pipelines@,
                ) by {
                    if m < k {
                        assert(resolved@[m] == resolved_pre[m]);
                        assert(resolved_matches(inputs@[m], resolved_pre[m], render_pre, compute_pre));
                        match resolved_pre[m] {
                            ResolvedJobInput::RenderPipeline(q) => {
                                assert(self.render_pipelines@[q.entry as int] == render_pre[q.entry as int]);
                            },
                            ResolvedJobInput::ComputePipeline(q) => {
                                assert(self.compute_pipelines@[q.entry as int] == compute_pre[q.entry as int]);
                            },
                            _ => {},
                        }
                    }
                }
            }
            k = k + 1;
        }
        let ghost render1 = self.render_pipelines@;
        let ghost compute1 = self.compute_pipelines@;

        let id = JobId(self.next_id);
        proof {
            if contains_job_id(jobs0, id) {
                let w = job_index(jobs0, id);
                assert(0 <= w < jobs0.len() && jobs0[w].id == id);
            }
            assert(!contains_job_id(jobs0, id));
        }
        self.next_id = self.next_id + 1;
        let status = if deps.len() == 0 {
            JobStatus::Waiting
        } else {
            JobStatus::Blocked
        };
        let ghost depsv = deps@;
        let new_job = ScheduledJob {
            id,
            deps,
            priority,
            computed_priority: priority as u64,
            status,
            failed: false,
            stall_frames: 0,
            inputs: resolved,
            bind_group: None,
        };
        self.jobs.push(new_job);
        proof {
            let jobsf = self.jobs@;
            let n = jobs0.len() as int;
            assert(jobsf.len() == n + 1);
            assert forall|m: int| 0 <= m < n implies (#[trigger] jobsf[m]).id == jobs0[m].id by {
                assert(jobsf[m] == jobs1[m]);
                assert(same_job_but_computed(jobs0[m], jobs1[m], depsv.contains(jobs0[m].id)));
            }
            // handles stay sorted: every old handle is below the new one
            assert forall|a: int, b: int| 0 <= a < b < jobsf.len() implies jobsf[a].id.0
                < jobsf[b].id.0 by {
                if b < n {
                    assert(jobs0[a].id.0 < jobs0[b].id.0);
                } else {
                    assert(jobsf[a].id == jobs0[a].id);
                    assert(jobs0[a].id.0 < old(self).next_id());
                }
            }
            assert(sorted_ids(jobsf));
            // every job is well formed
            assert forall|m: int|
                0 <= m < jobsf.len() implies job_wf(
                #[trigger] jobsf[m],
                self.settings().max_job_stall_frames,
                render1.len(),
                compute1.len(),
            ) by {
                if m < n {
                    lemma_job_wf_grow(
                        jobs0[m],
                        jobsf[m],
                        self.settings().max_job_stall_frames,
                        render0.len(),
                        compute0.len(),
                        render1.len(),
                        compute1.len(),
                        depsv.contains(jobs0[m].id),
                    );
                } else {
                    assert(jobsf[m] == new_job);
                    assert forall|kk: int|
                        0 <= kk < new_job.inputs@.len() implies input_entry_wf(
                        #[trigger] new_job.inputs@[kk],
                        render1.len(),
                        compute1.len(),
                    ) by {
                        assert(resolved_matches(inputs@[kk], new_job.inputs@[kk], render1, compute1));
                    }
                    assert forall|kk: int|
                        0 <= kk < new_job.deps@.len() implies (#[trigger] new_job.deps@[kk]).0
                        < new_job.id.0 by {
                        assert(contains_job_id(jobs0, new_job.deps@[kk]));
                        let w = job_index(jobs0, new_job.deps@[kk]);
                        assert(0 <= w < jobs0.len() && jobs0[w].id == new_job.deps@[kk]);
                        assert(jobs0[w].id.0 < old(self).next_id());
                    }
                }
            }
            // dependencies still point at tracked jobs
            assert forall|m: int, kk: int|
                0 <= m < jobsf.len() && 0 <= kk < (#[trigger] jobsf[m]).deps@.len()
                implies contains_job_id(jobsf, #[trigger] jobsf[m].deps@[kk]) by {
                let d = jobsf[m].deps@[kk];
                if m < n {
                    assert(jobsf[m].deps@ == jobs0[m].deps@);
                    assert(contains_job_id(jobs0, d));
                } else {
                    assert(jobsf[m] == new_job);
                    assert(contains_job_id(jobs0, d));
                }
                let w = job_index(jobs0, d);
                assert(0 <= w < jobs0.len() && jobs0[w].id == d);
                assert(jobsf[w].id == d);
            }
            // in-flight jobs keep their handle and readiness
            assert forall|kk: int|
                0 <= kk < self.in_flight().len() implies contains_job_id(
                jobsf,
                #[trigger] self.in_flight()[kk],
            ) && job_with_id(jobsf, self.in_flight()[kk]).status == JobStatus::Ready by {
                let fid = self.in_flight()[kk];
                assert(contains_job_id(jobs0, fid));
                let w = job_index(jobs0, fid);
                lemma_job_index(jobs0, w);
                assert(jobsf[w].id == fid);
                lemma_job_index(jobsf, w);
                assert(same_job_but_computed(jobs0[w], jobsf[w], depsv.contains(jobs0[w].id)));
            }
            lemma_job_index(jobsf, n);
        }
        id
    }

    /// Attach a bind group the host prepared for a job, replacing any prior
    /// one: a newer preparation supersedes the old (change-triggered
    /// invalidation). The host retries failed preparations on later ticks
    /// by simply not calling this, so the job keeps waiting for this input.
    pub fn notify_bind_group_prepared(&mut self, id: JobId, bind_group: PreparedJobBindGroup)
        requires
            old(self).wf(),
            contains_job_id(old(self).jobs(), id),
        ensures
            final(self).wf(),
            final(self).jobs().len() == old(self).jobs().len(),
            final(self).in_flight() == old(self).in_flight(),
            final(self).next_id() == old(self).next_id(),
            final(self).settings() == old(self).settings(),
            final(self).render_entries() == old(self).render_entries(),
            final(self).compute_entries() == old(self).compute_entries(),
            forall|i: int|
                0 <= i < old(self).jobs().len() ==> if old(self).jobs()[i].id == id {
                    same_job_but_bind_group(
                        #[trigger] old(self).jobs()[i],
                        final(self).jobs()[i],
                        Some(bind_group),
                    )
                } else {
                    final(self).jobs()[i] == old(self).jobs()[i]
                },
    {
        let ghost jobs0 = self.jobs@;
        match self.find_job(id) {
            Some(i) => {
                self.jobs[i].bind_group = Some(bind_group);
                proof {
                    let jobsf = self.jobs@;
                    assert forall|m: int| 0 <= m < jobs0.len() implies (#[trigger] jobsf[m]).id
                        == jobs0[m].id by {}
                    assert forall|m: int, kk: int|
                        0 <= m < jobsf.len() && 0 <= kk < (#[trigger] jobsf[m]).deps@.len()
                        implies contains_job_id(jobsf, #[trigger] jobsf[m].deps@[kk]) by {
                        assert(jobsf[m].deps@ == jobs0[m].deps@);
                        assert(contains_job_id(jobs0, jobs0[m].deps@[kk]));
                        let w = job_index(jobs0, jobs0[m].deps@[kk]);
                        assert(jobsf[w].id == jobs0[m].deps@[kk]);
                    }
                    assert forall|kk: int|
                        0 <= kk < self.in_flight().len() implies contains_job_id(
                        jobsf,
                        #[trigger] self.in_flight()[kk],
                    ) && job_with_id(jobsf, self.in_flight()[kk]).status == JobStatus::Ready by {
                        let fid = self.in_flight()[kk];
                        let w = job_index(jobs0, fid);
                        lemma_job_index(jobs0, w);
                        assert(jobsf[w].id == fid);
                        lemma_job_index(jobsf, w);
                    }
                    if jobs0[i as int].id != id {
                        assert(false);
                    }
                }
            },
            None => {
                proof {
                    assert(false);
                }
            },
        }
    }

    /// Record the current report of a job's custom readiness predicate: the
    /// host polls its own predicate and hands the scheduler the result.
    pub fn set_custom_input_status(
        &mut self,
        id: JobId,
        input_index: usize,
        status: JobInputStatus,
    )
        requires
            old(self).wf(),
            contains_job_id(old(self).jobs(), id),
            input_index < job_with_id(old(self).jobs(), id).inputs@.len(),
            job_with_id(old(self).jobs(), id).inputs@[input_index as int] is Custom,
        ensures
            final(self).wf(),
            final(self).jobs().len() == old(self).jobs().len(),
            final(self).in_flight() == old(self).in_flight(),
            final(self).next_id() == old(self).next_id(),
            final(self).settings() == old(self).settings(),
            final(self).render_entries() == old(self).render_entries(),
            final(self).compute_entries() == old(self).compute_entries(),
            forall|i: int|
                0 <= i < old(self).jobs().len() ==> if old(self).jobs()[i].id == id {
                    ({
                        let o = #[trigger] old(self).jobs()[i];
                        let n = final(self).jobs()[i];
                        &&& n.id == o.id
                        &&& n.deps@ == o.deps@
                        &&& n.priority == o.priority
                        &&& n.computed_priority == o.computed_priority
                        &&& n.status == o.status
                        &&& n.failed == o.failed
                        &&& n.stall_frames == o.stall_frames
                        &&& n.bind_group == o.bind_group
                        &&& n.inputs@ == o.inputs@.update(
                            input_index as int,
                            ResolvedJobInput::Custom(status),
                        )
                    })
                } else {
                    final(self).jobs()[i] == old(self).jobs()[i]
                },
    {
        let ghost jobs0 = self.jobs@;
        match self.find_job(id) {
            Some(i) => {
                proof {
                    lemma_job_index(jobs0, i as int);
                }
                self.jobs[i].inputs[input_index] = ResolvedJobInput::Custom(status);
                proof {
                    let jobsf = self.jobs@;
                    assert forall|m: int|
                        0 <= m < jobsf.len() implies job_wf(
                        #[trigger] jobsf[m],
                        self.settings().max_job_stall_frames,
                        self.render_pipelines@.len(),
                        self.compute_pipelines@.len(),
                    ) by {
                        assert(job_wf(
                            jobs0[m],
                            self.settings().max_job_stall_frames,
                            self.render_pipelines@.len(),
                            self.compute_pipelines@.len(),
                        ));
                        if m == i as int {
                            assert forall|kk: int|
                                0 <= kk < jobsf[m].inputs@.len() implies input_entry_wf(
                                #[trigger] jobsf[m].inputs@[kk],
                                self.render_pipelines@.len(),
                                self.compute_pipelines@.len(),
                            ) by {
                                if kk != input_index as int {
                                    assert(jobsf[m].inputs@[kk] == jobs0[m].inputs@[kk]);
                                }
                            }
                        } else {
                            assert(jobsf[m] == jobs0[m]);
                        }
                    }
                    assert forall|m: int, kk: int|
                        0 <= m < jobsf.len() && 0 <= kk < (#[trigger] jobsf[m]).deps@.len()
                        implies contains_job_id(jobsf, #[trigger] jobsf[m].deps@[kk]) by {
                        assert(jobsf[m].deps@ == jobs0[m].deps@);
                        assert(contains_job_id(jobs0, jobs0[m].deps@[kk]));
                        let w = job_index(jobs0, jobs0[m].deps@[kk]);
                        assert(jobsf[w].id == jobs0[m].deps@[kk]);
                    }
                    assert forall|kk: int|
                        0 <= kk < self.in_flight().len() implies contains_job_id(
                        jobsf,
                        #[trigger] self.in_flight()[kk],
                    ) && job_with_id(jobsf, self.in_flight()[kk]).status == JobStatus::Ready by {
                        let fid = self.in_flight()[kk];
                        let w = job_index(jobs0, fid);
                        lemma_job_index(jobs0, w);
                        assert(jobsf[w].id == fid);
                        lemma_job_index(jobsf, w);
                    }
                }
            },
            None => {
                proof {
                    assert(false);
                }
            },
        }
    }

    /// Record the outcome of an asynchronous render-pipeline compilation.
    pub fn notify_render_pipeline_compiled(&mut self, entry: usize, ok: bool, pipeline: u64)
        requires
            old(self).wf(),
            entry < old(self).render_entries().len(),
        ensures
            final(self).wf(),
            final(self).jobs() == old(self).jobs(),
            final(self).in_flight() == old(self).in_flight(),
            final(self).next_id() == old(self).next_id(),
            final(self).settings() == old(self).settings(),
            final(self).compute_entries() == old(self).compute_entries(),
            final(self).render_entries().len() == old(self).render_entries().len(),
            final(self).render_entries() == old(self).render_entries().update(
                entry as int,
                (PipelineCacheEntry {
                    key: old(self).render_entries()[entry as int].key,
                    state: if ok {
                        PipelineCacheState::Ready
                    } else {
                        PipelineCacheState::Failed
                    },
                    pipeline: if ok {
                        pipeline
                    } else {
                        old(self).render_entries()[entry as int].pipeline
                    },
                }),
            ),
    {
        self.render_pipelines.notify_compiled(entry, ok, pipeline);
    }

    /// Record the outcome of an asynchronous compute-pipeline compilation.
    pub fn notify_compute_pipeline_compiled(&mut self, entry: usize, ok: bool, pipeline: u64)
        requires
            old(self).wf(),
            entry < old(self).compute_entries().len(),
        ensures
            final(self).wf(),
            final(self).jobs() == old(self).jobs(),
            final(self).in_flight() == old(self).in_flight(),
            final(self).next_id() == old(self).next_id(),
            final(self).settings() == old(self).settings(),
            final(self).render_entries() == old(self).render_entries(),
            final(self).compute_entries().len() == old(self).compute_entries().len(),
            final(self).compute_entries() == old(self).compute_entries().update(
                entry as int,
                (PipelineCacheEntry {
                    key: old(self).compute_entries()[entry as int].key,
                    state: if ok {
                        PipelineCacheState::Ready
                    } else {
                        PipelineCacheState::Failed
                    },
                    pipeline: if ok {
                        pipeline
                    } else {
                        old(self).compute_entries()[entry as int].pipeline
                    },
                }),
            ),
    {
        self.compute_pipelines.notify_compiled(entry, ok, pipeline);
    }
}

/// A polled job stays well formed.
pub proof fn lemma_job_wf_poll(
    o: ScheduledJob,
    n: ScheduledJob,
    max_stall: u32,
    rl: nat,
    cl: nat,
    render: Seq<PipelineCacheEntry>,
    compute: Seq<PipelineCacheEntry>,
)
    requires
        job_wf(o, max_stall, rl, cl),
        polls_to(o, n, render, compute, max_stall),
    ensures
        job_wf(n, max_stall, rl, cl),
{
    assert forall|k: int|
        0 <= k < n.inputs@.len() implies input_entry_wf(#[trigger] n.inputs@[k], rl, cl) by {
        assert(n.inputs@[k] == o.inputs@[k]);
        assert(input_entry_wf(o.inputs@[k], rl, cl));
    }
    assert forall|k: int| 0 <= k < n.deps@.len() implies (#[trigger] n.deps@[k]).0 < n.id.0 by {
        assert(n.deps@[k] == o.deps@[k]);
    }
}

/// Monotonicity law: a readiness poll never moves a job backward along
/// `Blocked -> Waiting -> Ready -> Done`, and the only way it reaches
/// `Done` is a forced failure, which sets the failure flag.
pub proof fn lemma_poll_monotonic(
    o: ScheduledJob,
    n: ScheduledJob,
    render: Seq<PipelineCacheEntry>,
    compute: Seq<PipelineCacheEntry>,
    max_stall: u32,
)
    requires
        polls_to(o, n, render, compute, max_stall),
    ensures
        status_rank(n.status) >= status_rank(o.status),
        o.status != JobStatus::Done && n.status == JobStatus::Done ==> n.failed,
{
}

/// Stall bound law: under the scheduler invariant a job still `Waiting`
/// has waited at most `max_job_stall_frames` ticks; one more poll without
/// readiness forces it to `Done` as failed.
pub proof fn lemma_stall_bound(s: JobScheduler, i: int)
    requires
        s.wf(),
        0 <= i < s.jobs().len(),
        s.jobs()[i].status == JobStatus::Waiting,
    ensures
        s.jobs()[i].stall_frames <= s.settings().max_job_stall_frames,
{
}

/// Stall bound law, forcing half: a job that has already waited
/// `max_stall` ticks and still is not ready is forced to `Done` as failed
/// by the next poll. Together with `lemma_stall_bound`, a job remains
/// `Waiting` for at most `max_job_stall_frames` ticks.
pub proof fn lemma_stall_forces_failure(
    o: ScheduledJob,
    n: ScheduledJob,
    render: Seq<PipelineCacheEntry>,
    compute: Seq<PipelineCacheEntry>,
    max_stall: u32,
)
    requires
        polls_to(o, n, render, compute, max_stall),
        o.status == JobStatus::Waiting,
        o.stall_frames >= max_stall,
        spec_job_readiness(o, render, compute) != JobInputStatus::Ready,
    ensures
        n.status == JobStatus::Done,
        n.failed,
{
}

/// Copy a vector of handles.
fn copy_ids(v: &Vec<JobId>) -> (r: Vec<JobId>)
    ensures
        r@ == v@,
{
    let mut r: Vec<JobId> = Vec::new();
    let mut i: usize = 0;
    while i < v.len()
        invariant
            0 <= i <= v@.len(),
            r@ == v@.take(i as int),
        decreases v@.len() - i,
    {
        r.push(v[i]);
        assert(v@.take(i + 1) =~= v@.take(i as int).push(v@[i as int]));
        i = i + 1;
    }
    assert(v@.take(v@.len() as int) =~= v@);
    r
}

/// The combined readiness of a job's whole input set against the two
/// pipeline-family caches.
pub fn job_readiness_of(
    j: &ScheduledJob,
    render: &PipelineSpecializationCache,
    compute: &PipelineSpecializationCache,
) -> (r: JobInputStatus)
    ensures
        r == spec_job_readiness(*j, render@, compute@),
{
    let ghost statuses = spec_job_statuses(*j, render@, compute@);
    let mut r = JobInputStatus::Ready;
    let mut k: usize = 0;
    while k < j.inputs.len()
        invariant
            0 <= k <= j.inputs@.len(),
            statuses == spec_job_statuses(*j, render@, compute@),
            statuses.len() == j.inputs@.len(),
            r == combine_all(statuses.take(k as int)),
        decreases j.inputs@.len() - k,
    {
        let s = input_status(&j.inputs[k], &j.bind_group, render, compute);
        assert(s == statuses[k as int]);
        r = r.combine(s);
        assert(statuses.take(k + 1).drop_last() =~= statuses.take(k as int));
        assert(statuses.take(k + 1).last() == statuses[k as int]);
        k = k + 1;
    }
    assert(statuses.take(statuses.len() as int) =~= statuses);
    r
}

impl JobScheduler {
    /// Begin one scheduling tick: advance every blocked job whose
    /// dependency set has emptied to `Waiting`, poll every waiting job's
    /// inputs (readiness makes it `Ready`, a failed input or exhausted
    /// stall budget makes it `Done` as failed, anything else keeps it
    /// waiting one tick longer), and select up to `max_jobs_per_frame`
    /// ready jobs for execution, in descending computed priority with ties
    /// broken by admission order. The host must run the selected jobs and
    /// report their outcomes to `complete_tick` before the next tick.
    pub fn begin_tick(&mut self) -> (selected: Vec<JobId>)
        requires
            old(self).wf(),
            old(self).in_flight().len() == 0,
        ensures
            final(self).wf(),
            final(self).next_id() == old(self).next_id(),
            final(self).settings() == old(self).settings(),
            final(self).render_entries() == old(self).render_entries(),
            final(self).compute_entries() == old(self).compute_entries(),
            final(self).jobs().len() == old(self).jobs().len(),
            forall|i: int|
                0 <= i < old(self).jobs().len() ==> polls_to(
                    #[trigger] old(self).jobs()[i],
                    final(self).jobs()[i],
                    old(self).render_entries(),
                    old(self).compute_entries(),
                    old(self).settings().max_job_stall_frames,
                ),
            forall|i: int|
                0 <= i < old(self).jobs().len() ==> status_rank(final(self).jobs()[i].status)
                    >= status_rank((#[trigger] old(self).jobs()[i]).status),
            forall|i: int|
                0 <= i < old(self).jobs().len() && (#[trigger] old(self).jobs()[i]).status
                    != JobStatus::Done && final(self).jobs()[i].status == JobStatus::Done
                    ==> final(self).jobs()[i].failed,
            final(self).in_flight() == selected@,
            selected@.len() <= old(self).settings().max_jobs_per_frame,
            forall|a: int, b: int| 0 <= a < b < selected@.len() ==> selected@[a] != selected@[b],
            forall|kk: int|
                0 <= kk < selected@.len() ==> contains_job_id(
                    final(self).jobs(),
                    #[trigger] selected@[kk],
                ) && job_with_id(final(self).jobs(), selected@[kk]).status == JobStatus::Ready,
            forall|a: int, b: int|
                0 <= a < b < selected@.len() ==> prio_before(
                    job_with_id(final(self).jobs(), selected@[a]),
                    job_with_id(final(self).jobs(), selected@[b]),
                ),
            forall|i: int, kk: int|
                #![trigger final(self).jobs()[i], selected@[kk]]
                0 <= i < final(self).jobs().len() && 0 <= kk < selected@.len()
                    && final(self).jobs()[i].status == JobStatus::Ready && !selected@.contains(
                    final(self).jobs()[i].id,
                ) ==> prio_before(
                    job_with_id(final(self).jobs(), selected@[kk]),
                    final(self).jobs()[i],
                ),
            selected@.len() < old(self).settings().max_jobs_per_frame ==> (forall|i: int|
                0 <= i < final(self).jobs().len() && (#[trigger] final(self).jobs()[i]).status
                    == JobStatus::Ready ==> selected@.contains(final(self).jobs()[i].id)),
    {
        let ghost jobs0 = self.jobs@;
        let ghost render0 = self.render_pipelines@;
        let ghost compute0 = self.compute_pipelines@;
        let ghost max_stall = self.settings.max_job_stall_frames;

        // poll every job once: advancement, then readiness, in one pass
        let mut i: usize = 0;
        while i < self.jobs.len()
            invariant
                0 <= i <= jobs0.len(),
                self.jobs@.len() == jobs0.len(),
                jobs0 == old(self).jobs(),
                self.next_id == old(self).next_id(),
                self.settings == old(self).settings(),
                self.in_flight@ == old(self).in_flight(),
                self.render_pipelines@ == render0,
                self.compute_pipelines@ == compute0,
                render0 == old(self).render_entries(),
                compute0 == old(self).compute_entries(),
                max_stall == old(self).settings().max_job_stall_frames,
                forall|m: int|
                    0 <= m < jobs0.len() ==> job_wf(
                        #[trigger] jobs0[m],
                        max_stall,
                        render0.len(),
                        compute0.len(),
                    ),
                forall|m: int|
                    0 <= m < i ==> polls_to(
                        #[trigger] jobs0[m],
                        self.jobs@[m],
                        render0,
                        compute0,
                        max_stall,
                    ),
                forall|m: int| i <= m < jobs0.len() ==> self.jobs@[m] == jobs0[m],
            decreases jobs0.len() - i,
        {
            let advance = match self.jobs[i].status {
                JobStatus::Blocked => self.jobs[i].deps.len() == 0,
                JobStatus::Waiting => true,
                _ => false,
            };
            if advance {
                let r = job_readiness_of(
                    &self.jobs[i],
                    &self.render_pipelines,
                    &self.compute_pipelines,
                );
                if r == JobInputStatus::Fail {
                    self.jobs[i].status = JobStatus::Done;
                    self.jobs[i].failed = true;
                } else if r == JobInputStatus::Ready {
                    self.jobs[i].status = JobStatus::Ready;
                } else {
                    let st = self.jobs[i].stall_frames;
                    if st >= self.settings.max_job_stall_frames {
                        self.jobs[i].status = JobStatus::Done;
                        self.jobs[i].failed = true;
                    } else {
                        self.jobs[i].status = JobStatus::Waiting;
                        self.jobs[i].stall_frames = st + 1;
                    }
                }
            }
            proof {
                assert(polls_to(jobs0[i as int], self.jobs@[i as int], render0, compute0, max_stall));
            }
            i = i + 1;
        }
        let ghost jobs1 = self.jobs@;
        proof {
            assert forall|m: int| 0 <= m < jobs1.len() implies (#[trigger] jobs1[m]).id
                == jobs0[m].id by {}
            assert forall|a: int, b: int| 0 <= a < b < jobs1.len() implies jobs1[a].id.0
                < jobs1[b].id.0 by {
                assert(jobs0[a].id.0 < jobs0[b].id.0);
            }
        }

        // select up to the budget of ready jobs, best first
        let budget = self.settings.max_jobs_per_frame;
        let mut selected: Vec<JobId> = Vec::new();
        let mut exhausted = false;
        while !exhausted && selected.len() < budget as usize
            invariant
                self.jobs@ == jobs1,
                sorted_ids(jobs1),
                budget == old(self).settings().max_jobs_per_frame,
                selected@.len() <= budget as usize,
                forall|a: int, b: int|
                    0 <= a < b < selected@.len() ==> selected@[a] != selected@[b],
                forall|kk: int|
                    0 <= kk < selected@.len() ==> contains_job_id(jobs1, #[trigger] selected@[kk])
                        && job_with_id(jobs1, selected@[kk]).status == JobStatus::Ready,
                forall|a: int, b: int|
                    0 <= a < b < selected@.len() ==> prio_before(
                        job_with_id(jobs1, selected@[a]),
                        job_with_id(jobs1, selected@[b]),
                    ),
                forall|m: int, kk: int|
                    #![trigger jobs1[m], selected@[kk]]
                    0 <= m < jobs1.len() && 0 <= kk < selected@.len() && jobs1[m].status
                        == JobStatus::Ready && !selected@.contains(jobs1[m].id) ==> prio_before(
                        job_with_id(jobs1, selected@[kk]),
                        jobs1[m],
                    ),
                exhausted ==> (forall|m: int|
                    0 <= m < jobs1.len() && (#[trigger] jobs1[m]).status == JobStatus::Ready
                        ==> selected@.contains(jobs1[m].id)),
            decreases (if exhausted { 0int } else { 1int }), budget as int - selected@.len(),
        {
            let mut best: usize = 0;
            let mut have_best = false;
            let mut t: usize = 0;
            while t < self.jobs.len()
                invariant
                    self.jobs@ == jobs1,
                    sorted_ids(jobs1),
                    0 <= t <= jobs1.len(),
                    have_best ==> best < jobs1.len() && jobs1[best as int].status
                        == JobStatus::Ready && !selected@.contains(jobs1[best as int].id),
                    have_best ==> (forall|m: int|
                        0 <= m < t && (#[trigger] jobs1[m]).status == JobStatus::Ready
                            && !selected@.contains(jobs1[m].id) ==> (m == best as int
                            || prio_before(jobs1[best as int], jobs1[m]))),
                    !have_best ==> (forall|m: int|
                        0 <= m < t ==> !((#[trigger] jobs1[m]).status == JobStatus::Ready
                            && !selected@.contains(jobs1[m].id))),
                decreases jobs1.len() - t,
            {
                let ready = self.jobs[t].status == JobStatus::Ready;
                if ready && !id_vec_contains(&selected, self.jobs[t].id) {
                    if !have_best {
                        best = t;
                        have_best = true;
                    } else {
                        let cp_t = self.jobs[t].computed_priority;
                        let cp_b = self.jobs[best].computed_priority;
                        if cp_t > cp_b || (cp_t == cp_b && self.jobs[t].id.0
                            < self.jobs[best].id.0) {
                            best = t;
                        }
                    }
                }
                t = t + 1;
            }
            if !have_best {
                exhausted = true;
            } else {
                let bid = self.jobs[best].id;
                let ghost sel0 = selected@;
                selected.push(bid);
                proof {
                    lemma_job_index(jobs1, best as int);
                    assert forall|kk: int|
                        0 <= kk < selected@.len() implies contains_job_id(
                        jobs1,
                        #[trigger] selected@[kk],
                    ) && job_with_id(jobs1, selected@[kk]).status == JobStatus::Ready by {
                        if kk < sel0.len() {
                            assert(selected@[kk] == sel0[kk]);
                        } else {
                            assert(selected@[kk] == bid);
                        }
                    }
                    assert forall|a: int, b: int|
                        0 <= a < b < selected@.len() implies prio_before(
                        job_with_id(jobs1, selected@[a]),
                        job_with_id(jobs1, selected@[b]),
                    ) by {
                        if b < sel0.len() {
                            assert(selected@[a] == sel0[a] && selected@[b] == sel0[b]);
                        } else {
                            assert(selected@[b] == bid);
                            assert(selected@[a] == sel0[a]);
                            assert(job_with_id(jobs1, bid) == jobs1[best as int]);
                            assert(prio_before(job_with_id(jobs1, sel0[a]), jobs1[best as int]));
                        }
                    }
                    assert forall|m: int, kk: int|
                        #![trigger jobs1[m], selected@[kk]]
                        0 <= m < jobs1.len() && 0 <= kk < selected@.len() && jobs1[m].status
                            == JobStatus::Ready && !selected@.contains(jobs1[m].id)
                        implies prio_before(job_with_id(jobs1, selected@[kk]), jobs1[m]) by {
                        assert(!sel0.contains(jobs1[m].id)) by {
                            if sel0.contains(jobs1[m].id) {
                                let w = choose|w: int|
                                    0 <= w < sel0.len() && sel0[w] == jobs1[m].id;
                                assert(selected@[w] == jobs1[m].id);
                            }
                        }
                        assert(m != best as int) by {
                            if m == best as int {
                                assert(selected@[sel0.len() as int] == bid);
                                assert(selected@.contains(jobs1[m].id));
                            }
                        }
                        if kk < sel0.len() {
                            assert(selected@[kk] == sel0[kk]);
                        } else {
                            assert(selected@[kk] == bid);
                            assert(job_with_id(jobs1, bid) == jobs1[best as int]);
                        }
                    }
                }
            }
        }

        let flight = copy_ids(&selected);
        self.in_flight = flight;
        proof {
            let jobsf = self.jobs@;
            assert forall|m: int|
                0 <= m < jobsf.len() implies job_wf(
                #[trigger] jobsf[m],
                max_stall,
                render0.len(),
                compute0.len(),
            ) by {
                lemma_job_wf_poll(
                    jobs0[m],
                    jobsf[m],
                    max_stall,
                    render0.len(),
                    compute0.len(),
                    render0,
                    compute0,
                );
            }
            assert forall|m: int| 0 <= m < jobsf.len() implies (#[trigger] jobsf[m]).id.0
                < self.next_id by {
                assert(jobs0[m].id.0 < old(self).next_id());
            }
            assert forall|m: int, kk: int|
                0 <= m < jobsf.len() && 0 <= kk < (#[trigger] jobsf[m]).deps@.len()
                implies contains_job_id(jobsf, #[trigger] jobsf[m].deps@[kk]) by {
                assert(jobsf[m].deps@ == jobs0[m].deps@);
                assert(contains_job_id(jobs0, jobs0[m].deps@[kk]));
                let w = job_index(jobs0, jobs0[m].deps@[kk]);
                assert(jobsf[w].id == jobs0[m].deps@[kk]);
            }
            assert forall|i2: int|
                0 <= i2 < jobs0.len() implies status_rank(jobsf[i2].status) >= status_rank(
                (#[trigger] jobs0[i2]).status,
            ) && (jobs0[i2].status != JobStatus::Done && jobsf[i2].status == JobStatus::Done
                ==> jobsf[i2].failed) by {
                lemma_poll_monotonic(jobs0[i2], jobsf[i2], render0, compute0, max_stall);
            }
        }
        selected
    }
}

/// How marking an executed job done changes it: the status becomes `Done`
/// and a failing run outcome sets the failure flag.
pub open spec fn mark_rel(
    o: ScheduledJob,
    n: ScheduledJob,
    inflight: Seq<JobId>,
    outcomes: Seq<Result<(), JobError>>,
) -> bool {
    &&& n.id == o.id
    &&& n.deps@ == o.deps@
    &&& n.priority == o.priority
    &&& n.computed_priority == o.computed_priority
    &&& n.inputs@ == o.inputs@
    &&& n.bind_group == o.bind_group
    &&& n.stall_frames == o.stall_frames
    &&& n.status == JobStatus::Done
    &&& n.failed == (o.failed || outcomes[inflight_index(inflight, o.id)] is Err)
}

/// How a surviving job relates to its state before the reclamation that
/// ends a tick: reclaimed dependencies leave its dependency set, and a
/// reclaimed dependency that failed fails the job itself.
pub open spec fn survivor_rel(
    n: ScheduledJob,
    jobs0: Seq<ScheduledJob>,
    inflight: Seq<JobId>,
    outcomes: Seq<Result<(), JobError>>,
) -> bool {
    &&& contains_job_id(jobs0, n.id)
    &&& !spec_done_after(jobs0, inflight, n.id)
    &&& ({
        let o = job_with_id(jobs0, n.id);
        let fd = exists|k: int|
            0 <= k < o.deps@.len() && spec_dep_failed(
                jobs0,
                inflight,
                outcomes,
                #[trigger] o.deps@[k],
            );
        &&& n.priority == o.priority
        &&& n.computed_priority == o.computed_priority
        &&& n.inputs@ == o.inputs@
        &&& n.bind_group == o.bind_group
        &&& n.stall_frames == o.stall_frames
        &&& n.deps@ == o.deps@.filter(|d: JobId| !spec_done_after(jobs0, inflight, d))
        &&& n.status == (if fd {
            JobStatus::Done
        } else {
            o.status
        })
        &&& n.failed == (o.failed || fd)
    })
}

/// Monotonicity law: reclamation never moves a surviving job backward
/// along the state machine; the only change it makes is the forced
/// failure of a job whose dependency failed, which yields `Done` with the
/// failure flag set.
pub proof fn lemma_reclaim_monotonic(
    n: ScheduledJob,
    jobs0: Seq<ScheduledJob>,
    flight: Seq<JobId>,
    outs: Seq<Result<(), JobError>>,
)
    requires
        survivor_rel(n, jobs0, flight, outs),
    ensures
        status_rank(n.status) >= status_rank(job_with_id(jobs0, n.id).status),
        n.status != job_with_id(jobs0, n.id).status ==> n.status == JobStatus::Done && n.failed,
{
}

/// A job reclaimed by this tick, with its failure flag, as reclamation
/// collects them.
#[derive(Copy, Clone)]
struct RemovedJob {
    id: JobId,
    failed: bool,
}

/// Whether some reclaimed job has the handle `id`; on a hit, its failure
/// flag.
fn removed_find(removed: &Vec<RemovedJob>, id: JobId) -> (r: Option<bool>)
    ensures
        (match r {
            Some(f) => exists|q: int|
                0 <= q < removed@.len() && (#[trigger] removed@[q]).id == id && removed@[q].failed
                    == f,
            None => forall|q: int| 0 <= q < removed@.len() ==> (#[trigger] removed@[q]).id != id,
        }),
{
    let mut q: usize = 0;
    while q < removed.len()
        invariant
            0 <= q <= removed@.len(),
            forall|w: int| 0 <= w < q ==> (#[trigger] removed@[w]).id != id,
        decreases removed@.len() - q,
    {
        if removed[q].id.0 == id.0 {
            assert(removed@[q as int].id == id);
            return Some(removed[q].failed);
        }
        q = q + 1;
    }
    None
}

/// Copy a vector of resolved inputs.
fn copy_inputs(v: &Vec<ResolvedJobInput>) -> (r: Vec<ResolvedJobInput>)
    ensures
        r@ == v@,
{
    let mut r: Vec<ResolvedJobInput> = Vec::new();
    let mut i: usize = 0;
    while i < v.len()
        invariant
            0 <= i <= v@.len(),
            r@ == v@.take(i as int),
        decreases v@.len() - i,
    {
        r.push(v[i]);
        assert(v@.take(i + 1) =~= v@.take(i as int).push(v@[i as int]));
        i = i + 1;
    }
    assert(v@.take(v@.len() as int) =~= v@);
    r
}


/// Whether `r` records a done job of `jobs`.
spec fn removed_from(r: RemovedJob, jobs: Seq<ScheduledJob>) -> bool {
    exists|m: int|
        0 <= m < jobs.len() && r.id == (#[trigger] jobs[m]).id && jobs[m].status
            == JobStatus::Done && r.failed == jobs[m].failed
}

/// Whether the done job `j` is recorded in `removed`.
spec fn listed(j: ScheduledJob, removed: Seq<RemovedJob>) -> bool {
    exists|q: int|
        0 <= q < removed.len() && (#[trigger] removed[q]).id == j.id && removed[q].failed
            == j.failed
}

/// Every recorded reclamation is real, with the failure flag the tick's
/// start determines.
spec fn removed_exact(
    removed: Seq<RemovedJob>,
    jobs0: Seq<ScheduledJob>,
    flight: Seq<JobId>,
    outs: Seq<Result<(), JobError>>,
) -> bool {
    forall|q: int|
        0 <= q < removed.len() ==> spec_done_after(jobs0, flight, (#[trigger] removed[q]).id)
            && removed[q].failed == spec_dep_failed(jobs0, flight, outs, removed[q].id)
}

/// Every reclaimed handle is recorded.
spec fn removed_covers(
    removed: Seq<RemovedJob>,
    jobs0: Seq<ScheduledJob>,
    flight: Seq<JobId>,
) -> bool {
    forall|d: JobId|
        contains_job_id(jobs0, d) && #[trigger] spec_done_after(jobs0, flight, d)
            ==> exists|q: int| 0 <= q < removed.len() && (#[trigger] removed[q]).id == d
}

/// A job surviving reclamation stays well formed.
proof fn lemma_survivor_wf(
    n: ScheduledJob,
    jobs0: Seq<ScheduledJob>,
    flight: Seq<JobId>,
    outs: Seq<Result<(), JobError>>,
    max_stall: u32,
    rl: nat,
    cl: nat,
)
    requires
        survivor_rel(n, jobs0, flight, outs),
        job_wf(job_with_id(jobs0, n.id), max_stall, rl, cl),
    ensures
        job_wf(n, max_stall, rl, cl),
{
    broadcast use vstd::seq_lib::group_filter_ensures;

    let o = job_with_id(jobs0, n.id);
    let pred = |d: JobId| !spec_done_after(jobs0, flight, d);
    assert forall|kk: int|
        0 <= kk < n.inputs@.len() implies input_entry_wf(#[trigger] n.inputs@[kk], rl, cl) by {
        assert(n.inputs@[kk] == o.inputs@[kk]);
        assert(input_entry_wf(o.inputs@[kk], rl, cl));
    }
    assert forall|kk: int| 0 <= kk < n.deps@.len() implies (#[trigger] n.deps@[kk]).0 < n.id.0 by {
        assert(o.deps@.filter(pred).contains(n.deps@[kk])) by {
            assert(n.deps@[kk] == o.deps@.filter(pred)[kk]);
        }
        o.deps@.lemma_filter_contains_rev(pred, n.deps@[kk]);
        let w2 = choose|w2: int| 0 <= w2 < o.deps@.len() && #[trigger] o.deps@[w2] == n.deps@[kk];
        assert(o.deps@[w2].0 < o.id.0);
    }
    if n.status == JobStatus::Waiting || n.status == JobStatus::Ready {
        assert(o.status == n.status);
        assert(o.deps@.len() == 0);
        assert(o.deps@.filter(pred) =~= Seq::<JobId>::empty());
    }
}

impl JobScheduler {
    /// Mark each executed job `Done`, with the failure flag set on an
    /// error outcome.
    #[verifier::loop_isolation(false)]
    fn mark_executed(&mut self, outcomes: &Vec<Result<(), JobError>>)
        requires
            old(self).wf(),
            outcomes@.len() == old(self).in_flight().len(),
        ensures
            final(self).jobs().len() == old(self).jobs().len(),
            final(self).in_flight() == old(self).in_flight(),
            final(self).next_id() == old(self).next_id(),
            final(self).settings() == old(self).settings(),
            final(self).render_entries() == old(self).render_entries(),
            final(self).compute_entries() == old(self).compute_entries(),
            forall|m: int|
                0 <= m < old(self).jobs().len() ==> (#[trigger] final(self).jobs()[m]).id
                    == old(self).jobs()[m].id,
            forall|m: int|
                0 <= m < old(self).jobs().len() ==> (if old(self).in_flight().contains(
                    old(self).jobs()[m].id,
                ) {
                    mark_rel(
                        #[trigger] old(self).jobs()[m],
                        final(self).jobs()[m],
                        old(self).in_flight(),
                        outcomes@,
                    )
                } else {
                    final(self).jobs()[m] == old(self).jobs()[m]
                }),
    {
        let ghost jobs0 = self.jobs@;
        let ghost flight = self.in_flight@;
        let ghost outs = outcomes@;
        let mut k: usize = 0;
        while k < self.in_flight.len()
            invariant
                0 <= k <= flight.len(),
                self.in_flight@ == flight,
                self.jobs@.len() == jobs0.len(),
                self.next_id == old(self).next_id(),
                self.settings == old(self).settings(),
                self.render_pipelines@ == old(self).render_entries(),
                self.compute_pipelines@ == old(self).compute_entries(),
                forall|m: int|
                    0 <= m < jobs0.len() ==> (#[trigger] self.jobs@[m]).id == jobs0[m].id,
                forall|m: int|
                    0 <= m < jobs0.len() ==> (if flight.take(k as int).contains(jobs0[m].id) {
                        mark_rel(jobs0[m], #[trigger] self.jobs@[m], flight, outs)
                    } else {
                        self.jobs@[m] == jobs0[m]
                    }),
            decreases flight.len() - k,
        {
            let ghost jobs_pre = self.jobs@;
            let fid = self.in_flight[k];
            match self.find_job(fid) {
                Some(idx) => {
                    self.jobs[idx].status = JobStatus::Done;
                    let err = match outcomes[k] {
                        Ok(_) => false,
                        Err(_) => true,
                    };
                    if err {
                        self.jobs[idx].failed = true;
                    }
                    proof {
                        assert(!flight.take(k as int).contains(fid)) by {
                            if flight.take(k as int).contains(fid) {
                                let w = choose|w: int|
                                    0 <= w < k && #[trigger] flight.take(k as int)[w] == fid;
                                assert(flight[w] == fid);
                            }
                        }
                        assert(jobs_pre[idx as int] == jobs0[idx as int]);
                        assert(inflight_index(flight, fid) == k) by {
                            let w = inflight_index(flight, fid);
                            assert(flight[k as int] == fid);
                            assert(0 <= w < flight.len() && flight[w] == fid);
                            if w != k {
                                assert(false);
                            }
                        }
                        assert forall|m: int|
                            0 <= m < jobs0.len() implies (if flight.take(k + 1).contains(
                            jobs0[m].id,
                        ) {
                            mark_rel(jobs0[m], #[trigger] self.jobs@[m], flight, outs)
                        } else {
                            self.jobs@[m] == jobs0[m]
                        }) by {
                            assert(flight.take(k + 1) =~= flight.take(k as int).push(fid));
                            if m == idx as int {
                                assert(jobs0[m].id == fid);
                                assert(flight.take(k + 1).contains(fid)) by {
                                    assert(flight.take(k + 1).last() == fid);
                                }
                            } else {
                                assert(self.jobs@[m] == jobs_pre[m]);
                                assert(jobs0[m].id != fid);
                                assert(flight.take(k + 1).contains(jobs0[m].id)
                                    == flight.take(k as int).contains(jobs0[m].id)) by {
                                    if flight.take(k + 1).contains(jobs0[m].id) {
                                        let w = choose|w: int|
                                            0 <= w < k + 1 && #[trigger] flight.take(k + 1)[w]
                                                == jobs0[m].id;
                                        assert(w < k);
                                        assert(flight.take(k as int)[w] == jobs0[m].id);
                                    }
                                    if flight.take(k as int).contains(jobs0[m].id) {
                                        let w = choose|w: int|
                                            0 <= w < k && #[trigger] flight.take(k as int)[w]
                                                == jobs0[m].id;
                                        assert(flight.take(k + 1)[w] == jobs0[m].id);
                                    }
                                }
                            }
                        }
                    }
                },
                None => {
                    proof {
                        assert(contains_job_id(jobs0, fid));
                        let w = job_index(jobs0, fid);
                        assert(jobs_pre[w].id == fid);
                        assert(false);
                    }
                },
            }
            k = k + 1;
        }
        proof {
            assert(flight.take(flight.len() as int) =~= flight);
        }
    }

    /// Collect each done job's handle and failure flag.
    #[verifier::loop_isolation(false)]
    fn collect_done(&self) -> (removed: Vec<RemovedJob>)
        ensures
            forall|q: int|
                0 <= q < removed@.len() ==> removed_from(#[trigger] removed@[q], self.jobs()),
            forall|m: int|
                0 <= m < self.jobs().len() && (#[trigger] self.jobs()[m]).status == JobStatus::Done
                    ==> listed(self.jobs()[m], removed@),
    {
        let mut removed: Vec<RemovedJob> = Vec::new();
        let mut i: usize = 0;
        while i < self.jobs.len()
            invariant
                0 <= i <= self.jobs@.len(),
                forall|q: int|
                    0 <= q < removed@.len() ==> removed_from(#[trigger] removed@[q], self.jobs@),
                forall|m: int|
                    0 <= m < i && (#[trigger] self.jobs@[m]).status == JobStatus::Done ==> listed(
                        self.jobs@[m],
                        removed@,
                    ),
            decreases self.jobs@.len() - i,
        {
            let ghost removed_pre = removed@;
            if self.jobs[i].status == JobStatus::Done {
                removed.push(RemovedJob { id: self.jobs[i].id, failed: self.jobs[i].failed });
                proof {
                    assert(removed@.last().id == (#[trigger] self.jobs@[i as int]).id
                        && removed@.last().failed == self.jobs@[i as int].failed);
                    assert(removed_from(removed@.last(), self.jobs@));
                }
            }
            proof {
                assert forall|q: int|
                    0 <= q < removed@.len() implies removed_from(
                    #[trigger] removed@[q],
                    self.jobs@,
                ) by {
                    if q < removed_pre.len() {
                        assert(removed@[q] == removed_pre[q]);
                        assert(removed_from(removed_pre[q], self.jobs@));
                    } else {
                        assert(removed@[q] == removed@.last());
                    }
                }
                assert forall|m: int|
                    0 <= m < i + 1 && (#[trigger] self.jobs@[m]).status == JobStatus::Done
                    implies listed(self.jobs@[m], removed@) by {
                    if m < i {
                        assert(listed(self.jobs@[m], removed_pre));
                        let q = choose|q: int|
                            0 <= q < removed_pre.len() && (#[trigger] removed_pre[q]).id
                                == self.jobs@[m].id && removed_pre[q].failed
                                == self.jobs@[m].failed;
                        assert(removed@[q] == removed_pre[q]);
                    } else {
                        let q = removed_pre.len() as int;
                        assert(removed@[q].id == self.jobs@[m].id && removed@[q].failed
                            == self.jobs@[m].failed);
                    }
                }
            }
            i = i + 1;
        }
        removed
    }

    /// Rebuild the graph from the surviving jobs: reclaimed dependencies
    /// leave each dependency set, and a failed one fails its dependent.
    #[verifier::loop_isolation(false)]
    #[verifier::rlimit(60)]
    fn rebuild_survivors(
        &mut self,
        removed: &Vec<RemovedJob>,
        Ghost(jobs0): Ghost<Seq<ScheduledJob>>,
        Ghost(flight): Ghost<Seq<JobId>>,
        Ghost(outs): Ghost<Seq<Result<(), JobError>>>,
    )
        requires
            sorted_ids(jobs0),
            old(self).jobs().len() == jobs0.len(),
            forall|m: int|
                0 <= m < jobs0.len() ==> (#[trigger] old(self).jobs()[m]).id == jobs0[m].id,
            forall|m: int|
                0 <= m < jobs0.len() ==> ((#[trigger] old(self).jobs()[m]).status
                    == JobStatus::Done <==> spec_done_after(jobs0, flight, jobs0[m].id)),
            forall|m: int|
                0 <= m < jobs0.len() && (#[trigger] old(self).jobs()[m]).status != JobStatus::Done
                    ==> old(self).jobs()[m] == jobs0[m],
            removed_exact(removed@, jobs0, flight, outs),
            removed_covers(removed@, jobs0, flight),
            forall|m: int, kk: int|
                0 <= m < jobs0.len() && 0 <= kk < (#[trigger] jobs0[m]).deps@.len()
                    ==> contains_job_id(jobs0, #[trigger] jobs0[m].deps@[kk]),
        ensures
            final(self).in_flight() == old(self).in_flight(),
            final(self).next_id() == old(self).next_id(),
            final(self).settings() == old(self).settings(),
            final(self).render_entries() == old(self).render_entries(),
            final(self).compute_entries() == old(self).compute_entries(),
            sorted_ids(final(self).jobs()),
            forall|i: int|
                0 <= i < final(self).jobs().len() ==> survivor_rel(
                    #[trigger] final(self).jobs()[i],
                    jobs0,
                    flight,
                    outs,
                ),
            forall|m: int|
                0 <= m < jobs0.len() && !spec_done_after(jobs0, flight, (#[trigger] jobs0[m]).id)
                    ==> contains_job_id(final(self).jobs(), jobs0[m].id),
    {
        let ghost mid = self.jobs@;
        let mut survivors: Vec<ScheduledJob> = Vec::new();
        let mut i3: usize = 0;
        while i3 < self.jobs.len()
            invariant
                0 <= i3 <= mid.len(),
                self.jobs@ == mid,
                sorted_ids(survivors@),
                forall|q: int|
                    0 <= q < survivors@.len() ==> exists|m: int|
                        0 <= m < i3 && (#[trigger] survivors@[q]).id == mid[m].id,
                forall|q: int|
                    0 <= q < survivors@.len() ==> survivor_rel(
                        #[trigger] survivors@[q],
                        jobs0,
                        flight,
                        outs,
                    ),
                forall|m: int|
                    0 <= m < i3 && (#[trigger] mid[m]).status != JobStatus::Done
                        ==> contains_job_id(survivors@, mid[m].id),
            decreases mid.len() - i3,
        {
            let is_done = self.jobs[i3].status == JobStatus::Done;
            if !is_done {
                proof {
                    lemma_job_index(jobs0, i3 as int);
                    assert(mid[i3 as int] == jobs0[i3 as int]);
                    assert forall|w: int|
                        0 <= w < jobs0[i3 as int].deps@.len() implies contains_job_id(
                        jobs0,
                        #[trigger] jobs0[i3 as int].deps@[w],
                    ) by {}
                }
                let ghost o = jobs0[i3 as int];
                let (nd, fd) = filter_deps(
                    &self.jobs[i3].deps,
                    removed,
                    Ghost(jobs0),
                    Ghost(flight),
                    Ghost(outs),
                );
                let inputs_copy = copy_inputs(&self.jobs[i3].inputs);
                let nstatus = if fd {
                    JobStatus::Done
                } else {
                    self.jobs[i3].status
                };
                let nfailed = self.jobs[i3].failed || fd;
                let ghost survivors_pre = survivors@;
                survivors.push(
                    ScheduledJob {
                        id: self.jobs[i3].id,
                        deps: nd,
                        priority: self.jobs[i3].priority,
                        computed_priority: self.jobs[i3].computed_priority,
                        status: nstatus,
                        failed: nfailed,
                        stall_frames: self.jobs[i3].stall_frames,
                        inputs: inputs_copy,
                        bind_group: self.jobs[i3].bind_group,
                    },
                );
                proof {
                    let n = survivors@.last();
                    assert(n.id == o.id);
                    assert(job_with_id(jobs0, n.id) == o);
                    assert(!spec_done_after(jobs0, flight, n.id)) by {
                        assert(mid[i3 as int].status != JobStatus::Done);
                    }
                    assert(survivor_rel(n, jobs0, flight, outs));
                    assert forall|a: int, b: int|
                        0 <= a < b < survivors@.len() implies survivors@[a].id.0
                        < survivors@[b].id.0 by {
                        if b == survivors_pre.len() as int {
                            assert(survivors@[a] == survivors_pre[a]);
                            let m = choose|m: int|
                                0 <= m < i3 && (#[trigger] survivors_pre[a]).id == mid[m].id;
                            assert(mid[m].id.0 == jobs0[m].id.0);
                            assert(jobs0[m].id.0 < jobs0[i3 as int].id.0);
                        } else {
                            assert(survivors@[a] == survivors_pre[a]);
                            assert(survivors@[b] == survivors_pre[b]);
                        }
                    }
                    assert forall|m: int|
                        0 <= m < i3 + 1 && (#[trigger] mid[m]).status != JobStatus::Done
                        implies contains_job_id(survivors@, mid[m].id) by {
                        if m < i3 {
                            let w = choose|w: int|
                                0 <= w < survivors_pre.len() && (#[trigger] survivors_pre[w]).id
                                    == mid[m].id;
                            assert(survivors@[w].id == mid[m].id);
                        } else {
                            assert(survivors@.last().id == mid[m].id);
                        }
                    }
                }
            }
            i3 = i3 + 1;
        }
        let ghost sv = survivors@;
        self.jobs = survivors;
        proof {
            assert forall|m: int|
                0 <= m < jobs0.len() && !spec_done_after(
                jobs0,
                flight,
                (#[trigger] jobs0[m]).id,
            ) implies contains_job_id(self.jobs@, jobs0[m].id) by {
                assert(mid[m].status != JobStatus::Done);
                assert(contains_job_id(sv, mid[m].id));
                assert(mid[m].id == jobs0[m].id);
            }
        }
    }

    /// Complete the tick begun by `begin_tick`: `outcomes[k]` is the run
    /// outcome the host observed for the `k`-th selected job. Every
    /// executed job is marked `Done` (failed on an error outcome), then
    /// every done job is reclaimed: it leaves the graph, a successfully
    /// finished job leaves its dependents' dependency sets, and a failed
    /// one fails its direct dependents at once, so they are reclaimed in
    /// turn on the next tick and propagate the failure onward. At most the
    /// selected jobs — never more than `max_jobs_per_frame` — move from
    /// `Ready` to `Done` in the tick; every other ready job stays ready.
    #[verifier::rlimit(60)]
    pub fn complete_tick(&mut self, outcomes: &Vec<Result<(), JobError>>)
        requires
            old(self).wf(),
            outcomes@.len() == old(self).in_flight().len(),
        ensures
            final(self).wf(),
            final(self).in_flight().len() == 0,
            final(self).next_id() == old(self).next_id(),
            final(self).settings() == old(self).settings(),
            final(self).render_entries() == old(self).render_entries(),
            final(self).compute_entries() == old(self).compute_entries(),
            forall|i: int|
                0 <= i < final(self).jobs().len() ==> survivor_rel(
                    #[trigger] final(self).jobs()[i],
                    old(self).jobs(),
                    old(self).in_flight(),
                    outcomes@,
                ),
            forall|i: int|
                0 <= i < old(self).jobs().len() && !spec_done_after(
                    old(self).jobs(),
                    old(self).in_flight(),
                    (#[trigger] old(self).jobs()[i]).id,
                ) ==> contains_job_id(final(self).jobs(), old(self).jobs()[i].id),
            forall|i: int|
                0 <= i < old(self).jobs().len() && spec_done_after(
                    old(self).jobs(),
                    old(self).in_flight(),
                    (#[trigger] old(self).jobs()[i]).id,
                ) ==> !contains_job_id(final(self).jobs(), old(self).jobs()[i].id),
            forall|i: int|
                0 <= i < old(self).jobs().len() && (#[trigger] old(self).jobs()[i]).status
                    == JobStatus::Ready && !old(self).in_flight().contains(old(self).jobs()[i].id)
                    ==> contains_job_id(final(self).jobs(), old(self).jobs()[i].id) && job_with_id(
                    final(self).jobs(),
                    old(self).jobs()[i].id,
                ).status == JobStatus::Ready,
    {
        let ghost jobs0 = self.jobs@;
        let ghost flight = self.in_flight@;
        let ghost outs = outcomes@;

        self.mark_executed(outcomes);
        let ghost mid = self.jobs@;
        proof {
            assert forall|m: int|
                0 <= m < jobs0.len() implies ((#[trigger] mid[m]).id == jobs0[m].id && (mid[m].status
                == JobStatus::Done <==> spec_done_after(jobs0, flight, jobs0[m].id)) && (mid[m].status
                != JobStatus::Done ==> mid[m] == jobs0[m]) && (mid[m].status == JobStatus::Done
                ==> mid[m].failed == spec_dep_failed(jobs0, flight, outs, jobs0[m].id))) by {
                lemma_job_index(jobs0, m);
            }
        }

        let removed = self.collect_done();
        proof {
            assert(removed_exact(removed@, jobs0, flight, outs)) by {
                assert forall|q: int|
                    0 <= q < removed@.len() implies spec_done_after(
                    jobs0,
                    flight,
                    (#[trigger] removed@[q]).id,
                ) && removed@[q].failed == spec_dep_failed(jobs0, flight, outs, removed@[q].id) by {
                    assert(removed_from(removed@[q], mid));
                    let m = choose|m: int|
                        0 <= m < mid.len() && removed@[q].id == (#[trigger] mid[m]).id
                            && mid[m].status == JobStatus::Done && removed@[q].failed
                            == mid[m].failed;
                    assert(mid[m].id == jobs0[m].id);
                }
            }
            assert(removed_covers(removed@, jobs0, flight)) by {
                assert forall|d: JobId|
                    contains_job_id(jobs0, d) && #[trigger] spec_done_after(jobs0, flight, d)
                    implies exists|q: int|
                    0 <= q < removed@.len() && (#[trigger] removed@[q]).id == d by {
                    let m = job_index(jobs0, d);
                    assert(0 <= m < jobs0.len() && jobs0[m].id == d);
                    assert(mid[m].status == JobStatus::Done);
                    assert(listed(mid[m], removed@));
                    let q = choose|q: int|
                        0 <= q < removed@.len() && (#[trigger] removed@[q]).id == mid[m].id
                            && removed@[q].failed == mid[m].failed;
                    assert(removed@[q].id == d);
                }
            }
        }

        self.rebuild_survivors(&removed, Ghost(jobs0), Ghost(flight), Ghost(outs));
        self.in_flight = Vec::new();

        proof {
            let jobsf = self.jobs@;
            let max_stall = self.settings().max_job_stall_frames;
            let rl = self.render_pipelines@.len();
            let cl = self.compute_pipelines@.len();
            assert forall|i: int|
                0 <= i < jobsf.len() implies (#[trigger] jobsf[i]).id.0 < self.next_id by {
                assert(survivor_rel(jobsf[i], jobs0, flight, outs));
                let w = job_index(jobs0, jobsf[i].id);
                assert(0 <= w < jobs0.len() && jobs0[w].id == jobsf[i].id);
                assert(jobs0[w].id.0 < old(self).next_id());
            }
            assert forall|i: int|
                0 <= i < jobsf.len() implies job_wf(#[trigger] jobsf[i], max_stall, rl, cl) by {
                assert(survivor_rel(jobsf[i], jobs0, flight, outs));
                let w = job_index(jobs0, jobsf[i].id);
                assert(0 <= w < jobs0.len() && jobs0[w].id == jobsf[i].id);
                assert(job_with_id(jobs0, jobsf[i].id) == jobs0[w]);
                assert(job_wf(jobs0[w], max_stall, rl, cl));
                lemma_survivor_wf(jobsf[i], jobs0, flight, outs, max_stall, rl, cl);
            }
            broadcast use vstd::seq_lib::group_filter_ensures;

            assert forall|i: int, kk: int|
                0 <= i < jobsf.len() && 0 <= kk < (#[trigger] jobsf[i]).deps@.len()
                implies contains_job_id(jobsf, #[trigger] jobsf[i].deps@[kk]) by {
                let n = jobsf[i];
                assert(survivor_rel(n, jobs0, flight, outs));
                let o = job_with_id(jobs0, n.id);
                let pred = |d: JobId| !spec_done_after(jobs0, flight, d);
                let d = n.deps@[kk];
                assert(pred(d) && o.deps@.filter(pred).contains(d)) by {
                    assert(n.deps@[kk] == o.deps@.filter(pred)[kk]);
                }
                o.deps@.lemma_filter_contains_rev(pred, d);
                let w2 = choose|w2: int| 0 <= w2 < o.deps@.len() && #[trigger] o.deps@[w2] == d;
                let w = job_index(jobs0, n.id);
                assert(0 <= w < jobs0.len() && jobs0[w] == o);
                assert(contains_job_id(jobs0, d));
                let dm = job_index(jobs0, d);
                assert(0 <= dm < jobs0.len() && jobs0[dm].id == d);
                assert(!spec_done_after(jobs0, flight, jobs0[dm].id));
            }
            assert forall|i: int|
                0 <= i < jobs0.len() && spec_done_after(
                jobs0,
                flight,
                (#[trigger] jobs0[i]).id,
            ) implies !contains_job_id(jobsf, jobs0[i].id) by {
                if contains_job_id(jobsf, jobs0[i].id) {
                    let w = job_index(jobsf, jobs0[i].id);
                    assert(0 <= w < jobsf.len() && jobsf[w].id == jobs0[i].id);
                    assert(survivor_rel(jobsf[w], jobs0, flight, outs));
                }
            }
            assert forall|i: int|
                0 <= i < jobs0.len() && (#[trigger] jobs0[i]).status == JobStatus::Ready
                    && !flight.contains(jobs0[i].id) implies contains_job_id(jobsf, jobs0[i].id)
                && job_with_id(jobsf, jobs0[i].id).status == JobStatus::Ready by {
                lemma_job_index(jobs0, i);
                assert(!spec_done_after(jobs0, flight, jobs0[i].id));
                assert(contains_job_id(jobsf, jobs0[i].id));
                let w = job_index(jobsf, jobs0[i].id);
                assert(0 <= w < jobsf.len() && jobsf[w].id == jobs0[i].id);
                lemma_job_index(jobsf, w);
                let n = jobsf[w];
                assert(survivor_rel(n, jobs0, flight, outs));
                let o = job_with_id(jobs0, n.id);
                assert(o == jobs0[i]);
                assert(o.deps@.len() == 0);
                assert(n.status == o.status);
            }
        }
    }
}

/// Drop the reclaimed dependencies from a dependency set and report
/// whether any of them failed.
#[verifier::loop_isolation(false)]
fn filter_deps(
    deps: &Vec<JobId>,
    removed: &Vec<RemovedJob>,
    Ghost(jobs0): Ghost<Seq<ScheduledJob>>,
    Ghost(flight): Ghost<Seq<JobId>>,
    Ghost(outs): Ghost<Seq<Result<(), JobError>>>,
) -> (r: (Vec<JobId>, bool))
    requires
        removed_exact(removed@, jobs0, flight, outs),
        removed_covers(removed@, jobs0, flight),
        forall|w: int| 0 <= w < deps@.len() ==> contains_job_id(jobs0, #[trigger] deps@[w]),
    ensures
        r.0@ == deps@.filter(|d: JobId| !spec_done_after(jobs0, flight, d)),
        r.1 == (exists|w: int|
            0 <= w < deps@.len() && spec_dep_failed(jobs0, flight, outs, #[trigger] deps@[w])),
{
    let mut nd: Vec<JobId> = Vec::new();
    let mut fd = false;
    let mut q: usize = 0;
    while q < deps.len()
        invariant
            0 <= q <= deps@.len(),
            nd@ == deps@.take(q as int).filter(|d: JobId| !spec_done_after(jobs0, flight, d)),
            fd == (exists|w: int|
                0 <= w < q && spec_dep_failed(jobs0, flight, outs, #[trigger] deps@[w])),
        decreases deps@.len() - q,
    {
        let ghost nd_pre = nd@;
        let ghost fd_pre = fd;
        let d = deps[q];
        match removed_find(removed, d) {
            Some(f) => {
                proof {
                    let w = choose|w: int|
                        0 <= w < removed@.len() && (#[trigger] removed@[w]).id == d
                            && removed@[w].failed == f;
                    assert(spec_done_after(jobs0, flight, d));
                    assert(f == spec_dep_failed(jobs0, flight, outs, d));
                }
                if f {
                    fd = true;
                }
            },
            None => {
                proof {
                    if spec_done_after(jobs0, flight, d) {
                        assert(contains_job_id(jobs0, d));
                        let w = choose|w: int|
                            0 <= w < removed@.len() && (#[trigger] removed@[w]).id == d;
                        assert(false);
                    }
                }
                nd.push(d);
            },
        }
        proof {
            let pred = |dd: JobId| !spec_done_after(jobs0, flight, dd);
            reveal(Seq::filter);
            assert(deps@.take(q + 1).drop_last() =~= deps@.take(q as int));
            assert(deps@.take(q + 1).last() == d);
            if pred(d) {
                assert(nd@ == nd_pre.push(d));
            } else {
                assert(nd@ == nd_pre);
            }
            assert(fd == (exists|w: int|
                0 <= w < q + 1 && spec_dep_failed(jobs0, flight, outs, #[trigger] deps@[w]))) by {
                if fd_pre {
                    let w = choose|w: int|
                        0 <= w < q && spec_dep_failed(jobs0, flight, outs, #[trigger] deps@[w]);
                    assert(spec_dep_failed(jobs0, flight, outs, deps@[w]));
                }
                if !fd_pre && spec_dep_failed(jobs0, flight, outs, deps@[q as int]) {
                    if !spec_done_after(jobs0, flight, d) {
                        assert(false);
                    }
                }
                if !fd {
                    if exists|w: int|
                        0 <= w < q + 1 && spec_dep_failed(jobs0, flight, outs, #[trigger] deps@[w]) {
                        let w = choose|w: int|
                            0 <= w < q + 1 && spec_dep_failed(
                                jobs0,
                                flight,
                                outs,
                                #[trigger] deps@[w],
                            );
                        assert(false);
                    }
                }
            }
        }
        q = q + 1;
    }
    proof {
        assert(deps@.take(deps@.len() as int) =~= deps@);
    }
    (nd, fd)
}

/// Whether a vector of handles contains `id`.
fn id_vec_contains(v: &Vec<JobId>, id: JobId) -> (b: bool)
    ensures
        b == v@.contains(id),
{
    let mut i: usize = 0;
    while i < v.len()
        invariant
            0 <= i <= v@.len(),
            forall|k: int| 0 <= k < i ==> v@[k] != id,
        decreases v@.len() - i,
    {
        if v[i].0 == id.0 {
            assert(v@[i as int] == id);
            return true;
        }
        i = i + 1;
    }
    false
}

} // verus!
