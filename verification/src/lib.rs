//! A frame-synchronized scheduler for short-lived GPU jobs.
//!
//! Jobs are admitted with a dependency set, a declared priority and a list of
//! typed inputs. Each tick the scheduler advances a per-job state machine
//! (`Blocked -> Waiting -> Ready -> Done`), polls input readiness through the
//! tri-state combinator in [`status`], memoizes pipeline specialization in
//! [`pipeline`], and selects up to a configured budget of ready jobs for
//! execution, ordered by computed priority.
//!
//! The host owns all outside work (GPU pipeline compilation, bind group
//! creation, running a job's own logic): it learns what to do from the
//! scheduler's outputs and reports outcomes back through notification
//! methods, so every scheduling decision itself is made here.

pub mod input;
pub mod pipeline;
pub mod scheduler;
pub mod status;
