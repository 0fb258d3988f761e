//! Planning, hand-out and publication of stem renders.  Every render
//! session has a generation; a completion is accepted only for a task still
//! in flight in the current, uncancelled generation.
use vstd::prelude::*;
use crate::offline::next_generation;
use crate::text::{blank, copy_str, decimal, is_blank, push_decimal, str_eq};

verus! {

#[derive(Debug, Clone)]
pub struct StemTaskRust {
    pub track_id: u32,
    pub name: String,
    /// The render generation that owns the task.
    pub generation: u64,
}

#[derive(Debug, Clone, Copy, PartialEq, Eq, Structural)]
pub enum BounceTaskState {
    Queued,
    Rendering,
    Completed,
    Failed,
}

#[derive(Debug, Clone)]
pub struct BounceTaskStatus {
    pub track_id: u32,
    pub state: BounceTaskState,
    pub error: Option<String>,
}

/// Why an output could not be published.
#[derive(Debug, Clone, PartialEq, Eq)]
pub enum PublishError {
    /// The task is not in flight in the current, uncancelled generation.
    InvalidTask,
    /// The path is empty or already holds a published output.
    InvalidPath,
    /// Writing the file failed, with the writer's message.
    Write(String),
}

pub struct DistributedRenderingOrchestrator {
    pub active_tasks: Vec<StemTaskRust>,
    in_flight: Vec<StemTaskRust>,
    completed: Vec<u32>,
    completed_outputs: Vec<(u32, String)>,
    failed: Vec<BounceTaskStatus>,
    last_error: Option<String>,
    generation: u64,
    cancelled: bool,
}

/// A task as plain values: track, name, generation.
pub open spec fn task_view(t: StemTaskRust) -> (u32, Seq<char>, u64) {
    (t.track_id, t.name@, t.generation)
}

pub open spec fn tasks_view(ts: Seq<StemTaskRust>) -> Seq<(u32, Seq<char>, u64)> {
    ts.map_values(|t: StemTaskRust| task_view(t))
}

pub open spec fn opt_text(o: Option<String>) -> Option<Seq<char>> {
    match o {
        Some(s) => Some(s@),
        None => None,
    }
}

/// A status as plain values.
pub open spec fn status_view(s: BounceTaskStatus) -> (u32, BounceTaskState, Option<Seq<char>>) {
    (s.track_id, s.state, opt_text(s.error))
}

pub open spec fn statuses_view(ss: Seq<BounceTaskStatus>) -> Seq<(u32, BounceTaskState, Option<Seq<char>>)> {
    ss.map_values(|s: BounceTaskStatus| status_view(s))
}

/// The name a planned task carries.
pub open spec fn track_name(id: u32) -> Seq<char> {
    "Track_"@ + decimal(id as nat)
}

/// The ids in order of first occurrence, each once.
pub open spec fn unique_in_order(ids: Seq<u32>) -> Seq<u32>
    decreases ids.len(),
{
    if ids.len() == 0 {
        Seq::empty()
    } else {
        let d = unique_in_order(ids.drop_last());
        if d.contains(ids.last()) {
            d
        } else {
            d.push(ids.last())
        }
    }
}

/// The tasks planned for the ids in generation `g`.
pub open spec fn planned_tasks(ids: Seq<u32>, g: u64) -> Seq<(u32, Seq<char>, u64)> {
    unique_in_order(ids).map_values(|id: u32| (id, track_name(id), g))
}

/// The task is for the track (and, when given, of the generation).
pub open spec fn task_matches(t: (u32, Seq<char>, u64), id: u32, g: Option<u64>) -> bool {
    t.0 == id && (g matches Some(x) ==> t.2 == x)
}

/// The tasks without those that match.
pub open spec fn without_tasks(ts: Seq<(u32, Seq<char>, u64)>, id: u32, g: Option<u64>) -> Seq<
    (u32, Seq<char>, u64),
> {
    ts.filter(|t: (u32, Seq<char>, u64)| !task_matches(t, id, g))
}

/// Some task matches.
pub open spec fn has_task(ts: Seq<(u32, Seq<char>, u64)>, id: u32, g: Option<u64>) -> bool {
    exists|i: int| 0 <= i < ts.len() && #[trigger] task_matches(ts[i], id, g)
}

/// The statuses: queued, rendering, completed, then failed tasks.
pub open spec fn status_list(
    queued: Seq<(u32, Seq<char>, u64)>,
    rendering: Seq<(u32, Seq<char>, u64)>,
    done: Seq<u32>,
    failed: Seq<(u32, BounceTaskState, Option<Seq<char>>)>,
) -> Seq<(u32, BounceTaskState, Option<Seq<char>>)> {
    queued.map_values(|t: (u32, Seq<char>, u64)| (t.0, BounceTaskState::Queued, None::<Seq<char>>)) + rendering.map_values(
        |t: (u32, Seq<char>, u64)| (t.0, BounceTaskState::Rendering, None::<Seq<char>>),
    ) + done.map_values(|id: u32| (id, BounceTaskState::Completed, None::<Seq<char>>)) + failed
}

/// The error of the last failure, if any.
pub open spec fn last_failure_error(failed: Seq<(u32, BounceTaskState, Option<Seq<char>>)>) -> Option<Seq<char>> {
    if failed.len() == 0 {
        None
    } else {
        failed.last().2
    }
}

/// The first index with the id in the failures.
pub open spec fn first_failure(failed: Seq<(u32, BounceTaskState, Option<Seq<char>>)>, id: u32) -> int {
    choose|i: int| 0 <= i < failed.len() && failed[i].0 == id && forall|j: int| 0 <= j < i ==> #[trigger] failed[j].0 != id
}

/// The audited shape of one queued task: named after its track and no
/// earlier queued task on the same track.
pub open spec fn queued_ok(q: Seq<(u32, Seq<char>, u64)>, i: int) -> bool {
    &&& !is_blank(q[i].1)
    &&& q[i].1 == track_name(q[i].0)
    &&& forall|j: int| 0 <= j < i ==> #[trigger] q[j].0 != q[i].0
}

fn copy_task(t: &StemTaskRust) -> (r: StemTaskRust)
    ensures
        task_view(r) == task_view(*t),
{
    StemTaskRust { track_id: t.track_id, name: copy_str(t.name.as_str()), generation: t.generation }
}

fn copy_opt_text(o: &Option<String>) -> (r: Option<String>)
    ensures
        opt_text(r) == opt_text(*o),
{
    match o {
        Some(s) => Some(copy_str(s.as_str())),
        None => None,
    }
}

fn track_name_text(id: u32) -> (r: String)
    ensures
        r@ == track_name(id),
{
    let mut s = copy_str("Track_");
    push_decimal(&mut s, id as u64);
    s
}

/// The tasks that do not match, in order.
fn keep_tasks(ts: &Vec<StemTaskRust>, id: u32, g: Option<u64>) -> (r: Vec<StemTaskRust>)
    ensures
        tasks_view(r@) == without_tasks(tasks_view(ts@), id, g),
        r@.len() == ts@.len() <==> !has_task(tasks_view(ts@), id, g),
        !has_task(tasks_view(ts@), id, g) ==> without_tasks(tasks_view(ts@), id, g) == tasks_view(ts@),
{
    let ghost tv = tasks_view(ts@);
    let ghost keep = |t: (u32, Seq<char>, u64)| !task_matches(t, id, g);
    let mut r: Vec<StemTaskRust> = Vec::new();
    let mut i: usize = 0;
    while i < ts.len()
        invariant
            i <= ts.len(),
            tv == tasks_view(ts@),
            keep == (|t: (u32, Seq<char>, u64)| !task_matches(t, id, g)),
            tasks_view(r@) == tv.take(i as int).filter(keep),
            r@.len() == i <==> !has_task(tv.take(i as int), id, g),
            !has_task(tv.take(i as int), id, g) ==> tasks_view(r@) == tv.take(i as int),
        decreases ts.len() - i,
    {
        proof {
            assert(tv.take(i + 1) =~= tv.take(i as int).push(tv[i as int]));
            tv.take(i as int).lemma_filter_push(tv[i as int], keep);
            tv.take(i as int).lemma_filter_len(keep);
            assert(tv[i as int] == task_view(ts@[i as int]));
        }
        let matches = ts[i].track_id == id && match g {
            Some(x) => ts[i].generation == x,
            None => true,
        };
        if !matches {
            let c = copy_task(&ts[i]);
            r.push(c);
            proof {
                assert(tasks_view(r@) =~= tv.take(i as int).filter(keep).push(tv[i as int]));
                if has_task(tv.take(i + 1), id, g) {
                    let w = choose|w: int| 0 <= w < i + 1 && #[trigger] task_matches(tv.take(i + 1)[w], id, g);
                    assert(task_matches(tv.take(i as int)[w], id, g));
                }
            }
        } else {
            proof {
                assert(task_matches(tv.take(i + 1)[i as int], id, g));
                tv.take(i + 1).lemma_filter_len(keep);
            }
        }
        i += 1;
    }
    proof {
        assert(tv.take(ts.len() as int) =~= tv);
    }
    r
}

/// Index of the first task on the track.
fn find_task(ts: &Vec<StemTaskRust>, id: u32) -> (r: Option<usize>)
    ensures
        match r {
            Some(i) => i < ts@.len() && ts@[i as int].track_id == id,
            None => forall|i: int| 0 <= i < ts@.len() ==> #[trigger] ts@[i].track_id != id,
        },
{
    let mut i: usize = 0;
    while i < ts.len()
        invariant
            i <= ts.len(),
            forall|a: int| 0 <= a < i ==> #[trigger] ts@[a].track_id != id,
        decreases ts.len() - i,
    {
        if ts[i].track_id == id {
            return Some(i);
        }
        i += 1;
    }
    None
}

fn contains_id(ids: &Vec<u32>, id: u32) -> (r: bool)
    ensures
        r == ids@.contains(id),
{
    let mut i: usize = 0;
    while i < ids.len()
        invariant
            i <= ids.len(),
            forall|a: int| 0 <= a < i ==> #[trigger] ids@[a] != id,
        decreases ids.len() - i,
    {
        if ids[i] == id {
            proof {
                assert(ids@[i as int] == id);
            }
            return true;
        }
        i += 1;
    }
    false
}

impl DistributedRenderingOrchestrator {
    /// The queued tasks.
    pub closed spec fn queued(&self) -> Seq<(u32, Seq<char>, u64)> {
        tasks_view(self.active_tasks@)
    }

    /// The tasks handed to a renderer and not yet completed or failed.
    pub closed spec fn rendering(&self) -> Seq<(u32, Seq<char>, u64)> {
        tasks_view(self.in_flight@)
    }

    /// The tracks completed in this session, in order.
    pub closed spec fn done(&self) -> Seq<u32> {
        self.completed@
    }

    /// The published outputs: track and path.
    pub closed spec fn outputs(&self) -> Seq<(u32, Seq<char>)> {
        self.completed_outputs@.map_values(|o: (u32, String)| (o.0, o.1@))
    }

    /// The failures, in order.
    pub closed spec fn failures(&self) -> Seq<(u32, BounceTaskState, Option<Seq<char>>)> {
        statuses_view(self.failed@)
    }

    pub closed spec fn error(&self) -> Option<Seq<char>> {
        opt_text(self.last_error)
    }

    /// The current render generation.
    pub closed spec fn current(&self) -> u64 {
        self.generation
    }

    /// The current session was cancelled.
    pub closed spec fn is_cancelled(&self) -> bool {
        self.cancelled
    }

    /// Every queued task belongs to the current generation, and a cancelled
    /// session queues nothing.
    pub closed spec fn wf(&self) -> bool {
        &&& forall|i: int| 0 <= i < self.active_tasks@.len() ==> #[trigger] self.active_tasks@[i].generation == self.generation
        &&& self.cancelled ==> self.active_tasks@.len() == 0
    }

    /// A completion of the track in generation `g` would be accepted.
    pub open spec fn accepts(&self, id: u32, g: u64) -> bool {
        !self.is_cancelled() && g == self.current() && has_task(self.rendering(), id, Some(g))
    }

    pub fn new() -> (r: Self)
        ensures
            r.wf(),
            r.queued().len() == 0,
            r.rendering().len() == 0,
            r.done().len() == 0,
            r.outputs().len() == 0,
            r.failures().len() == 0,
            r.error() is None,
            r.current() == 0,
            !r.is_cancelled(),
    {
        DistributedRenderingOrchestrator {
            active_tasks: Vec::new(),
            in_flight: Vec::new(),
            completed: Vec::new(),
            completed_outputs: Vec::new(),
            failed: Vec::new(),
            last_error: None,
            generation: 0,
            cancelled: false,
        }
    }

    /// Plans a new session: the generation advances, everything pending or
    /// done is dropped, and each track is queued once, in order of first
    /// mention.  Nothing is rendered here.
    pub fn render_project_stems(&mut self, track_ids: Vec<u32>)
        ensures
            final(self).wf(),
            final(self).current() == next_generation(old(self).current()),
            final(self).queued() == planned_tasks(track_ids@, final(self).current()),
            final(self).rendering().len() == 0,
            final(self).done().len() == 0,
            final(self).outputs().len() == 0,
            final(self).failures().len() == 0,
            final(self).error() is None,
            !final(self).is_cancelled(),
    {
        self.generation = self.generation.wrapping_add(1);
        let generation = self.generation;
        self.cancelled = false;
        self.last_error = None;
        self.active_tasks = Vec::new();
        self.in_flight = Vec::new();
        self.completed = Vec::new();
        self.completed_outputs = Vec::new();
        self.failed = Vec::new();
        let mut i: usize = 0;
        while i < track_ids.len()
            invariant
                i <= track_ids.len(),
                self.generation == generation,
                self.queued() == planned_tasks(track_ids@.take(i as int), generation),
                forall|a: int| 0 <= a < self.active_tasks@.len() ==> #[trigger] self.active_tasks@[a].generation == generation,
                !self.cancelled,
                self.last_error is None,
                self.in_flight@.len() == 0,
                self.completed@.len() == 0,
                self.completed_outputs@.len() == 0,
                self.failed@.len() == 0,
            decreases track_ids.len() - i,
        {
            let id = track_ids[i];
            let ghost before = track_ids@.take(i as int);
            proof {
                assert(track_ids@.take(i + 1).drop_last() =~= before);
                assert(track_ids@.take(i + 1).last() == id);
                assert(unique_in_order(before).len() == self.queued().len());
            }
            let dup = find_task(&self.active_tasks, id);
            proof {
                let u = unique_in_order(before);
                match dup {
                    Some(k) => {
                        assert(self.queued()[k as int].0 == u[k as int]);
                        assert(u.contains(id));
                    },
                    None => {
                        if u.contains(id) {
                            let k = choose|k: int| 0 <= k < u.len() && u[k] == id;
                            assert(self.queued()[k].0 == u[k]);
                            assert(self.active_tasks@[k].track_id != id);
                        }
                    },
                }
            }
            if dup.is_none() {
                let name = track_name_text(id);
                let ghost qv = self.queued();
                let task = StemTaskRust { track_id: id, name, generation };
                proof {
                    assert(task_view(task) == (id, track_name(id), generation));
                }
                self.active_tasks.push(task);
                proof {
                    let u = unique_in_order(before);
                    assert(!u.contains(id));
                    assert(unique_in_order(track_ids@.take(i + 1)) == u.push(id));
                    assert(self.queued() =~= qv.push(task_view(task)));
                    assert(planned_tasks(track_ids@.take(i + 1), generation) =~= planned_tasks(before, generation).push(
                        (id, track_name(id), generation),
                    ));
                }
            } else {
                proof {
                    assert(planned_tasks(track_ids@.take(i + 1), generation) =~= planned_tasks(before, generation));
                }
            }
            i += 1;
        }
        proof {
            assert(track_ids@.take(track_ids.len() as int) =~= track_ids@);
        }
    }

    /// The current render generation.
    pub fn generation(&self) -> (r: u64)
        ensures
            r == self.current(),
    {
        self.generation
    }

    /// Cancels the session: queued and in-flight tasks are dropped and the
    /// generation advances, so late completions of the session are refused.
    pub fn cancel_render(&mut self)
        ensures
            final(self).wf(),
            final(self).is_cancelled(),
            final(self).current() == next_generation(old(self).current()),
            final(self).queued().len() == 0,
            final(self).rendering().len() == 0,
            final(self).done() == old(self).done(),
            final(self).outputs() == old(self).outputs(),
            final(self).failures() == old(self).failures(),
            final(self).error() == old(self).error(),
    {
        self.cancelled = true;
        self.generation = self.generation.wrapping_add(1);
        self.active_tasks = Vec::new();
        self.in_flight = Vec::new();
    }

    /// Hands the last queued task to a renderer; it is then in flight.  On
    /// a well-formed orchestrator the task's completion is then accepted.
    pub fn take_next_task(&mut self) -> (r: Option<StemTaskRust>)
        ensures
            old(self).queued().len() == 0 ==> r is None && final(self).queued() == old(self).queued()
                && final(self).rendering() == old(self).rendering(),
            old(self).queued().len() > 0 ==> (r matches Some(t) && task_view(t) == old(self).queued().last()
                && final(self).queued() == old(self).queued().drop_last() && final(self).rendering()
                == old(self).rendering().push(task_view(t))),
            old(self).wf() ==> final(self).wf(),
            old(self).wf() ==> (r matches Some(t) ==> final(self).accepts(t.track_id, t.generation)),
            final(self).done() == old(self).done(),
            final(self).outputs() == old(self).outputs(),
            final(self).failures() == old(self).failures(),
            final(self).error() == old(self).error(),
            final(self).current() == old(self).current(),
            final(self).is_cancelled() == old(self).is_cancelled(),
    {
        let ghost q = self.queued();
        match self.active_tasks.pop() {
            Some(task) => {
                let c = copy_task(&task);
                let ghost rv = self.rendering();
                self.in_flight.push(c);
                proof {
                    assert(self.queued() =~= q.drop_last());
                    assert(self.rendering() =~= rv.push(task_view(task)));
                    assert(task_matches(self.rendering()[rv.len() as int], task.track_id, Some(task.generation)));
                }
                Some(task)
            },
            None => None,
        }
    }

    /// Completes the task in flight in the current generation.
    pub fn complete_task(&mut self, track_id: u32) -> (r: bool)
        ensures
            r == old(self).accepts(track_id, old(self).current()),
            r ==> final(self).rendering() == without_tasks(old(self).rendering(), track_id, Some(old(self).current()))
                && final(self).done() == old(self).done().push(track_id),
            !r ==> final(self).rendering() == old(self).rendering() && final(self).done() == old(self).done(),
            final(self).queued() == old(self).queued(),
            final(self).outputs() == old(self).outputs(),
            final(self).failures() == old(self).failures(),
            final(self).error() == old(self).error(),
            final(self).current() == old(self).current(),
            final(self).is_cancelled() == old(self).is_cancelled(),
            old(self).wf() ==> final(self).wf(),
    {
        let g = self.generation;
        self.complete_task_for_generation(track_id, g)
    }

    /// Completes the task of the generation: refused, with nothing changed,
    /// when the session was cancelled, the generation is not the current
    /// one, or no such task is in flight.
    pub fn complete_task_for_generation(&mut self, track_id: u32, generation: u64) -> (r: bool)
        ensures
            r == old(self).accepts(track_id, generation),
            r ==> final(self).rendering() == without_tasks(old(self).rendering(), track_id, Some(generation))
                && final(self).done() == old(self).done().push(track_id),
            !r ==> final(self).rendering() == old(self).rendering() && final(self).done() == old(self).done(),
            final(self).queued() == old(self).queued(),
            final(self).outputs() == old(self).outputs(),
            final(self).failures() == old(self).failures(),
            final(self).error() == old(self).error(),
            final(self).current() == old(self).current(),
            final(self).is_cancelled() == old(self).is_cancelled(),
            old(self).wf() ==> final(self).wf(),
    {
        if self.cancelled || generation != self.generation {
            return false;
        }
        let kept = keep_tasks(&self.in_flight, track_id, Some(generation));
        if kept.len() == self.in_flight.len() {
            return false;
        }
        self.in_flight = kept;
        self.completed.push(track_id);
        true
    }

    /// The path published for the track, if any (the first one).
    pub fn completed_output_path(&self, track_id: u32) -> (r: Option<&str>)
        ensures
            match r {
                Some(p) => exists|i: int|
                    0 <= i < self.outputs().len() && #[trigger] self.outputs()[i] == (track_id, p@) && forall|j: int|
                        0 <= j < i ==> #[trigger] self.outputs()[j].0 != track_id,
                None => forall|i: int| 0 <= i < self.outputs().len() ==> #[trigger] self.outputs()[i].0 != track_id,
            },
    {
        let ghost ov = self.outputs();
        let mut i: usize = 0;
        while i < self.completed_outputs.len()
            invariant
                i <= self.completed_outputs.len(),
                ov == self.outputs(),
                forall|j: int| 0 <= j < i ==> #[trigger] ov[j].0 != track_id,
            decreases self.completed_outputs.len() - i,
        {
            proof {
                assert(ov[i as int] == (self.completed_outputs@[i as int].0, self.completed_outputs@[i as int].1@));
            }
            if self.completed_outputs[i].0 == track_id {
                let p = self.completed_outputs[i].1.as_str();
                proof {
                    assert(ov[i as int] == (track_id, p@));
                }
                return Some(p);
            }
            i += 1;
        }
        None
    }

    /// Marks every in-flight task of the track failed with the message;
    /// refused, with nothing changed, when none is in flight.
    pub fn fail_task(&mut self, track_id: u32, error: &str) -> (r: bool)
        ensures
            r == has_task(old(self).rendering(), track_id, None),
            final(self).rendering() == without_tasks(old(self).rendering(), track_id, None),
            r ==> final(self).rendering() == without_tasks(old(self).rendering(), track_id, None)
                && final(self).failures() == old(self).failures().push((track_id, BounceTaskState::Failed, Some(error@)))
                && final(self).error() == Some(error@),
            !r ==> final(self).rendering() == old(self).rendering() && final(self).failures() == old(self).failures()
                && final(self).error() == old(self).error(),
            final(self).queued() == old(self).queued(),
            final(self).done() == old(self).done(),
            final(self).outputs() == old(self).outputs(),
            final(self).current() == old(self).current(),
            final(self).is_cancelled() == old(self).is_cancelled(),
            old(self).wf() ==> final(self).wf(),
    {
        let kept = keep_tasks(&self.in_flight, track_id, None);
        if kept.len() == self.in_flight.len() {
            return false;
        }
        self.in_flight = kept;
        let ghost fv = self.failures();
        self.failed.push(
            BounceTaskStatus { track_id, state: BounceTaskState::Failed, error: Some(copy_str(error)) },
        );
        self.last_error = Some(copy_str(error));
        proof {
            assert(self.failures() =~= fv.push((track_id, BounceTaskState::Failed, Some(error@))));
        }
        true
    }

    /// Queues a failed track again: its first failure and its outputs are
    /// dropped; after a cancel a new generation starts first.  Refused, with
    /// nothing changed, when the track has not failed.
    pub fn retry_failed_task(&mut self, track_id: u32) -> (r: bool)
        ensures
            r == (exists|i: int| 0 <= i < old(self).failures().len() && #[trigger] old(self).failures()[i].0 == track_id),
            r ==> ({
                let f = first_failure(old(self).failures(), track_id);
                let restarted = old(self).is_cancelled();
                &&& final(self).failures() == old(self).failures().remove(f)
                &&& final(self).outputs() == old(self).outputs().filter(|o: (u32, Seq<char>)| o.0 != track_id)
                &&& final(self).current() == if restarted {
                    next_generation(old(self).current())
                } else {
                    old(self).current()
                }
                &&& !final(self).is_cancelled()
                &&& final(self).queued() == (if restarted {
                    Seq::empty()
                } else {
                    old(self).queued()
                }).push((track_id, track_name(track_id), final(self).current()))
                &&& final(self).rendering() == if restarted {
                    Seq::empty()
                } else {
                    old(self).rendering()
                }
                &&& final(self).error() == last_failure_error(final(self).failures())
            }),
            !r ==> final(self).queued() == old(self).queued() && final(self).rendering() == old(self).rendering()
                && final(self).failures() == old(self).failures() && final(self).outputs() == old(self).outputs()
                && final(self).error() == old(self).error() && final(self).current() == old(self).current()
                && final(self).is_cancelled() == old(self).is_cancelled(),
            final(self).done() == old(self).done(),
            old(self).wf() ==> final(self).wf(),
    {
        let ghost fv = self.failures();
        let idx = match self.failure_index(track_id) {
            Some(idx) => idx,
            None => {
                return false;
            },
        };
        proof {
            assert(fv[idx as int].0 == track_id);
            let f = first_failure(fv, track_id);
            assert(0 <= f < fv.len() && fv[f].0 == track_id);
            if f < idx {
                assert(fv[f].0 != track_id);
            }
            if f > idx {
                assert(fv[idx as int].0 != track_id);
            }
        }
        self.failed.remove(idx);
        proof {
            assert(self.failures() =~= fv.remove(idx as int));
        }
        let ghost ov = self.outputs();
        let ghost keep = |o: (u32, Seq<char>)| o.0 != track_id;
        let mut outs: Vec<(u32, String)> = Vec::new();
        let mut k: usize = 0;
        while k < self.completed_outputs.len()
            invariant
                k <= self.completed_outputs.len(),
                ov == self.outputs(),
                keep == (|o: (u32, Seq<char>)| o.0 != track_id),
                outs@.map_values(|o: (u32, String)| (o.0, o.1@)) == ov.take(k as int).filter(keep),
            decreases self.completed_outputs.len() - k,
        {
            proof {
                assert(ov.take(k + 1) =~= ov.take(k as int).push(ov[k as int]));
                ov.take(k as int).lemma_filter_push(ov[k as int], keep);
                assert(ov[k as int] == (self.completed_outputs@[k as int].0, self.completed_outputs@[k as int].1@));
            }
            if self.completed_outputs[k].0 != track_id {
                let ghost before = outs@;
                let p = copy_str(self.completed_outputs[k].1.as_str());
                outs.push((self.completed_outputs[k].0, p));
                proof {
                    assert(outs@.map_values(|o: (u32, String)| (o.0, o.1@)) =~= before.map_values(
                        |o: (u32, String)| (o.0, o.1@),
                    ).push(ov[k as int]));
                }
            }
            k += 1;
        }
        proof {
            assert(ov.take(self.completed_outputs.len() as int) =~= ov);
        }
        self.completed_outputs = outs;
        if self.cancelled {
            self.generation = self.generation.wrapping_add(1);
            self.cancelled = false;
            self.active_tasks = Vec::new();
            self.in_flight = Vec::new();
        }
        let ghost qv = self.queued();
        let name = track_name_text(track_id);
        self.active_tasks.push(StemTaskRust { track_id, name, generation: self.generation });
        proof {
            assert(self.queued() =~= qv.push((track_id, track_name(track_id), self.generation)));
        }
        let n = self.failed.len();
        self.last_error = if n == 0 {
            None
        } else {
            copy_opt_text(&self.failed[n - 1].error)
        };
        proof {
            if n > 0 {
                assert(self.failures().last() == status_view(self.failed@[n - 1]));
            }
        }
        true
    }

    /// Index of the first failure of the track.
    fn failure_index(&self, track_id: u32) -> (r: Option<usize>)
        ensures
            match r {
                Some(i) => i < self.failures().len() && self.failures()[i as int].0 == track_id && forall|j: int|
                    0 <= j < i ==> #[trigger] self.failures()[j].0 != track_id,
                None => forall|i: int| 0 <= i < self.failures().len() ==> #[trigger] self.failures()[i].0 != track_id,
            },
    {
        let ghost fv = self.failures();
        let mut idx: usize = 0;
        while idx < self.failed.len()
            invariant
                idx <= self.failed.len(),
                fv == self.failures(),
                forall|j: int| 0 <= j < idx ==> #[trigger] fv[j].0 != track_id,
            decreases self.failed.len() - idx,
        {
            proof {
                assert(fv[idx as int].0 == self.failed@[idx as int].track_id);
            }
            if self.failed[idx].track_id == track_id {
                return Some(idx);
            }
            idx += 1;
        }
        None
    }

    /// Queued, in-flight and failed tasks together.
    pub fn pending_count(&self) -> (r: usize)
        requires
            self.queued().len() + self.rendering().len() + self.failures().len() <= usize::MAX,
        ensures
            r == self.queued().len() + self.rendering().len() + self.failures().len(),
    {
        self.active_tasks.len() + self.in_flight.len() + self.failed.len()
    }

    pub fn completed_count(&self) -> (r: usize)
        ensures
            r == self.done().len(),
    {
        self.completed.len()
    }

    /// The status of every task: queued, rendering, completed, failed.
    pub fn statuses(&self) -> (r: Vec<BounceTaskStatus>)
        ensures
            statuses_view(r@) == status_list(self.queued(), self.rendering(), self.done(), self.failures()),
    {
        let ghost want = status_list(self.queued(), self.rendering(), self.done(), self.failures());
        let ghost a = self.queued().len();
        let ghost b = self.rendering().len();
        let ghost c = self.done().len();
        assert(want.len() == a + b + c + self.failures().len());
        let mut r: Vec<BounceTaskStatus> = Vec::new();
        let mut i: usize = 0;
        while i < self.active_tasks.len()
            invariant
                i <= self.active_tasks.len(),
                want == status_list(self.queued(), self.rendering(), self.done(), self.failures()),
                a == self.queued().len(),
                statuses_view(r@) == want.take(i as int),
            decreases self.active_tasks.len() - i,
        {
            let ghost before = statuses_view(r@);
            let st = BounceTaskStatus { track_id: self.active_tasks[i].track_id, state: BounceTaskState::Queued, error: None };
            r.push(st);
            proof {
                assert(self.queued()[i as int].0 == self.active_tasks@[i as int].track_id);
                assert(want[i as int] == status_view(st));
                assert(statuses_view(r@) =~= before.push(status_view(st)));
                assert(want.take(i + 1) =~= want.take(i as int).push(want[i as int]));
            }
            i += 1;
        }
        let mut i: usize = 0;
        while i < self.in_flight.len()
            invariant
                i <= self.in_flight.len(),
                want == status_list(self.queued(), self.rendering(), self.done(), self.failures()),
                a == self.queued().len(),
                b == self.rendering().len(),
                statuses_view(r@) == want.take(a + i),
            decreases self.in_flight.len() - i,
        {
            let ghost before = statuses_view(r@);
            let st = BounceTaskStatus { track_id: self.in_flight[i].track_id, state: BounceTaskState::Rendering, error: None };
            r.push(st);
            proof {
                assert(self.rendering()[i as int].0 == self.in_flight@[i as int].track_id);
                assert(want[a + i] == status_view(st));
                assert(statuses_view(r@) =~= before.push(status_view(st)));
                assert(want.take(a + i + 1) =~= want.take(a + i).push(want[a + i]));
            }
            i += 1;
        }
        let mut i: usize = 0;
        while i < self.completed.len()
            invariant
                i <= self.completed.len(),
                want == status_list(self.queued(), self.rendering(), self.done(), self.failures()),
                a == self.queued().len(),
                b == self.rendering().len(),
                c == self.done().len(),
                statuses_view(r@) == want.take(a + b + i),
            decreases self.completed.len() - i,
        {
            let ghost before = statuses_view(r@);
            let st = BounceTaskStatus { track_id: self.completed[i], state: BounceTaskState::Completed, error: None };
            r.push(st);
            proof {
                assert(self.done()[i as int] == self.completed@[i as int]);
                assert(want[a + b + i] == status_view(st));
                assert(statuses_view(r@) =~= before.push(status_view(st)));
                assert(want.take(a + b + i + 1) =~= want.take(a + b + i).push(want[a + b + i]));
            }
            i += 1;
        }
        let mut i: usize = 0;
        while i < self.failed.len()
            invariant
                i <= self.failed.len(),
                want == status_list(self.queued(), self.rendering(), self.done(), self.failures()),
                a == self.queued().len(),
                b == self.rendering().len(),
                c == self.done().len(),
                statuses_view(r@) == want.take(a + b + c + i),
            decreases self.failed.len() - i,
        {
            let ghost before = statuses_view(r@);
            let f = &self.failed[i];
            let st = BounceTaskStatus { track_id: f.track_id, state: f.state, error: copy_opt_text(&f.error) };
            r.push(st);
            proof {
                assert(self.failures()[i as int] == status_view(*f));
                assert(want[a + b + c + i] == status_view(st));
                assert(statuses_view(r@) =~= before.push(status_view(st)));
                assert(want.take(a + b + c + i + 1) =~= want.take(a + b + c + i).push(want[a + b + c + i]));
            }
            i += 1;
        }
        proof {
            assert(want.take(a + b + c + self.failed.len()) =~= want);
        }
        r
    }

    pub fn last_error(&self) -> (r: Option<&str>)
        ensures
            match r {
                Some(e) => self.error() == Some(e@),
                None => self.error() is None,
            },
    {
        match &self.last_error {
            Some(e) => Some(e.as_str()),
            None => None,
        }
    }

    /// Checks that a finished render may be written to `path`: the task is
    /// in flight in the current, uncancelled generation and the path is
    /// non-empty and not yet published.  A bad path fails the task.
    pub fn check_output_for_generation(&mut self, track_id: u32, generation: u64, path: &str) -> (r: Result<
        (),
        PublishError,
    >)
        ensures
            !old(self).accepts(track_id, generation) ==> r == Err::<(), PublishError>(PublishError::InvalidTask)
                && final(self).rendering() == old(self).rendering() && final(self).failures() == old(self).failures()
                && final(self).error() == old(self).error(),
            old(self).accepts(track_id, generation) && (path@.len() == 0 || exists|i: int|
                0 <= i < old(self).outputs().len() && #[trigger] old(self).outputs()[i].1 == path@) ==> r == Err::<
                (),
                PublishError,
            >(PublishError::InvalidPath) && final(self).rendering() == without_tasks(
                old(self).rendering(),
                track_id,
                None,
            ) && final(self).failures() == old(self).failures().push(
                (track_id, BounceTaskState::Failed, Some("output path is empty or already published"@)),
            ),
            old(self).accepts(track_id, generation) && path@.len() > 0 && (forall|i: int|
                0 <= i < old(self).outputs().len() ==> #[trigger] old(self).outputs()[i].1 != path@) ==> r is Ok
                && final(self).rendering() == old(self).rendering() && final(self).failures() == old(self).failures()
                && final(self).error() == old(self).error(),
            final(self).queued() == old(self).queued(),
            final(self).done() == old(self).done(),
            final(self).outputs() == old(self).outputs(),
            final(self).current() == old(self).current(),
            final(self).is_cancelled() == old(self).is_cancelled(),
            old(self).wf() ==> final(self).wf(),
    {
        if self.cancelled || generation != self.generation {
            return Err(PublishError::InvalidTask);
        }
        let kept = keep_tasks(&self.in_flight, track_id, Some(generation));
        if kept.len() == self.in_flight.len() {
            return Err(PublishError::InvalidTask);
        }
        let ghost ov = self.outputs();
        let mut taken = path.unicode_len() == 0;
        let mut i: usize = 0;
        while i < self.completed_outputs.len() && !taken
            invariant
                i <= self.completed_outputs.len(),
                ov == self.outputs(),
                taken == (path@.len() == 0 || exists|j: int| 0 <= j < i && #[trigger] ov[j].1 == path@),
            decreases self.completed_outputs.len() - i,
        {
            proof {
                assert(ov[i as int].1 == self.completed_outputs@[i as int].1@);
            }
            if str_eq(self.completed_outputs[i].1.as_str(), path) {
                taken = true;
            }
            i += 1;
        }
        if taken {
            proof {
                if path@.len() > 0 {
                    let j = choose|j: int| 0 <= j < i && #[trigger] ov[j].1 == path@;
                    assert(ov[j].1 == path@);
                }
                reveal_strlit("output path is empty or already published");
                assert(has_task(self.rendering(), track_id, Some(generation)));
                let w = choose|w: int| 0 <= w < self.rendering().len() && #[trigger] task_matches(self.rendering()[w], track_id, Some(generation));
                assert(task_matches(self.rendering()[w], track_id, None));
            }
            self.fail_task(track_id, "output path is empty or already published");
            return Err(PublishError::InvalidPath);
        }
        Ok(())
    }

    /// Publishes a render after the writer reported on it: a write error
    /// fails the task; otherwise the task completes and the path is
    /// published, unless the completion is refused.
    pub fn publish_output_for_generation(
        &mut self,
        track_id: u32,
        generation: u64,
        path: &str,
        written: Result<(), String>,
    ) -> (r: Result<(), PublishError>)
        ensures
            written matches Err(e) ==> r == Err::<(), PublishError>(PublishError::Write(e)) && final(self).rendering()
                == without_tasks(old(self).rendering(), track_id, None) && final(self).done() == old(self).done()
                && final(self).outputs() == old(self).outputs() && final(self).failures() == if has_task(
                old(self).rendering(),
                track_id,
                None,
            ) {
                old(self).failures().push((track_id, BounceTaskState::Failed, Some(e@)))
            } else {
                old(self).failures()
            },
            written is Ok && !old(self).accepts(track_id, generation) ==> r == Err::<(), PublishError>(
                PublishError::InvalidTask,
            ) && final(self).rendering() == old(self).rendering() && final(self).done() == old(self).done()
                && final(self).outputs() == old(self).outputs() && final(self).failures() == old(self).failures(),
            written is Ok && old(self).accepts(track_id, generation) ==> r is Ok && final(self).rendering()
                == without_tasks(old(self).rendering(), track_id, Some(generation)) && final(self).done()
                == old(self).done().push(track_id) && final(self).outputs() == old(self).outputs().push(
                (track_id, path@),
            ) && final(self).failures() == old(self).failures(),
            final(self).queued() == old(self).queued(),
            final(self).current() == old(self).current(),
            final(self).is_cancelled() == old(self).is_cancelled(),
            old(self).wf() ==> final(self).wf(),
    {
        match written {
            Err(e) => {
                let failed = self.fail_task(track_id, e.as_str());
                Err(PublishError::Write(e))
            },
            Ok(()) => {
                if !self.complete_task_for_generation(track_id, generation) {
                    return Err(PublishError::InvalidTask);
                }
                let ghost ov = self.outputs();
                self.completed_outputs.push((track_id, copy_str(path)));
                proof {
                    assert(self.outputs() =~= ov.push((track_id, path@)));
                }
                Ok(())
            },
        }
    }

    /// The session is sound: no pending error, each track completed once,
    /// every output of a completed track, non-empty and on disk
    /// (`on_disk[k]` tells whether output `k` is a file), queued tasks
    /// named after their tracks and distinct, in-flight tasks neither
    /// completed nor queued, and every failure recorded with a message.
    pub fn audit_parallel_bounce_orchestrator(&self, on_disk: &[bool]) -> (r: bool)
        requires
            on_disk@.len() == self.outputs().len(),
        ensures
            r == ({
                &&& self.error() is None
                &&& forall|i: int, j: int| 0 <= j < i < self.done().len() ==> #[trigger] self.done()[j] != #[trigger] self.done()[i]
                &&& forall|k: int|
                    0 <= k < self.outputs().len() ==> self.done().contains(#[trigger] self.outputs()[k].0)
                        && self.outputs()[k].1.len() > 0 && on_disk@[k]
                &&& forall|i: int| 0 <= i < self.queued().len() ==> #[trigger] queued_ok(self.queued(), i)
                &&& forall|i: int|
                    0 <= i < self.rendering().len() ==> !self.done().contains(#[trigger] self.rendering()[i].0)
                        && !has_task(self.queued(), self.rendering()[i].0, None)
                &&& forall|i: int|
                    0 <= i < self.failures().len() ==> (#[trigger] self.failures()[i]).1 == BounceTaskState::Failed
                        && self.failures()[i].2 is Some
            }),
    {
        if self.last_error.is_some() {
            return false;
        }
        if !self.completed_unique() || !self.outputs_ok(on_disk) || !self.queue_ok() || !self.rendering_ok() {
            return false;
        }
        let ghost fv = self.failures();
        let mut i: usize = 0;
        while i < self.failed.len()
            invariant
                i <= self.failed.len(),
                fv == self.failures(),
                forall|a: int| 0 <= a < i ==> (#[trigger] fv[a]).1 == BounceTaskState::Failed && fv[a].2 is Some,
            decreases self.failed.len() - i,
        {
            proof {
                assert(fv[i as int] == status_view(self.failed@[i as int]));
            }
            if self.failed[i].state != BounceTaskState::Failed || self.failed[i].error.is_none() {
                return false;
            }
            i += 1;
        }
        true
    }

    fn completed_unique(&self) -> (r: bool)
        ensures
            r == forall|i: int, j: int| 0 <= j < i < self.done().len() ==> #[trigger] self.done()[j] != #[trigger] self.done()[i],
    {
        let mut i: usize = 0;
        while i < self.completed.len()
            invariant
                i <= self.completed.len(),
                forall|a: int, b: int| 0 <= b < a < i ==> #[trigger] self.completed@[b] != #[trigger] self.completed@[a],
            decreases self.completed.len() - i,
        {
            let mut j: usize = 0;
            while j < i
                invariant
                    j <= i < self.completed.len(),
                    forall|b: int| 0 <= b < j ==> #[trigger] self.completed@[b] != self.completed@[i as int],
                decreases i - j,
            {
                if self.completed[j] == self.completed[i] {
                    proof {
                        assert(self.done()[j as int] == self.done()[i as int]);
                    }
                    return false;
                }
                j += 1;
            }
            i += 1;
        }
        true
    }

    fn outputs_ok(&self, on_disk: &[bool]) -> (r: bool)
        requires
            on_disk@.len() == self.outputs().len(),
        ensures
            r == forall|k: int|
                0 <= k < self.outputs().len() ==> self.done().contains(#[trigger] self.outputs()[k].0)
                    && self.outputs()[k].1.len() > 0 && on_disk@[k],
    {
        let ghost ov = self.outputs();
        let mut k: usize = 0;
        while k < self.completed_outputs.len()
            invariant
                k <= self.completed_outputs.len(),
                ov == self.outputs(),
                on_disk@.len() == ov.len(),
                forall|a: int| 0 <= a < k ==> self.done().contains(#[trigger] ov[a].0) && ov[a].1.len() > 0 && on_disk@[a],
            decreases self.completed_outputs.len() - k,
        {
            proof {
                assert(ov[k as int] == (self.completed_outputs@[k as int].0, self.completed_outputs@[k as int].1@));
            }
            let p = self.completed_outputs[k].1.as_str();
            proof {
                assert(p@ == ov[k as int].1);
            }
            let known = contains_id(&self.completed, self.completed_outputs[k].0);
            let empty = p.unicode_len() == 0;
            if !known || empty || !on_disk[k] {
                proof {
                    assert(!(self.done().contains(self.outputs()[k as int].0) && self.outputs()[k as int].1.len() > 0
                        && on_disk@[k as int]));
                }
                return false;
            }
            k += 1;
        }
        true
    }

    fn queue_ok(&self) -> (r: bool)
        ensures
            r == forall|i: int| 0 <= i < self.queued().len() ==> #[trigger] queued_ok(self.queued(), i),
    {
        let ghost q = self.queued();
        let mut i: usize = 0;
        while i < self.active_tasks.len()
            invariant
                i <= self.active_tasks.len(),
                q == self.queued(),
                forall|a: int| 0 <= a < i ==> #[trigger] queued_ok(q, a),
            decreases self.active_tasks.len() - i,
        {
            let t = &self.active_tasks[i];
            proof {
                assert(q[i as int] == task_view(*t));
            }
            let name = track_name_text(t.track_id);
            if blank(t.name.as_str()) || !str_eq(t.name.as_str(), name.as_str()) {
                proof {
                    assert(!queued_ok(q, i as int));
                }
                return false;
            }
            let tid = t.track_id;
            let mut j: usize = 0;
            while j < i
                invariant
                    j <= i < self.active_tasks.len(),
                    q == self.queued(),
                    q[i as int].0 == tid,
                    forall|b: int| 0 <= b < j ==> #[trigger] q[b].0 != q[i as int].0,
                decreases i - j,
            {
                proof {
                    assert(q[j as int].0 == self.active_tasks@[j as int].track_id);
                }
                if self.active_tasks[j].track_id == tid {
                    proof {
                        assert(q[j as int].0 == q[i as int].0);
                        assert(!queued_ok(q, i as int));
                    }
                    return false;
                }
                j += 1;
            }
            i += 1;
        }
        true
    }

    fn rendering_ok(&self) -> (r: bool)
        ensures
            r == forall|i: int|
                0 <= i < self.rendering().len() ==> !self.done().contains(#[trigger] self.rendering()[i].0)
                    && !has_task(self.queued(), self.rendering()[i].0, None),
    {
        let ghost rv = self.rendering();
        let mut i: usize = 0;
        while i < self.in_flight.len()
            invariant
                i <= self.in_flight.len(),
                rv == self.rendering(),
                forall|a: int| 0 <= a < i ==> !self.done().contains(#[trigger] rv[a].0) && !has_task(self.queued(), rv[a].0, None),
            decreases self.in_flight.len() - i,
        {
            let id = self.in_flight[i].track_id;
            proof {
                assert(rv[i as int].0 == id);
            }
            if contains_id(&self.completed, id) {
                return false;
            }
            match find_task(&self.active_tasks, id) {
                Some(k) => {
                    proof {
                        assert(task_matches(self.queued()[k as int], id, None));
                    }
                    return false;
                },
                None => {
                    proof {
                        assert forall|k: int| 0 <= k < self.queued().len() implies !task_matches(#[trigger] self.queued()[k], id, None) by {
                            assert(self.queued()[k].0 == self.active_tasks@[k].track_id);
                        }
                    }
                },
            }
            i += 1;
        }
        true
    }
}

impl Default for DistributedRenderingOrchestrator {
    fn default() -> (r: Self)
        ensures
            r.wf(),
            r.queued().len() == 0,
            r.rendering().len() == 0,
            r.done().len() == 0,
            r.outputs().len() == 0,
            r.failures().len() == 0,
            r.error() is None,
            r.current() == 0,
            !r.is_cancelled(),
    {
        Self::new()
    }
}

} // verus!
