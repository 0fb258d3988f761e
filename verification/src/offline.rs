//! Offline processing jobs: submission with per-region versions, render
//! generations, and the audit of the job list.
use vstd::prelude::*;
use crate::keyed::text_views;
use crate::text::{
    blank, byte_len, chars_of, contains_char, copy_str, decimal, is_blank, is_whitespace, is_ws, push_decimal,
    push_str, spec_trim, str_eq, string_push, trim, within_bytes,
};

verus! {

#[derive(Debug, Clone)]
pub struct OfflineProcessJob {
    pub id: u32,
    pub region_name: String,
    pub process_steps: Vec<String>,
    pub version_index: u32,
}

/// The offline jobs, their published outputs and the current render
/// generation; a completion is published only for the current generation.
pub struct OfflineOrchestrator {
    pub jobs: Vec<OfflineProcessJob>,
    pub last_error: Option<String>,
    /// Job id and output path of every published render.
    pub completed_outputs: Vec<(u32, String)>,
    /// The current render generation.
    pub generation: u64,
}

/// A job as plain values.
pub struct JobView {
    pub id: u32,
    pub region_name: Seq<char>,
    pub process_steps: Seq<Seq<char>>,
    pub version_index: u32,
}

pub open spec fn job_view(j: OfflineProcessJob) -> JobView {
    JobView {
        id: j.id,
        region_name: j.region_name@,
        process_steps: text_views(j.process_steps@),
        version_index: j.version_index,
    }
}

pub open spec fn jobs_view(js: Seq<OfflineProcessJob>) -> Seq<JobView> {
    js.map_values(|j: OfflineProcessJob| job_view(j))
}

/// A step is non-blank text of at most 512 bytes without NUL.
pub open spec fn step_ok(s: Seq<char>) -> bool {
    !is_blank(s) && byte_len(s) <= 512 && !s.contains('\0')
}

/// One to 256 sound steps.
pub open spec fn steps_ok(steps: Seq<Seq<char>>) -> bool {
    1 <= steps.len() <= 256 && forall|i: int| 0 <= i < steps.len() ==> #[trigger] step_ok(steps[i])
}

/// A region name is non-blank text of at most 256 bytes without NUL.
pub open spec fn region_ok(name: Seq<char>) -> bool {
    !is_blank(name) && byte_len(name) <= 256 && !name.contains('\0')
}

/// The number of jobs on the region.
pub open spec fn region_count(js: Seq<JobView>, name: Seq<char>) -> nat {
    js.filter(|j: JobView| j.region_name == name).len()
}

/// The generation after the next one starts.
pub open spec fn next_generation(g: u64) -> u64 {
    if g == u64::MAX {
        0
    } else {
        (g + 1) as u64
    }
}

/// A job is sound.
pub open spec fn job_ok(j: JobView) -> bool {
    j.id > 0 && region_ok(j.region_name) && steps_ok(j.process_steps)
}

/// Some job carries the id.
pub open spec fn has_job(js: Seq<JobView>, id: u32) -> bool {
    exists|i: int| 0 <= i < js.len() && #[trigger] js[i].id == id
}

/// The job at `i` and its successor are on different regions, or the
/// successor's version is higher.
pub open spec fn versions_rise(js: Seq<JobView>, i: int) -> bool {
    js[i].version_index < js[i + 1].version_index || js[i].region_name != js[i + 1].region_name
}

/// The published output at `k` belongs to a job and is on disk.
pub open spec fn output_ok(js: Seq<JobView>, outputs: Seq<(u32, String)>, on_disk: Seq<bool>, k: int) -> bool {
    has_job(js, outputs[k].0) && on_disk[k]
}

fn steps_valid(steps: &Vec<String>) -> (r: bool)
    ensures
        r == steps_ok(text_views(steps@)),
{
    let ghost tv = text_views(steps@);
    if steps.len() == 0 || steps.len() > 256 {
        return false;
    }
    let mut i: usize = 0;
    while i < steps.len()
        invariant
            i <= steps.len(),
            1 <= steps.len() <= 256,
            tv == text_views(steps@),
            forall|a: int| 0 <= a < i ==> #[trigger] step_ok(tv[a]),
        decreases steps.len() - i,
    {
        let s = steps[i].as_str();
        proof {
            assert(tv[i as int] == s@);
        }
        if blank(s) || !within_bytes(s, 512) || contains_char(s, '\0') {
            proof {
                assert(!step_ok(tv[i as int]));
            }
            return false;
        }
        i += 1;
    }
    true
}

fn region_valid(name: &str) -> (r: bool)
    ensures
        r == region_ok(name@),
{
    !blank(name) && within_bytes(name, 256) && !contains_char(name, '\0')
}

/// Why a render could not be published.
#[derive(Debug, Clone, PartialEq, Eq)]
pub enum RenderError {
    /// The output folder is missing or not a folder.
    InvalidPath,
    /// The job is unknown, listed twice, already published, or not of the
    /// current render generation; or the batch cannot start.
    InvalidTask,
    /// The renderer gave no samples.
    EmptyBuffer,
    /// The sample rate is not within 1..=384000.
    InvalidSampleRate,
    /// The channel count is not within 1..=32.
    InvalidChannelCount,
    /// Writing the file failed, with the writer's message.
    Write(String),
}

/// A char kept in a file name as it is.
pub open spec fn name_char_kept(c: char) -> bool {
    ('0' <= c && c <= '9') || ('a' <= c && c <= 'z') || ('A' <= c && c <= 'Z') || c == '-' || c == '_' || c == '.'
}

/// The file-name form of the chars: letters, digits, `-`, `_` and `.`
/// kept, whitespace turned into `_`, anything else dropped.
pub open spec fn name_chars(s: Seq<char>) -> Seq<char>
    decreases s.len(),
{
    if s.len() == 0 {
        Seq::empty()
    } else {
        let c = s.last();
        name_chars(s.drop_last()) + if name_char_kept(c) {
            seq![c]
        } else if is_ws(c) {
            seq!['_']
        } else {
            Seq::empty()
        }
    }
}

/// A region name made safe for a file name: its first 80 chars as
/// `name_chars` keeps them, or `region` when nothing is left.
pub open spec fn safe_name(name: Seq<char>) -> Seq<char> {
    let kept = name_chars(if name.len() <= 80 {
        name
    } else {
        name.take(80)
    });
    if kept.len() == 0 {
        "region"@
    } else {
        kept
    }
}

/// Decimal digits padded with zeros to at least four.
pub open spec fn four_digits(d: Seq<char>) -> Seq<char> {
    if d.len() >= 4 {
        d
    } else {
        Seq::new((4 - d.len()) as nat, |i: int| '0') + d
    }
}

/// The file a job's render is written to: `<id, four digits>_<safe
/// region name>.wav`.
pub open spec fn render_name(job_id: u32, region: Seq<char>) -> Seq<char> {
    four_digits(decimal(job_id as nat)) + "_"@ + safe_name(region) + ".wav"@
}

/// A region name made safe for a file name (see `safe_name`).
pub fn safe_filename(name: &str) -> (r: String)
    ensures
        r@ == safe_name(name@),
{
    let cs = chars_of(name);
    let n: usize = if cs.len() < 80 { cs.len() } else { 80 };
    let ghost src = if name@.len() <= 80 { name@ } else { name@.take(80) };
    proof {
        assert(src =~= cs@.take(n as int));
    }
    let mut r = String::new();
    let mut i: usize = 0;
    while i < n
        invariant
            i <= n <= cs@.len(),
            src == cs@.take(n as int),
            r@ == name_chars(src.take(i as int)),
        decreases n - i,
    {
        let c = cs[i];
        proof {
            assert(src.take(i + 1).drop_last() =~= src.take(i as int));
            assert(src.take(i + 1).last() == c);
        }
        let ghost before = r@;
        if ('0' <= c && c <= '9') || ('a' <= c && c <= 'z') || ('A' <= c && c <= 'Z') || c == '-' || c == '_' || c
            == '.' {
            string_push(&mut r, c);
            proof {
                assert(r@ =~= before + seq![c]);
            }
        } else if is_whitespace(c) {
            string_push(&mut r, '_');
            proof {
                assert(r@ =~= before + seq!['_']);
            }
        } else {
            proof {
                assert(r@ =~= before + Seq::<char>::empty());
            }
        }
        i += 1;
    }
    proof {
        assert(src.take(n as int) =~= src);
        reveal_strlit("region");
    }
    if r.as_str().unicode_len() == 0 {
        copy_str("region")
    } else {
        r
    }
}

/// The file name of a job's render (see `render_name`).
pub fn render_file_name(job_id: u32, region: &str) -> (r: String)
    ensures
        r@ == render_name(job_id, region@),
{
    let mut digits = String::new();
    push_decimal(&mut digits, job_id as u64);
    let mut r = String::new();
    let mut k: usize = digits.as_str().unicode_len();
    proof {
        assert(digits@ =~= Seq::<char>::empty() + decimal(job_id as nat));
    }
    let ghost pad_len: int = if digits@.len() >= 4 { 0 } else { 4 - digits@.len() };
    while k < 4
        invariant
            digits@ == decimal(job_id as nat),
            digits@.len() <= k <= 4 || (k == digits@.len() && k >= 4),
            r@ == Seq::new((k - digits@.len()) as nat, |i: int| '0'),
        decreases 4 - k,
    {
        let ghost before = r@;
        string_push(&mut r, '0');
        proof {
            assert(r@ =~= Seq::new((k + 1 - digits@.len()) as nat, |i: int| '0'));
        }
        k += 1;
    }
    push_str(&mut r, digits.as_str());
    proof {
        assert(r@ =~= four_digits(decimal(job_id as nat)));
    }
    push_str(&mut r, "_");
    let safe = safe_filename(region);
    push_str(&mut r, safe.as_str());
    push_str(&mut r, ".wav");
    r
}

/// A published output is the job's or sits at the path.
pub open spec fn output_hit(o: (u32, String), job_id: u32, path: Seq<char>) -> bool {
    o.0 == job_id || o.1@ == path
}

/// Published outputs as plain values: job id and path.
pub open spec fn outputs_view(os: Seq<(u32, String)>) -> Seq<(u32, Seq<char>)> {
    os.map_values(|o: (u32, String)| (o.0, o.1@))
}

/// Render `k` of a batch may be published: its job is known, listed
/// nowhere earlier in the batch and not yet published, and its buffer is
/// not empty.
pub open spec fn batch_entry_ok(js: Seq<JobView>, outputs: Seq<(u32, String)>, renders: Seq<(u32, bool)>, k: int) -> bool {
    &&& has_job(js, renders[k].0)
    &&& forall|x: int| 0 <= x < k ==> #[trigger] renders[x].0 != renders[k].0
    &&& forall|x: int| 0 <= x < outputs.len() ==> #[trigger] outputs[x].0 != renders[k].0
    &&& !renders[k].1
}

/// Render `k` names a known job, listed once and not yet published.
pub open spec fn entry_task_ok(js: Seq<JobView>, outputs: Seq<(u32, String)>, renders: Seq<(u32, bool)>, k: int) -> bool {
    &&& has_job(js, renders[k].0)
    &&& forall|x: int| 0 <= x < k ==> #[trigger] renders[x].0 != renders[k].0
    &&& forall|x: int| 0 <= x < outputs.len() ==> #[trigger] outputs[x].0 != renders[k].0
}

/// The refusal of the first bad render among the first `m`: `InvalidTask`
/// for an unknown, repeated or published job, else `EmptyBuffer` for an
/// empty buffer.
pub open spec fn batch_fault(js: Seq<JobView>, outputs: Seq<(u32, String)>, renders: Seq<(u32, bool)>, m: int) -> Option<
    RenderError,
>
    decreases m,
{
    if m <= 0 {
        None
    } else if batch_fault(js, outputs, renders, m - 1) is Some {
        batch_fault(js, outputs, renders, m - 1)
    } else if !entry_task_ok(js, outputs, renders, m - 1) {
        Some(RenderError::InvalidTask)
    } else if renders[m - 1].1 {
        Some(RenderError::EmptyBuffer)
    } else {
        None
    }
}

proof fn lemma_batch_fault_stays(js: Seq<JobView>, outputs: Seq<(u32, String)>, renders: Seq<(u32, bool)>, k: int, m: int)
    requires
        0 < k <= m,
        batch_fault(js, outputs, renders, k) is Some,
    ensures
        batch_fault(js, outputs, renders, m) == batch_fault(js, outputs, renders, k),
    decreases m - k,
{
    if m > k {
        lemma_batch_fault_stays(js, outputs, renders, k, m - 1);
    }
}

impl OfflineOrchestrator {
    pub open spec fn job_list(&self) -> Seq<JobView> {
        jobs_view(self.jobs@)
    }

    fn knows_job(&self, id: u32) -> (r: bool)
        ensures
            r == has_job(self.job_list(), id),
    {
        let ghost js = self.job_list();
        let mut i: usize = 0;
        while i < self.jobs.len()
            invariant
                i <= self.jobs.len(),
                js == self.job_list(),
                forall|a: int| 0 <= a < i ==> #[trigger] js[a].id != id,
            decreases self.jobs.len() - i,
        {
            if self.jobs[i].id == id {
                proof {
                    assert(js[i as int].id == id);
                }
                return true;
            }
            i += 1;
        }
        false
    }

    pub fn new() -> (r: Self)
        ensures
            r.jobs@.len() == 0,
            r.last_error is None,
            r.completed_outputs@.len() == 0,
            r.generation == 0,
    {
        OfflineOrchestrator { jobs: Vec::new(), last_error: None, completed_outputs: Vec::new(), generation: 0 }
    }

    /// Queues a job under the trimmed region name; its version counts the
    /// jobs already on the region.  A job with id 0, an unsound name or
    /// steps, an id already queued, or 65536 queued jobs is refused and
    /// `last_error` says so.
    pub fn submit_job(&mut self, id: u32, name: &str, steps: Vec<String>)
        ensures
            ({
                let ok = id != 0 && region_ok(name@) && steps_ok(text_views(steps@)) && old(self).jobs@.len()
                    < 65_536 && !has_job(old(self).job_list(), id);
                &&& ok ==> final(self).job_list() == old(self).job_list().push(
                    JobView {
                        id: id,
                        region_name: spec_trim(name@),
                        process_steps: text_views(steps@),
                        version_index: region_count(old(self).job_list(), spec_trim(name@)) as u32,
                    },
                ) && final(self).last_error == old(self).last_error
                &&& !ok ==> final(self).job_list() == old(self).job_list() && (final(self).last_error matches Some(
                    e,
                ) && e@ == "invalid offline job"@)
            }),
            final(self).completed_outputs@ == old(self).completed_outputs@,
            final(self).generation == old(self).generation,
    {
        let dup = self.knows_job(id);
        if id == 0 || !region_valid(name) || !steps_valid(&steps) || self.jobs.len() >= 65_536 || dup {
            self.last_error = Some(copy_str("invalid offline job"));
            return;
        }
        let region = trim(name);
        let ghost js = self.job_list();
        let ghost same = |j: JobView| j.region_name == region@;
        let mut count: u32 = 0;
        let mut i: usize = 0;
        while i < self.jobs.len()
            invariant
                i <= self.jobs.len(),
                self.jobs.len() < 65_536,
                js == self.job_list(),
                same == (|j: JobView| j.region_name == region@),
                count == js.take(i as int).filter(same).len(),
            decreases self.jobs.len() - i,
        {
            proof {
                assert(js.take(i + 1) =~= js.take(i as int).push(js[i as int]));
                js.take(i as int).lemma_filter_push(js[i as int], same);
                js.take(i as int).lemma_filter_len(same);
                assert(js[i as int].region_name == self.jobs@[i as int].region_name@);
            }
            if str_eq(self.jobs[i].region_name.as_str(), region.as_str()) {
                count = count + 1;
            }
            i += 1;
        }
        proof {
            assert(js.take(i as int) =~= js);
            assert(same =~= (|j: JobView| j.region_name == spec_trim(name@)));
        }
        let job = OfflineProcessJob { id, region_name: region, process_steps: steps, version_index: count };
        self.jobs.push(job);
        proof {
            assert(self.job_list() =~= js.push(job_view(job)));
        }
    }

    /// Starts a new render batch; completions of earlier batches can no
    /// longer be published.  Returns the new generation.
    pub fn begin_render_generation(&mut self) -> (r: u64)
        ensures
            r == next_generation(old(self).generation),
            final(self).generation == r,
            final(self).job_list() == old(self).job_list(),
            final(self).completed_outputs@ == old(self).completed_outputs@,
            final(self).last_error == old(self).last_error,
    {
        self.generation = self.generation.wrapping_add(1);
        self.generation
    }

    /// Cancels the current batch: its workers may finish, but their output
    /// can no longer be published.  Returns the new generation.
    pub fn cancel_render_generation(&mut self) -> (r: u64)
        ensures
            r == next_generation(old(self).generation),
            final(self).generation == r,
            final(self).job_list() == old(self).job_list(),
            final(self).completed_outputs@ == old(self).completed_outputs@,
            final(self).last_error == old(self).last_error,
    {
        self.generation = self.generation.wrapping_add(1);
        self.generation
    }

    /// The output path published for the job, if any.
    pub fn completed_output(&self, job_id: u32) -> (r: Option<&str>)
        ensures
            match r {
                Some(p) => exists|i: int|
                    0 <= i < self.completed_outputs@.len() && self.completed_outputs@[i].0 == job_id
                        && #[trigger] self.completed_outputs@[i].1@ == p@ && forall|j: int|
                        0 <= j < i ==> #[trigger] self.completed_outputs@[j].0 != job_id,
                None => forall|i: int|
                    0 <= i < self.completed_outputs@.len() ==> #[trigger] self.completed_outputs@[i].0 != job_id,
            },
    {
        let mut i: usize = 0;
        while i < self.completed_outputs.len()
            invariant
                i <= self.completed_outputs.len(),
                forall|j: int| 0 <= j < i ==> #[trigger] self.completed_outputs@[j].0 != job_id,
            decreases self.completed_outputs.len() - i,
        {
            if self.completed_outputs[i].0 == job_id {
                let p = self.completed_outputs[i].1.as_str();
                proof {
                    assert(self.completed_outputs@[i as int].1@ == p@);
                }
                return Some(p);
            }
            i += 1;
        }
        None
    }

    /// Whether the job's output or the path is already published.
    fn published(&self, job_id: u32, path: &str) -> (r: bool)
        ensures
            r == exists|i: int| 0 <= i < self.completed_outputs@.len() && #[trigger] output_hit(self.completed_outputs@[i], job_id, path@),
    {
        let mut i: usize = 0;
        while i < self.completed_outputs.len()
            invariant
                i <= self.completed_outputs.len(),
                forall|j: int| 0 <= j < i ==> !#[trigger] output_hit(self.completed_outputs@[j], job_id, path@),
            decreases self.completed_outputs.len() - i,
        {
            if self.completed_outputs[i].0 == job_id || str_eq(self.completed_outputs[i].1.as_str(), path) {
                proof {
                    assert(output_hit(self.completed_outputs@[i as int], job_id, path@));
                }
                return true;
            }
            proof {
                assert(!output_hit(self.completed_outputs@[i as int], job_id, path@));
            }
            i += 1;
        }
        false
    }

    /// Checks that a render of the job may be written to `path`: it belongs
    /// to the current generation, the job is known, and neither the job nor
    /// the path is published yet.
    pub fn check_completion_for_generation(&self, generation: u64, job_id: u32, path: &str) -> (r: Result<(), RenderError>)
        ensures
            r is Ok <==> generation == self.generation && has_job(self.job_list(), job_id) && !exists|i: int|
                0 <= i < self.completed_outputs@.len() && #[trigger] output_hit(self.completed_outputs@[i], job_id, path@),
            r is Err ==> r == Err::<(), RenderError>(RenderError::InvalidTask),
    {
        if generation != self.generation || !self.knows_job(job_id) || self.published(job_id, path) {
            return Err(RenderError::InvalidTask);
        }
        Ok(())
    }

    /// Records what the writer reported on a checked render: the output is
    /// published and the error cleared, or the error is kept with the job.
    pub fn publish_completion(&mut self, job_id: u32, path: &str, written: Result<(), String>) -> (r: Result<(), RenderError>)
        ensures
            written is Ok ==> r is Ok && final(self).completed_outputs@.len() == old(self).completed_outputs@.len() + 1
                && final(self).completed_outputs@.last().0 == job_id && final(self).completed_outputs@.last().1@
                == path@ && final(self).completed_outputs@.drop_last() == old(self).completed_outputs@
                && final(self).last_error is None,
            written matches Err(e) ==> r == Err::<(), RenderError>(RenderError::Write(e))
                && final(self).completed_outputs@ == old(self).completed_outputs@ && (final(self).last_error matches Some(
                m) && m@ == "offline job "@ + decimal(job_id as nat) + " failed: "@ + e@),
            final(self).job_list() == old(self).job_list(),
            final(self).generation == old(self).generation,
    {
        match written {
            Ok(()) => {
                let ghost before = self.completed_outputs@;
                self.completed_outputs.push((job_id, copy_str(path)));
                proof {
                    assert(self.completed_outputs@.drop_last() =~= before);
                }
                self.last_error = None;
                Ok(())
            },
            Err(e) => {
                let mut m = copy_str("offline job ");
                push_decimal(&mut m, job_id as u64);
                push_str(&mut m, " failed: ");
                push_str(&mut m, e.as_str());
                self.last_error = Some(m);
                Err(RenderError::Write(e))
            },
        }
    }

    /// Withdraws the published outputs at the given paths, as a batch that
    /// failed part way does.
    pub fn withdraw_outputs(&mut self, paths: &[String])
        ensures
            outputs_view(final(self).completed_outputs@) == outputs_view(old(self).completed_outputs@).filter(
                |o: (u32, Seq<char>)| !crate::keyed::text_views(paths@).contains(o.1),
            ),
            final(self).job_list() == old(self).job_list(),
            final(self).generation == old(self).generation,
            final(self).last_error == old(self).last_error,
    {
        let ghost keep = |o: (u32, Seq<char>)| !crate::keyed::text_views(paths@).contains(o.1);
        let ghost old_outputs = outputs_view(self.completed_outputs@);
        let mut kept: Vec<(u32, String)> = Vec::new();
        let mut i: usize = 0;
        while i < self.completed_outputs.len()
            invariant
                i <= self.completed_outputs@.len(),
                outputs_view(self.completed_outputs@) == old_outputs,
                keep == (|o: (u32, Seq<char>)| !crate::keyed::text_views(paths@).contains(o.1)),
                outputs_view(kept@) == old_outputs.take(i as int).filter(keep),
            decreases self.completed_outputs.len() - i,
        {
            let o = &self.completed_outputs[i];
            let ghost ov = (o.0, o.1@);
            proof {
                assert(old_outputs[i as int] == ov);
            }
            let mut listed = false;
            let mut k: usize = 0;
            while k < paths.len()
                invariant
                    k <= paths@.len(),
                    listed == exists|j: int| 0 <= j < k && #[trigger] paths@[j]@ == o.1@,
                decreases paths.len() - k,
            {
                if str_eq(paths[k].as_str(), o.1.as_str()) {
                    listed = true;
                }
                k += 1;
            }
            proof {
                assert(listed == crate::keyed::text_views(paths@).contains(o.1@)) by {
                    if listed {
                        let j = choose|j: int| 0 <= j < k && #[trigger] paths@[j]@ == o.1@;
                        assert(crate::keyed::text_views(paths@)[j] == o.1@);
                    }
                    if crate::keyed::text_views(paths@).contains(o.1@) {
                        let j = choose|j: int|
                            0 <= j < crate::keyed::text_views(paths@).len() && crate::keyed::text_views(paths@)[j] == o.1@;
                        assert(paths@[j]@ == o.1@);
                    }
                }
                assert(old_outputs.take(i + 1) =~= old_outputs.take(i as int).push(ov));
                old_outputs.take(i as int).lemma_filter_push(ov, keep);
            }
            let ghost before = kept@;
            if !listed {
                kept.push((o.0, copy_str(o.1.as_str())));
                proof {
                    assert(outputs_view(kept@) =~= outputs_view(before).push(ov));
                }
            }
            i += 1;
        }
        proof {
            assert(old_outputs.take(i as int) =~= old_outputs);
        }
        self.completed_outputs = kept;
    }

    /// Checks a batch of renders before anything is written: the sample
    /// rate and channel count, then each render in turn: its job known,
    /// listed once and not yet published, and its buffer not empty
    /// (`renders[k]` holds a job id and whether its buffer is empty).
    pub fn check_render_batch(&self, renders: &[(u32, bool)], sample_rate: u32, channels: u16) -> (r: Result<
        (),
        RenderError,
    >)
        ensures
            !(1 <= sample_rate <= 384_000) ==> r == Err::<(), RenderError>(RenderError::InvalidSampleRate),
            1 <= sample_rate <= 384_000 && !(1 <= channels <= 32) ==> r == Err::<(), RenderError>(
                RenderError::InvalidChannelCount,
            ),
            1 <= sample_rate <= 384_000 && 1 <= channels <= 32 ==> (r is Ok <==> forall|k: int|
                0 <= k < renders@.len() ==> #[trigger] batch_entry_ok(self.job_list(), self.completed_outputs@, renders@, k)),
            1 <= sample_rate <= 384_000 && 1 <= channels <= 32 ==> match batch_fault(
                self.job_list(),
                self.completed_outputs@,
                renders@,
                renders@.len() as int,
            ) {
                Some(e) => r == Err::<(), RenderError>(e),
                None => r is Ok,
            },
    {
        if !(1 <= sample_rate && sample_rate <= 384_000) {
            return Err(RenderError::InvalidSampleRate);
        }
        if !(1 <= channels && channels <= 32) {
            return Err(RenderError::InvalidChannelCount);
        }
        let mut k: usize = 0;
        while k < renders.len()
            invariant
                k <= renders@.len(),
                1 <= sample_rate <= 384_000,
                1 <= channels <= 32,
                forall|j: int| 0 <= j < k ==> #[trigger] batch_entry_ok(self.job_list(), self.completed_outputs@, renders@, j),
                batch_fault(self.job_list(), self.completed_outputs@, renders@, k as int) is None,
            decreases renders.len() - k,
        {
            let (job_id, empty) = renders[k];
            let mut repeated = false;
            let mut j: usize = 0;
            while j < k
                invariant
                    j <= k < renders@.len(),
                    job_id == renders@[k as int].0,
                    repeated == exists|x: int| 0 <= x < j && #[trigger] renders@[x].0 == job_id,
                decreases k - j,
            {
                if renders[j].0 == job_id {
                    repeated = true;
                }
                j += 1;
            }
            let mut done = false;
            let mut i: usize = 0;
            while i < self.completed_outputs.len()
                invariant
                    i <= self.completed_outputs@.len(),
                    done == exists|x: int| 0 <= x < i && #[trigger] self.completed_outputs@[x].0 == job_id,
                decreases self.completed_outputs.len() - i,
            {
                if self.completed_outputs[i].0 == job_id {
                    done = true;
                }
                i += 1;
            }
            if repeated || done || !self.knows_job(job_id) {
                proof {
                    assert(!batch_entry_ok(self.job_list(), self.completed_outputs@, renders@, k as int));
                    assert(!entry_task_ok(self.job_list(), self.completed_outputs@, renders@, k as int));
                    lemma_batch_fault_stays(self.job_list(), self.completed_outputs@, renders@, k + 1, renders@.len() as int);
                }
                return Err(RenderError::InvalidTask);
            }
            if empty {
                proof {
                    assert(renders@[k as int].1);
                    assert(!batch_entry_ok(self.job_list(), self.completed_outputs@, renders@, k as int));
                    assert(entry_task_ok(self.job_list(), self.completed_outputs@, renders@, k as int));
                    lemma_batch_fault_stays(self.job_list(), self.completed_outputs@, renders@, k + 1, renders@.len() as int);
                }
                return Err(RenderError::EmptyBuffer);
            }
            k += 1;
        }
        Ok(())
    }

    /// A batch for a connected renderer can start: jobs are queued and the
    /// sample rate and channel count are in range.
    pub fn check_renderer_batch(&self, sample_rate: u32, channels: u16) -> (r: Result<(), RenderError>)
        ensures
            r is Ok <==> self.jobs@.len() > 0 && 1 <= sample_rate <= 384_000 && 1 <= channels <= 32,
            r is Err ==> r == Err::<(), RenderError>(RenderError::InvalidTask),
    {
        if self.jobs.len() == 0 || !(1 <= sample_rate && sample_rate <= 384_000) || !(1 <= channels && channels <= 32) {
            return Err(RenderError::InvalidTask);
        }
        Ok(())
    }

    /// Records that the renderer failed on a job, with its message.
    pub fn record_render_failure(&mut self, job_id: u32, error: &str)
        ensures
            final(self).last_error matches Some(m) && m@ == "offline job "@ + decimal(job_id as nat) + " failed: "@
                + error@,
            final(self).job_list() == old(self).job_list(),
            final(self).completed_outputs@ == old(self).completed_outputs@,
            final(self).generation == old(self).generation,
    {
        let mut m = copy_str("offline job ");
        push_decimal(&mut m, job_id as u64);
        push_str(&mut m, " failed: ");
        push_str(&mut m, error);
        self.last_error = Some(m);
    }

    /// Records that the renderer gave a job no samples.
    pub fn record_empty_render(&mut self, job_id: u32)
        ensures
            final(self).last_error matches Some(m) && m@ == "offline job "@ + decimal(job_id as nat)
                + " returned an empty buffer"@,
            final(self).job_list() == old(self).job_list(),
            final(self).completed_outputs@ == old(self).completed_outputs@,
            final(self).generation == old(self).generation,
    {
        let mut m = copy_str("offline job ");
        push_decimal(&mut m, job_id as u64);
        push_str(&mut m, " returned an empty buffer");
        self.last_error = Some(m);
    }

    /// Without a connected renderer nothing renders: `last_error` tells
    /// whether any job waits.
    pub fn orchestrate_render(&mut self)
        ensures
            (final(self).last_error matches Some(e) && e@ == if old(self).jobs@.len() == 0 {
                "no offline jobs queued"@
            } else {
                "offline renderer is not connected; jobs remain queued"@
            }),
            final(self).job_list() == old(self).job_list(),
            final(self).completed_outputs@ == old(self).completed_outputs@,
            final(self).generation == old(self).generation,
    {
        self.last_error = if self.jobs.len() == 0 {
            Some(copy_str("no offline jobs queued"))
        } else {
            Some(copy_str("offline renderer is not connected; jobs remain queued"))
        };
    }

    /// At most 65536 sound jobs, versions rising along neighbouring jobs of
    /// one region, and every published output belonging to a job and
    /// present on disk (`on_disk[k]` tells whether output `k` is a file).
    pub fn audit_rendering(&self, on_disk: &[bool]) -> (r: bool)
        requires
            on_disk@.len() == self.completed_outputs@.len(),
        ensures
            r == (self.job_list().len() <= 65_536 && (forall|i: int|
                0 <= i < self.job_list().len() ==> #[trigger] job_ok(self.job_list()[i])) && (forall|i: int|
                0 <= i < self.job_list().len() - 1 ==> #[trigger] versions_rise(self.job_list(), i)) && (forall|k: int|
                0 <= k < self.completed_outputs@.len() ==> #[trigger] output_ok(
                    self.job_list(),
                    self.completed_outputs@,
                    on_disk@,
                    k,
                ))),
    {
        let ghost js = self.job_list();
        if self.jobs.len() > 65_536 {
            return false;
        }
        let mut i: usize = 0;
        while i < self.jobs.len()
            invariant
                i <= self.jobs.len(),
                js == self.job_list(),
                forall|a: int| 0 <= a < i ==> #[trigger] job_ok(js[a]),
                forall|a: int| 0 <= a < i && a + 1 < js.len() ==> #[trigger] versions_rise(js, a),
            decreases self.jobs.len() - i,
        {
            let j = &self.jobs[i];
            proof {
                assert(js[i as int] == job_view(*j));
            }
            if j.id == 0 || !region_valid(j.region_name.as_str()) || !steps_valid(&j.process_steps) {
                proof {
                    assert(!job_ok(js[i as int]));
                }
                return false;
            }
            if i + 1 < self.jobs.len() {
                let n = &self.jobs[i + 1];
                proof {
                    assert(js[i + 1] == job_view(*n));
                }
                if !(j.version_index < n.version_index) && str_eq(j.region_name.as_str(), n.region_name.as_str()) {
                    proof {
                        assert(!versions_rise(js, i as int));
                    }
                    return false;
                }
            }
            i += 1;
        }
        let mut k: usize = 0;
        while k < self.completed_outputs.len()
            invariant
                k <= self.completed_outputs.len(),
                js == self.job_list(),
                on_disk@.len() == self.completed_outputs@.len(),
                forall|c: int| 0 <= c < k ==> #[trigger] output_ok(js, self.completed_outputs@, on_disk@, c),
            decreases self.completed_outputs.len() - k,
        {
            let id = self.completed_outputs[k].0;
            let known = self.knows_job(id);
            if !known || !on_disk[k] {
                proof {
                    assert(!output_ok(js, self.completed_outputs@, on_disk@, k as int));
                }
                return false;
            }
            k += 1;
        }
        true
    }
}

impl Default for OfflineOrchestrator {
    fn default() -> (r: Self)
        ensures
            r.jobs@.len() == 0,
            r.last_error is None,
            r.completed_outputs@.len() == 0,
            r.generation == 0,
    {
        Self::new()
    }
}

/// Where the first job with the id stands, or -1.
pub open spec fn first_job(js: Seq<JobView>, id: u32) -> int
    decreases js.len(),
{
    if js.len() == 0 {
        -1
    } else if first_job(js.drop_last(), id) >= 0 {
        first_job(js.drop_last(), id)
    } else if js.last().id == id {
        js.len() - 1
    } else {
        -1
    }
}

proof fn lemma_first_job(js: Seq<JobView>, id: u32)
    ensures
        -1 <= first_job(js, id) < js.len(),
        first_job(js, id) >= 0 ==> js[first_job(js, id)].id == id && forall|a: int|
            0 <= a < first_job(js, id) ==> #[trigger] js[a].id != id,
        first_job(js, id) < 0 ==> forall|a: int| 0 <= a < js.len() ==> #[trigger] js[a].id != id,
    decreases js.len(),
{
    if js.len() > 0 {
        lemma_first_job(js.drop_last(), id);
        let d = js.drop_last();
        assert forall|a: int| 0 <= a < d.len() implies #[trigger] js[a] == d[a] by {}
    }
}

impl OfflineOrchestrator {
    /// The file name a batch writes the job's render under: that of the
    /// first job with the id and its region (see `render_name`), or `None`
    /// for an unknown job.
    pub fn render_file_for(&self, job_id: u32) -> (r: Option<String>)
        ensures
            ({
                let f = first_job(self.job_list(), job_id);
                match r {
                    Some(name) => f >= 0 && name@ == render_name(job_id, self.job_list()[f].region_name),
                    None => f < 0,
                }
            }),
    {
        let ghost js = self.job_list();
        proof {
            lemma_first_job(js, job_id);
        }
        let mut i: usize = 0;
        while i < self.jobs.len()
            invariant
                i <= self.jobs.len(),
                js == self.job_list(),
                -1 <= first_job(js, job_id) < js.len(),
                first_job(js, job_id) >= 0 ==> js[first_job(js, job_id)].id == job_id && forall|a: int|
                    0 <= a < first_job(js, job_id) ==> #[trigger] js[a].id != job_id,
                first_job(js, job_id) < 0 ==> forall|a: int| 0 <= a < js.len() ==> #[trigger] js[a].id != job_id,
                forall|a: int| 0 <= a < i ==> #[trigger] js[a].id != job_id,
            decreases self.jobs.len() - i,
        {
            if self.jobs[i].id == job_id {
                proof {
                    assert(js[i as int].id == job_id);
                    assert(first_job(js, job_id) == i);
                }
                return Some(render_file_name(job_id, self.jobs[i].region_name.as_str()));
            }
            i += 1;
        }
        None
    }
}

/// The outputs a batch has published so far; the batch is published whole
/// or not at all.
pub struct BatchPublication {
    pub published: Vec<String>,
}

impl BatchPublication {
    pub fn new() -> (r: Self)
        ensures
            r.published@.len() == 0,
    {
        BatchPublication { published: Vec::new() }
    }

    /// Takes the outcome of writing and publishing one render of the batch.
    /// A success adds its path to the batch.  A failure withdraws every
    /// output the batch published (whose files the caller then removes, as
    /// `published` lists them) and is handed back.
    pub fn record(&mut self, orchestrator: &mut OfflineOrchestrator, outcome: Result<String, RenderError>) -> (r: Result<
        (),
        RenderError,
    >)
        ensures
            match outcome {
                Ok(path) => {
                    &&& r is Ok
                    &&& final(self).published@ == old(self).published@.push(path)
                    &&& *final(orchestrator) == *old(orchestrator)
                },
                Err(e) => {
                    &&& r == Err::<(), RenderError>(e)
                    &&& final(self).published@ == old(self).published@
                    &&& outputs_view(final(orchestrator).completed_outputs@) == outputs_view(
                        old(orchestrator).completed_outputs@,
                    ).filter(|o: (u32, Seq<char>)| !text_views(old(self).published@).contains(o.1))
                    &&& final(orchestrator).job_list() == old(orchestrator).job_list()
                    &&& final(orchestrator).generation == old(orchestrator).generation
                    &&& final(orchestrator).last_error == old(orchestrator).last_error
                },
            },
    {
        match outcome {
            Ok(path) => {
                self.published.push(path);
                Ok(())
            },
            Err(e) => {
                orchestrator.withdraw_outputs(&self.published);
                Err(e)
            },
        }
    }

    /// The number of outputs the batch published.
    pub fn count(&self) -> (r: usize)
        ensures
            r == self.published@.len(),
    {
        self.published.len()
    }
}

} // verus!

