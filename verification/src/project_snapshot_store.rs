//! Named project snapshots of the transport position.  Snapshot ids are
//! visible and persisted, so zero is reserved for failure and a live id is
//! never handed out twice.
use vstd::prelude::*;
use std::time::SystemTime;
use crate::keyed::lemma_text_number_order;
use crate::sorting::{arranged, gather, is_perm, lemma_strict_weak_agree, stable_order, stably_sorted};
use crate::text::{
    ascii_lower, blank, byte_len, contains_char, is_blank, seq_lt, spec_trim, str_eq, str_lt, to_ascii_lower, trim,
    within_bytes,
};

verus! {

#[verifier::external_type_specification]
#[verifier::external_body]
pub struct ExSystemTime(SystemTime);

/// `SystemTime::now`: the wall-clock time now; nothing is promised of it.
#[verifier::external_body]
fn now() -> SystemTime {
    SystemTime::now()
}

pub struct ProjectSnapshotRust {
    pub id: u32,
    pub name: String,
    pub sample_position: u64,
    pub timestamp: SystemTime,
}

/// The snapshots, one per name.
pub struct SnapshotOrchestrator {
    pub snapshots: Vec<ProjectSnapshotRust>,
    pub next_id: u32,
}

/// A snapshot as plain values: id, name, position.
pub open spec fn snap_view(s: ProjectSnapshotRust) -> (u32, Seq<char>, u64) {
    (s.id, s.name@, s.sample_position)
}

pub open spec fn snaps_view(ss: Seq<ProjectSnapshotRust>) -> Seq<(u32, Seq<char>, u64)> {
    ss.map_values(|s: ProjectSnapshotRust| snap_view(s))
}

pub open spec fn snap_refs_view(ss: Seq<&ProjectSnapshotRust>) -> Seq<(u32, Seq<char>, u64)> {
    ss.map_values(|s: &ProjectSnapshotRust| snap_view(*s))
}

/// A snapshot name: non-empty after trimming, at most 256 bytes, no NUL.
pub open spec fn snapshot_name_ok(t: Seq<char>) -> bool {
    t.len() > 0 && byte_len(t) <= 256 && !t.contains('\0')
}

/// The first snapshot with the name (-1 if none).
pub open spec fn find_snapshot(ss: Seq<(u32, Seq<char>, u64)>, name: Seq<char>) -> int {
    if exists|i: int| 0 <= i < ss.len() && #[trigger] ss[i].1 == name {
        choose|i: int| 0 <= i < ss.len() && ss[i].1 == name && forall|j: int| 0 <= j < i ==> #[trigger] ss[j].1 != name
    } else {
        -1
    }
}

/// Some snapshot has the id.
pub open spec fn id_used(ss: Seq<(u32, Seq<char>, u64)>, id: u32) -> bool {
    exists|i: int| 0 <= i < ss.len() && #[trigger] ss[i].0 == id
}

/// The number of non-zero ids.
pub open spec fn id_count() -> int {
    u32::MAX as int
}

/// The `j`-th id of the cycle through the non-zero ids from `start`.
pub open spec fn cycle_id(start: u32, j: int) -> u32 {
    if start + j <= u32::MAX {
        (start + j) as u32
    } else {
        (start + j - u32::MAX) as u32
    }
}

/// Where the id search starts: the next id, or 1 when it is zero.
pub open spec fn search_start(next_id: u32) -> u32 {
    if next_id == 0 {
        1
    } else {
        next_id
    }
}

/// The id after `id` among the non-zero ids, wrapping to 1.
pub open spec fn following_id(id: u32) -> u32 {
    if id == u32::MAX {
        1
    } else {
        (id + 1) as u32
    }
}

/// `id` is the first free id of the cycle from `start`.
pub open spec fn first_free_id(ss: Seq<(u32, Seq<char>, u64)>, start: u32, id: u32) -> bool {
    exists|j: int|
        0 <= j < id_count() && #[trigger] cycle_id(start, j) == id && !id_used(ss, id) && forall|k: int|
            0 <= k < j ==> id_used(ss, #[trigger] cycle_id(start, k))
}

/// Ascending lowercased name, then ascending id.
pub open spec fn by_name_then_id(ss: Seq<(u32, Seq<char>, u64)>) -> spec_fn(int, int) -> bool {
    |a: int, b: int|
        seq_lt(ascii_lower(ss[a].1), ascii_lower(ss[b].1)) || (ascii_lower(ss[a].1) == ascii_lower(ss[b].1)
            && ss[a].0 < ss[b].0)
}

/// A non-zero id and a sound name.
pub open spec fn snap_ok(s: (u32, Seq<char>, u64)) -> bool {
    s.0 != 0 && snapshot_name_ok(s.1)
}

/// The store passes its audit: at most 65536 snapshots, a non-zero next
/// id, and non-zero distinct ids with non-empty names of at most 256 bytes
/// without NUL.
pub open spec fn store_ok(ss: Seq<(u32, Seq<char>, u64)>, next_id: u32) -> bool {
    &&& ss.len() <= 65_536
    &&& next_id != 0
    &&& forall|i: int| 0 <= i < ss.len() ==> #[trigger] snap_ok(ss[i])
    &&& forall|i: int, j: int| 0 <= j < i < ss.len() ==> #[trigger] ss[j].0 != #[trigger] ss[i].0
}

/// Every non-zero id lies on the cycle from any start.
proof fn lemma_cycle_covers(start: u32, k: u32)
    requires
        start >= 1,
        k >= 1,
    ensures
        ({
            let j = if k >= start { k - start } else { k - start + id_count() };
            0 <= j < id_count() && cycle_id(start, j) == k
        }),
{
}

impl SnapshotOrchestrator {
    pub open spec fn items(&self) -> Seq<(u32, Seq<char>, u64)> {
        snaps_view(self.snapshots@)
    }

    pub fn new() -> (r: Self)
        ensures
            r.items().len() == 0,
            r.next_id == 0,
    {
        SnapshotOrchestrator { snapshots: Vec::new(), next_id: 0 }
    }

    fn position_of(&self, name: &str) -> (r: Option<usize>)
        ensures
            match r {
                Some(i) => i < self.snapshots@.len() && i as int == find_snapshot(self.items(), name@),
                None => find_snapshot(self.items(), name@) == -1,
            },
    {
        let ghost ss = self.items();
        let mut i: usize = 0;
        while i < self.snapshots.len()
            invariant
                i <= self.snapshots.len(),
                ss == self.items(),
                forall|j: int| 0 <= j < i ==> #[trigger] ss[j].1 != name@,
            decreases self.snapshots.len() - i,
        {
            proof {
                assert(ss[i as int].1 == self.snapshots@[i as int].name@);
            }
            if str_eq(self.snapshots[i].name.as_str(), name) {
                proof {
                    let f = find_snapshot(ss, name@);
                    assert(ss[i as int].1 == name@);
                    if f < i {
                        assert(ss[f].1 != name@);
                    }
                    if f > i {
                        assert(ss[i as int].1 != name@);
                    }
                }
                return Some(i);
            }
            i += 1;
        }
        None
    }

    fn uses_id(&self, id: u32) -> (r: bool)
        ensures
            r == id_used(self.items(), id),
    {
        let ghost ss = self.items();
        let mut i: usize = 0;
        while i < self.snapshots.len()
            invariant
                i <= self.snapshots.len(),
                ss == self.items(),
                forall|j: int| 0 <= j < i ==> #[trigger] ss[j].0 != id,
            decreases self.snapshots.len() - i,
        {
            proof {
                assert(ss[i as int].0 == self.snapshots@[i as int].id);
            }
            if self.snapshots[i].id == id {
                return true;
            }
            i += 1;
        }
        false
    }

    /// Records the position under the trimmed name and returns the
    /// snapshot's id.  An existing name keeps its id and gets the new
    /// position.  A new name gets the first free id from `next_id` on
    /// (skipping zero, wrapping), and `next_id` moves past it.  Returns 0,
    /// with nothing changed, for a bad name or when every id is in use.
    #[verifier::loop_isolation(false)]
    pub fn take_snapshot(&mut self, name: String, pos: u64) -> (r: u32)
        ensures
            ({
                let t = spec_trim(name@);
                let f = find_snapshot(old(self).items(), t);
                let start = search_start(old(self).next_id);
                &&& !snapshot_name_ok(t) ==> r == 0 && final(self).items() == old(self).items() && final(self).next_id
                    == old(self).next_id
                &&& snapshot_name_ok(t) && f >= 0 ==> r == old(self).items()[f].0 && final(self).items() == old(self).items().update(f, (r, t, pos)) && final(self).next_id == old(self).next_id
                &&& snapshot_name_ok(t) && f < 0 ==> (r == 0 <==> forall|k: u32|
                    k >= 1 ==> #[trigger] id_used(old(self).items(), k))
                &&& snapshot_name_ok(t) && f < 0 && r == 0 ==> final(self).items() == old(self).items()
                    && final(self).next_id == old(self).next_id
                &&& snapshot_name_ok(t) && f < 0 && r != 0 ==> first_free_id(old(self).items(), start, r) && final(self).items() == old(self).items().push((r, t, pos)) && final(self).next_id == following_id(r)
            }),
    {
        let t = trim(name.as_str());
        if t.as_str().unicode_len() == 0 || !within_bytes(t.as_str(), 256) || contains_char(t.as_str(), '\0') {
            return 0;
        }
        let ghost before = self.items();
        match self.position_of(t.as_str()) {
            Some(i) => {
                let id = self.snapshots[i].id;
                let snapshot = ProjectSnapshotRust { id, name: t, sample_position: pos, timestamp: now() };
                self.snapshots.set(i, snapshot);
                proof {
                    assert(self.items() =~= before.update(i as int, (id, spec_trim(name@), pos)));
                }
                return id;
            },
            None => {},
        }
        let start: u32 = if self.next_id == 0 { 1 } else { self.next_id };
        let mut id = start;
        let mut n: u64 = 0;
        while self.uses_id(id)
            invariant
                start == search_start(old(self).next_id),
                before == self.items(),
                0 <= n < id_count(),
                id == cycle_id(start, n as int),
                forall|k: int| 0 <= k < n ==> id_used(before, #[trigger] cycle_id(start, k)),
            decreases id_count() - n,
        {
            proof {
                assert(id_used(before, cycle_id(start, n as int)));
            }
            id = if id == u32::MAX { 1 } else { id + 1 };
            n = n + 1;
            if id == start {
                proof {
                    assert(n == id_count());
                    assert forall|k: u32| k >= 1 implies #[trigger] id_used(before, k) by {
                        lemma_cycle_covers(start, k);
                        let j = if k >= start { k - start } else { k - start + id_count() };
                        assert(id_used(before, cycle_id(start, j)));
                    }
                }
                return 0;
            }
        }
        proof {
            assert(first_free_id(before, start, id));
            assert(!id_used(before, id));
        }
        let snapshot = ProjectSnapshotRust { id, name: t, sample_position: pos, timestamp: now() };
        self.snapshots.push(snapshot);
        self.next_id = if id == u32::MAX { 1 } else { id + 1 };
        proof {
            assert(self.items() =~= before.push((id, spec_trim(name@), pos)));
        }
        id
    }

    /// The position stored under the name (compared as given).
    pub fn restore_snapshot(&self, name: &str) -> (r: Option<u64>)
        ensures
            ({
                let f = find_snapshot(self.items(), name@);
                r == if f >= 0 {
                    Some(self.items()[f].2)
                } else {
                    None::<u64>
                }
            }),
    {
        match self.position_of(name) {
            Some(i) => Some(self.snapshots[i].sample_position),
            None => None,
        }
    }

    /// The snapshots by lowercased name, then id, for lists and
    /// interchange; ties keep their order.
    pub fn list_snapshots(&self) -> (r: Vec<&ProjectSnapshotRust>)
        ensures
            arranged(snap_refs_view(r@), self.items(), by_name_then_id(self.items())),
    {
        let ghost ss = self.items();
        let mut refs: Vec<&ProjectSnapshotRust> = Vec::new();
        let mut i: usize = 0;
        while i < self.snapshots.len()
            invariant
                i <= self.snapshots.len(),
                ss == self.items(),
                snap_refs_view(refs@) == ss.take(i as int),
            decreases self.snapshots.len() - i,
        {
            let ghost before = refs@;
            refs.push(&self.snapshots[i]);
            proof {
                assert(ss[i as int] == snap_view(self.snapshots@[i as int]));
                assert(snap_refs_view(refs@) =~= snap_refs_view(before).push(ss[i as int]));
                assert(ss.take(i + 1) =~= ss.take(i as int).push(ss[i as int]));
            }
            i += 1;
        }
        proof {
            assert(ss.take(i as int) =~= ss);
        }
        let n = refs.len();
        let rr = &refs;
        let lt = |a: usize, b: usize| -> (c: bool)
            requires
                a < n && b < n && n == rr@.len(),
            ensures
                c == (by_name_then_id(snap_refs_view(rr@)))(a as int, b as int),
            {
                let an = to_ascii_lower(rr[a].name.as_str());
                let bn = to_ascii_lower(rr[b].name.as_str());
                str_lt(an.as_str(), bn.as_str()) || (str_eq(an.as_str(), bn.as_str()) && rr[a].id < rr[b].id)
            };
        proof {
            let ks = ss.map_values(|s: (u32, Seq<char>, u64)| ascii_lower(s.1));
            let ns = ss.map_values(|s: (u32, Seq<char>, u64)| s.0 as int);
            lemma_text_number_order(ks, ns);
            lemma_strict_weak_agree(
                |a: int, b: int| seq_lt(ks[a], ks[b]) || (ks[a] == ks[b] && ns[a] < ns[b]),
                by_name_then_id(ss),
                n as int,
            );
        }
        let p = stable_order(n, &lt, Ghost(by_name_then_id(ss)));
        let r = gather(&refs, &p);
        proof {
            let pp = p@;
            assert(forall|y: int| 0 <= y < n ==> #[trigger] snap_refs_view(r@)[y] == ss[pp[y] as int]);
            assert(is_perm(pp, ss.len() as int) && stably_sorted(pp, by_name_then_id(ss)));
        }
        r
    }

    /// How far the left snapshot lies after the right one, in samples;
    /// `None` when either name is unknown.
    pub fn compare_snapshots(&self, left: &str, right: &str) -> (r: Option<i128>)
        ensures
            ({
                let a = find_snapshot(self.items(), left@);
                let b = find_snapshot(self.items(), right@);
                r == if a >= 0 && b >= 0 {
                    Some((self.items()[a].2 - self.items()[b].2) as i128)
                } else {
                    None::<i128>
                }
            }),
    {
        let a = match self.position_of(left) {
            Some(a) => a,
            None => return None,
        };
        let b = match self.position_of(right) {
            Some(b) => b,
            None => return None,
        };
        Some(self.snapshots[a].sample_position as i128 - self.snapshots[b].sample_position as i128)
    }

    /// The store passes its audit.
    pub fn audit_project_snapshot_store(&self) -> (r: bool)
        ensures
            r == store_ok(self.items(), self.next_id),
    {
        if self.snapshots.len() > 65_536 || self.next_id == 0 {
            return false;
        }
        let ghost ss = self.items();
        let mut i: usize = 0;
        while i < self.snapshots.len()
            invariant
                i <= self.snapshots.len(),
                ss == self.items(),
                forall|a: int| 0 <= a < i ==> #[trigger] snap_ok(ss[a]),
                forall|a: int, b: int| 0 <= b < a < i ==> #[trigger] ss[b].0 != #[trigger] ss[a].0,
            decreases self.snapshots.len() - i,
        {
            let s = &self.snapshots[i];
            proof {
                assert(ss[i as int] == snap_view(*s));
            }
            if s.id == 0 || s.name.as_str().unicode_len() == 0 || !within_bytes(s.name.as_str(), 256) || contains_char(
                s.name.as_str(),
                '\0',
            ) {
                proof {
                    assert(!snap_ok(ss[i as int]));
                }
                return false;
            }
            proof {
                assert(snap_ok(ss[i as int]));
            }
            let mut j: usize = 0;
            while j < i
                invariant
                    j <= i < self.snapshots.len(),
                    ss == self.items(),
                    ss[i as int].0 == s.id,
                    snap_ok(ss[i as int]),
                    forall|a: int| 0 <= a < i ==> #[trigger] snap_ok(ss[a]),
                    forall|a: int, b: int| 0 <= b < a < i ==> #[trigger] ss[b].0 != #[trigger] ss[a].0,
                    forall|b: int| 0 <= b < j ==> #[trigger] ss[b].0 != ss[i as int].0,
                decreases i - j,
            {
                proof {
                    assert(ss[j as int].0 == self.snapshots@[j as int].id);
                }
                if self.snapshots[j].id == s.id {
                    proof {
                        assert(ss[j as int].0 == ss[i as int].0);
                    }
                    return false;
                }
                j += 1;
            }
            i += 1;
        }
        true
    }
}

impl Default for SnapshotOrchestrator {
    fn default() -> (r: Self)
        ensures
            r.items().len() == 0,
            r.next_id == 0,
    {
        Self::new()
    }
}

} // verus!
