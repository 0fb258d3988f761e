//! A bounded registry of open project sessions (id and project path), with
//! one of them active, for clients that control several projects.
use vstd::prelude::*;
use crate::keyed::{
    key_seq, key_slot, lemma_sorted_distinct, lemma_sorted_insert, lemma_sorted_remove, lemma_table,
    lemma_table_insert, lemma_table_remove, lemma_table_set, strictly_sorted, table,
};
use crate::text::{blank, byte_len, contains_char, copy_str, is_blank, spec_trim, trim, within_bytes};

verus! {

/// Sessions keyed by id, in ascending id order, and the active id.
pub struct ProjectSessionRegistry {
    sessions: Vec<(String, String)>,
    active: Option<String>,
}

/// An id is non-empty text of at most 128 bytes without NUL.
pub open spec fn session_id_ok(id: Seq<char>) -> bool {
    id.len() > 0 && byte_len(id) <= 128 && !id.contains('\0')
}

/// A path is non-empty text of at most 4096 bytes without NUL.
pub open spec fn session_path_ok(path: Seq<char>) -> bool {
    path.len() > 0 && byte_len(path) <= 4096 && !path.contains('\0')
}

/// A stored session passes the audit: id and path non-blank, within
/// their byte limits and without NUL.
pub open spec fn stored_session_ok(id: Seq<char>, path: Seq<char>) -> bool {
    &&& !is_blank(id) && byte_len(id) <= 128 && !id.contains('\0')
    &&& !is_blank(path) && byte_len(path) <= 4096 && !path.contains('\0')
}

/// The active id after a session closes: the first remaining id when the
/// active one closed, else unchanged.
pub open spec fn active_after_close(active: Option<Seq<char>>, id: Seq<char>, rest: Seq<Seq<char>>) -> Option<
    Seq<char>,
> {
    if active == Some(id) {
        if rest.len() > 0 {
            Some(rest[0])
        } else {
            None
        }
    } else {
        active
    }
}

fn copy_opt(o: &Option<String>) -> (r: Option<String>)
    ensures
        match (r, *o) {
            (Some(a), Some(b)) => a@ == b@,
            (None, None) => true,
            _ => false,
        },
{
    match o {
        Some(s) => Some(copy_str(s.as_str())),
        None => None,
    }
}

impl ProjectSessionRegistry {
    /// The sessions as (id, path), in ascending id order.
    pub closed spec fn entries(&self) -> Seq<(Seq<char>, Seq<char>)> {
        self.sessions@.map_values(|e: (String, String)| (e.0@, e.1@))
    }

    /// The ids, ascending.
    pub open spec fn ids(&self) -> Seq<Seq<char>> {
        self.entries().map_values(|e: (Seq<char>, Seq<char>)| e.0)
    }

    /// The paths, in id order.
    pub open spec fn paths(&self) -> Seq<Seq<char>> {
        self.entries().map_values(|e: (Seq<char>, Seq<char>)| e.1)
    }

    /// The active id, if any.
    pub closed spec fn active_id(&self) -> Option<Seq<char>> {
        match self.active {
            Some(a) => Some(a@),
            None => None,
        }
    }

    #[verifier::type_invariant]
    closed spec fn sorted(&self) -> bool {
        strictly_sorted(key_seq(self.sessions@))
    }

    /// Each session id with its path.
    pub open spec fn view(&self) -> Map<Seq<char>, Seq<char>> {
        table(self.ids(), self.paths())
    }

    proof fn lemma_keys(&self)
        ensures
            self.ids() == key_seq(self.sessions@),
            self.paths() == self.sessions@.map_values(|e: (String, String)| e.1@),
    {
        assert(self.ids() =~= key_seq(self.sessions@));
        assert(self.paths() =~= self.sessions@.map_values(|e: (String, String)| e.1@));
    }

    /// The ids ascend and the view maps each to the path beside it and
    /// holds no other id.
    proof fn lemma_view(&self)
        requires
            strictly_sorted(key_seq(self.sessions@)),
        ensures
            strictly_sorted(self.ids()),
            self.ids().no_duplicates(),
            self.paths().len() == self.ids().len(),
            forall|i: int|
                0 <= i < self.ids().len() ==> #[trigger] self.view().contains_key(self.ids()[i]) && self.view()[self.ids()[i]]
                    == self.paths()[i],
            forall|k: Seq<char>| #[trigger] self.view().contains_key(k) ==> self.ids().contains(k),
    {
        self.lemma_keys();
        lemma_sorted_distinct(self.ids());
        lemma_table(self.ids(), self.paths());
    }

    pub fn new() -> (r: Self)
        ensures
            r.ids().len() == 0,
            r.view() == Map::<Seq<char>, Seq<char>>::empty(),
            r.active_id() is None,
    {
        let r = ProjectSessionRegistry { sessions: Vec::new(), active: None };
        proof {
            assert(r.ids() =~= Seq::<Seq<char>>::empty());
        }
        r
    }

    /// Opens (or re-points) the session under the trimmed id with the
    /// trimmed path; the first session opened becomes active.  Refused with
    /// "invalid project session" for a bad id or path, and with "project
    /// session limit reached" when 32 other sessions are open.
    pub fn open(&mut self, id: &str, path: &str) -> (r: Result<(), &'static str>)
        ensures
            ({
                let tid = spec_trim(id@);
                let tpath = spec_trim(path@);
                let valid = session_id_ok(tid) && session_path_ok(tpath);
                let full = old(self).ids().len() >= 32 && !old(self).view().contains_key(tid);
                &&& !valid ==> (r matches Err(e) && e@ == "invalid project session"@)
                &&& valid && full ==> (r matches Err(e) && e@ == "project session limit reached"@)
                &&& valid && !full ==> r is Ok
                &&& r is Err ==> final(self).view() == old(self).view() && final(self).ids() == old(self).ids()
                    && final(self).active_id() == old(self).active_id()
                &&& r is Ok ==> final(self).view() == old(self).view().insert(tid, tpath) && final(self).active_id()
                    == if old(self).active_id() is None {
                    Some(tid)
                } else {
                    old(self).active_id()
                }
            }),
    {
        proof {
            use_type_invariant(&*self);
            self.lemma_keys();
            reveal_strlit("invalid project session");
            reveal_strlit("project session limit reached");
        }
        let tid = trim(id);
        let tpath = trim(path);
        if tid.as_str().unicode_len() == 0 || !within_bytes(tid.as_str(), 128) || contains_char(tid.as_str(), '\0')
            || tpath.as_str().unicode_len() == 0 || !within_bytes(tpath.as_str(), 4096) || contains_char(
            tpath.as_str(),
            '\0',
        ) {
            return Err("invalid project session");
        }
        let ghost ks = self.ids();
        let ghost vs = self.paths();
        proof {
            lemma_sorted_distinct(ks);
            lemma_table(ks, vs);
        }
        let (found, pos) = key_slot(&self.sessions, tid.as_str());
        if self.sessions.len() >= 32 && !found {
            proof {
                if self.view().contains_key(tid@) {
                    assert(ks.contains(tid@));
                }
            }
            return Err("project session limit reached");
        }
        let mut v: Vec<(String, String)> = Vec::new();
        std::mem::swap(&mut v, &mut self.sessions);
        if found {
            let key = copy_str(v[pos].0.as_str());
            v.set(pos, (key, tpath));
            proof {
                assert(key_seq(v@) =~= ks);
                assert(v@.map_values(|e: (String, String)| e.1@) =~= vs.update(pos as int, spec_trim(path@)));
                lemma_table_set(ks, vs, pos as int, spec_trim(path@));
            }
        } else {
            v.insert(pos, (copy_str(tid.as_str()), tpath));
            proof {
                assert(key_seq(v@) =~= ks.insert(pos as int, spec_trim(id@)));
                assert(v@.map_values(|e: (String, String)| e.1@) =~= vs.insert(pos as int, spec_trim(path@)));
                lemma_table_insert(ks, vs, pos as int, spec_trim(id@), spec_trim(path@));
                lemma_sorted_insert(ks, pos as int, spec_trim(id@));
            }
        }
        self.sessions = v;
        proof {
            self.lemma_keys();
        }
        if self.active.is_none() {
            self.active = Some(tid);
        }
        Ok(())
    }

    /// Makes an open session active; refused, with nothing changed, for an
    /// unknown id.
    pub fn activate(&mut self, id: &str) -> (r: bool)
        ensures
            r == old(self).view().contains_key(id@),
            r ==> final(self).active_id() == Some(id@),
            !r ==> final(self).active_id() == old(self).active_id(),
            final(self).view() == old(self).view(),
            final(self).ids() == old(self).ids(),
    {
        proof {
            use_type_invariant(&*self);
            self.lemma_view();
            self.lemma_keys();
        }
        let (found, _pos) = key_slot(&self.sessions, id);
        if found {
            self.active = Some(copy_str(id));
            true
        } else {
            false
        }
    }

    /// Closes a session and tells whether it was open; when the active one
    /// closes, the first remaining session becomes active.
    pub fn close(&mut self, id: &str) -> (r: bool)
        ensures
            r == old(self).view().contains_key(id@),
            final(self).view() == old(self).view().remove(id@),
            final(self).active_id() == active_after_close(old(self).active_id(), id@, final(self).ids()),
    {
        proof {
            use_type_invariant(&*self);
            self.lemma_view();
            self.lemma_keys();
        }
        let ghost ks = self.ids();
        let ghost vs = self.paths();
        let (found, pos) = key_slot(&self.sessions, id);
        if found {
            let mut v: Vec<(String, String)> = Vec::new();
            std::mem::swap(&mut v, &mut self.sessions);
            v.remove(pos);
            proof {
                assert(key_seq(v@) =~= ks.remove(pos as int));
                assert(v@.map_values(|e: (String, String)| e.1@) =~= vs.remove(pos as int));
                lemma_table_remove(ks, vs, pos as int);
                lemma_sorted_remove(ks, pos as int);
            }
            self.sessions = v;
        } else {
            proof {
                assert(self.view().remove(id@) =~= self.view());
            }
        }
        proof {
            self.lemma_keys();
        }
        let is_active = match &self.active {
            Some(a) => crate::text::str_eq(a.as_str(), id),
            None => false,
        };
        if is_active {
            self.active = if self.sessions.len() > 0 {
                Some(copy_str(self.sessions[0].0.as_str()))
            } else {
                None
            };
        }
        found
    }

    /// The active session id.
    pub fn active(&self) -> (r: Option<&str>)
        ensures
            match r {
                Some(a) => self.active_id() == Some(a@),
                None => self.active_id() is None,
            },
    {
        match &self.active {
            Some(a) => Some(a.as_str()),
            None => None,
        }
    }

    /// The number of open sessions.
    pub fn len(&self) -> (r: usize)
        ensures
            r == self.ids().len(),
    {
        self.sessions.len()
    }

    pub fn is_empty(&self) -> (r: bool)
        ensures
            r == (self.ids().len() == 0),
    {
        self.sessions.len() == 0
    }

    /// The path of the session.
    pub fn path(&self, id: &str) -> (r: Option<&str>)
        ensures
            match r {
                Some(p) => self.view().contains_key(id@) && self.view()[id@] == p@,
                None => !self.view().contains_key(id@),
            },
    {
        proof {
            use_type_invariant(self);
            self.lemma_view();
            self.lemma_keys();
        }
        let (found, pos) = key_slot(&self.sessions, id);
        if found {
            let p = self.sessions[pos].1.as_str();
            proof {
                assert(self.ids()[pos as int] == id@);
                assert(self.paths()[pos as int] == p@);
            }
            Some(p)
        } else {
            None
        }
    }

    /// Every session as (id, path), in ascending id order.
    pub fn sessions(&self) -> (r: Vec<(String, String)>)
        ensures
            r@.map_values(|e: (String, String)| (e.0@, e.1@)) == self.entries(),
    {
        let ghost es = self.entries();
        let mut r: Vec<(String, String)> = Vec::new();
        let mut i: usize = 0;
        while i < self.sessions.len()
            invariant
                i <= self.sessions.len(),
                es == self.entries(),
                r@.map_values(|e: (String, String)| (e.0@, e.1@)) == es.take(i as int),
            decreases self.sessions.len() - i,
        {
            let ghost before = r@;
            let e = (copy_str(self.sessions[i].0.as_str()), copy_str(self.sessions[i].1.as_str()));
            proof {
                assert(es[i as int] == (e.0@, e.1@));
            }
            r.push(e);
            proof {
                assert(r@.map_values(|e: (String, String)| (e.0@, e.1@)) =~= before.map_values(
                    |e: (String, String)| (e.0@, e.1@),
                ).push(es[i as int]));
                assert(es.take(i + 1) =~= es.take(i as int).push(es[i as int]));
            }
            i += 1;
        }
        proof {
            assert(es.take(i as int) =~= es);
        }
        r
    }

    /// At most 32 sound sessions, and the active id, if any, open.
    pub fn audit(&self) -> (r: bool)
        ensures
            r == (self.ids().len() <= 32 && (forall|i: int|
                0 <= i < self.ids().len() ==> #[trigger] stored_session_ok(self.ids()[i], self.paths()[i])) && (
            self.active_id() matches Some(a) ==> self.view().contains_key(a))),
    {
        proof {
            use_type_invariant(self);
            self.lemma_view();
            self.lemma_keys();
        }
        if self.sessions.len() > 32 {
            return false;
        }
        let ghost ks = self.ids();
        let ghost vs = self.paths();
        let mut i: usize = 0;
        while i < self.sessions.len()
            invariant
                i <= self.sessions.len(),
                ks == self.ids(),
                vs == self.paths(),
                forall|a: int| 0 <= a < i ==> #[trigger] stored_session_ok(ks[a], vs[a]),
            decreases self.sessions.len() - i,
        {
            let id = self.sessions[i].0.as_str();
            let path = self.sessions[i].1.as_str();
            proof {
                assert(ks[i as int] == id@ && vs[i as int] == path@);
            }
            if blank(id) || !within_bytes(id, 128) || contains_char(id, '\0') || blank(path) || !within_bytes(path, 4096)
                || contains_char(path, '\0') {
                proof {
                    assert(!stored_session_ok(ks[i as int], vs[i as int]));
                }
                return false;
            }
            i += 1;
        }
        match &self.active {
            Some(a) => {
                let (found, _pos) = key_slot(&self.sessions, a.as_str());
                proof {
                    if found {
                        let k = choose|k: int| 0 <= k < ks.len() && ks[k] == a@;
                        assert(self.view().contains_key(ks[k]));
                    }
                }
                found
            },
            None => true,
        }
    }
}

impl Default for ProjectSessionRegistry {
    fn default() -> (r: Self)
        ensures
            r.ids().len() == 0,
            r.view() == Map::<Seq<char>, Seq<char>>::empty(),
            r.active_id() is None,
    {
        Self::new()
    }
}

} // verus!
