//! Plug-in collections: the immutable Default collection that mirrors the
//! available plug-ins, and user collections with folders.
use vstd::prelude::*;
use crate::keyed::{sorted_distinct_texts, strictly_sorted, text_views};
use crate::plugin_catalog::collection_laws::{
    lemma_activate_reach, lemma_add_entry_reach, lemma_copy_reach, lemma_create_reach, lemma_delete_reach,
    lemma_new_reach, lemma_purge_reach, lemma_reach_validates, lemma_remove_entry_reach, lemma_rename_reach, lemma_rescan_reach, reach_ok,
};
use crate::text::{
    blank, byte_len, contains_char, copy_str, eq_ignore_ascii_case, eq_ignore_case, is_blank,
    push_decimal, push_str, spec_trim, str_eq, trim, within_bytes, decimal,
};

verus! {

/// The id of the collection that mirrors every available plug-in.
pub const DEFAULT_PLUGIN_COLLECTION_ID: &'static str = "default";

/// A plug-in id or collection id: non-blank, at most 256 bytes, without
/// NUL or path separators.
pub open spec fn token_ok(s: Seq<char>) -> bool {
    !is_blank(s) && byte_len(s) <= 256 && !s.contains('\0') && !s.contains('/') && !s.contains(
        '\\',
    )
}

/// A collection or folder name: non-blank, at most 128 bytes, no NUL.
pub open spec fn name_ok(s: Seq<char>) -> bool {
    !is_blank(s) && byte_len(s) <= 128 && !s.contains('\0')
}

/// At most 16 folder levels, each a name other than `.` and `..`.
pub open spec fn folder_ok(f: Seq<Seq<char>>) -> bool {
    f.len() <= 16 && forall|i: int|
        0 <= i < f.len() ==> name_ok(#[trigger] f[i]) && f[i] != seq!['.'] && f[i] != seq!['.', '.']
}

pub fn valid_collection_token(value: &str) -> (r: bool)
    ensures
        r == token_ok(value@),
{
    !blank(value) && within_bytes(value, 256) && !contains_char(value, '\0') && !contains_char(
        value,
        '/',
    ) && !contains_char(value, '\\')
}

pub fn valid_collection_name(value: &str) -> (r: bool)
    ensures
        r == name_ok(value@),
{
    !blank(value) && within_bytes(value, 128) && !contains_char(value, '\0')
}

pub fn valid_folder(folder: &[String]) -> (r: bool)
    ensures
        r == folder_ok(text_views(folder@)),
{
    if folder.len() > 16 {
        return false;
    }
    let dot = ".";
    let dots = "..";
    proof {
        reveal_strlit(".");
        reveal_strlit("..");
    }
    let mut i: usize = 0;
    while i < folder.len()
        invariant
            i <= folder.len(),
            dot@ == seq!['.'],
            dots@ == seq!['.', '.'],
            forall|j: int| 0 <= j < i ==> name_ok(#[trigger] text_views(folder@)[j]) && text_views(
                folder@,
            )[j] != seq!['.'] && text_views(folder@)[j] != seq!['.', '.'],
        decreases folder.len() - i,
    {
        let part = folder[i].as_str();
        proof {
            assert(text_views(folder@)[i as int] == part@);
        }
        if !valid_collection_name(part) || str_eq(part, dot) || str_eq(part, dots) {
            return false;
        }
        i += 1;
    }
    true
}

#[derive(Clone, Debug, PartialEq, Eq)]
pub struct PluginCollectionEntry {
    pub plugin_id: String,
    pub folder: Vec<String>,
}

#[derive(Clone, Debug, PartialEq, Eq)]
pub struct PluginCollection {
    pub id: String,
    pub name: String,
    pub entries: Vec<PluginCollectionEntry>,
    pub immutable: bool,
}

#[derive(Clone, Debug, PartialEq, Eq)]
pub struct PluginCollectionManager {
    pub collections: Vec<PluginCollection>,
    pub active_id: String,
    /// The available plug-in ids, ascending and distinct.
    pub available_plugin_ids: Vec<String>,
    /// The number the next user collection's id carries.
    pub next_id: u64,
}

/// An entry as plain values: plug-in id and folder path.
pub type EntryView = (Seq<char>, Seq<Seq<char>>);

pub open spec fn entry_view(e: PluginCollectionEntry) -> EntryView {
    (e.plugin_id@, text_views(e.folder@))
}

/// A collection as plain values.
pub struct CollectionView {
    pub id: Seq<char>,
    pub name: Seq<char>,
    pub entries: Seq<EntryView>,
    pub immutable: bool,
}

pub open spec fn entries_view(es: Seq<PluginCollectionEntry>) -> Seq<EntryView> {
    es.map_values(|e: PluginCollectionEntry| entry_view(e))
}

pub open spec fn collection_view(c: PluginCollection) -> CollectionView {
    CollectionView { id: c.id@, name: c.name@, entries: entries_view(c.entries@), immutable: c.immutable }
}

/// One entry per id, without folders.
pub open spec fn plain_entries(ids: Seq<Seq<char>>) -> Seq<EntryView> {
    ids.map_values(|t: Seq<char>| (t, Seq::<Seq<char>>::empty()))
}

/// The available ids that a list of candidates yields: the valid ones,
/// ascending and each once.
pub open spec fn available_from(cands: Seq<Seq<char>>, avail: Seq<Seq<char>>) -> bool {
    &&& strictly_sorted(avail)
    &&& forall|t: Seq<char>| avail.contains(t) <==> (cands.contains(t) && token_ok(t))
}

/// The first collection with the id (-1 if none).
pub open spec fn find_id(cs: Seq<CollectionView>, id: Seq<char>) -> int
    decreases cs.len(),
{
    if cs.len() == 0 {
        -1
    } else if find_id(cs.drop_last(), id) >= 0 {
        find_id(cs.drop_last(), id)
    } else if cs.last().id == id {
        cs.len() - 1
    } else {
        -1
    }
}

/// The first user collection with the id (-1 if none).
pub open spec fn find_user(cs: Seq<CollectionView>, id: Seq<char>) -> int
    decreases cs.len(),
{
    if cs.len() == 0 {
        -1
    } else if find_user(cs.drop_last(), id) >= 0 {
        find_user(cs.drop_last(), id)
    } else if cs.last().id == id && !cs.last().immutable {
        cs.len() - 1
    } else {
        -1
    }
}

/// The number of user entries whose plug-in is not available.
pub open spec fn unavailable_count(cs: Seq<CollectionView>, avail: Seq<Seq<char>>) -> nat
    decreases cs.len(),
{
    if cs.len() == 0 {
        0
    } else {
        unavailable_count(cs.drop_last(), avail) + if cs.last().immutable {
            0nat
        } else {
            (cs.last().entries.len() - cs.last().entries.filter(
                |e: EntryView| avail.contains(e.0),
            ).len()) as nat
        }
    }
}

/// The number of entries in all collections.
pub open spec fn entry_total(cs: Seq<CollectionView>) -> nat
    decreases cs.len(),
{
    if cs.len() == 0 {
        0
    } else {
        entry_total(cs.drop_last()) + cs.last().entries.len()
    }
}

/// The Default collection as built from the available ids.
pub open spec fn default_view(avail: Seq<Seq<char>>) -> CollectionView {
    CollectionView {
        id: seq!['d', 'e', 'f', 'a', 'u', 'l', 't'],
        name: seq!['D', 'e', 'f', 'a', 'u', 'l', 't'],
        entries: plain_entries(avail),
        immutable: true,
    }
}

/// The id a new user collection gets.
pub open spec fn user_id(n: u64) -> Seq<char> {
    seq!['u', 's', 'e', 'r', '-'] + decimal(n as nat)
}

/// A collection whose name matches ignoring ASCII case, other than those
/// with id `except` (when given).
pub open spec fn name_taken(cs: Seq<CollectionView>, name: Seq<char>, except: Option<Seq<char>>) -> bool {
    exists|i: int|
        0 <= i < cs.len() && (except is None || cs[i].id != except->0) && eq_ignore_case(
            #[trigger] cs[i].name,
            name,
        )
}

/// Entry `k` has a valid id and folder and its id stands once so far.
pub open spec fn entry_ok_at(es: Seq<EntryView>, k: int) -> bool {
    &&& token_ok(es[k].0)
    &&& folder_ok(es[k].1)
    &&& forall|k2: int| 0 <= k2 < k ==> #[trigger] es[k2].0 != es[k].0
}

/// Collection `a` is sound and differs in id and name from those before.
pub open spec fn collection_ok(cs: Seq<CollectionView>, a: int) -> bool {
    &&& token_ok(cs[a].id)
    &&& name_ok(cs[a].name)
    &&& cs[a].entries.len() <= 65_536
    &&& forall|j: int| 0 <= j < a ==> #[trigger] cs[j].id != cs[a].id && !eq_ignore_case(cs[j].name, cs[a].name)
    &&& forall|k: int| 0 <= k < cs[a].entries.len() ==> #[trigger] entry_ok_at(cs[a].entries, k)
}

/// The manager state is sound.
pub open spec fn manager_ok(cs: Seq<CollectionView>, active: Seq<char>, avail: Seq<Seq<char>>, next_id: u64) -> bool {
    &&& next_id > 0
    &&& cs.len() <= 256
    &&& exists|i: int| 0 <= i < cs.len() && #[trigger] cs[i].id == active
    &&& cs.filter(|c: CollectionView| c.id == seq!['d', 'e', 'f', 'a', 'u', 'l', 't'] && c.immutable
        && c.name == seq!['D', 'e', 'f', 'a', 'u', 'l', 't']).len() == 1
    &&& forall|i: int| 0 <= i < cs.len() ==> #[trigger] collection_ok(cs, i)
    &&& find_id(cs, seq!['d', 'e', 'f', 'a', 'u', 'l', 't']) >= 0
    &&& cs[find_id(cs, seq!['d', 'e', 'f', 'a', 'u', 'l', 't'])].entries.map_values(|e: EntryView| e.0) == avail
}

pub proof fn lemma_find_id(cs: Seq<CollectionView>, id: Seq<char>)
    ensures
        -1 <= find_id(cs, id) < cs.len(),
        find_id(cs, id) >= 0 ==> cs[find_id(cs, id)].id == id && forall|j: int|
            0 <= j < find_id(cs, id) ==> #[trigger] cs[j].id != id,
        find_id(cs, id) < 0 ==> forall|j: int| 0 <= j < cs.len() ==> #[trigger] cs[j].id != id,
    decreases cs.len(),
{
    if cs.len() > 0 {
        lemma_find_id(cs.drop_last(), id);
        assert forall|j: int| 0 <= j < cs.len() - 1 implies cs[j] == cs.drop_last()[j] by {}
    }
}

pub proof fn lemma_find_user(cs: Seq<CollectionView>, id: Seq<char>)
    ensures
        -1 <= find_user(cs, id) < cs.len(),
        find_user(cs, id) >= 0 ==> cs[find_user(cs, id)].id == id && !cs[find_user(cs, id)].immutable
            && forall|j: int| 0 <= j < find_user(cs, id) ==> !(#[trigger] cs[j].id == id && !cs[j].immutable),
        find_user(cs, id) < 0 ==> forall|j: int| 0 <= j < cs.len() ==> !(#[trigger] cs[j].id == id && !cs[j].immutable),
    decreases cs.len(),
{
    if cs.len() > 0 {
        lemma_find_user(cs.drop_last(), id);
        assert forall|j: int| 0 <= j < cs.len() - 1 implies cs[j] == cs.drop_last()[j] by {}
    }
}

fn copy_texts(v: &Vec<String>) -> (r: Vec<String>)
    ensures
        text_views(r@) == text_views(v@),
{
    let mut r: Vec<String> = Vec::new();
    let mut i: usize = 0;
    while i < v.len()
        invariant
            i <= v.len(),
            text_views(r@) == text_views(v@).take(i as int),
        decreases v.len() - i,
    {
        r.push(copy_str(v[i].as_str()));
        proof {
            assert(text_views(v@).take(i + 1) =~= text_views(v@).take(i as int).push(v@[i as int]@));
        }
        i += 1;
        proof {
            assert(text_views(r@) =~= text_views(v@).take(i as int));
        }
    }
    proof {
        assert(text_views(v@).take(i as int) =~= text_views(v@));
    }
    r
}

fn copy_entries(v: &Vec<PluginCollectionEntry>) -> (r: Vec<PluginCollectionEntry>)
    ensures
        entries_view(r@) == entries_view(v@),
{
    let mut r: Vec<PluginCollectionEntry> = Vec::new();
    let mut i: usize = 0;
    while i < v.len()
        invariant
            i <= v.len(),
            entries_view(r@) == entries_view(v@).take(i as int),
        decreases v.len() - i,
    {
        let e = PluginCollectionEntry {
            plugin_id: copy_str(v[i].plugin_id.as_str()),
            folder: copy_texts(&v[i].folder),
        };
        r.push(e);
        proof {
            assert(entries_view(v@).take(i + 1) =~= entries_view(v@).take(i as int).push(entry_view(v@[i as int])));
        }
        i += 1;
        proof {
            assert(entries_view(r@) =~= entries_view(v@).take(i as int));
        }
    }
    proof {
        assert(entries_view(v@).take(i as int) =~= entries_view(v@));
    }
    r
}

/// One folderless entry per id.
fn plain_entry_list(ids: &Vec<String>) -> (r: Vec<PluginCollectionEntry>)
    ensures
        entries_view(r@) == plain_entries(text_views(ids@)),
{
    let mut r: Vec<PluginCollectionEntry> = Vec::new();
    let mut i: usize = 0;
    while i < ids.len()
        invariant
            i <= ids.len(),
            entries_view(r@) == plain_entries(text_views(ids@)).take(i as int),
        decreases ids.len() - i,
    {
        let ghost before = r@;
        let e = PluginCollectionEntry { plugin_id: copy_str(ids[i].as_str()), folder: Vec::new() };
        proof {
            assert(text_views(e.folder@) =~= Seq::<Seq<char>>::empty());
            assert(entry_view(e) == (text_views(ids@)[i as int], Seq::<Seq<char>>::empty()));
        }
        r.push(e);
        proof {
            assert(entries_view(r@) =~= entries_view(before).push(entry_view(e)));
            assert(plain_entries(text_views(ids@)).take(i + 1) =~= plain_entries(text_views(ids@)).take(i as int).push(
                (text_views(ids@)[i as int], Seq::<Seq<char>>::empty()),
            ));
        }
        i += 1;
        proof {
            assert(entries_view(r@) =~= plain_entries(text_views(ids@)).take(i as int));
        }
    }
    proof {
        assert(plain_entries(text_views(ids@)).take(i as int) =~= plain_entries(text_views(ids@)));
    }
    r
}

/// The valid candidates, ascending and distinct.
fn available_list(cands: &[&str]) -> (r: Vec<String>)
    ensures
        available_from(cands@.map_values(|s: &str| s@), text_views(r@)),
{
    let ghost cv = cands@.map_values(|s: &str| s@);
    let ghost tok = |t: Seq<char>| token_ok(t);
    let mut valid: Vec<String> = Vec::new();
    let mut i: usize = 0;
    while i < cands.len()
        invariant
            i <= cands.len(),
            cv == cands@.map_values(|s: &str| s@),
            tok == (|t: Seq<char>| token_ok(t)),
            text_views(valid@) == cv.take(i as int).filter(tok),
        decreases cands.len() - i,
    {
        let c = cands[i];
        let ghost before = valid@;
        proof {
            assert(cv.take(i + 1) =~= cv.take(i as int).push(c@));
            cv.take(i as int).lemma_filter_push(c@, tok);
        }
        if valid_collection_token(c) {
            valid.push(copy_str(c));
            proof {
                assert(text_views(valid@) =~= text_views(before).push(c@));
            }
        }
        i += 1;
    }
    proof {
        assert(cv.take(i as int) =~= cv);
    }
    let r = sorted_distinct_texts(&valid);
    proof {
        broadcast use vstd::seq_lib::group_filter_ensures;
        assert forall|t: Seq<char>| text_views(r@).contains(t) <==> (cv.contains(t) && token_ok(t)) by {
            if cv.filter(tok).contains(t) {
                cv.lemma_filter_contains_rev(tok, t);
                let k = choose|k: int| 0 <= k < cv.filter(tok).len() && cv.filter(tok)[k] == t;
                assert(tok(cv.filter(tok)[k]));
            }
            if cv.contains(t) && token_ok(t) {
                let k = choose|k: int| 0 <= k < cv.len() && cv[k] == t;
                assert(tok(cv[k]));
            }
        }
    }
    r
}

impl PluginCollectionManager {
    pub open spec fn cols(&self) -> Seq<CollectionView> {
        self.collections@.map_values(|c: PluginCollection| collection_view(c))
    }

    pub open spec fn avail(&self) -> Seq<Seq<char>> {
        text_views(self.available_plugin_ids@)
    }

    pub open spec fn next_number(&self) -> u64 {
        self.next_id
    }

    /// The manager is in the state that every operation keeps (see
    /// `reach_ok`); such a manager passes `validate`.
    pub open spec fn reach(&self) -> bool {
        reach_ok(self.cols(), self.active_id@, self.avail(), self.next_id)
    }

    fn position(&self, id: &str, user_only: bool) -> (r: Option<usize>)
        ensures
            r matches Some(i) ==> i < self.collections@.len(),
            user_only ==> match r {
                Some(i) => i as int == find_user(self.cols(), id@),
                None => find_user(self.cols(), id@) < 0,
            },
            !user_only ==> match r {
                Some(i) => i as int == find_id(self.cols(), id@),
                None => find_id(self.cols(), id@) < 0,
            },
    {
        let ghost cs = self.cols();
        proof {
            lemma_find_id(cs, id@);
            lemma_find_user(cs, id@);
        }
        let mut i: usize = 0;
        while i < self.collections.len()
            invariant
                i <= self.collections.len(),
                cs == self.cols(),
                -1 <= find_id(cs, id@) < cs.len(),
                find_id(cs, id@) >= 0 ==> cs[find_id(cs, id@)].id == id@ && forall|j: int|
                    0 <= j < find_id(cs, id@) ==> #[trigger] cs[j].id != id@,
                find_id(cs, id@) < 0 ==> forall|j: int| 0 <= j < cs.len() ==> #[trigger] cs[j].id != id@,
                -1 <= find_user(cs, id@) < cs.len(),
                find_user(cs, id@) >= 0 ==> cs[find_user(cs, id@)].id == id@ && !cs[find_user(
                    cs,
                    id@,
                )].immutable && forall|j: int|
                    0 <= j < find_user(cs, id@) ==> !(#[trigger] cs[j].id == id@ && !cs[j].immutable),
                find_user(cs, id@) < 0 ==> forall|j: int|
                    0 <= j < cs.len() ==> !(#[trigger] cs[j].id == id@ && !cs[j].immutable),
                forall|j: int| 0 <= j < i ==> !(#[trigger] cs[j].id == id@ && (!user_only || !cs[j].immutable)),
            decreases self.collections.len() - i,
        {
            let c = &self.collections[i];
            proof {
                assert(cs[i as int].id == c.id@);
            }
            if str_eq(c.id.as_str(), id) && (!user_only || !c.immutable) {
                return Some(i);
            }
            i += 1;
        }
        None
    }

    /// Builds the manager from the ids of the available plug-ins: the valid
    /// ones, ascending and each once, fill the active Default collection.
    pub fn new(available_ids: &[&str]) -> (r: Self)
        ensures
            available_from(available_ids@.map_values(|s: &str| s@), r.avail()),
            r.cols() == seq![default_view(r.avail())],
            r.active_id@ == seq!['d', 'e', 'f', 'a', 'u', 'l', 't'],
            r.next_number() == 1,
            r.avail().len() <= 65_536 ==> r.reach(),
    {
        let available = available_list(available_ids);
        let entries = plain_entry_list(&available);
        let id = copy_str("default");
        let active = copy_str("default");
        let name = copy_str("Default");
        proof {
            reveal_strlit("default");
            reveal_strlit("Default");
        }
        let mut collections: Vec<PluginCollection> = Vec::new();
        collections.push(PluginCollection { id, name, entries, immutable: true });
        let r = PluginCollectionManager {
            collections,
            active_id: active,
            available_plugin_ids: available,
            next_id: 1,
        };
        proof {
            let cv = collection_view(r.collections@[0]);
            assert(cv.id =~= seq!['d', 'e', 'f', 'a', 'u', 'l', 't']);
            assert(cv.name =~= seq!['D', 'e', 'f', 'a', 'u', 'l', 't']);
            assert(cv.entries == plain_entries(r.avail()));
            assert(cv == default_view(r.avail()));
            assert(r.cols() =~= seq![default_view(r.avail())]);
            if r.avail().len() <= 65_536 {
                lemma_new_reach(r.avail());
            }
        }
        r
    }

    /// Recomputes the available plug-ins and rebuilds the Default
    /// collection from them; user collections keep every entry.
    #[verifier::loop_isolation(false)]
    pub fn rescan(&mut self, available_ids: &[&str])
        ensures
            available_from(available_ids@.map_values(|s: &str| s@), final(self).avail()),
            ({
                let d = find_id(old(self).cols(), seq!['d', 'e', 'f', 'a', 'u', 'l', 't']);
                final(self).cols() == if d >= 0 {
                    old(self).cols().update(d, default_view(final(self).avail()))
                } else {
                    old(self).cols()
                }
            }),
            final(self).active_id@ == old(self).active_id@,
            final(self).next_number() == old(self).next_number(),
            old(self).reach() && final(self).avail().len() <= 65_536 ==> final(self).reach(),
    {
        self.available_plugin_ids = available_list(available_ids);
        let ghost cs = self.cols();
        let pos = self.position("default", false);
        proof {
            reveal_strlit("default");
            assert("default"@ =~= seq!['d', 'e', 'f', 'a', 'u', 'l', 't']);
        }
        match pos {
            Some(d) => {
                let entries = plain_entry_list(&self.available_plugin_ids);
                let c = PluginCollection {
                    id: copy_str(self.collections[d].id.as_str()),
                    name: copy_str("Default"),
                    entries,
                    immutable: true,
                };
                proof {
                    reveal_strlit("Default");
                }
                proof {
                    lemma_find_id(cs, seq!['d', 'e', 'f', 'a', 'u', 'l', 't']);
                    let cv = collection_view(c);
                    assert(cv.id =~= seq!['d', 'e', 'f', 'a', 'u', 'l', 't']);
                    assert(cv.name =~= seq!['D', 'e', 'f', 'a', 'u', 'l', 't']);
                    assert(cv == default_view(self.avail()));
                }
                self.collections.set(d, c);
                proof {
                    assert(self.cols() =~= cs.update(d as int, default_view(self.avail())));
                }
            },
            None => {},
        }
        proof {
            if old(self).reach() && self.avail().len() <= 65_536 {
                lemma_rescan_reach(cs, old(self).active_id@, old(self).avail(), old(self).next_id, self.avail());
            }
        }
    }

    /// Adds a user collection under the trimmed name, with every available
    /// plug-in or none, and returns its id.  Refused for an invalid name, a
    /// name already in use (ignoring ASCII case), 256 collections, or when
    /// the id counter is exhausted.
    #[verifier::loop_isolation(false)]
    pub fn create(&mut self, name: &str, include_all: bool) -> (r: Option<String>)
        ensures
            ({
                let nm = spec_trim(name@);
                let ok = name_ok(nm) && old(self).cols().len() < 256 && !name_taken(
                    old(self).cols(),
                    nm,
                    None,
                ) && old(self).next_number() < u64::MAX;
                &&& (r is Some) == ok
                &&& ok ==> r->0@ == user_id(old(self).next_number()) && final(self).next_number()
                    == old(self).next_number() + 1 && final(self).cols() == old(self).cols().push(
                    CollectionView {
                        id: user_id(old(self).next_number()),
                        name: nm,
                        entries: if include_all {
                            plain_entries(old(self).avail())
                        } else {
                            Seq::empty()
                        },
                        immutable: false,
                    },
                )
                &&& !ok ==> final(self).cols() == old(self).cols() && final(self).next_number()
                    == old(self).next_number()
            }),
            final(self).avail() == old(self).avail(),
            final(self).active_id@ == old(self).active_id@,
            old(self).reach() ==> final(self).reach(),
    {
        let nm = trim(name);
        if !valid_collection_name(nm.as_str()) || self.collections.len() >= 256 {
            return None;
        }
        let ghost cs = self.cols();
        let mut i: usize = 0;
        while i < self.collections.len()
            invariant
                i <= self.collections.len(),
                cs == self.cols(),
                forall|j: int| 0 <= j < i ==> !eq_ignore_case(#[trigger] cs[j].name, nm@),
            decreases self.collections.len() - i,
        {
            proof {
                assert(cs[i as int].name == self.collections@[i as int].name@);
            }
            if eq_ignore_ascii_case(self.collections[i].name.as_str(), nm.as_str()) {
                return None;
            }
            i += 1;
        }
        let mut id = String::new();
        push_str(&mut id, "user-");
        push_decimal(&mut id, self.next_id);
        proof {
            reveal_strlit("user-");
            assert(id@ =~= user_id(self.next_id));
        }
        if self.next_id == u64::MAX {
            return None;
        }
        self.next_id = self.next_id + 1;
        let entries = if include_all {
            plain_entry_list(&self.available_plugin_ids)
        } else {
            Vec::new()
        };
        let out = copy_str(id.as_str());
        let nc = PluginCollection { id, name: nm, entries, immutable: false };
        proof {
            if !include_all {
                assert(entries_view(nc.entries@) =~= Seq::<EntryView>::empty());
            }
        }
        self.collections.push(nc);
        proof {
            assert(self.cols() =~= cs.push(collection_view(nc)));
            if old(self).reach() {
                lemma_create_reach(cs, old(self).active_id@, old(self).avail(), old(self).next_id, nm@, include_all);
            }
        }
        Some(out)
    }

    /// Adds a user collection under the name holding a copy of the source
    /// collection's entries.
    pub fn copy_collection(&mut self, source_id: &str, name: &str) -> (r: Option<String>)
        ensures
            ({
                let s = find_id(old(self).cols(), source_id@);
                let nm = spec_trim(name@);
                let ok = s >= 0 && name_ok(nm) && old(self).cols().len() < 256 && !name_taken(
                    old(self).cols(),
                    nm,
                    None,
                ) && old(self).next_number() < u64::MAX;
                let id = user_id(old(self).next_number());
                let grown = old(self).cols().push(
                    CollectionView { id: id, name: nm, entries: Seq::empty(), immutable: false },
                );
                let f = find_id(grown, id);
                &&& (r is Some) == ok
                &&& ok ==> r->0@ == id && final(self).next_number() == old(self).next_number() + 1
                    && final(self).cols() == grown.update(
                    f,
                    CollectionView { entries: old(self).cols()[s].entries, ..grown[f] },
                )
                &&& !ok ==> final(self).cols() == old(self).cols() && final(self).next_number()
                    == old(self).next_number()
            }),
            final(self).avail() == old(self).avail(),
            final(self).active_id@ == old(self).active_id@,
            old(self).reach() ==> final(self).reach(),
    {
        let ghost cs0 = self.cols();
        let s = match self.position(source_id, false) {
            Some(s) => s,
            None => return None,
        };
        let entries = copy_entries(&self.collections[s].entries);
        let id = match self.create(name, false) {
            Some(id) => id,
            None => return None,
        };
        let ghost grown = self.cols();
        let f = self.position(id.as_str(), false).unwrap_or(0);
        proof {
            lemma_find_id(grown, id@);
            assert(grown[grown.len() - 1].id == id@);
        }
        let c = &self.collections[f];
        let nc = PluginCollection {
            id: copy_str(c.id.as_str()),
            name: copy_str(c.name.as_str()),
            entries,
            immutable: c.immutable,
        };
        self.collections.set(f, nc);
        proof {
            assert(self.cols() =~= grown.update(
                f as int,
                CollectionView { entries: cs0[s as int].entries, ..grown[f as int] },
            ));
            if old(self).reach() {
                lemma_find_id(cs0, source_id@);
                lemma_copy_reach(cs0, old(self).active_id@, old(self).avail(), old(self).next_id, s as int, spec_trim(name@));
            }
        }
        Some(id)
    }

    /// Makes the collection with the id active, if there is one.
    pub fn activate(&mut self, id: &str) -> (r: bool)
        ensures
            r == (find_id(old(self).cols(), id@) >= 0),
            final(self).active_id@ == if r {
                id@
            } else {
                old(self).active_id@
            },
            final(self).cols() == old(self).cols(),
            final(self).avail() == old(self).avail(),
            final(self).next_number() == old(self).next_number(),
            old(self).reach() ==> final(self).reach(),
    {
        if self.position(id, false).is_none() {
            return false;
        }
        self.active_id = copy_str(id);
        proof {
            if old(self).reach() {
                lemma_activate_reach(self.cols(), old(self).active_id@, self.avail(), self.next_id, id@);
            }
        }
        true
    }

    /// Renames the first user collection with the id to the trimmed name,
    /// unless the name is invalid or another collection's name matches it
    /// ignoring ASCII case.
    #[verifier::loop_isolation(false)]
    pub fn rename(&mut self, id: &str, name: &str) -> (r: bool)
        ensures
            ({
                let nm = spec_trim(name@);
                let u = find_user(old(self).cols(), id@);
                let ok = name_ok(nm) && !name_taken(old(self).cols(), nm, Some(id@)) && u >= 0;
                &&& r == ok
                &&& ok ==> final(self).cols() == old(self).cols().update(
                    u,
                    CollectionView { name: nm, ..old(self).cols()[u] },
                )
                &&& !ok ==> final(self).cols() == old(self).cols()
            }),
            final(self).avail() == old(self).avail(),
            final(self).active_id@ == old(self).active_id@,
            final(self).next_number() == old(self).next_number(),
            old(self).reach() ==> final(self).reach(),
    {
        let nm = trim(name);
        if !valid_collection_name(nm.as_str()) {
            return false;
        }
        let ghost cs = self.cols();
        let mut i: usize = 0;
        while i < self.collections.len()
            invariant
                i <= self.collections.len(),
                cs == self.cols(),
                forall|j: int| 0 <= j < i ==> !(#[trigger] cs[j].id != id@ && eq_ignore_case(cs[j].name, nm@)),
            decreases self.collections.len() - i,
        {
            proof {
                assert(cs[i as int].name == self.collections@[i as int].name@);
                assert(cs[i as int].id == self.collections@[i as int].id@);
            }
            if !str_eq(self.collections[i].id.as_str(), id) && eq_ignore_ascii_case(
                self.collections[i].name.as_str(),
                nm.as_str(),
            ) {
                return false;
            }
            i += 1;
        }
        let u = match self.position(id, true) {
            Some(u) => u,
            None => return false,
        };
        let c = &self.collections[u];
        let nc = PluginCollection {
            id: copy_str(c.id.as_str()),
            name: nm,
            entries: copy_entries(&c.entries),
            immutable: c.immutable,
        };
        self.collections.set(u, nc);
        proof {
            assert(self.cols() =~= cs.update(u as int, CollectionView { name: spec_trim(name@), ..cs[u as int] }));
            if old(self).reach() {
                lemma_rename_reach(cs, old(self).active_id@, old(self).avail(), old(self).next_id, id@, spec_trim(name@));
            }
        }
        true
    }

    /// Deletes the first user collection with the id; the Default
    /// collection becomes active when the deleted one was.
    pub fn delete(&mut self, id: &str) -> (r: bool)
        ensures
            ({
                let u = find_user(old(self).cols(), id@);
                &&& r == (u >= 0)
                &&& r ==> final(self).cols() == old(self).cols().remove(u)
                &&& r ==> final(self).active_id@ == if old(self).active_id@ == id@ {
                    seq!['d', 'e', 'f', 'a', 'u', 'l', 't']
                } else {
                    old(self).active_id@
                }
                &&& !r ==> final(self).cols() == old(self).cols() && final(self).active_id@ == old(
                    self,
                ).active_id@
            }),
            final(self).avail() == old(self).avail(),
            final(self).next_number() == old(self).next_number(),
            old(self).reach() ==> final(self).reach(),
    {
        let ghost cs = self.cols();
        let u = match self.position(id, true) {
            Some(u) => u,
            None => return false,
        };
        self.collections.remove(u);
        proof {
            assert(self.cols() =~= cs.remove(u as int));
        }
        if str_eq(self.active_id.as_str(), id) {
            self.active_id = copy_str("default");
            proof {
                reveal_strlit("default");
            }
        }
        proof {
            if old(self).reach() {
                reveal_strlit("default");
                assert("default"@ =~= seq!['d', 'e', 'f', 'a', 'u', 'l', 't']);
                lemma_delete_reach(cs, old(self).active_id@, old(self).avail(), old(self).next_id, id@);
            }
        }
        true
    }

    /// Adds an available plug-in, filed under a folder, to the first user
    /// collection with the id, unless it is already there or the
    /// collection holds 65536 entries.
    #[verifier::loop_isolation(false)]
    pub fn add_plugin(&mut self, collection_id: &str, plugin_id: &str, folder: &[String]) -> (r: bool)
        ensures
            ({
                let u = find_user(old(self).cols(), collection_id@);
                let ok = old(self).avail().contains(plugin_id@) && folder_ok(text_views(folder@)) && u
                    >= 0 && old(self).cols()[u].entries.len() < 65_536 && !old(self).cols()[u].entries.map_values(
                    |e: EntryView| e.0,
                ).contains(plugin_id@);
                &&& r == ok
                &&& ok ==> final(self).cols() == old(self).cols().update(
                    u,
                    CollectionView {
                        entries: old(self).cols()[u].entries.push((plugin_id@, text_views(folder@))),
                        ..old(self).cols()[u]
                    },
                )
                &&& !ok ==> final(self).cols() == old(self).cols()
            }),
            final(self).avail() == old(self).avail(),
            final(self).active_id@ == old(self).active_id@,
            final(self).next_number() == old(self).next_number(),
            old(self).reach() ==> final(self).reach(),
    {
        let mut known = false;
        let mut i: usize = 0;
        while i < self.available_plugin_ids.len()
            invariant
                i <= self.available_plugin_ids.len(),
                known == self.avail().take(i as int).contains(plugin_id@),
            decreases self.available_plugin_ids.len() - i,
        {
            proof {
                assert(self.avail().take(i + 1) =~= self.avail().take(i as int).push(self.avail()[i as int]));
                crate::keyed::lemma_contains_push(self.avail().take(i as int), self.avail()[i as int], plugin_id@);
                assert(self.avail()[i as int] == self.available_plugin_ids@[i as int]@);
            }
            if str_eq(self.available_plugin_ids[i].as_str(), plugin_id) {
                known = true;
            }
            i += 1;
        }
        proof {
            assert(self.avail().take(i as int) =~= self.avail());
        }
        if !known || !valid_folder(folder) {
            return false;
        }
        let ghost cs = self.cols();
        let u = match self.position(collection_id, true) {
            Some(u) => u,
            None => return false,
        };
        let c = &self.collections[u];
        if c.entries.len() >= 65_536 {
            return false;
        }
        let ghost ev = cs[u as int].entries;
        let mut k: usize = 0;
        while k < c.entries.len()
            invariant
                k <= c.entries.len(),
                ev == entries_view(c.entries@),
                forall|j: int| 0 <= j < k ==> #[trigger] ev[j].0 != plugin_id@,
            decreases c.entries.len() - k,
        {
            proof {
                assert(ev[k as int].0 == c.entries@[k as int].plugin_id@);
            }
            if str_eq(c.entries[k].plugin_id.as_str(), plugin_id) {
                proof {
                    assert(ev.map_values(|e: EntryView| e.0)[k as int] == plugin_id@);
                }
                return false;
            }
            k += 1;
        }
        proof {
            let evi = ev.map_values(|e: EntryView| e.0);
            assert(!evi.contains(plugin_id@)) by {
                if evi.contains(plugin_id@) {
                    let j = choose|j: int| 0 <= j < evi.len() && evi[j] == plugin_id@;
                    assert(ev[j].0 == plugin_id@);
                }
            }
        }
        let mut entries = copy_entries(&c.entries);
        let mut f: Vec<String> = Vec::new();
        let mut x: usize = 0;
        while x < folder.len()
            invariant
                x <= folder.len(),
                text_views(f@) == text_views(folder@).take(x as int),
            decreases folder.len() - x,
        {
            f.push(copy_str(folder[x].as_str()));
            proof {
                assert(text_views(folder@).take(x + 1) =~= text_views(folder@).take(x as int).push(folder@[x as int]@));
            }
            x += 1;
            proof {
                assert(text_views(f@) =~= text_views(folder@).take(x as int));
            }
        }
        proof {
            assert(text_views(folder@).take(x as int) =~= text_views(folder@));
        }
        let ghost eb = entries@;
        let ne = PluginCollectionEntry { plugin_id: copy_str(plugin_id), folder: f };
        entries.push(ne);
        proof {
            assert(entries_view(entries@) =~= entries_view(eb).push((plugin_id@, text_views(folder@))));
        }
        let nc = PluginCollection {
            id: copy_str(c.id.as_str()),
            name: copy_str(c.name.as_str()),
            entries,
            immutable: c.immutable,
        };
        proof {
            assert(collection_view(nc) == CollectionView { entries: cs[u as int].entries.push((plugin_id@, text_views(folder@))), ..cs[u as int] });
        }
        self.collections.set(u, nc);
        proof {
            assert(self.cols() =~= cs.update(
                u as int,
                CollectionView { entries: cs[u as int].entries.push((plugin_id@, text_views(folder@))), ..cs[u as int] },
            ));
            if old(self).reach() {
                lemma_add_entry_reach(
                    cs,
                    old(self).active_id@,
                    old(self).avail(),
                    old(self).next_id,
                    collection_id@,
                    plugin_id@,
                    text_views(folder@),
                );
            }
        }
        true
    }

    /// Drops every entry of the plug-in from the first user collection with
    /// the id; tells whether any was dropped.
    pub fn remove_plugin(&mut self, collection_id: &str, plugin_id: &str) -> (r: bool)
        ensures
            ({
                let u = find_user(old(self).cols(), collection_id@);
                let kept = if u >= 0 {
                    old(self).cols()[u].entries.filter(|e: EntryView| e.0 != plugin_id@)
                } else {
                    Seq::empty()
                };
                &&& u >= 0 ==> final(self).cols() == old(self).cols().update(
                    u,
                    CollectionView { entries: kept, ..old(self).cols()[u] },
                )
                &&& u >= 0 ==> r == (kept.len() != old(self).cols()[u].entries.len())
                &&& u < 0 ==> !r && final(self).cols() == old(self).cols()
            }),
            final(self).avail() == old(self).avail(),
            final(self).active_id@ == old(self).active_id@,
            final(self).next_number() == old(self).next_number(),
            old(self).reach() ==> final(self).reach(),
    {
        let ghost cs = self.cols();
        let u = match self.position(collection_id, true) {
            Some(u) => u,
            None => return false,
        };
        let c = &self.collections[u];
        let ghost ev = cs[u as int].entries;
        let ghost keep = |e: EntryView| e.0 != plugin_id@;
        let mut entries: Vec<PluginCollectionEntry> = Vec::new();
        let mut k: usize = 0;
        while k < c.entries.len()
            invariant
                k <= c.entries.len(),
                ev == entries_view(c.entries@),
                keep == (|e: EntryView| e.0 != plugin_id@),
                entries_view(entries@) == ev.take(k as int).filter(keep),
            decreases c.entries.len() - k,
        {
            proof {
                assert(ev.take(k + 1) =~= ev.take(k as int).push(ev[k as int]));
                ev.take(k as int).lemma_filter_push(ev[k as int], keep);
                assert(ev[k as int].0 == c.entries@[k as int].plugin_id@);
            }
            if !str_eq(c.entries[k].plugin_id.as_str(), plugin_id) {
                let ghost before = entries@;
                entries.push(PluginCollectionEntry {
                    plugin_id: copy_str(c.entries[k].plugin_id.as_str()),
                    folder: copy_texts(&c.entries[k].folder),
                });
                proof {
                    assert(entries_view(entries@) =~= entries_view(before).push(ev[k as int]));
                }
            }
            k += 1;
        }
        proof {
            assert(ev.take(k as int) =~= ev);
            assert(keep =~= (|e: EntryView| e.0 != plugin_id@));
        }
        let changed = entries.len() != c.entries.len();
        let nc = PluginCollection {
            id: copy_str(c.id.as_str()),
            name: copy_str(c.name.as_str()),
            entries,
            immutable: c.immutable,
        };
        self.collections.set(u, nc);
        proof {
            assert(self.cols() =~= cs.update(
                u as int,
                CollectionView { entries: ev.filter(|e: EntryView| e.0 != plugin_id@), ..cs[u as int] },
            ));
            if old(self).reach() {
                lemma_remove_entry_reach(cs, old(self).active_id@, old(self).avail(), old(self).next_id, collection_id@, |e: EntryView| e.0 != plugin_id@);
            }
        }
        changed
    }

    /// Drops, from every user collection, the entries whose plug-in is not
    /// available, and tells how many went.
    pub fn remove_unavailable_from_user_collections(&mut self) -> (r: usize)
        requires
            entry_total(old(self).cols()) <= usize::MAX,
        ensures
            r == unavailable_count(old(self).cols(), old(self).avail()),
            final(self).cols() == old(self).cols().map_values(
                |c: CollectionView| if c.immutable {
                    c
                } else {
                    CollectionView { entries: c.entries.filter(|e: EntryView| old(self).avail().contains(e.0)), ..c }
                },
            ),
            final(self).avail() == old(self).avail(),
            final(self).active_id@ == old(self).active_id@,
            final(self).next_number() == old(self).next_number(),
            old(self).reach() ==> final(self).reach(),
    {
        let ghost cs = self.cols();
        let ghost av = self.avail();
        let ghost keep = |e: EntryView| av.contains(e.0);
        let ghost cut = |c: CollectionView| if c.immutable {
            c
        } else {
            CollectionView { entries: c.entries.filter(keep), ..c }
        };
        let mut removed: usize = 0;
        let mut i: usize = 0;
        while i < self.collections.len()
            invariant
                i <= self.collections.len(),
                self.collections.len() == cs.len(),
                av == self.avail(),
                keep == (|e: EntryView| av.contains(e.0)),
                cut == (|c: CollectionView| if c.immutable {
                    c
                } else {
                    CollectionView { entries: c.entries.filter(keep), ..c }
                }),
                entry_total(cs) <= usize::MAX,
                self.active_id@ == old(self).active_id@,
                self.next_number() == old(self).next_number(),
                forall|j: int| 0 <= j < i ==> #[trigger] self.cols()[j] == cut(cs[j]),
                forall|j: int| i <= j < cs.len() ==> #[trigger] self.cols()[j] == cs[j],
                removed == unavailable_count(cs.take(i as int), av),
            decreases self.collections.len() - i,
        {
            proof {
                lemma_unavailable_bound(cs, av, i + 1);
                assert(cs.take(i + 1).drop_last() =~= cs.take(i as int));
            }
            proof {
                assert(self.cols()[i as int] == cs[i as int]);
            }
            if !self.collections[i].immutable {
                let c = &self.collections[i];
                let ghost ev = cs[i as int].entries;
                let mut entries: Vec<PluginCollectionEntry> = Vec::new();
                let mut k: usize = 0;
                while k < c.entries.len()
                    invariant
                        k <= c.entries.len(),
                        ev == entries_view(c.entries@),
                        av == self.avail(),
                        keep == (|e: EntryView| av.contains(e.0)),
                        entries_view(entries@) == ev.take(k as int).filter(keep),
                    decreases c.entries.len() - k,
                {
                    proof {
                        assert(ev.take(k + 1) =~= ev.take(k as int).push(ev[k as int]));
                        ev.take(k as int).lemma_filter_push(ev[k as int], keep);
                        assert(ev[k as int].0 == c.entries@[k as int].plugin_id@);
                    }
                    let mut found = false;
                    let mut a: usize = 0;
                    while a < self.available_plugin_ids.len()
                        invariant
                            a <= self.available_plugin_ids.len(),
                            k < c.entries.len(),
                            av == self.avail(),
                            found == av.take(a as int).contains(ev[k as int].0),
                            ev[k as int].0 == c.entries@[k as int].plugin_id@,
                        decreases self.available_plugin_ids.len() - a,
                    {
                        proof {
                            assert(av.take(a + 1) =~= av.take(a as int).push(av[a as int]));
                            crate::keyed::lemma_contains_push(av.take(a as int), av[a as int], ev[k as int].0);
                            assert(av[a as int] == self.available_plugin_ids@[a as int]@);
                        }
                        if str_eq(self.available_plugin_ids[a].as_str(), c.entries[k].plugin_id.as_str()) {
                            found = true;
                        }
                        a += 1;
                    }
                    proof {
                        assert(av.take(a as int) =~= av);
                    }
                    if found {
                        let ghost before = entries@;
                        entries.push(PluginCollectionEntry {
                            plugin_id: copy_str(c.entries[k].plugin_id.as_str()),
                            folder: copy_texts(&c.entries[k].folder),
                        });
                        proof {
                            assert(entries_view(entries@) =~= entries_view(before).push(ev[k as int]));
                        }
                    }
                    k += 1;
                }
                proof {
                    assert(ev.take(k as int) =~= ev);
                    ev.lemma_filter_len(keep);
                }
                let gone = c.entries.len() - entries.len();
                let nc = PluginCollection {
                    id: copy_str(c.id.as_str()),
                    name: copy_str(c.name.as_str()),
                    entries,
                    immutable: false,
                };
                let ghost before_cols = self.cols();
                self.collections.set(i, nc);
                proof {
                    assert(self.cols() =~= before_cols.update(i as int, cut(cs[i as int])));
                }
                removed = removed + gone;
            } else {
                proof {
                    assert(self.cols()[i as int] == cut(cs[i as int]));
                }
            }
            i += 1;
        }
        proof {
            assert(cs.take(i as int) =~= cs);
            assert(cut =~= (|c: CollectionView| if c.immutable {
                c
            } else {
                CollectionView { entries: c.entries.filter(|e: EntryView| old(self).avail().contains(e.0)), ..c }
            }));
            assert(self.cols() =~= cs.map_values(cut));
            if old(self).reach() {
                lemma_purge_reach(cs, old(self).active_id@, old(self).avail(), old(self).next_id);
            }
        }
        removed
    }

    /// The entries of the active collection, with or without those whose
    /// plug-in is not available; none when no collection has the active id.
    pub fn active_entries(&self, include_unavailable: bool) -> (r: Vec<&PluginCollectionEntry>)
        ensures
            ({
                let a = find_id(self.cols(), self.active_id@);
                r@.map_values(|e: &PluginCollectionEntry| entry_view(*e)) == if a < 0 {
                    Seq::empty()
                } else if include_unavailable {
                    self.cols()[a].entries
                } else {
                    self.cols()[a].entries.filter(|e: EntryView| self.avail().contains(e.0))
                }
            }),
    {
        let ghost cs = self.cols();
        let mut r: Vec<&PluginCollectionEntry> = Vec::new();
        let a = match self.position(self.active_id.as_str(), false) {
            Some(a) => a,
            None => {
                proof {
                    assert(r@.map_values(|e: &PluginCollectionEntry| entry_view(*e)) =~= Seq::<EntryView>::empty());
                }
                return r;
            },
        };
        let c = &self.collections[a];
        let ghost ev = cs[a as int].entries;
        let ghost keep = |e: EntryView| include_unavailable || self.avail().contains(e.0);
        let mut k: usize = 0;
        while k < c.entries.len()
            invariant
                k <= c.entries.len(),
                ev == entries_view(c.entries@),
                keep == (|e: EntryView| include_unavailable || self.avail().contains(e.0)),
                r@.map_values(|e: &PluginCollectionEntry| entry_view(*e)) == ev.take(k as int).filter(keep),
            decreases c.entries.len() - k,
        {
            proof {
                assert(ev.take(k + 1) =~= ev.take(k as int).push(ev[k as int]));
                ev.take(k as int).lemma_filter_push(ev[k as int], keep);
                assert(ev[k as int].0 == c.entries@[k as int].plugin_id@);
            }
            let mut found = include_unavailable;
            if !found {
                let mut x: usize = 0;
                while x < self.available_plugin_ids.len()
                    invariant
                        x <= self.available_plugin_ids.len(),
                        k < c.entries.len(),
                        found == self.avail().take(x as int).contains(ev[k as int].0),
                        ev[k as int].0 == c.entries@[k as int].plugin_id@,
                    decreases self.available_plugin_ids.len() - x,
                {
                    proof {
                        assert(self.avail().take(x + 1) =~= self.avail().take(x as int).push(self.avail()[x as int]));
                        crate::keyed::lemma_contains_push(self.avail().take(x as int), self.avail()[x as int], ev[k as int].0);
                        assert(self.avail()[x as int] == self.available_plugin_ids@[x as int]@);
                    }
                    if str_eq(self.available_plugin_ids[x].as_str(), c.entries[k].plugin_id.as_str()) {
                        found = true;
                    }
                    x += 1;
                }
                proof {
                    assert(self.avail().take(x as int) =~= self.avail());
                }
            }
            if found {
                let ghost before = r@;
                r.push(&c.entries[k]);
                proof {
                    assert(r@.map_values(|e: &PluginCollectionEntry| entry_view(*e)) =~= before.map_values(
                        |e: &PluginCollectionEntry| entry_view(*e),
                    ).push(ev[k as int]));
                }
            }
            k += 1;
        }
        proof {
            assert(ev.take(k as int) =~= ev);
            if include_unavailable {
                assert(ev.filter(keep) =~= ev) by {
                    lemma_filter_all(ev, keep);
                }
            } else {
                assert(keep =~= (|e: EntryView| self.avail().contains(e.0)));
            }
        }
        r
    }

    /// Checks the whole manager state.
    #[verifier::spinoff_prover]
    #[verifier::loop_isolation(false)]
    pub fn validate(&self) -> (r: bool)
        ensures
            r == manager_ok(self.cols(), self.active_id@, self.avail(), self.next_number()),
            self.reach() ==> r,
    {
        proof {
            if self.reach() {
                lemma_reach_validates(self.cols(), self.active_id@, self.avail(), self.next_id);
            }
        }
        let ghost cs = self.cols();
        let ghost dflt = |c: CollectionView| c.id == seq!['d', 'e', 'f', 'a', 'u', 'l', 't'] && c.immutable
            && c.name == seq!['D', 'e', 'f', 'a', 'u', 'l', 't'];
        if self.next_id == 0 || self.collections.len() > 256 {
            return false;
        }
        if self.position(self.active_id.as_str(), false).is_none() {
            proof {
                lemma_find_id(cs, self.active_id@);
            }
            return false;
        }
        proof {
            lemma_find_id(cs, self.active_id@);
            assert(cs[find_id(cs, self.active_id@)].id == self.active_id@);
        }
        let d_id = "default";
        let d_name = "Default";
        proof {
            reveal_strlit("default");
            reveal_strlit("Default");
        }
        let mut count: usize = 0;
        let mut i: usize = 0;
        while i < self.collections.len()
            invariant
                i <= self.collections.len(),
                cs == self.cols(),
                d_id@ == seq!['d', 'e', 'f', 'a', 'u', 'l', 't'],
                d_name@ == seq!['D', 'e', 'f', 'a', 'u', 'l', 't'],
                dflt == (|c: CollectionView| c.id == seq!['d', 'e', 'f', 'a', 'u', 'l', 't'] && c.immutable
                    && c.name == seq!['D', 'e', 'f', 'a', 'u', 'l', 't']),
                count == cs.take(i as int).filter(dflt).len(),
                count <= i,
            decreases self.collections.len() - i,
        {
            let c = &self.collections[i];
            proof {
                assert(cs.take(i + 1) =~= cs.take(i as int).push(cs[i as int]));
                cs.take(i as int).lemma_filter_push(cs[i as int], dflt);
            }
            if str_eq(c.id.as_str(), d_id) && c.immutable && str_eq(c.name.as_str(), d_name) {
                count = count + 1;
            }
            i += 1;
        }
        proof {
            assert(cs.take(i as int) =~= cs);
            assert(dflt =~= (|c: CollectionView| c.id == seq!['d', 'e', 'f', 'a', 'u', 'l', 't'] && c.immutable
                && c.name == seq!['D', 'e', 'f', 'a', 'u', 'l', 't']));
        }
        if count != 1 {
            return false;
        }
        let mut i: usize = 0;
        while i < self.collections.len()
            invariant
                i <= self.collections.len(),
                cs == self.cols(),
                forall|a: int| 0 <= a < i ==> #[trigger] collection_ok(cs, a),
            decreases self.collections.len() - i,
        {
            let c = &self.collections[i];
            let ghost cv = cs[i as int];
            proof {
                assert(cv.id == c.id@ && cv.name == c.name@ && cv.entries == entries_view(c.entries@));
            }
            if !valid_collection_token(c.id.as_str()) || !valid_collection_name(c.name.as_str())
                || c.entries.len() > 65_536 {
                proof {
                    assert(!collection_ok(cs, i as int));
                }
                return false;
            }
            let mut j: usize = 0;
            while j < i
                invariant
                    j <= i < self.collections.len(),
                    cs == self.cols(),
                    cv == cs[i as int],
                    cv.id == c.id@ && cv.name == c.name@,
                    forall|b: int| 0 <= b < j ==> #[trigger] cs[b].id != cv.id && !eq_ignore_case(cs[b].name, cv.name),
                decreases i - j,
            {
                let p = &self.collections[j];
                proof {
                    assert(cs[j as int].id == p.id@ && cs[j as int].name == p.name@);
                }
                if str_eq(p.id.as_str(), c.id.as_str()) || eq_ignore_ascii_case(p.name.as_str(), c.name.as_str()) {
                    proof {
                        assert(!(cs[j as int].id != cs[i as int].id && !eq_ignore_case(cs[j as int].name, cs[i as int].name)));
                        assert(!collection_ok(cs, i as int));
                    }
                    return false;
                }
                proof {
                    assert(cs[j as int].id != cv.id);
                    assert(!eq_ignore_case(cs[j as int].name, cv.name));
                    assert forall|b: int| 0 <= b < j + 1 implies #[trigger] cs[b].id != cv.id && !eq_ignore_case(cs[b].name, cv.name) by {
                        if b < j {
                            assert(cs[b].id != cv.id);
                        }
                    }
                }
                j += 1;
            }
            let mut k: usize = 0;
            while k < c.entries.len()
                invariant
                    k <= c.entries.len(),
                    i < self.collections.len(),
                    cs == self.cols(),
                    cv == cs[i as int],
                    cv.entries == entries_view(c.entries@),
                    forall|e: int| 0 <= e < k ==> #[trigger] entry_ok_at(cv.entries, e),
                decreases c.entries.len() - k,
            {
                let e = &c.entries[k];
                proof {
                    assert(cv.entries[k as int] == entry_view(*e));
                }
                if !valid_collection_token(e.plugin_id.as_str()) || !valid_folder(e.folder.as_slice()) {
                    proof {
                        assert(!entry_ok_at(cv.entries, k as int));
                        assert(!collection_ok(cs, i as int));
                    }
                    return false;
                }
                let mut k2: usize = 0;
                while k2 < k
                    invariant
                        k2 <= k < c.entries.len(),
                        cv.entries == entries_view(c.entries@),
                        forall|b: int| 0 <= b < k2 ==> #[trigger] cv.entries[b].0 != cv.entries[k as int].0,
                    decreases k - k2,
                {
                    proof {
                        assert(cv.entries[k2 as int].0 == c.entries@[k2 as int].plugin_id@);
                        assert(cv.entries[k as int].0 == c.entries@[k as int].plugin_id@);
                    }
                    if str_eq(c.entries[k2].plugin_id.as_str(), c.entries[k].plugin_id.as_str()) {
                        proof {
                            assert(!entry_ok_at(cv.entries, k as int));
                            assert(!collection_ok(cs, i as int));
                        }
                        return false;
                    }
                    k2 += 1;
                }
                proof {
                    assert(entry_ok_at(cv.entries, k as int));
                }
                k += 1;
            }
            proof {
                assert(collection_ok(cs, i as int));
            }
            i += 1;
        }
        proof {
            assert("default"@ =~= seq!['d', 'e', 'f', 'a', 'u', 'l', 't']);
        }
        let d = match self.position("default", false) {
            Some(d) => d,
            None => {
                return false;
            },
        };
        let c = &self.collections[d];
        let ghost ids = cs[d as int].entries.map_values(|e: EntryView| e.0);
        if c.entries.len() != self.available_plugin_ids.len() {
            proof {
                assert(ids.len() != self.avail().len());
            }
            return false;
        }
        let mut k: usize = 0;
        while k < c.entries.len()
            invariant
                k <= c.entries.len(),
                c.entries.len() == self.available_plugin_ids.len(),
                ids == entries_view(c.entries@).map_values(|e: EntryView| e.0),
                forall|b: int| 0 <= b < k ==> #[trigger] ids[b] == self.avail()[b],
            decreases c.entries.len() - k,
        {
            proof {
                assert(ids[k as int] == c.entries@[k as int].plugin_id@);
            }
            if !str_eq(c.entries[k].plugin_id.as_str(), self.available_plugin_ids[k].as_str()) {
                return false;
            }
            k += 1;
        }
        proof {
            assert(ids =~= self.avail());
        }
        true
    }
}

proof fn lemma_filter_all<A>(s: Seq<A>, p: spec_fn(A) -> bool)
    requires
        forall|x: A| #[trigger] p(x),
    ensures
        s.filter(p) == s,
    decreases s.len(),
{
    reveal(Seq::filter);
    if s.len() > 0 {
        lemma_filter_all(s.drop_last(), p);
        assert(s.drop_last().push(s.last()) =~= s);
    }
}

proof fn lemma_unavailable_bound(cs: Seq<CollectionView>, av: Seq<Seq<char>>, m: int)
    requires
        0 <= m <= cs.len(),
    ensures
        unavailable_count(cs.take(m), av) <= entry_total(cs.take(m)),
        entry_total(cs.take(m)) <= entry_total(cs),
    decreases cs.len(), m,
{
    if m > 0 {
        let t = cs.take(m);
        assert(t.drop_last() =~= cs.take(m - 1));
        lemma_unavailable_bound(cs, av, m - 1);
        t.last().entries.lemma_filter_len(|e: EntryView| av.contains(e.0));
    }
    if m < cs.len() {
        assert(cs.drop_last().take(m) =~= cs.take(m));
        lemma_unavailable_bound(cs.drop_last(), av, m);
    } else {
        assert(cs.take(m) =~= cs);
    }
}

} // verus!
