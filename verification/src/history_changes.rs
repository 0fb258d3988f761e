//! Entity-level changes between two snapshots of a project section. Each
//! array-backed section lists its entities by a stable id with the bytes the
//! entity serialises to; a diff names, in ascending id order, every entity
//! that was added, removed or changed, with the content hash on each side.
use vstd::prelude::*;
use crate::digest::{hex_bytes, sha256_of};
use crate::keyed::{sorted_distinct_texts, strictly_sorted, table, text_views};
use crate::project_history::content_hash;
use crate::text::{copy_str, seq_lt, str_eq};

verus! {

/// One entity-level change of a snapshot diff.
#[derive(Debug, Clone, PartialEq, Eq)]
pub struct SnapshotChange {
    pub section: String,
    pub before_hash: String,
    pub after_hash: String,
    pub entity_id: Option<String>,
    pub operation: String,
}

/// The field that identifies an entity of a section, or none for a section
/// that is no list of entities. Notes are identified by several fields at
/// once (the empty name), routes by their two ends.
pub open spec fn entity_key_of(section: Seq<char>) -> Option<Seq<char>> {
    if section == "tracks"@ || section == "regions"@ {
        Some("id"@)
    } else if section == "plugin_instances"@ {
        Some("instance_id"@)
    } else if section == "midi_learn_mappings"@ || section == "macro_mappings"@ {
        Some("mapping_id"@)
    } else if section == "midi_notes"@ {
        Some(""@)
    } else if section == "warp_markers"@ {
        Some("marker_id"@)
    } else if section == "render_targets"@ {
        Some("target_id"@)
    } else if section == "openutau_vocals"@ {
        Some("source_path"@)
    } else if section == "freeze_artifacts"@ {
        Some("track_id"@)
    } else if section == "audio_routes"@ || section == "feedback_routes"@ {
        Some("source_destination"@)
    } else {
        None
    }
}

/// The field that identifies an entity of `section`.
pub fn entity_key(section: &str) -> (r: Option<&'static str>)
    ensures
        match r {
            Some(k) => entity_key_of(section@) == Some(k@),
            None => entity_key_of(section@) is None,
        },
{
    if str_eq(section, "tracks") || str_eq(section, "regions") {
        Some("id")
    } else if str_eq(section, "plugin_instances") {
        Some("instance_id")
    } else if str_eq(section, "midi_learn_mappings") || str_eq(section, "macro_mappings") {
        Some("mapping_id")
    } else if str_eq(section, "midi_notes") {
        Some("")
    } else if str_eq(section, "warp_markers") {
        Some("marker_id")
    } else if str_eq(section, "render_targets") {
        Some("target_id")
    } else if str_eq(section, "openutau_vocals") {
        Some("source_path")
    } else if str_eq(section, "freeze_artifacts") {
        Some("track_id")
    } else if str_eq(section, "audio_routes") || str_eq(section, "feedback_routes") {
        Some("source_destination")
    } else {
        None
    }
}

/// The ids of a list of entities.
pub open spec fn entity_ids(items: Seq<(String, Vec<u8>)>) -> Seq<Seq<char>> {
    items.map_values(|e: (String, Vec<u8>)| e.0@)
}

/// The bytes of a list of entities.
pub open spec fn entity_bytes(items: Seq<(String, Vec<u8>)>) -> Seq<Seq<u8>> {
    items.map_values(|e: (String, Vec<u8>)| e.1@)
}

/// Each id with the bytes of its last entity in the list.
pub open spec fn entity_table(items: Seq<(String, Vec<u8>)>) -> Map<Seq<char>, Seq<u8>> {
    table(entity_ids(items), entity_bytes(items))
}

/// The bytes a table holds for `k`, if any.
pub open spec fn lookup(m: Map<Seq<char>, Seq<u8>>, k: Seq<char>) -> Option<Seq<u8>> {
    if m.contains_key(k) {
        Some(m[k])
    } else {
        None
    }
}

/// The content hash of some bytes: SHA-256 in lowercase hex.
pub open spec fn hash_text(bs: Seq<u8>) -> Seq<char> {
    hex_bytes(sha256_of(bs))
}

/// The change of one entity, as operation, hash before and hash after: an
/// entity only after is added, one only before is removed, one on both
/// sides with other bytes is changed; one with the same bytes is no change.
pub open spec fn entity_change(b: Option<Seq<u8>>, a: Option<Seq<u8>>) -> Option<
    (Seq<char>, Seq<char>, Seq<char>),
> {
    match (b, a) {
        (None, Some(y)) => Some(("added"@, hash_text(Seq::empty()), hash_text(y))),
        (Some(x), None) => Some(("removed"@, hash_text(x), hash_text(Seq::empty()))),
        (Some(x), Some(y)) => if x == y {
            None
        } else {
            Some(("changed"@, hash_text(x), hash_text(y)))
        },
        (None, None) => None,
    }
}

/// The change of entity `id` between the two lists.
pub open spec fn change_of(
    before: Seq<(String, Vec<u8>)>,
    after: Seq<(String, Vec<u8>)>,
    id: Seq<char>,
) -> Option<(Seq<char>, Seq<char>, Seq<char>)> {
    entity_change(lookup(entity_table(before), id), lookup(entity_table(after), id))
}

/// The entity ids the changes name (the empty text where there is none).
pub open spec fn change_ids(r: Seq<SnapshotChange>) -> Seq<Seq<char>> {
    r.map_values(|c: SnapshotChange| match c.entity_id {
        Some(id) => id@,
        None => Seq::empty(),
    })
}

/// `r` lists the entity changes of `section` between the two lists: none
/// for a section that is no list of entities, and otherwise one entry for
/// each changed id, in ascending id order, with the section, the id, the
/// operation and both hashes.
pub open spec fn lists_changes(
    section: Seq<char>,
    before: Seq<(String, Vec<u8>)>,
    after: Seq<(String, Vec<u8>)>,
    r: Seq<SnapshotChange>,
) -> bool {
    if entity_key_of(section) is None {
        r.len() == 0
    } else {
        &&& strictly_sorted(change_ids(r))
        &&& forall|i: int|
            0 <= i < r.len() ==> {
                let c = #[trigger] r[i];
                &&& c.entity_id is Some
                &&& c.section@ == section
                &&& change_of(before, after, change_ids(r)[i]) == Some(
                    (c.operation@, c.before_hash@, c.after_hash@),
                )
            }
        &&& forall|id: Seq<char>| #[trigger] change_of(before, after, id) is Some ==> change_ids(
            r,
        ).contains(id)
    }
}

proof fn lemma_table_keys<V>(ks: Seq<Seq<char>>, vs: Seq<V>, k: Seq<char>)
    requires
        ks.len() == vs.len(),
        table(ks, vs).contains_key(k),
    ensures
        ks.contains(k),
    decreases ks.len(),
{
    if ks.len() > 0 && k != ks.last() {
        lemma_table_keys(ks.drop_last(), vs.drop_last(), k);
        let i = choose|i: int| 0 <= i < ks.drop_last().len() && ks.drop_last()[i] == k;
        assert(ks[i] == k);
    } else if ks.len() > 0 {
        assert(ks[ks.len() - 1] == k);
    }
}

fn copy_bytes(bs: &[u8]) -> (r: Vec<u8>)
    ensures
        r@ == bs@,
{
    let mut r: Vec<u8> = Vec::new();
    let mut i: usize = 0;
    while i < bs.len()
        invariant
            i <= bs.len(),
            r@ == bs@.take(i as int),
        decreases bs.len() - i,
    {
        r.push(bs[i]);
        proof {
            assert(bs@.take(i + 1) =~= bs@.take(i as int).push(bs@[i as int]));
        }
        i += 1;
    }
    proof {
        assert(bs@.take(bs.len() as int) =~= bs@);
    }
    r
}

fn same_bytes(a: &[u8], b: &[u8]) -> (r: bool)
    ensures
        r == (a@ == b@),
{
    if a.len() != b.len() {
        return false;
    }
    let mut i: usize = 0;
    while i < a.len()
        invariant
            i <= a.len(),
            a.len() == b.len(),
            forall|j: int| 0 <= j < i ==> a@[j] == b@[j],
        decreases a.len() - i,
    {
        if a[i] != b[i] {
            return false;
        }
        i += 1;
    }
    proof {
        assert(a@ =~= b@);
    }
    true
}

/// The bytes of the last entity with the id.
fn last_bytes(items: &Vec<(String, Vec<u8>)>, id: &str) -> (r: Option<Vec<u8>>)
    ensures
        match r {
            Some(v) => lookup(entity_table(items@), id@) == Some(v@),
            None => lookup(entity_table(items@), id@) is None,
        },
{
    let ghost ks = entity_ids(items@);
    let ghost vs = entity_bytes(items@);
    let mut found: Option<usize> = None;
    let mut i: usize = 0;
    while i < items.len()
        invariant
            i <= items.len(),
            ks == entity_ids(items@),
            vs == entity_bytes(items@),
            match found {
                Some(j) => j < i && lookup(table(ks.take(i as int), vs.take(i as int)), id@) == Some(
                    vs[j as int],
                ),
                None => lookup(table(ks.take(i as int), vs.take(i as int)), id@) is None,
            },
        decreases items.len() - i,
    {
        let hit = str_eq(items[i].0.as_str(), id);
        proof {
            assert(ks.take(i + 1).drop_last() =~= ks.take(i as int));
            assert(vs.take(i + 1).drop_last() =~= vs.take(i as int));
            assert(ks.take(i + 1).last() == ks[i as int]);
            assert(vs.take(i + 1).last() == vs[i as int]);
        }
        if hit {
            found = Some(i);
        }
        i += 1;
    }
    proof {
        assert(ks.take(items.len() as int) =~= ks);
        assert(vs.take(items.len() as int) =~= vs);
    }
    match found {
        Some(j) => Some(copy_bytes(items[j].1.as_slice())),
        None => None,
    }
}

/// The entity-level changes of `section` between two snapshots, each given
/// as its entities' ids and serialised bytes (a later entity with the same
/// id stands for it): one change per added, removed or changed id, in
/// ascending id order; none for a section that is no list of entities.
pub fn entity_changes(
    section: &str,
    before: &Vec<(String, Vec<u8>)>,
    after: &Vec<(String, Vec<u8>)>,
) -> (r: Vec<SnapshotChange>)
    ensures
        lists_changes(section@, before@, after@, r@),
{
    if entity_key(section).is_none() {
        return Vec::new();
    }
    let mut all: Vec<String> = Vec::new();
    let mut i: usize = 0;
    while i < before.len()
        invariant
            i <= before.len(),
            text_views(all@) == entity_ids(before@).take(i as int),
        decreases before.len() - i,
    {
        all.push(copy_str(before[i].0.as_str()));
        proof {
            assert(entity_ids(before@).take(i + 1) =~= entity_ids(before@).take(i as int).push(
                before@[i as int].0@,
            ));
            assert(text_views(all@) =~= entity_ids(before@).take(i + 1));
        }
        i += 1;
    }
    let mut i: usize = 0;
    while i < after.len()
        invariant
            i <= after.len(),
            text_views(all@) == entity_ids(before@) + entity_ids(after@).take(i as int),
        decreases after.len() - i,
    {
        let ghost all0 = text_views(all@);
        all.push(copy_str(after[i].0.as_str()));
        proof {
            assert(text_views(all@) =~= all0.push(after@[i as int].0@));
            assert(entity_ids(after@).take(i + 1) =~= entity_ids(after@).take(i as int).push(
                after@[i as int].0@,
            ));
            assert(text_views(all@) =~= entity_ids(before@) + entity_ids(after@).take(i + 1));
        }
        i += 1;
    }
    proof {
        assert(entity_ids(before@).take(before.len() as int) =~= entity_ids(before@));
        assert(entity_ids(after@).take(after.len() as int) =~= entity_ids(after@));
    }
    let ids = sorted_distinct_texts(&all);
    let ghost ks = text_views(ids@);
    let empty: Vec<u8> = Vec::new();
    let mut r: Vec<SnapshotChange> = Vec::new();
    let mut p: usize = 0;
    while p < ids.len()
        invariant
            p <= ids.len(),
            ks == text_views(ids@),
            strictly_sorted(ks),
            empty@ == Seq::<u8>::empty(),
            entity_key_of(section@) is Some,
            strictly_sorted(change_ids(r@)),
            forall|a: int|
                0 <= a < r@.len() ==> exists|q: int| 0 <= q < p && ks[q] == #[trigger] change_ids(r@)[a],
            forall|a: int|
                0 <= a < r@.len() ==> {
                    let c = #[trigger] r@[a];
                    &&& c.entity_id is Some
                    &&& c.section@ == section@
                    &&& change_of(before@, after@, change_ids(r@)[a]) == Some(
                        (c.operation@, c.before_hash@, c.after_hash@),
                    )
                },
            forall|q: int|
                0 <= q < p && (#[trigger] change_of(before@, after@, ks[q])) is Some
                    ==> change_ids(r@).contains(ks[q]),
        decreases ids.len() - p,
    {
        let id = ids[p].as_str();
        let b = last_bytes(before, id);
        let a = last_bytes(after, id);
        let ghost ch = change_of(before@, after@, id@);
        let mut entry: Option<(&'static str, String, String)> = None;
        match (&b, &a) {
            (None, Some(y)) => {
                entry = Some(("added", content_hash(empty.as_slice()), content_hash(y.as_slice())));
            },
            (Some(x), None) => {
                entry = Some(("removed", content_hash(x.as_slice()), content_hash(empty.as_slice())));
            },
            (Some(x), Some(y)) => {
                if !same_bytes(x.as_slice(), y.as_slice()) {
                    entry = Some(("changed", content_hash(x.as_slice()), content_hash(y.as_slice())));
                }
            },
            (None, None) => {},
        }
        let ghost r0 = r@;
        match entry {
            Some((op, bh, ah)) => {
                let c = SnapshotChange {
                    section: copy_str(section),
                    before_hash: bh,
                    after_hash: ah,
                    entity_id: Some(copy_str(id)),
                    operation: copy_str(op),
                };
                r.push(c);
                proof {
                    assert(ch is Some);
                    assert(change_ids(r@) =~= change_ids(r0).push(ks[p as int]));
                    assert forall|x: int, y: int| 0 <= x < y < change_ids(r@).len() implies seq_lt(
                        #[trigger] change_ids(r@)[x],
                        #[trigger] change_ids(r@)[y],
                    ) by {
                        if y == r0.len() {
                            let q = choose|q: int| 0 <= q < p && ks[q] == #[trigger] change_ids(r0)[x];
                            assert(change_ids(r0)[x] == change_ids(r@)[x]);
                        } else {
                            assert(change_ids(r0)[x] == change_ids(r@)[x]);
                            assert(change_ids(r0)[y] == change_ids(r@)[y]);
                        }
                    }
                    assert forall|x: int|
                        0 <= x < r@.len() implies exists|q: int|
                            0 <= q < p + 1 && ks[q] == #[trigger] change_ids(r@)[x] by {
                        if x < r0.len() {
                            assert(change_ids(r0)[x] == change_ids(r@)[x]);
                            let q = choose|q: int| 0 <= q < p && ks[q] == #[trigger] change_ids(r0)[x];
                        } else {
                            assert(ks[p as int] == change_ids(r@)[x]);
                        }
                    }
                    assert forall|x: int| 0 <= x < r@.len() implies {
                        let c = #[trigger] r@[x];
                        &&& c.entity_id is Some
                        &&& c.section@ == section@
                        &&& change_of(before@, after@, change_ids(r@)[x]) == Some(
                            (c.operation@, c.before_hash@, c.after_hash@),
                        )
                    } by {
                        if x < r0.len() {
                            assert(r@[x] == r0[x]);
                            assert(change_ids(r0)[x] == change_ids(r@)[x]);
                        }
                    }
                    assert forall|q: int|
                        0 <= q < p + 1 && (#[trigger] change_of(before@, after@, ks[q])) is Some
                            implies change_ids(r@).contains(ks[q]) by {
                        if q < p {
                            let x = choose|x: int| 0 <= x < change_ids(r0).len() && change_ids(r0)[x] == ks[q];
                            assert(change_ids(r@)[x] == ks[q]);
                        } else {
                            assert(change_ids(r@)[r0.len() as int] == ks[q]);
                        }
                    }
                }
            },
            None => {
                proof {
                    assert(ch is None);
                    assert forall|x: int|
                        0 <= x < r@.len() implies exists|q: int|
                            0 <= q < p + 1 && ks[q] == #[trigger] change_ids(r@)[x] by {
                        let q = choose|q: int| 0 <= q < p && ks[q] == #[trigger] change_ids(r@)[x];
                    }
                }
            },
        }
        p += 1;
    }
    proof {
        assert forall|id: Seq<char>| #[trigger] change_of(before@, after@, id) is Some implies change_ids(
            r@,
        ).contains(id) by {
            let bt = entity_table(before@);
            let at = entity_table(after@);
            if bt.contains_key(id) {
                lemma_table_keys(entity_ids(before@), entity_bytes(before@), id);
                let j = choose|j: int| 0 <= j < entity_ids(before@).len() && entity_ids(before@)[j] == id;
                assert(text_views(all@)[j] == id);
            } else {
                assert(at.contains_key(id));
                lemma_table_keys(entity_ids(after@), entity_bytes(after@), id);
                let j = choose|j: int| 0 <= j < entity_ids(after@).len() && entity_ids(after@)[j] == id;
                assert(text_views(all@)[entity_ids(before@).len() + j] == id);
            }
            assert(text_views(all@).contains(id));
            assert(ks.contains(id));
            let q = choose|q: int| 0 <= q < ks.len() && ks[q] == id;
        }
    }
    r
}

/// The sections that are lists of entities, and the field that identifies
/// an entity in each: tracks and regions by `id`, plug-in instances by
/// `instance_id`, MIDI-learn and macro mappings by `mapping_id`, notes by
/// several fields at once (the empty name), warp markers by `marker_id`,
/// render targets by `target_id`, OpenUtau vocals by `source_path`, freeze
/// artifacts by `track_id`, audio and feedback routes by their two ends.
/// For each of them, every entity added, removed or changed between two
/// snapshots is reported with the section, its id and its operation; any
/// other section reports nothing.
pub proof fn lemma_entity_sections(
    section: Seq<char>,
    before: Seq<(String, Vec<u8>)>,
    after: Seq<(String, Vec<u8>)>,
    r: Seq<SnapshotChange>,
    id: Seq<char>,
)
    requires
        lists_changes(section, before, after, r),
    ensures
        section == "tracks"@ || section == "regions"@ ==> entity_key_of(section) == Some("id"@),
        section == "plugin_instances"@ ==> entity_key_of(section) == Some("instance_id"@),
        section == "midi_learn_mappings"@ || section == "macro_mappings"@ ==> entity_key_of(section) == Some(
            "mapping_id"@,
        ),
        section == "midi_notes"@ ==> entity_key_of(section) == Some(""@),
        section == "warp_markers"@ ==> entity_key_of(section) == Some("marker_id"@),
        section == "render_targets"@ ==> entity_key_of(section) == Some("target_id"@),
        section == "openutau_vocals"@ ==> entity_key_of(section) == Some("source_path"@),
        section == "freeze_artifacts"@ ==> entity_key_of(section) == Some("track_id"@),
        section == "audio_routes"@ || section == "feedback_routes"@ ==> entity_key_of(section) == Some(
            "source_destination"@,
        ),
        ({
            let listed = section == "tracks"@ || section == "regions"@ || section == "plugin_instances"@
                || section == "midi_learn_mappings"@ || section == "macro_mappings"@ || section == "midi_notes"@
                || section == "warp_markers"@ || section == "render_targets"@ || section == "openutau_vocals"@
                || section == "freeze_artifacts"@ || section == "audio_routes"@ || section == "feedback_routes"@;
            let b = entity_ids(before).contains(id);
            let a = entity_ids(after).contains(id);
            &&& listed && a && !b ==> exists|i: int|
                0 <= i < r.len() && r[i].entity_id is Some && #[trigger] change_ids(r)[i] == id && r[i].operation@
                    == "added"@ && r[i].section@ == section
            &&& listed && b && !a ==> exists|i: int|
                0 <= i < r.len() && r[i].entity_id is Some && #[trigger] change_ids(r)[i] == id && r[i].operation@
                    == "removed"@ && r[i].section@ == section
            &&& listed && a && b && lookup(entity_table(before), id) != lookup(entity_table(after), id) ==> exists|i: int|
                0 <= i < r.len() && r[i].entity_id is Some && #[trigger] change_ids(r)[i] == id && r[i].operation@
                    == "changed"@ && r[i].section@ == section
            &&& !listed ==> r.len() == 0
        }),
{
    reveal_strlit("tracks");
    reveal_strlit("regions");
    reveal_strlit("plugin_instances");
    reveal_strlit("midi_learn_mappings");
    reveal_strlit("macro_mappings");
    reveal_strlit("midi_notes");
    reveal_strlit("warp_markers");
    reveal_strlit("render_targets");
    reveal_strlit("openutau_vocals");
    reveal_strlit("freeze_artifacts");
    reveal_strlit("audio_routes");
    reveal_strlit("feedback_routes");
    assert("tracks"@.len() == 6);
    assert("regions"@.len() == 7);
    assert("plugin_instances"@.len() == 16);
    assert("midi_learn_mappings"@.len() == 19);
    assert("macro_mappings"@.len() == 14);
    assert("midi_notes"@.len() == 10);
    assert("warp_markers"@.len() == 12);
    assert("render_targets"@.len() == 14);
    assert("openutau_vocals"@.len() == 15);
    assert("freeze_artifacts"@.len() == 16);
    assert("audio_routes"@.len() == 12);
    assert("feedback_routes"@.len() == 15);
    assert("midi_notes"@ != "warp_markers"@);
    assert("render_targets"@[0] != "macro_mappings"@[0]);
    assert("freeze_artifacts"@[0] != "plugin_instances"@[0]);
    assert("openutau_vocals"@[0] != "feedback_routes"@[0]);
    assert("warp_markers"@[0] != "audio_routes"@[0]);
    assert("midi_learn_mappings"@ != "macro_mappings"@);
    assert("audio_routes"@ != "midi_notes"@);
    let b = entity_ids(before).contains(id);
    let a = entity_ids(after).contains(id);
    lemma_in_table(before, id);
    lemma_in_table(after, id);
    if entity_key_of(section) is Some && change_of(before, after, id) is Some {
        assert(change_ids(r).contains(id));
        let i = choose|i: int| 0 <= i < change_ids(r).len() && change_ids(r)[i] == id;
        let c = r[i];
        assert(c.entity_id is Some);
        assert(change_of(before, after, change_ids(r)[i]) == Some((c.operation@, c.before_hash@, c.after_hash@)));
        reveal_strlit("added");
        reveal_strlit("removed");
        reveal_strlit("changed");
    }
}

proof fn lemma_in_table(items: Seq<(String, Vec<u8>)>, id: Seq<char>)
    ensures
        entity_ids(items).contains(id) == entity_table(items).contains_key(id),
{
    if entity_table(items).contains_key(id) {
        lemma_table_keys(entity_ids(items), entity_bytes(items), id);
    }
    if entity_ids(items).contains(id) {
        lemma_key_in_table(entity_ids(items), entity_bytes(items), id);
    }
}

proof fn lemma_key_in_table(ks: Seq<Seq<char>>, vs: Seq<Seq<u8>>, k: Seq<char>)
    requires
        ks.len() == vs.len(),
        ks.contains(k),
    ensures
        table(ks, vs).contains_key(k),
    decreases ks.len(),
{
    if ks.last() != k {
        let i = choose|i: int| 0 <= i < ks.len() && ks[i] == k;
        assert(ks.drop_last()[i] == k);
        lemma_key_in_table(ks.drop_last(), vs.drop_last(), k);
    }
}

} // verus!

