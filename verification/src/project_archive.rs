//! The manifest of a project archive: every dependency copied under
//! `Media/` with its size and hash, the missing ones listed apart.
use vstd::prelude::*;
use vstd::utf8::encode_utf8;
use crate::keyed::text_views;
use crate::text::{blank, chars_of, chars_eq, is_blank, str_eq};

verus! {

pub const ARCHIVE_SCHEMA_VERSION: u32 = 1;

#[derive(Debug, Clone, PartialEq, Eq)]
pub struct ArchiveEntry {
    pub source: String,
    pub package_path: String,
    pub bytes: u64,
    pub sha256: String,
    pub exists: bool,
}

#[derive(Debug, Clone, PartialEq, Eq)]
pub struct ArchiveManifest {
    pub schema_version: u32,
    pub project_file: String,
    pub entries: Vec<ArchiveEntry>,
    pub missing: Vec<String>,
    pub total_bytes: u64,
}

#[derive(Debug, Clone)]
pub struct ProjectArchive;

/// The pieces of a path between slashes.
pub open spec fn pieces(s: Seq<char>) -> Seq<Seq<char>>
    decreases s.len(),
{
    if s.len() == 0 {
        seq![Seq::empty()]
    } else {
        let rest = pieces(s.drop_last());
        if s.last() == '/' {
            rest.push(Seq::empty())
        } else {
            rest.update(rest.len() - 1, rest.last().push(s.last()))
        }
    }
}

proof fn lemma_pieces_len(s: Seq<char>)
    ensures
        pieces(s).len() >= 1,
    decreases s.len(),
{
    if s.len() > 0 {
        lemma_pieces_len(s.drop_last());
    }
}

/// A relative package path whose components are all plain names (no `.`
/// at the start, no `..`) and whose first component is `Media`, as
/// `Path::components` reads it on Unix.
pub open spec fn safe_package(s: Seq<char>) -> bool {
    &&& s.len() > 0
    &&& s[0] != '/'
    &&& pieces(s)[0] == "Media"@
    &&& forall|i: int| 0 <= i < pieces(s).len() ==> #[trigger] pieces(s)[i] != ".."@
}

/// Whether a package path stays inside the archive's `Media` folder.
pub fn safe_package_path(path: &str) -> (r: bool)
    ensures
        r == safe_package(path@),
{
    let cs = chars_of(path);
    if cs.len() == 0 || cs[0] == '/' {
        return false;
    }
    let ghost s = cs@;
    let mut first: Vec<char> = Vec::new();
    let mut current: Vec<char> = Vec::new();
    let mut index: usize = 0;
    let mut parent = false;
    let mut i: usize = 0;
    proof {
        lemma_pieces_len(s);
    }
    while i < cs.len()
        invariant
            i <= cs@.len(),
            s == cs@,
            index <= i,
            pieces(s.take(i as int)).len() == index + 1,
            current@ == pieces(s.take(i as int)).last(),
            index == 0 ==> first@ == current@,
            index > 0 ==> first@ == pieces(s.take(i as int))[0],
            parent == exists|k: int| 0 <= k < index && #[trigger] pieces(s.take(i as int))[k] == ".."@,
        decreases cs.len() - i,
    {
        let ghost ps = pieces(s.take(i as int));
        proof {
            assert(s.take(i + 1).drop_last() =~= s.take(i as int));
        }
        if cs[i] == '/' {
            let is_dots = current.len() == 2 && current[0] == '.' && current[1] == '.';
            proof {
                reveal_strlit("..");
                if is_dots {
                    assert(current@ =~= ".."@);
                } else if current@ == ".."@ {
                    assert(current@.len() == 2 && current@[0] == '.' && current@[1] == '.');
                }
            }
            parent = parent || is_dots;
            current = Vec::new();
            index = index + 1;
            proof {
                assert(pieces(s.take(i + 1)) == ps.push(Seq::empty()));
                if is_dots {
                    assert(pieces(s.take(i + 1))[index - 1] == ".."@);
                }
                assert(forall|k: int| 0 <= k < index - 1 ==> pieces(s.take(i + 1))[k] == ps[k]);
            }
        } else {
            current.push(cs[i]);
            if index == 0 {
                first.push(cs[i]);
            }
            proof {
                assert(pieces(s.take(i + 1)) == ps.update(ps.len() - 1, ps.last().push(s[i as int])));
                assert(forall|k: int| 0 <= k < index ==> pieces(s.take(i + 1))[k] == ps[k]);
            }
        }
        i += 1;
    }
    proof {
        assert(s.take(i as int) =~= s);
        reveal_strlit("Media");
        reveal_strlit("..");
    }
    let last_dots = current.len() == 2 && current[0] == '.' && current[1] == '.';
    let first_media = first.len() == 5 && first[0] == 'M' && first[1] == 'e' && first[2] == 'd' && first[3] == 'i'
        && first[4] == 'a';
    proof {
        if first_media {
            assert(first@ =~= "Media"@);
        } else if first@ == "Media"@ {
            assert(first@.len() == 5 && first@[0] == 'M' && first@[1] == 'e' && first@[2] == 'd' && first@[3] == 'i'
                && first@[4] == 'a');
        }
        if last_dots {
            assert(current@ =~= ".."@);
        } else if current@ == ".."@ {
            assert(current@.len() == 2 && current@[0] == '.' && current@[1] == '.');
        }
        if !parent && !last_dots {
            assert forall|k: int| 0 <= k < pieces(s).len() implies #[trigger] pieces(s)[k] != ".."@ by {
                if k < index {
                } else {
                    assert(k == index);
                }
            }
        }
    }
    first_media && !parent && !last_dots
}

/// An entry as plain values.
pub open spec fn entry_view(e: ArchiveEntry) -> (Seq<char>, Seq<char>, u64, Seq<char>, bool) {
    (e.source@, e.package_path@, e.bytes, e.sha256@, e.exists)
}

pub open spec fn entries_view(es: Seq<ArchiveEntry>) -> Seq<(Seq<char>, Seq<char>, u64, Seq<char>, bool)> {
    es.map_values(|e: ArchiveEntry| entry_view(e))
}

/// One entry is sound on its own: named source and package path inside
/// `Media`, and a 64-byte hash and at most 2 GiB when the file exists, or
/// no size and no hash when it does not.
pub open spec fn entry_ok(e: (Seq<char>, Seq<char>, u64, Seq<char>, bool)) -> bool {
    &&& !is_blank(e.0)
    &&& !is_blank(e.1)
    &&& safe_package(e.1)
    &&& e.4 ==> encode_utf8(e.3).len() == 64 && e.2 <= 2 * 1024 * 1024 * 1024
    &&& !e.4 ==> e.2 == 0 && e.3.len() == 0
}

/// The sum of the entries' sizes.
pub open spec fn total_of(es: Seq<(Seq<char>, Seq<char>, u64, Seq<char>, bool)>) -> int
    decreases es.len(),
{
    if es.len() == 0 {
        0
    } else {
        total_of(es.drop_last()) + es.last().2
    }
}

/// Entries `b` and `a` have different sources and package paths.
pub open spec fn apart(es: Seq<(Seq<char>, Seq<char>, u64, Seq<char>, bool)>, b: int, a: int) -> bool {
    es[b].0 != es[a].0 && es[b].1 != es[a].1
}

/// The texts are pairwise different.
pub open spec fn distinct_texts(ts: Seq<Seq<char>>) -> bool {
    forall|i: int, j: int| 0 <= j < i < ts.len() ==> #[trigger] ts[j] != #[trigger] ts[i]
}

/// The manifest is sound: this schema, a named project file, at most 65536
/// entries and missing paths, sound entries with distinct sources and
/// package paths, a total that is the sum of the sizes, and missing paths
/// that are named, distinct and not among the sources.
pub open spec fn manifest_ok(m: ArchiveManifest) -> bool {
    let es = entries_view(m.entries@);
    let missing = text_views(m.missing@);
    &&& m.schema_version == ARCHIVE_SCHEMA_VERSION
    &&& !is_blank(m.project_file@)
    &&& es.len() <= 65_536
    &&& missing.len() <= 65_536
    &&& forall|i: int| 0 <= i < es.len() ==> #[trigger] entry_ok(es[i])
    &&& forall|i: int, j: int| 0 <= j < i < es.len() ==> #[trigger] apart(es, j, i)
    &&& total_of(es) == m.total_bytes
    &&& forall|i: int| 0 <= i < missing.len() ==> !is_blank(#[trigger] missing[i])
    &&& distinct_texts(missing)
    &&& forall|i: int, j: int| 0 <= i < missing.len() && 0 <= j < es.len() ==> #[trigger] missing[i] != #[trigger] es[j].0
}

proof fn lemma_total_prefix(es: Seq<(Seq<char>, Seq<char>, u64, Seq<char>, bool)>, i: int)
    requires
        0 <= i <= es.len(),
    ensures
        total_of(es.take(i)) <= total_of(es),
        total_of(es.take(i)) >= 0,
    decreases es.len() - i,
{
    if i < es.len() {
        lemma_total_prefix(es, i + 1);
        assert(es.take(i + 1).drop_last() =~= es.take(i));
    } else {
        assert(es.take(i) =~= es);
    }
    if i > 0 {
        lemma_total_nonneg(es.take(i));
    }
}

proof fn lemma_total_nonneg(es: Seq<(Seq<char>, Seq<char>, u64, Seq<char>, bool)>)
    ensures
        total_of(es) >= 0,
    decreases es.len(),
{
    if es.len() > 0 {
        lemma_total_nonneg(es.drop_last());
    }
}

fn text_index(v: &Vec<String>, end: usize, t: &str) -> (r: bool)
    requires
        end <= v@.len(),
    ensures
        r == exists|j: int| 0 <= j < end && #[trigger] v@[j]@ == t@,
{
    let mut k: usize = 0;
    while k < end
        invariant
            k <= end <= v@.len(),
            forall|j: int| 0 <= j < k ==> #[trigger] v@[j]@ != t@,
        decreases end - k,
    {
        if str_eq(v[k].as_str(), t) {
            return true;
        }
        k += 1;
    }
    false
}

impl ArchiveManifest {
    pub fn validate(&self) -> (r: bool)
        ensures
            r == manifest_ok(*self),
    {
        if self.schema_version != ARCHIVE_SCHEMA_VERSION || blank(self.project_file.as_str()) || self.entries.len()
            > 65_536 || self.missing.len() > 65_536 {
            return false;
        }
        let ghost es = entries_view(self.entries@);
        let mut total: u64 = 0;
        let mut i: usize = 0;
        while i < self.entries.len()
            invariant
                i <= self.entries@.len(),
                es == entries_view(self.entries@),
                forall|a: int| 0 <= a < i ==> #[trigger] entry_ok(es[a]),
                forall|a: int, b: int| 0 <= b < a < i ==> #[trigger] apart(es, b, a),
                total == total_of(es.take(i as int)),
            decreases self.entries.len() - i,
        {
            let e = &self.entries[i];
            proof {
                assert(es[i as int] == entry_view(*e));
            }
            let sound = !blank(e.source.as_str()) && !blank(e.package_path.as_str()) && safe_package_path(
                e.package_path.as_str(),
            ) && (!e.exists || (e.sha256.as_str().as_bytes().len() == 64 && e.bytes <= 2 * 1024 * 1024 * 1024)) && (
            e.exists || (e.bytes == 0 && e.sha256.as_str().unicode_len() == 0));
            if !sound {
                proof {
                    assert(!entry_ok(es[i as int]));
                }
                return false;
            }
            let mut k: usize = 0;
            while k < i
                invariant
                    k <= i < self.entries@.len(),
                    es == entries_view(self.entries@),
                    forall|b: int| 0 <= b < k ==> #[trigger] apart(es, b, i as int),
                decreases i - k,
            {
                proof {
                    assert(es[k as int] == entry_view(self.entries@[k as int]));
                    assert(es[i as int] == entry_view(self.entries@[i as int]));
                }
                let same_source = str_eq(self.entries[k].source.as_str(), self.entries[i].source.as_str());
                let same_package = str_eq(self.entries[k].package_path.as_str(), self.entries[i].package_path.as_str());
                if same_source || same_package {
                    proof {
                        assert(!apart(es, k as int, i as int));
                    }
                    return false;
                }
                proof {
                    assert(apart(es, k as int, i as int));
                }

                k += 1;
            }
            proof {
                assert(es.take(i + 1).drop_last() =~= es.take(i as int));
                lemma_total_nonneg(es.take(i as int));
            }
            if e.bytes > u64::MAX - total {
                proof {
                    lemma_total_prefix(es, i + 1);
                }
                return false;
            }
            total = total + e.bytes;
            i += 1;
        }
        proof {
            assert(es.take(i as int) =~= es);
        }
        if total != self.total_bytes {
            return false;
        }
        let ghost missing = text_views(self.missing@);
        let mut m: usize = 0;
        while m < self.missing.len()
            invariant
                m <= self.missing@.len(),
                es == entries_view(self.entries@),
                missing == text_views(self.missing@),
                forall|a: int| 0 <= a < m ==> !is_blank(#[trigger] missing[a]),
                forall|a: int, b: int| 0 <= b < a < m ==> #[trigger] missing[b] != #[trigger] missing[a],
                forall|a: int, j: int| 0 <= a < m && 0 <= j < es.len() ==> #[trigger] missing[a] != #[trigger] es[j].0,
            decreases self.missing.len() - m,
        {
            let p = self.missing[m].as_str();
            proof {
                assert(missing[m as int] == p@);
            }
            if blank(p) {
                return false;
            }
            if text_index(&self.missing, m, p) {
                proof {
                    let j = choose|j: int| 0 <= j < m && #[trigger] self.missing@[j]@ == p@;
                    assert(missing[j] == missing[m as int]);
                }
                return false;
            }
            let mut k: usize = 0;
            while k < self.entries.len()
                invariant
                    k <= self.entries@.len(),
                    m < self.missing@.len(),
                    es == entries_view(self.entries@),
                    missing == text_views(self.missing@),
                    missing[m as int] == p@,
                    forall|j: int| 0 <= j < k ==> missing[m as int] != #[trigger] es[j].0,
                decreases self.entries.len() - k,
            {
                proof {
                    assert(es[k as int].0 == self.entries@[k as int].source@);
                }
                if str_eq(self.entries[k].source.as_str(), p) {
                    return false;
                }
                k += 1;
            }
            proof {
                assert forall|b: int| 0 <= b < m implies #[trigger] missing[b] != missing[m as int] by {
                    assert(missing[b] == self.missing@[b]@);
                }
            }
            m += 1;
        }
        true
    }
}

} // verus!
