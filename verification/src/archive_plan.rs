//! Planning a project archive: every dependency that is a file is copied
//! under `Media/` by its own name, or, when that name is taken, by its stem
//! with the first eight hex digits of its hash (and a counter) before the
//! extension; the others are listed as missing.
use vstd::prelude::*;
use crate::keyed::text_views;
use crate::project_archive::{
    entries_view, manifest_ok, total_of, ArchiveEntry, ArchiveManifest, ARCHIVE_SCHEMA_VERSION,
};
use crate::text::{chars_of, chars_text, copy_str, decimal, digit_char, push_decimal, push_str, str_eq};

verus! {

/// The largest dependency an archive takes: 2 GiB.
pub const MAX_ARCHIVE_FILE_BYTES: u64 = 2147483648;

/// A dependency as the plan reads it: its path as text, the last component
/// of its path (when it is valid UTF-8), and, when it is a regular file, its
/// size with the SHA-256 of its contents in lowercase hex. A file over the
/// size limit may come with an empty hash: it is refused before the hash is
/// read.
pub struct ArchiveSource {
    pub source: String,
    pub file_name: Option<String>,
    pub found: Option<(u64, String)>,
}

pub open spec fn is_lower_hex(c: char) -> bool {
    ('0' <= c && c <= '9') || ('a' <= c && c <= 'f')
}

/// 64 lowercase hex digits, as a SHA-256 is written.
pub open spec fn sha_hex(h: Seq<char>) -> bool {
    h.len() == 64 && forall|i: int| 0 <= i < h.len() ==> #[trigger] is_lower_hex(h[i])
}

/// What a dependency's path and hash can be: a last component without `/`
/// that is not `.` or `..`, and a hash in hex for a file within the limit.
pub open spec fn source_ok(s: ArchiveSource) -> bool {
    &&& s.file_name matches Some(f) ==> !f@.contains('/') && f@ != "."@ && f@ != ".."@
    &&& s.found matches Some(x) ==> (x.0 <= MAX_ARCHIVE_FILE_BYTES ==> sha_hex(x.1@))
}

/// The name a dependency is packaged under: its last component, or `asset`.
pub open spec fn base_name(f: Option<String>) -> Seq<char> {
    match f {
        Some(s) => if s@.len() > 0 {
            s@
        } else {
            "asset"@
        },
        None => "asset"@,
    }
}

/// The place of the last `.` in a name, or -1.
pub open spec fn last_dot(s: Seq<char>) -> int
    decreases s.len(),
{
    if s.len() == 0 {
        -1
    } else if s.last() == '.' {
        s.len() - 1
    } else {
        last_dot(s.drop_last())
    }
}

/// The stem of a file name (`Path::file_stem`): all before its last `.`,
/// unless that `.` starts the name or there is none.
pub open spec fn stem_of(b: Seq<char>) -> Seq<char> {
    if last_dot(b) <= 0 {
        b
    } else {
        b.take(last_dot(b))
    }
}

/// The extension of a file name with its `.` (`Path::extension`), or the
/// empty text.
pub open spec fn ext_of(b: Seq<char>) -> Seq<char> {
    if last_dot(b) <= 0 {
        Seq::empty()
    } else {
        b.skip(last_dot(b))
    }
}

/// The counter mark of the `k`-th renamed candidate: none for the first,
/// `_2`, `_3` and so on after it.
pub open spec fn suffix_mark(k: nat) -> Seq<char> {
    if k == 0 {
        Seq::empty()
    } else {
        "_"@ + decimal(k + 1)
    }
}

/// The `k`-th renamed package path of a file with hash `h`.
pub open spec fn candidate(b: Seq<char>, h: Seq<char>, k: nat) -> Seq<char> {
    "Media/"@ + stem_of(b) + "_"@ + h.take(8) + suffix_mark(k) + ext_of(b)
}

/// The first renamed candidate from `k` on that is not used (within `fuel`
/// tries).
pub open spec fn free_from(b: Seq<char>, h: Seq<char>, used: Seq<Seq<char>>, k: nat, fuel: nat) -> nat
    decreases fuel,
{
    if fuel == 0 || !used.contains(candidate(b, h, k)) {
        k
    } else {
        free_from(b, h, used, k + 1, (fuel - 1) as nat)
    }
}

/// The package path of a file named `b` with hash `h` when the paths `used`
/// are taken: `Media/` and its name, or else the first free renamed
/// candidate.
pub open spec fn package_for(b: Seq<char>, h: Seq<char>, used: Seq<Seq<char>>) -> Seq<char> {
    if !used.contains("Media/"@ + b) {
        "Media/"@ + b
    } else {
        candidate(b, h, free_from(b, h, used, 0, used.len() + 1))
    }
}

pub type EntryView = (Seq<char>, Seq<char>, u64, Seq<char>, bool);

/// The package paths of entries.
pub open spec fn used_paths(es: Seq<EntryView>) -> Seq<Seq<char>> {
    es.map_values(|e: EntryView| e.1)
}

/// The entries, missing paths and refusal after the first `k` dependencies:
/// a missing one is listed, one over 2 GiB is refused, any other is packaged
/// under the next free package path.
pub open spec fn plan_upto(sources: Seq<ArchiveSource>, k: int) -> (Seq<EntryView>, Seq<Seq<char>>, Option<Seq<char>>)
    decreases k,
{
    if k <= 0 {
        (Seq::empty(), Seq::empty(), None)
    } else {
        let t = plan_upto(sources, k - 1);
        let s = sources[k - 1];
        if t.2 is Some {
            t
        } else {
            match s.found {
                None => (t.0, t.1.push(s.source@), None),
                Some(x) => if x.0 > MAX_ARCHIVE_FILE_BYTES {
                    (t.0, t.1, Some("dependency is too large: "@ + s.source@))
                } else {
                    (
                        t.0.push(
                            (s.source@, package_for(base_name(s.file_name), x.1@, used_paths(t.0)), x.0, x.1@, true),
                        ),
                        t.1,
                        None,
                    )
                },
            }
        }
    }
}

/// Why a plan is refused before its manifest is checked, if it is.
pub open spec fn plan_refusal(project_file: Seq<char>, sources: Seq<ArchiveSource>) -> Option<Seq<char>> {
    if project_file.len() == 0 {
        Some("project file path is empty"@)
    } else if sources.len() > 65_536 {
        Some("project has too many dependencies"@)
    } else {
        plan_upto(sources, sources.len() as int).2
    }
}

proof fn lemma_digit_char(d: nat)
    requires
        d < 10,
    ensures
        digit_char(d) as u32 == d + 48,
{
}

pub proof fn lemma_decimal_len(n: nat)
    ensures
        decimal(n).len() >= 1,
        n >= 10 ==> decimal(n).len() >= 2,
    decreases n,
{
    if n >= 10 {
        lemma_decimal_len(n / 10);
    }
}

/// Different numbers are written with different digits.
pub proof fn lemma_decimal_injective(a: nat, b: nat)
    requires
        decimal(a) == decimal(b),
    ensures
        a == b,
    decreases a,
{
    lemma_decimal_len(a);
    lemma_decimal_len(b);
    if a < 10 && b < 10 {
        lemma_digit_char(a);
        lemma_digit_char(b);
        assert(decimal(a)[0] == digit_char(a));
        assert(decimal(b)[0] == digit_char(b));
    } else if a >= 10 && b >= 10 {
        let da = decimal(a);
        let db = decimal(b);
        assert(da.drop_last() =~= decimal(a / 10));
        assert(db.drop_last() =~= decimal(b / 10));
        lemma_decimal_injective(a / 10, b / 10);
        lemma_digit_char(a % 10);
        lemma_digit_char(b % 10);
        assert(da.last() == digit_char(a % 10));
        assert(db.last() == digit_char(b % 10));
    } else {
        assert(decimal(a).len() != decimal(b).len());
    }
}

proof fn lemma_candidates_differ(b: Seq<char>, h: Seq<char>, x: nat, y: nat)
    requires
        x != y,
    ensures
        candidate(b, h, x) != candidate(b, h, y),
{
    let a = "Media/"@ + stem_of(b) + "_"@ + h.take(8);
    let e = ext_of(b);
    let cx = candidate(b, h, x);
    let cy = candidate(b, h, y);
    assert(cx == a + suffix_mark(x) + e);
    assert(cy == a + suffix_mark(y) + e);
    if cx == cy {
        let mx = suffix_mark(x);
        let my = suffix_mark(y);
        assert(mx.len() == my.len());
        assert(mx =~= cx.subrange(a.len() as int, (a.len() + mx.len()) as int));
        assert(my =~= cy.subrange(a.len() as int, (a.len() + my.len()) as int));
        reveal_strlit("_");
        if x == 0 || y == 0 {
            lemma_decimal_len(if x == 0 { y + 1 } else { x + 1 });
        } else {
            assert(decimal((x + 1) as nat) =~= mx.drop_first());
            assert(decimal((y + 1) as nat) =~= my.drop_first());
            lemma_decimal_injective((x + 1) as nat, (y + 1) as nat);
        }
    }
}

/// Among the first `used.len() + 1` renamed candidates one is free.
proof fn lemma_some_candidate_free(b: Seq<char>, h: Seq<char>, used: Seq<Seq<char>>)
    ensures
        exists|k: nat| k <= used.len() && !used.contains(#[trigger] candidate(b, h, k)),
{
    if forall|k: nat| k <= used.len() ==> used.contains(#[trigger] candidate(b, h, k)) {
        let xs = Seq::new(used.len() + 1, |j: int| candidate(b, h, j as nat));
        assert(xs.no_duplicates()) by {
            assert forall|i: int, j: int| 0 <= i < xs.len() && 0 <= j < xs.len() && i != j implies xs[i] != xs[j] by {
                lemma_candidates_differ(b, h, i as nat, j as nat);
            }
        }
        xs.unique_seq_to_set();
        used.lemma_cardinality_of_set();
        vstd::seq_lib::seq_to_set_is_finite(used);
        assert(xs.to_set().subset_of(used.to_set())) by {
            assert forall|c: Seq<char>| xs.to_set().contains(c) implies used.to_set().contains(c) by {
                let j = choose|j: int| 0 <= j < xs.len() && xs[j] == c;
                assert(used.contains(candidate(b, h, j as nat)));
            }
        }
        vstd::set_lib::lemma_len_subset(xs.to_set(), used.to_set());
        assert(false);
    }
}

proof fn lemma_free_from(b: Seq<char>, h: Seq<char>, used: Seq<Seq<char>>, k: nat, fuel: nat, w: nat)
    requires
        k <= w <= k + fuel,
        !used.contains(candidate(b, h, w)),
    ensures
        !used.contains(candidate(b, h, free_from(b, h, used, k, fuel))),
        forall|j: nat| k <= j < free_from(b, h, used, k, fuel) ==> used.contains(#[trigger] candidate(b, h, j)),
        free_from(b, h, used, k, fuel) <= w,
    decreases fuel,
{
    if fuel > 0 && used.contains(candidate(b, h, k)) {
        lemma_free_from(b, h, used, k + 1, (fuel - 1) as nat, w);
    }
}

fn texts_contain(v: &Vec<String>, t: &str) -> (r: bool)
    ensures
        r == text_views(v@).contains(t@),
{
    let mut k: usize = 0;
    while k < v.len()
        invariant
            k <= v@.len(),
            forall|x: int| 0 <= x < k ==> v@[x]@ != t@,
        decreases v.len() - k,
    {
        if str_eq(v[k].as_str(), t) {
            proof {
                assert(text_views(v@)[k as int] == t@);
            }
            return true;
        }
        k += 1;
    }
    proof {
        if text_views(v@).contains(t@) {
            let x = choose|x: int| 0 <= x < text_views(v@).len() && text_views(v@)[x] == t@;
            assert(v@[x]@ == t@);
        }
    }
    false
}

/// The place of the last `.` among the chars, or none.
fn last_dot_of(cs: &Vec<char>) -> (r: Option<usize>)
    ensures
        match r {
            Some(i) => i < cs@.len() && last_dot(cs@) == i,
            None => last_dot(cs@) == -1,
        },
{
    let mut r: Option<usize> = None;
    let mut i: usize = 0;
    while i < cs.len()
        invariant
            i <= cs@.len(),
            match r {
                Some(j) => j < i && last_dot(cs@.take(i as int)) == j,
                None => last_dot(cs@.take(i as int)) == -1,
            },
        decreases cs.len() - i,
    {
        proof {
            assert(cs@.take(i + 1).drop_last() =~= cs@.take(i as int));
        }
        if cs[i] == '.' {
            r = Some(i);
        }
        i += 1;
    }
    proof {
        assert(cs@.take(cs.len() as int) =~= cs@);
    }
    r
}

/// The package path of a file named `base` with hash `hash` when the paths
/// `used` are taken (see `package_for`); it is never one of them.
pub fn unique_package_path(base: &str, hash: &str, used: &Vec<String>) -> (r: String)
    requires
        sha_hex(hash@),
        used@.len() < usize::MAX,
    ensures
        r@ == package_for(base@, hash@, text_views(used@)),
        !text_views(used@).contains(r@),
{
    let ghost us = text_views(used@);
    let mut first = copy_str("Media/");
    push_str(&mut first, base);
    if !texts_contain(used, first.as_str()) {
        return first;
    }
    let cs = chars_of(base);
    let (stem, ext) = match last_dot_of(&cs) {
        Some(d) => if d == 0 {
            (copy_str(base), String::new())
        } else {
            (chars_text(&cs, 0, d), chars_text(&cs, d, cs.len()))
        },
        None => (copy_str(base), String::new()),
    };
    proof {
        assert(stem@ == stem_of(base@)) by {
            if last_dot(base@) > 0 {
                assert(cs@.subrange(0, last_dot(base@)) =~= base@.take(last_dot(base@)));
            }
        }
        assert(ext@ =~= ext_of(base@)) by {
            if last_dot(base@) > 0 {
                assert(cs@.subrange(last_dot(base@), cs@.len() as int) =~= base@.skip(last_dot(base@)));
            }
        }
    }
    let hs = chars_of(hash);
    let h8 = chars_text(&hs, 0, 8);
    proof {
        assert(h8@ =~= hash@.take(8));
        lemma_some_candidate_free(base@, hash@, us);
    }
    let ghost w = choose|k: nat| k <= us.len() && !us.contains(#[trigger] candidate(base@, hash@, k));
    proof {
        lemma_free_from(base@, hash@, us, 0, us.len() + 1, w);
    }
    let ghost target = free_from(base@, hash@, us, 0, us.len() + 1);
    let mut k: usize = 0;
    while k <= used.len()
        invariant
            us == text_views(used@),
            us.len() == used@.len() < usize::MAX,
            us.contains("Media/"@ + base@),
            target == free_from(base@, hash@, us, 0, us.len() + 1),
            stem@ == stem_of(base@),
            ext@ == ext_of(base@),
            h8@ == hash@.take(8),
            k <= target,
            target <= us.len(),
            !us.contains(candidate(base@, hash@, target)),
            forall|j: nat| j < target ==> us.contains(#[trigger] candidate(base@, hash@, j)),
        decreases used.len() + 1 - k,
    {
        let mut c = copy_str("Media/");
        push_str(&mut c, stem.as_str());
        push_str(&mut c, "_");
        push_str(&mut c, h8.as_str());
        if k > 0 {
            push_str(&mut c, "_");
            push_decimal(&mut c, (k + 1) as u64);
        }
        push_str(&mut c, ext.as_str());
        proof {
            assert(c@ =~= candidate(base@, hash@, k as nat));
        }
        if !texts_contain(used, c.as_str()) {
            proof {
                if (k as nat) < target {
                    assert(us.contains(candidate(base@, hash@, k as nat)));
                }
                assert(k as nat == target);
                assert(us.contains("Media/"@ + base@));
                assert(target == free_from(base@, hash@, us, 0, us.len() + 1));
                assert(package_for(base@, hash@, us) == candidate(base@, hash@, target));
            }
            return c;
        }
        proof {
            if k as nat == target {
                assert(false);
            }
        }
        k += 1;
    }
    proof {
        assert(false);
    }
    first
}

/// The manifest's soundness read from its parts (see `manifest_ok`).
pub open spec fn plan_manifest(project_file: Seq<char>, es: Seq<EntryView>, missing: Seq<Seq<char>>, m: ArchiveManifest) -> bool {
    &&& m.schema_version == ARCHIVE_SCHEMA_VERSION
    &&& m.project_file@ == project_file
    &&& entries_view(m.entries@) == es
    &&& text_views(m.missing@) == missing
    &&& m.total_bytes == total_of(es)
}

proof fn lemma_total_bound(es: Seq<EntryView>)
    requires
        forall|i: int| 0 <= i < es.len() ==> #[trigger] es[i].2 <= MAX_ARCHIVE_FILE_BYTES,
    ensures
        0 <= total_of(es) <= es.len() * MAX_ARCHIVE_FILE_BYTES,
    decreases es.len(),
{
    if es.len() > 0 {
        let d = es.drop_last();
        assert forall|i: int| 0 <= i < d.len() implies #[trigger] d[i].2 <= MAX_ARCHIVE_FILE_BYTES by {
            assert(d[i] == es[i]);
        }
        lemma_total_bound(d);
    }
}

/// Plans the archive of the project file and its dependencies, in the
/// order given: refused for an empty project path, for more than 65536
/// dependencies, for a file over 2 GiB (naming it), and when the manifest
/// built would not be sound (such as two dependencies with the same path);
/// otherwise the manifest of `plan_upto`.
pub fn plan_archive(project_file: &str, sources: &Vec<ArchiveSource>) -> (r: Result<ArchiveManifest, String>)
    requires
        forall|i: int| 0 <= i < sources@.len() ==> source_ok(#[trigger] sources@[i]),
    ensures
        match plan_refusal(project_file@, sources@) {
            Some(e) => r matches Err(x) && x@ == e,
            None => {
                let t = plan_upto(sources@, sources@.len() as int);
                match r {
                    Ok(m) => plan_manifest(project_file@, t.0, t.1, m) && manifest_ok(m),
                    Err(x) => x@ == "generated archive manifest is invalid"@ && forall|m: ArchiveManifest|
                        plan_manifest(project_file@, t.0, t.1, m) ==> !manifest_ok(m),
                }
            },
        },
{
    if project_file.unicode_len() == 0 {
        return Err(copy_str("project file path is empty"));
    }
    if sources.len() > 65_536 {
        return Err(copy_str("project has too many dependencies"));
    }
    let mut entries: Vec<ArchiveEntry> = Vec::new();
    let mut used: Vec<String> = Vec::new();
    let mut missing: Vec<String> = Vec::new();
    let mut total: u64 = 0;
    let mut i: usize = 0;
    while i < sources.len()
        invariant
            i <= sources@.len() <= 65_536,
            project_file@.len() != 0,
            forall|j: int| 0 <= j < sources@.len() ==> source_ok(#[trigger] sources@[j]),
            plan_upto(sources@, i as int).2 is None,
            entries_view(entries@) == plan_upto(sources@, i as int).0,
            text_views(missing@) == plan_upto(sources@, i as int).1,
            text_views(used@) == used_paths(entries_view(entries@)),
            entries@.len() <= i,
            forall|j: int| 0 <= j < entries@.len() ==> #[trigger] entries@[j].bytes <= MAX_ARCHIVE_FILE_BYTES,
            total == total_of(entries_view(entries@)),
        decreases sources.len() - i,
    {
        let s = &sources[i];
        let ghost t = plan_upto(sources@, i as int);
        proof {
            assert(source_ok(sources@[i as int]));
        }
        match &s.found {
            None => {
                missing.push(copy_str(s.source.as_str()));
                proof {
                    assert(text_views(missing@) =~= t.1.push(s.source@));
                }
            },
            Some((len, hash)) => {
                if *len > MAX_ARCHIVE_FILE_BYTES {
                    let mut e = copy_str("dependency is too large: ");
                    push_str(&mut e, s.source.as_str());
                    proof {
                        assert(t.2 is None);
                        assert(plan_upto(sources@, i + 1).2 == Some(e@));
                        assert(project_file@.len() != 0);
                        assert(sources@.len() <= 65_536);
                        lemma_refusal_stays(sources@, i + 1, sources@.len() as int);
                    }
                    return Err(e);
                }
                let base = match &s.file_name {
                    Some(f) => if f.unicode_len() > 0 {
                        f.as_str()
                    } else {
                        "asset"
                    },
                    None => "asset",
                };
                proof {
                    assert(base@ == base_name(s.file_name)) by {
                        reveal_strlit("asset");
                    }
                }
                let package = unique_package_path(base, hash.as_str(), &used);
                let ghost pkg = package@;
                let ghost used0 = text_views(used@);
                proof {
                    let es = entries_view(entries@);
                    assert forall|j: int| 0 <= j < es.len() implies #[trigger] es[j].2 <= MAX_ARCHIVE_FILE_BYTES by {
                        assert(es[j] == entry_view_of(entries@[j]));
                    }
                    lemma_total_bound(es);
                    assert(es.len() * MAX_ARCHIVE_FILE_BYTES <= 65_535 * MAX_ARCHIVE_FILE_BYTES) by (nonlinear_arith)
                        requires
                            es.len() <= 65_535,
                    ;
                }
                let ghost before = entries_view(entries@);
                used.push(copy_str(package.as_str()));
                entries.push(
                    ArchiveEntry {
                        source: copy_str(s.source.as_str()),
                        package_path: package,
                        bytes: *len,
                        sha256: copy_str(hash.as_str()),
                        exists: true,
                    },
                );
                total = total + *len;
                proof {
                    assert(entries_view(entries@) =~= before.push(entries_view(entries@).last()));
                    assert(entries_view(entries@) =~= t.0.push(
                        (s.source@, package_for(base_name(s.file_name), hash@, used_paths(t.0)), *len, hash@, true),
                    ));
                    assert(text_views(used@) =~= used0.push(pkg));
                    assert(entries_view(entries@).last().1 == pkg);
                    assert(used_paths(entries_view(entries@)) =~= used_paths(before).push(pkg));
                    assert(text_views(used@) =~= used_paths(entries_view(entries@)));
                    assert(entries_view(entries@).drop_last() =~= before);
                }
            },
        }
        i += 1;
    }
    let manifest = ArchiveManifest {
        schema_version: ARCHIVE_SCHEMA_VERSION,
        project_file: copy_str(project_file),
        entries,
        missing,
        total_bytes: total,
    };
    if !manifest.validate() {
        proof {
            assert forall|m: ArchiveManifest|
                plan_manifest(project_file@, entries_view(manifest.entries@), text_views(manifest.missing@), m)
                    implies !manifest_ok(m) by {
                assert(!manifest_ok(manifest));
            }
        }
        return Err(copy_str("generated archive manifest is invalid"));
    }
    Ok(manifest)
}

pub open spec fn entry_view_of(e: ArchiveEntry) -> EntryView {
    (e.source@, e.package_path@, e.bytes, e.sha256@, e.exists)
}

proof fn lemma_refusal_stays(sources: Seq<ArchiveSource>, k: int, m: int)
    requires
        0 < k <= m,
        plan_upto(sources, k).2 is Some,
    ensures
        plan_upto(sources, m) == plan_upto(sources, k),
    decreases m - k,
{
    if m > k {
        lemma_refusal_stays(sources, k, m - 1);
    }
}

} // verus!
