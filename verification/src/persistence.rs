//! Project persistence bookkeeping: content checksums of saved projects
//! (SHA-256, with the legacy FNV-1a still accepted), the retained backup
//! records, and the generation numbers of backup files.  The atomic file
//! writes themselves happen at the edge.
use vstd::prelude::*;
use crate::digest::sha256_of;
use crate::lines::{
    after_prefix, all_digits, digits_value, is_digit, parse_u64, parse_unsigned, sign_free, starts_with, strip_prefix,
};
use crate::plugin_catalog::id_lists::is_hex_digit;
use crate::sorting::{arranged, is_perm, stable_order, strict_weak};
use crate::plugin_catalog::identity::fnv1a;
use crate::text::{
    blank, chars_of, contains_char, copy_str, first_index, is_blank, lemma_pos_of, pos_of, push_decimal, push_str,
    string_from, is_ws, is_whitespace,
};

verus! {

#[derive(Debug, Clone)]
pub struct BackupInfo {
    pub timestamp: u64,
    pub index: u32,
    pub checksum: u64,
    pub is_differential: bool,
    pub path: String,
}

/// A backup generation found beside a project, newest at generation 1.
#[derive(Debug, Clone, PartialEq, Eq)]
pub struct RecoveryCandidate {
    pub path: String,
    pub generation: u32,
    pub bytes: u64,
    pub modified_unix_seconds: u64,
    pub checksum: u64,
}

/// How many saves are remembered, and their records, oldest first.
pub struct PersistenceOrchestrator {
    pub max_backups: u32,
    pub current_backups: Vec<BackupInfo>,
}

pub struct SovereignPersistence;

/// The first eight bytes of the SHA-256 digest, big-endian.
pub open spec fn checksum_of(data: Seq<u8>) -> u64 {
    let d = sha256_of(data);
    (d[0] * 0x100000000000000 + d[1] * 0x1000000000000 + d[2] * 0x10000000000 + d[3] * 0x100000000 + d[4]
        * 0x1000000 + d[5] * 0x10000 + d[6] * 0x100 + d[7]) as u64
}

/// A backup record as plain values: timestamp, index, checksum,
/// differential flag, path.
pub open spec fn backup_view(b: BackupInfo) -> (u64, u32, u64, bool, Seq<char>) {
    (b.timestamp, b.index, b.checksum, b.is_differential, b.path@)
}

pub open spec fn backups_view(bs: Seq<BackupInfo>) -> Seq<(u64, u32, u64, bool, Seq<char>)> {
    bs.map_values(|b: BackupInfo| backup_view(b))
}

/// The generation of a backup file name `<project>.bak.<n>`.
pub open spec fn generation_of(name: Seq<char>, project: Seq<char>) -> Option<u32> {
    let prefix = project + ".bak."@;
    if starts_with(name, prefix) {
        match parse_unsigned(after_prefix(name, prefix), u32::MAX as nat) {
            Some(v) => Some(v as u32),
            None => None,
        }
    } else {
        None
    }
}

impl PersistenceOrchestrator {
    /// Remembers up to `max_backups` saves, at most 10000.
    pub fn new(max_backups: u32) -> (r: Self)
        ensures
            r.max_backups == if max_backups < 10_000 { max_backups } else { 10_000 },
            r.current_backups@.len() == 0,
    {
        PersistenceOrchestrator { max_backups: if max_backups < 10_000 { max_backups } else { 10_000 }, current_backups: Vec::new() }
    }

    /// The checksum of saved project bytes: the first eight bytes of their
    /// SHA-256 digest, read big-endian.
    pub fn calculate_checksum(data: &[u8]) -> (r: u64)
        ensures
            r == checksum_of(data@),
    {
        let d = crate::digest::sha256_digest(data);
        (d[0] as u64) * 0x100000000000000 + (d[1] as u64) * 0x1000000000000 + (d[2] as u64) * 0x10000000000 + (
        d[3] as u64) * 0x100000000 + (d[4] as u64) * 0x1000000 + (d[5] as u64) * 0x10000 + (d[6] as u64) * 0x100
            + d[7] as u64
    }

    /// The checksum older projects were saved with: FNV-1a of the bytes.
    pub fn legacy_fnv1a_checksum(data: &[u8]) -> (r: u64)
        ensures
            r == fnv1a(data@),
    {
        let mut hash: u64 = 0xcbf29ce484222325u64;
        let mut i: usize = 0;
        while i < data.len()
            invariant
                i <= data@.len(),
                hash == fnv1a(data@.take(i as int)),
            decreases data.len() - i,
        {
            proof {
                assert(data@.take(i + 1).drop_last() =~= data@.take(i as int));
            }
            hash = (hash ^ (data[i] as u64)).wrapping_mul(0x100000001b3u64);
            i += 1;
        }
        proof {
            assert(data@.take(i as int) =~= data@);
        }
        hash
    }

    /// The bytes match the checksum under either scheme.
    pub fn audit_persistence(&self, data: &[u8], expected_checksum: u64) -> (r: bool)
        ensures
            r == (checksum_of(data@) == expected_checksum || fnv1a(data@) == expected_checksum),
    {
        Self::calculate_checksum(data) == expected_checksum || Self::legacy_fnv1a_checksum(data) == expected_checksum
    }

    /// Backups are rotated on disk as part of every save; there is nothing
    /// more to schedule.
    pub fn orchestrate_backup(&self) {
    }

    /// A project can be saved under the path: refused with "project path
    /// must not be empty" for a blank path or one holding NUL.
    pub fn check_save_path(path: &str) -> (r: Result<(), String>)
        ensures
            r is Ok <==> !(is_blank(path@) || path@.contains('\0')),
            r matches Err(e) ==> e@ == "project path must not be empty"@,
    {
        if blank(path) || contains_char(path, '\0') {
            return Err(copy_str("project path must not be empty"));
        }
        Ok(())
    }

    /// Records a save that reached disk: its checksum, its position among
    /// the records, and the path; the oldest record goes once more than
    /// `max_backups` are kept.  Refused for a blank path or one with NUL.
    pub fn record_save(&mut self, path: &str, data: &[u8], timestamp: u64) -> (r: Result<BackupInfo, String>)
        ensures
            is_blank(path@) || path@.contains('\0') ==> (r matches Err(e) && e@ == "project path must not be empty"@)
                && final(self).current_backups@ == old(self).current_backups@,
            !(is_blank(path@) || path@.contains('\0')) ==> (r matches Ok(info) && {
                let rec = (timestamp, old(self).current_backups@.len() as u32, checksum_of(data@), false, path@);
                let pushed = backups_view(old(self).current_backups@).push(rec);
                &&& backup_view(info) == rec
                &&& backups_view(final(self).current_backups@) == if pushed.len() > old(self).max_backups {
                    pushed.drop_first()
                } else {
                    pushed
                }
            }),
            final(self).max_backups == old(self).max_backups,
    {
        Self::check_save_path(path)?;
        let checksum = Self::calculate_checksum(data);
        let index = self.current_backups.len() as u32;
        let info = BackupInfo { timestamp, index, checksum, is_differential: false, path: copy_str(path) };
        let ghost before = backups_view(self.current_backups@);
        let kept = BackupInfo { timestamp, index, checksum, is_differential: false, path: copy_str(path) };
        self.current_backups.push(kept);
        proof {
            assert(backups_view(self.current_backups@) =~= before.push(backup_view(kept)));
        }
        if self.current_backups.len() > self.max_backups as usize {
            let ghost full = backups_view(self.current_backups@);
            self.current_backups.remove(0);
            proof {
                assert(backups_view(self.current_backups@) =~= full.drop_first());
            }
        }
        Ok(info)
    }

    /// The generation of a file named `<project>.bak.<n>`, where `project`
    /// is the project's file name; `None` for any other name.
    pub fn backup_generation(name: &str, project: &str) -> (r: Option<u32>)
        ensures
            r == generation_of(name@, project@),
    {
        let mut prefix = copy_str(project);
        push_str(&mut prefix, ".bak.");
        let cs = chars_of(name);
        match strip_prefix(cs.as_slice(), prefix.as_str()) {
            Some(rest) => match parse_u64(rest.as_slice()) {
                Some(v) => {
                    proof {
                        assert(parse_unsigned(rest@, u32::MAX as nat) == if v <= u32::MAX {
                            Some(v as nat)
                        } else {
                            None::<nat>
                        });
                    }
                    if v <= u32::MAX as u64 {
                        Some(v as u32)
                    } else {
                        None
                    }
                },
                None => {
                    proof {
                        assert(parse_unsigned(rest@, u32::MAX as nat) is None);
                    }
                    None
                },
            },
            None => None,
        }
    }
}

impl SovereignPersistence {
    /// The assets a project carries, as listed.
    pub fn scan_assets(_project_dir: &str, assets: &[String]) -> (r: Vec<String>)
        ensures
            crate::keyed::text_views(r@) == crate::keyed::text_views(assets@),
    {
        let mut r: Vec<String> = Vec::new();
        let mut i: usize = 0;
        while i < assets.len()
            invariant
                i <= assets@.len(),
                crate::keyed::text_views(r@) == crate::keyed::text_views(assets@).take(i as int),
            decreases assets.len() - i,
        {
            let ghost before = r@;
            let c = copy_str(assets[i].as_str());
            r.push(c);
            proof {
                assert(crate::keyed::text_views(r@) =~= crate::keyed::text_views(before).push(c@));
                assert(crate::keyed::text_views(assets@).take(i + 1) =~= crate::keyed::text_views(assets@).take(
                    i as int,
                ).push(assets@[i as int]@));
            }
            i += 1;
        }
        proof {
            assert(crate::keyed::text_views(assets@).take(i as int) =~= crate::keyed::text_views(assets@));
        }
        r
    }
}

/// A save-owner token: 1 to 128 ASCII hex digits or dashes.
pub open spec fn token_ok(t: Seq<char>) -> bool {
    &&& 0 < t.len() <= 128
    &&& forall|i: int| 0 <= i < t.len() ==> is_hex_digit(#[trigger] t[i]) || t[i] == '-'
}

/// A non-empty run of ASCII digits.
pub open spec fn digit_run(d: Seq<char>) -> bool {
    d.len() > 0 && all_digits(d)
}

/// The three dash-separated parts of a temporary file's suffix, as
/// `splitn(3, '-')` yields them; missing parts are empty.
pub open spec fn temp_parts(suffix: Seq<char>) -> (Seq<char>, Seq<char>, Seq<char>) {
    if !suffix.contains('-') {
        (suffix, Seq::empty(), Seq::empty())
    } else {
        let a = pos_of(suffix, '-');
        let rest = suffix.skip(a + 1);
        if !rest.contains('-') {
            (suffix.take(a), rest, Seq::empty())
        } else {
            (suffix.take(a), rest.take(pos_of(rest, '-')), rest.skip(pos_of(rest, '-') + 1))
        }
    }
}

/// The writer process of a save's temporary file: the name is
/// `<project>.tmp-<pid>-<nanoseconds>-<token>` with digit runs for the pid
/// and the time and a valid token.  Any other name is no save temporary.
pub open spec fn temp_owner_of(name: Seq<char>, project: Seq<char>) -> Option<Seq<char>> {
    let prefix = project + ".tmp-"@;
    if starts_with(name, prefix) {
        let (pid, nanos, token) = temp_parts(after_prefix(name, prefix));
        if digit_run(pid) && digit_run(nanos) && token_ok(token) {
            Some(pid)
        } else {
            None
        }
    } else {
        None
    }
}

fn is_token(t: &Vec<char>) -> (r: bool)
    ensures
        r == token_ok(t@),
{
    if t.len() == 0 || t.len() > 128 {
        return false;
    }
    let mut i: usize = 0;
    while i < t.len()
        invariant
            i <= t@.len(),
            forall|j: int| 0 <= j < i ==> is_hex_digit(#[trigger] t@[j]) || t@[j] == '-',
        decreases t.len() - i,
    {
        let c = t[i];
        if !(('0' <= c && c <= '9') || ('a' <= c && c <= 'f') || ('A' <= c && c <= 'F') || c == '-') {
            return false;
        }
        i += 1;
    }
    true
}

fn is_digit_run(d: &Vec<char>) -> (r: bool)
    ensures
        r == digit_run(d@),
{
    if d.len() == 0 {
        return false;
    }
    let mut i: usize = 0;
    while i < d.len()
        invariant
            i <= d@.len(),
            forall|j: int| 0 <= j < i ==> is_digit(#[trigger] d@[j]),
        decreases d.len() - i,
    {
        if !('0' <= d[i] && d[i] <= '9') {
            return false;
        }
        i += 1;
    }
    true
}

fn chars_between(cs: &Vec<char>, lo: usize, hi: usize) -> (r: Vec<char>)
    requires
        lo <= hi <= cs@.len(),
    ensures
        r@ == cs@.subrange(lo as int, hi as int),
{
    let mut r: Vec<char> = Vec::new();
    let mut i = lo;
    while i < hi
        invariant
            lo <= i <= hi <= cs@.len(),
            r@ == cs@.subrange(lo as int, i as int),
        decreases hi - i,
    {
        r.push(cs[i]);
        proof {
            assert(cs@.subrange(lo as int, i + 1) =~= cs@.subrange(lo as int, i as int).push(cs@[i as int]));
        }
        i += 1;
    }
    r
}

/// The writer process of a save temporary named `name` beside the project
/// file `project` (see `temp_owner_of`).
pub fn temp_owner(name: &str, project: &str) -> (r: Option<String>)
    ensures
        match r {
            Some(pid) => temp_owner_of(name@, project@) == Some(pid@),
            None => temp_owner_of(name@, project@) is None,
        },
{
    let mut prefix = copy_str(project);
    push_str(&mut prefix, ".tmp-");
    let cs = chars_of(name);
    let suffix = match strip_prefix(cs.as_slice(), prefix.as_str()) {
        Some(rest) => rest,
        None => return None,
    };
    let n = suffix.len();
    let (pid, nanos, token) = match first_index(&suffix, '-') {
        None => (chars_between(&suffix, 0, n), Vec::new(), Vec::new()),
        Some(a) => {
            proof {
                lemma_pos_of(suffix@, '-', a as int);
            }
            let rest = chars_between(&suffix, a + 1, n);
            let m = rest.len();
            proof {
                assert(rest@ =~= suffix@.skip(a + 1));
            }
            match first_index(&rest, '-') {
                None => (chars_between(&suffix, 0, a), rest, Vec::new()),
                Some(b) => {
                    proof {
                        lemma_pos_of(rest@, '-', b as int);
                    }
                    (chars_between(&suffix, 0, a), chars_between(&rest, 0, b), chars_between(&rest, b + 1, m))
                },
            }
        },
    };
    proof {
        assert(suffix@.take(n as int) =~= suffix@);
        let parts = temp_parts(suffix@);
        assert(pid@ =~= parts.0);
        assert(nanos@ =~= parts.1);
        assert(token@ =~= parts.2);
    }
    if is_digit_run(&pid) && is_digit_run(&nanos) && is_token(&token) {
        Some(string_from(pid.as_slice()))
    } else {
        None
    }
}

/// Where the run of non-whitespace chars at `i` ends.
pub open spec fn run_end(s: Seq<char>, i: int) -> int
    decreases s.len() - i,
{
    if i < 0 || i >= s.len() {
        s.len() as int
    } else if is_ws(s[i]) {
        i
    } else {
        run_end(s, i + 1)
    }
}

pub proof fn lemma_run_end(s: Seq<char>, i: int)
    requires
        0 <= i <= s.len(),
    ensures
        i <= run_end(s, i) <= s.len(),
        i < s.len() && !is_ws(s[i]) ==> i < run_end(s, i),
        run_end(s, i) < s.len() ==> is_ws(s[run_end(s, i)]),
        forall|j: int| i <= j < run_end(s, i) ==> !is_ws(#[trigger] s[j]),
    decreases s.len() - i,
{
    if i < s.len() && !is_ws(s[i]) {
        lemma_run_end(s, i + 1);
    }
}

/// The whitespace-separated fields from `i` on, as `split_whitespace`
/// yields them.
pub open spec fn fields_from(s: Seq<char>, i: int) -> Seq<Seq<char>>
    decreases s.len() - i,
{
    if i < 0 || i >= s.len() {
        Seq::empty()
    } else if is_ws(s[i]) {
        fields_from(s, i + 1)
    } else {
        proof {
            lemma_run_end(s, i);
        }
        seq![s.subrange(i, run_end(s, i))] + fields_from(s, run_end(s, i))
    }
}

/// What `str::parse::<i32>` gives: an optional sign, then one or more
/// ASCII digits, whose value must fit.
pub open spec fn parse_i32(s: Seq<char>) -> Option<int> {
    if s.len() > 0 && s[0] == '-' {
        if digit_run(s.drop_first()) && digits_value(s.drop_first()) <= 0x8000_0000 {
            Some(-(digits_value(s.drop_first()) as int))
        } else {
            None
        }
    } else {
        match parse_unsigned(s, 0x7fff_ffff) {
            Some(v) => Some(v as int),
            None => None,
        }
    }
}

/// The value of the first field that starts with the prefix.
pub open spec fn first_value(fs: Seq<Seq<char>>, prefix: Seq<char>) -> Option<Seq<char>>
    decreases fs.len(),
{
    if fs.len() == 0 {
        None
    } else if starts_with(fs[0], prefix) {
        Some(after_prefix(fs[0], prefix))
    } else {
        first_value(fs.drop_first(), prefix)
    }
}

/// The first `pid=` field whose value is an `i32`.
pub open spec fn first_pid(fs: Seq<Seq<char>>) -> Option<int>
    decreases fs.len(),
{
    if fs.len() == 0 {
        None
    } else if starts_with(fs[0], "pid="@) && parse_i32(after_prefix(fs[0], "pid="@)) is Some {
        parse_i32(after_prefix(fs[0], "pid="@))
    } else {
        first_pid(fs.drop_first())
    }
}

/// The owner process a save lock file records: its first `token=` field
/// must carry a valid token, and then its first `pid=` field that holds an
/// `i32` names the process.
pub open spec fn lock_owner_of(contents: Seq<char>) -> Option<int> {
    let fs = fields_from(contents, 0);
    match first_value(fs, "token="@) {
        Some(t) => if token_ok(t) {
            first_pid(fs)
        } else {
            None
        },
        None => None,
    }
}

proof fn lemma_first_value_append(a: Seq<Seq<char>>, b: Seq<Seq<char>>, prefix: Seq<char>)
    ensures
        first_value(a + b, prefix) == match first_value(a, prefix) {
            Some(v) => Some(v),
            None => first_value(b, prefix),
        },
    decreases a.len(),
{
    if a.len() > 0 {
        assert((a + b).drop_first() =~= a.drop_first() + b);
        assert((a + b)[0] == a[0]);
        lemma_first_value_append(a.drop_first(), b, prefix);
    } else {
        assert(a + b =~= b);
    }
}

proof fn lemma_first_pid_append(a: Seq<Seq<char>>, b: Seq<Seq<char>>)
    ensures
        first_pid(a + b) == match first_pid(a) {
            Some(v) => Some(v),
            None => first_pid(b),
        },
    decreases a.len(),
{
    if a.len() > 0 {
        assert((a + b).drop_first() =~= a.drop_first() + b);
        assert((a + b)[0] == a[0]);
        lemma_first_pid_append(a.drop_first(), b);
    } else {
        assert(a + b =~= b);
    }
}

fn parse_pid(v: &Vec<char>) -> (r: Option<i32>)
    ensures
        match r {
            Some(p) => parse_i32(v@) == Some(p as int),
            None => parse_i32(v@) is None,
        },
{
    if v.len() > 0 && v[0] == '-' {
        let n = v.len();
        let d = chars_between(v, 1, n);
        proof {
            assert(d@ =~= v@.drop_first());
        }
        if d.len() == 0 || d[0] == '+' {
            proof {
                if d@.len() > 0 {
                    assert(!is_digit(d@[0]));
                }
            }
            return None;
        }
        match parse_u64(d.as_slice()) {
            Some(x) => {
                proof {
                    assert(sign_free(d@) == d@);
                }
                if x <= 0x8000_0000 {
                    Some((0 - x as i64) as i32)
                } else {
                    None
                }
            },
            None => {
                proof {
                    assert(sign_free(d@) == d@);
                }
                None
            },
        }
    } else {
        match parse_u64(v.as_slice()) {
            Some(x) => if x <= 0x7fff_ffff {
                Some(x as i32)
            } else {
                None
            },
            None => None,
        }
    }
}

/// The first `token=` value and the first `pid=` process id a save lock
/// file records.
pub fn lock_record(contents: &str) -> (r: (Option<String>, Option<i32>))
    ensures
        match r.0 {
            Some(t) => first_value(fields_from(contents@, 0), "token="@) == Some(t@),
            None => first_value(fields_from(contents@, 0), "token="@) is None,
        },
        match r.1 {
            Some(p) => first_pid(fields_from(contents@, 0)) == Some(p as int),
            None => first_pid(fields_from(contents@, 0)) is None,
        },
{
    let cs = chars_of(contents);
    let n = cs.len();
    let ghost all = fields_from(cs@, 0);
    let ghost mut seen: Seq<Seq<char>> = Seq::empty();
    let mut token: Option<String> = None;
    let mut pid: Option<i32> = None;
    let mut i: usize = 0;
    while i < n
        invariant
            i <= n,
            n == cs@.len(),
            cs@ == contents@,
            all == fields_from(cs@, 0),
            seen + fields_from(cs@, i as int) == all,
            match first_value(seen, "token="@) {
                Some(t) => token matches Some(u) && u@ == t,
                None => token is None,
            },
            match first_pid(seen) {
                Some(p) => pid matches Some(q) && q as int == p,
                None => pid is None,
            },
        decreases n - i,
    {
        if is_whitespace(cs[i]) {
            proof {
                assert(fields_from(cs@, i as int) == fields_from(cs@, i + 1));
            }
            i += 1;
        } else {
            proof {
                lemma_run_end(cs@, i as int);
            }
            let mut e = i;
            while e < n && !is_whitespace(cs[e])
                invariant
                    i <= e <= n,
                    n == cs@.len(),
                    run_end(cs@, e as int) == run_end(cs@, i as int),
                decreases n - e,
            {
                e += 1;
            }
            let field = chars_between(&cs, i, e);
            let ghost f = field@;
            proof {
                assert(fields_from(cs@, i as int) == seq![f] + fields_from(cs@, e as int));
                assert(seen + seq![f] + fields_from(cs@, e as int) == all) by {
                    assert(seen + (seq![f] + fields_from(cs@, e as int)) =~= seen + seq![f] + fields_from(cs@, e as int));
                }
                lemma_first_value_append(seen, seq![f], "token="@);
                lemma_first_pid_append(seen, seq![f]);
                reveal_strlit("token=");
                reveal_strlit("pid=");
                assert(seq![f].drop_first() =~= Seq::<Seq<char>>::empty());
                assert(seq![f][0] == f);
                reveal_with_fuel(first_value, 2);
                reveal_with_fuel(first_pid, 2);
                assert(first_value(seq![f], "token="@) == if starts_with(f, "token="@) {
                    Some(after_prefix(f, "token="@))
                } else {
                    None
                });
                assert(first_pid(seq![f]) == if starts_with(f, "pid="@) && parse_i32(after_prefix(f, "pid="@)) is Some {
                    parse_i32(after_prefix(f, "pid="@))
                } else {
                    None
                });
            }
            if token.is_none() {
                match strip_prefix(field.as_slice(), "token=") {
                    Some(t) => {
                        token = Some(string_from(t.as_slice()));
                    },
                    None => {},
                }
            }
            if pid.is_none() {
                match strip_prefix(field.as_slice(), "pid=") {
                    Some(t) => {
                        pid = parse_pid(&t);
                    },
                    None => {},
                }
            }
            proof {
                seen = seen + seq![f];
            }
            i = e;
        }
    }
    proof {
        assert(fields_from(cs@, i as int) == Seq::<Seq<char>>::empty());
        assert(seen + Seq::<Seq<char>>::empty() =~= seen);
    }
    (token, pid)
}

/// The owner process a save lock file records (see `lock_owner_of`).
pub fn lock_owner(contents: &str) -> (r: Option<i32>)
    ensures
        match r {
            Some(p) => lock_owner_of(contents@) == Some(p as int),
            None => lock_owner_of(contents@) is None,
        },
{
    let (token, pid) = lock_record(contents);
    match token {
        Some(t) => {
            let cs = chars_of(t.as_str());
            if is_token(&cs) {
                pid
            } else {
                None
            }
        },
        None => None,
    }
}

/// A recovery candidate as plain values: path, generation, bytes,
/// modification time, checksum.
pub open spec fn candidate_view(c: RecoveryCandidate) -> (Seq<char>, u32, u64, u64, u64) {
    (c.path@, c.generation, c.bytes, c.modified_unix_seconds, c.checksum)
}

pub open spec fn candidates_view(cs: Seq<RecoveryCandidate>) -> Seq<(Seq<char>, u32, u64, u64, u64)> {
    cs.map_values(|c: RecoveryCandidate| candidate_view(c))
}

/// Candidates by generation.
pub open spec fn by_generation(cs: Seq<RecoveryCandidate>) -> spec_fn(int, int) -> bool {
    |a: int, b: int| cs[a].generation < cs[b].generation
}

impl PersistenceOrchestrator {
    /// The recovery candidates newest first: by generation, generation 1
    /// being the newest, found order kept among equals.
    pub fn order_candidates(found: &Vec<RecoveryCandidate>) -> (r: Vec<RecoveryCandidate>)
        ensures
            arranged(candidates_view(r@), candidates_view(found@), by_generation(found@)),
    {
        let n = found.len();
        let ghost rel = by_generation(found@);
        let lt = |a: usize, b: usize| -> (c: bool)
            requires
                a < n && b < n,
            ensures
                c == (found@[a as int].generation < found@[b as int].generation),
            { found[a].generation < found[b].generation };
        proof {
            assert(n == found@.len());
        }
        let p = stable_order(n, &lt, Ghost(rel));
        let mut r: Vec<RecoveryCandidate> = Vec::new();
        let mut x: usize = 0;
        while x < n
            invariant
                x <= n,
                n == found@.len(),
                is_perm(p@, n as int),
                r@.len() == x,
                forall|y: int| 0 <= y < x ==> #[trigger] candidate_view(r@[y]) == candidate_view(found@[p@[y] as int]),
            decreases n - x,
        {
            let c = &found[p[x]];
            r.push(RecoveryCandidate {
                path: copy_str(c.path.as_str()),
                generation: c.generation,
                bytes: c.bytes,
                modified_unix_seconds: c.modified_unix_seconds,
                checksum: c.checksum,
            });
            x += 1;
        }
        proof {
            let q = p@;
            assert(is_perm(q, candidates_view(found@).len() as int));
            assert forall|y: int| 0 <= y < candidates_view(found@).len() implies #[trigger] candidates_view(r@)[y]
                == candidates_view(found@)[q[y] as int] by {
                assert(candidate_view(r@[y]) == candidate_view(found@[q[y] as int]));
            }
        }
        r
    }
}

} // verus!
