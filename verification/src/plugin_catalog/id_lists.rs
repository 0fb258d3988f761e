//! The user's plug-in lists kept beside the catalog: favourites by catalog
//! id and quarantined binaries by content hash.  Each list is a set of
//! texts, read from and written to a file of one text per line; the file
//! itself is read and replaced at the edge.
use vstd::prelude::*;
use crate::keyed::{
    key_seq, key_slot, lemma_sorted_distinct, lemma_sorted_insert, lemma_sorted_remove, strictly_sorted,
};
use crate::lines::{after_line, lemma_next_nl, line_at, next_nl, read_line};
use crate::plugin_catalog::discovery::{builtin_plugins, builtin_views, copy_plugin, plugin_view, plugins_view, PluginView};
use crate::plugin_catalog::identity::InstalledPlugin;
use crate::text::{
    blank, byte_len, chars_of, contains_char, copy_str, is_blank, push_str, spec_trim, string_from,
    trim_chars, within_bytes,
};

verus! {

/// The lines of a text from `i` on, as `str::lines` yields them.
pub open spec fn lines_from(s: Seq<char>, i: int) -> Seq<Seq<char>>
    decreases s.len() - i,
{
    if i < 0 || i >= s.len() {
        Seq::empty()
    } else {
        proof {
            lemma_next_nl(s, i);
        }
        seq![line_at(s, i)] + lines_from(s, after_line(s, i))
    }
}

/// An ASCII hex digit.
pub open spec fn is_hex_digit(c: char) -> bool {
    ('0' <= c && c <= '9') || ('a' <= c && c <= 'f') || ('A' <= c && c <= 'F')
}

/// A quarantine entry: a SHA-256 in hex, 64 digits.
pub open spec fn hash_entry_ok(t: Seq<char>) -> bool {
    t.len() == 64 && forall|i: int| 0 <= i < t.len() ==> is_hex_digit(#[trigger] t[i])
}

/// A favourite entry: a non-empty id of at most 256 bytes without a NUL.
pub open spec fn favorite_entry_ok(t: Seq<char>) -> bool {
    t.len() > 0 && byte_len(t) <= 256 && !t.contains('\0')
}

/// A catalog id that may be marked a favourite: not blank, at most 256
/// bytes, without a NUL.
pub open spec fn favorite_id_ok(id: Seq<char>) -> bool {
    !is_blank(id) && byte_len(id) <= 256 && !id.contains('\0')
}

/// The entries a list file holds: its trimmed lines that pass the check.
pub open spec fn file_entries(text: Seq<char>, hashes: bool) -> Set<Seq<char>> {
    Set::new(
        |t: Seq<char>|
            exists|k: int|
                0 <= k < lines_from(text, 0).len() && #[trigger] spec_trim(lines_from(text, 0)[k]) == t && (if hashes {
                    hash_entry_ok(t)
                } else {
                    favorite_entry_ok(t)
                }),
    )
}

/// The file a list is written to: its entries in ascending order, each on
/// a line of its own.
pub open spec fn list_text(ids: Seq<Seq<char>>) -> Seq<char>
    decreases ids.len(),
{
    if ids.len() == 0 {
        Seq::empty()
    } else {
        list_text(ids.drop_last()) + ids.last() + seq!['\n']
    }
}

proof fn lemma_next_nl_shift(x: Seq<char>, y: Seq<char>, i: int)
    requires
        0 <= i <= y.len(),
    ensures
        next_nl(x + y, x.len() + i) == x.len() + next_nl(y, i),
    decreases y.len() - i,
{
    let s = x + y;
    if i < y.len() {
        assert(s[x.len() + i] == y[i]);
        if y[i] != '\n' {
            lemma_next_nl_shift(x, y, i + 1);
        }
    }
}

proof fn lemma_lines_shift(x: Seq<char>, y: Seq<char>, i: int)
    requires
        0 <= i <= y.len(),
    ensures
        lines_from(x + y, x.len() + i) == lines_from(y, i),
    decreases y.len() - i,
{
    let s = x + y;
    if i < y.len() {
        lemma_next_nl(y, i);
        lemma_next_nl_shift(x, y, i);
        let e = next_nl(y, i);
        assert(s.subrange(x.len() + i, x.len() + e) =~= y.subrange(i, e));
        if e < y.len() {
            assert(s[x.len() + e] == y[e]);
        }
        assert(line_at(s, x.len() + i) == line_at(y, i));
        assert(after_line(s, x.len() + i) == x.len() + after_line(y, i));
        lemma_lines_shift(x, y, after_line(y, i));
    }
}

proof fn lemma_next_nl_at(s: Seq<char>, n: int, i: int)
    requires
        0 <= i <= n < s.len(),
        s[n] == '\n',
        forall|j: int| i <= j < n ==> s[j] != '\n',
    ensures
        next_nl(s, i) == n,
    decreases n - i,
{
    if i < n {
        lemma_next_nl_at(s, n, i + 1);
    }
}

/// A text that `str::lines` gives back as one line of its own: no newline
/// in it and no carriage return at its end.
pub open spec fn plain_line(p: Seq<char>) -> bool {
    !p.contains('\n') && (p.len() == 0 || p.last() != '\r')
}

proof fn lemma_lines_cons(p: Seq<char>, rest: Seq<char>)
    requires
        plain_line(p),
    ensures
        lines_from(p + seq!['\n'] + rest, 0) == seq![p] + lines_from(rest, 0),
{
    let head = p + seq!['\n'];
    let s = head + rest;
    let n = p.len() as int;
    assert(s[n] == '\n');
    assert forall|j: int| 0 <= j < n implies s[j] != '\n' by {
        assert(s[j] == p[j]);
    }
    lemma_next_nl_at(s, n, 0);
    assert(s.subrange(0, n) =~= p);
    assert(line_at(s, 0) == p);
    assert(after_line(s, 0) == n + 1);
    lemma_lines_shift(head, rest, 0);
    assert(head.len() == n + 1);
}

proof fn lemma_list_text_cons(ids: Seq<Seq<char>>)
    requires
        ids.len() > 0,
    ensures
        list_text(ids) == ids[0] + seq!['\n'] + list_text(ids.drop_first()),
    decreases ids.len(),
{
    if ids.len() == 1 {
        assert(ids.drop_last() =~= Seq::<Seq<char>>::empty());
        assert(ids.drop_first() =~= Seq::<Seq<char>>::empty());
        assert(list_text(ids) =~= ids[0] + seq!['\n'] + list_text(ids.drop_first()));
    } else {
        let d = ids.drop_last();
        lemma_list_text_cons(d);
        assert(d.drop_first() =~= ids.drop_first().drop_last());
        assert(ids.drop_first().last() == ids.last());
        assert(d[0] == ids[0]);
        assert(list_text(ids) =~= ids[0] + seq!['\n'] + list_text(ids.drop_first()));
    }
}

proof fn lemma_list_lines(ids: Seq<Seq<char>>)
    requires
        forall|k: int| 0 <= k < ids.len() ==> plain_line(#[trigger] ids[k]),
    ensures
        lines_from(list_text(ids), 0) == ids,
    decreases ids.len(),
{
    if ids.len() == 0 {
        assert(lines_from(list_text(ids), 0) =~= ids);
    } else {
        lemma_list_text_cons(ids);
        assert(plain_line(ids[0]));
        lemma_lines_cons(ids[0], list_text(ids.drop_first()));
        assert forall|k: int| 0 <= k < ids.drop_first().len() implies plain_line(#[trigger] ids.drop_first()[k]) by {
            assert(ids.drop_first()[k] == ids[k + 1]);
        }
        lemma_list_lines(ids.drop_first());
        assert(seq![ids[0]] + ids.drop_first() =~= ids);
    }
}

/// A list written to its file and read back is the same list, for entries
/// that the file can hold as they are: each passes the list's check, is
/// its own trim, and is a line of its own.
pub proof fn lemma_list_round_trip(ids: Seq<Seq<char>>, hashes: bool)
    requires
        forall|k: int|
            0 <= k < ids.len() ==> plain_line(#[trigger] ids[k]) && spec_trim(ids[k]) == ids[k] && (if hashes {
                hash_entry_ok(ids[k])
            } else {
                favorite_entry_ok(ids[k])
            }),
    ensures
        file_entries(list_text(ids), hashes) == ids.to_set(),
{
    lemma_list_lines(ids);
    let text = list_text(ids);
    assert forall|t: Seq<char>| file_entries(text, hashes).contains(t) <==> ids.to_set().contains(t) by {
        if ids.to_set().contains(t) {
            let k = choose|k: int| 0 <= k < ids.len() && ids[k] == t;
            assert(spec_trim(lines_from(text, 0)[k]) == t);
        }
        if file_entries(text, hashes).contains(t) {
            let k = choose|k: int|
                0 <= k < lines_from(text, 0).len() && #[trigger] spec_trim(lines_from(text, 0)[k]) == t && (if hashes {
                    hash_entry_ok(t)
                } else {
                    favorite_entry_ok(t)
                });
            assert(ids[k] == t);
        }
    }
    assert(file_entries(text, hashes) =~= ids.to_set());
}

/// A set of texts kept in ascending order.
pub struct PluginIdSet {
    entries: Vec<(String, ())>,
}

impl PluginIdSet {
    /// The texts, in ascending order.
    pub closed spec fn ids(&self) -> Seq<Seq<char>> {
        key_seq(self.entries@)
    }

    /// The texts as a set.
    pub open spec fn view(&self) -> Set<Seq<char>> {
        self.ids().to_set()
    }

    #[verifier::type_invariant]
    closed spec fn ascending(&self) -> bool {
        strictly_sorted(key_seq(self.entries@))
    }

    pub fn new() -> (r: Self)
        ensures
            r.ids() == Seq::<Seq<char>>::empty(),
            r@ == Set::<Seq<char>>::empty(),
    {
        let r = PluginIdSet { entries: Vec::new() };
        proof {
            assert(r.ids() =~= Seq::<Seq<char>>::empty());
            assert(r@ =~= Set::<Seq<char>>::empty());
        }
        r
    }

    /// Whether the text is in the set.
    pub fn contains(&self, id: &str) -> (r: bool)
        ensures
            r == self@.contains(id@),
    {
        proof {
            use_type_invariant(self);
        }
        let (found, _) = key_slot(&self.entries, id);
        found
    }

    /// Adds the text and tells whether it was new.
    pub fn insert(&mut self, id: &str) -> (r: bool)
        ensures
            r == !old(self)@.contains(id@),
            final(self)@ == old(self)@.insert(id@),
    {
        proof {
            use_type_invariant(&*self);
        }
        let ghost ks = self.ids();
        let (found, pos) = key_slot(&self.entries, id);
        if found {
            proof {
                assert(self@.insert(id@) =~= self@);
            }
            return false;
        }
        let mut v: Vec<(String, ())> = Vec::new();
        std::mem::swap(&mut v, &mut self.entries);
        v.insert(pos, (copy_str(id), ()));
        proof {
            assert(key_seq(v@) =~= ks.insert(pos as int, id@));
            lemma_sorted_insert(ks, pos as int, id@);
        }
        self.entries = v;
        proof {
            assert(self.ids() == ks.insert(pos as int, id@));
            assert(self@ =~= old(self)@.insert(id@)) by {
                assert forall|t: Seq<char>| self@.contains(t) <==> old(self)@.insert(id@).contains(t) by {
                    if self@.contains(t) {
                        let x = choose|x: int| 0 <= x < self.ids().len() && self.ids()[x] == t;
                        if x < pos {
                            assert(ks[x] == t);
                        } else if x > pos {
                            assert(ks[x - 1] == t);
                        }
                    }
                    if old(self)@.contains(t) {
                        let x = choose|x: int| 0 <= x < ks.len() && ks[x] == t;
                        if x < pos {
                            assert(self.ids()[x] == t);
                        } else {
                            assert(self.ids()[x + 1] == t);
                        }
                    }
                    if t == id@ {
                        assert(self.ids()[pos as int] == t);
                    }
                }
            }
        }
        true
    }

    /// Removes the text and tells whether it was there.
    pub fn remove(&mut self, id: &str) -> (r: bool)
        ensures
            r == old(self)@.contains(id@),
            final(self)@ == old(self)@.remove(id@),
    {
        proof {
            use_type_invariant(&*self);
            lemma_sorted_distinct(self.ids());
        }
        let ghost ks = self.ids();
        let (found, pos) = key_slot(&self.entries, id);
        if !found {
            proof {
                assert(self@.remove(id@) =~= self@);
            }
            return false;
        }
        let mut v: Vec<(String, ())> = Vec::new();
        std::mem::swap(&mut v, &mut self.entries);
        v.remove(pos);
        proof {
            assert(key_seq(v@) =~= ks.remove(pos as int));
            lemma_sorted_remove(ks, pos as int);
        }
        self.entries = v;
        proof {
            assert(self.ids() == ks.remove(pos as int));
            assert(self@ =~= old(self)@.remove(id@)) by {
                assert forall|t: Seq<char>| self@.contains(t) <==> old(self)@.remove(id@).contains(t) by {
                    if self@.contains(t) {
                        let x = choose|x: int| 0 <= x < self.ids().len() && self.ids()[x] == t;
                        if x < pos {
                            assert(ks[x] == t);
                            assert(x != pos);
                        } else {
                            assert(ks[x + 1] == t);
                        }
                    }
                    if old(self)@.remove(id@).contains(t) {
                        let x = choose|x: int| 0 <= x < ks.len() && ks[x] == t;
                        assert(x != pos);
                        if x < pos {
                            assert(self.ids()[x] == t);
                        } else {
                            assert(self.ids()[x - 1] == t);
                        }
                    }
                }
            }
        }
        true
    }

    /// The file the set is written to (see `list_text`).
    pub fn persisted_text(&self) -> (r: String)
        ensures
            r@ == list_text(self.ids()),
    {
        let mut r = String::new();
        let mut i: usize = 0;
        while i < self.entries.len()
            invariant
                i <= self.entries@.len(),
                r@ == list_text(self.ids().take(i as int)),
            decreases self.entries.len() - i,
        {
            let ghost before = r@;
            push_str(&mut r, self.entries[i].0.as_str());
            push_str(&mut r, "\n");
            proof {
                reveal_strlit("\n");
                assert(self.ids()[i as int] == self.entries@[i as int].0@);
                assert(self.ids().take(i + 1).drop_last() =~= self.ids().take(i as int));
                assert(r@ =~= list_text(self.ids().take(i + 1)));
            }
            i += 1;
        }
        proof {
            assert(self.ids().take(i as int) =~= self.ids());
        }
        r
    }
}

fn all_hex(t: &[char]) -> (r: bool)
    ensures
        r == (forall|i: int| 0 <= i < t@.len() ==> is_hex_digit(#[trigger] t@[i])),
{
    let mut i: usize = 0;
    while i < t.len()
        invariant
            i <= t@.len(),
            forall|j: int| 0 <= j < i ==> is_hex_digit(#[trigger] t@[j]),
        decreases t.len() - i,
    {
        let c = t[i];
        if !(('0' <= c && c <= '9') || ('a' <= c && c <= 'f') || ('A' <= c && c <= 'F')) {
            return false;
        }
        i += 1;
    }
    true
}

fn entry_ok(t: &[char], hashes: bool) -> (r: bool)
    ensures
        r == if hashes {
            hash_entry_ok(t@)
        } else {
            favorite_entry_ok(t@)
        },
{
    if hashes {
        t.len() == 64 && all_hex(t)
    } else {
        let s = string_from(t);
        t.len() > 0 && within_bytes(s.as_str(), 256) && !contains_char(s.as_str(), '\0')
    }
}

/// The entries of a list file (see `file_entries`).
fn read_entries(text: &str, hashes: bool) -> (r: PluginIdSet)
    ensures
        r@ == file_entries(text@, hashes),
{
    let cs = chars_of(text);
    let ghost all = lines_from(cs@, 0);
    let mut set = PluginIdSet::new();
    let mut i: usize = 0;
    let ghost mut seen: int = 0;
    while i < cs.len()
        invariant
            i <= cs@.len(),
            cs@ == text@,
            all == lines_from(cs@, 0),
            0 <= seen <= all.len(),
            all.skip(seen) == lines_from(cs@, i as int),
            set@ == Set::new(
                |t: Seq<char>|
                    exists|k: int|
                        0 <= k < seen && #[trigger] spec_trim(all[k]) == t && (if hashes {
                            hash_entry_ok(t)
                        } else {
                            favorite_entry_ok(t)
                        }),
            ),
        decreases cs.len() - i,
    {
        proof {
            lemma_next_nl(cs@, i as int);
            assert(lines_from(cs@, i as int) == seq![line_at(cs@, i as int)] + lines_from(
                cs@,
                after_line(cs@, i as int),
            ));
            assert(lines_from(cs@, i as int).len() >= 1);
            assert(seen < all.len());
            assert(all.skip(seen)[0] == all[seen]);
            assert(all.skip(seen + 1) =~= all.skip(seen).drop_first());
            assert(lines_from(cs@, i as int).drop_first() =~= lines_from(cs@, after_line(cs@, i as int)));
        }
        let (line, next) = read_line(cs.as_slice(), i);
        let t = trim_chars(line.as_slice());
        let ghost before = set@;
        if entry_ok(t.as_slice(), hashes) {
            let s = string_from(t.as_slice());
            set.insert(s.as_str());
        }
        proof {
            let pred = |u: Seq<char>|
                if hashes {
                    hash_entry_ok(u)
                } else {
                    favorite_entry_ok(u)
                };
            assert(set@ =~= Set::new(
                |u: Seq<char>|
                    exists|k: int|
                        0 <= k < seen + 1 && #[trigger] spec_trim(all[k]) == u && (if hashes {
                            hash_entry_ok(u)
                        } else {
                            favorite_entry_ok(u)
                        }),
            )) by {
                assert forall|u: Seq<char>|
                    set@.contains(u) <==> exists|k: int|
                        0 <= k < seen + 1 && #[trigger] spec_trim(all[k]) == u && (if hashes {
                            hash_entry_ok(u)
                        } else {
                            favorite_entry_ok(u)
                        }) by {
                    if u == t@ && pred(u) {
                        assert(spec_trim(all[seen]) == u);
                    }
                    if exists|k: int|
                        0 <= k < seen + 1 && #[trigger] spec_trim(all[k]) == u && (if hashes {
                            hash_entry_ok(u)
                        } else {
                            favorite_entry_ok(u)
                        }) {
                        let k = choose|k: int|
                            0 <= k < seen + 1 && #[trigger] spec_trim(all[k]) == u && (if hashes {
                                hash_entry_ok(u)
                            } else {
                                favorite_entry_ok(u)
                            });
                        if k < seen {
                            assert(before.contains(u));
                        }
                    }
                }
            }
            seen = seen + 1;
        }
        i = next;
    }
    proof {
        assert(lines_from(cs@, i as int) == Seq::<Seq<char>>::empty());
        assert(seen == all.len());
        assert(set@ =~= file_entries(text@, hashes));
    }
    set
}

/// The quarantine list a file holds: its trimmed lines that are SHA-256
/// hashes in hex.
pub fn quarantine_entries(text: &str) -> (r: PluginIdSet)
    ensures
        r@ == file_entries(text@, true),
{
    read_entries(text, true)
}

/// The favourites a file holds: its trimmed lines that are non-empty, at
/// most 256 bytes and free of NUL.
pub fn favorite_entries(text: &str) -> (r: PluginIdSet)
    ensures
        r@ == file_entries(text@, false),
{
    read_entries(text, false)
}

/// Marks a catalog id a favourite or clears the mark, and tells whether
/// the list changed; an invalid id is refused with "invalid plugin id" and
/// the list left as it was.
pub fn set_favorite(favorites: &mut PluginIdSet, id: &str, favorite: bool) -> (r: Result<bool, &'static str>)
    ensures
        !favorite_id_ok(id@) ==> (r matches Err(e) && e@ == "invalid plugin id"@ && final(favorites)@ == old(
            favorites,
        )@),
        favorite_id_ok(id@) && favorite ==> r == Ok::<bool, &'static str>(!old(favorites)@.contains(id@))
            && final(favorites)@ == old(favorites)@.insert(id@),
        favorite_id_ok(id@) && !favorite ==> r == Ok::<bool, &'static str>(old(favorites)@.contains(id@))
            && final(favorites)@ == old(favorites)@.remove(id@),
{
    proof {
        reveal_strlit("invalid plugin id");
    }
    if blank(id) || !within_bytes(id, 256) || contains_char(id, '\0') {
        return Err("invalid plugin id");
    }
    if favorite {
        Ok(favorites.insert(id))
    } else {
        Ok(favorites.remove(id))
    }
}

/// Marking an id that was no favourite and then clearing the mark leaves
/// the favourites as they were.
pub proof fn lemma_favorite_round_trip(favorites: Set<Seq<char>>, id: Seq<char>)
    requires
        !favorites.contains(id),
    ensures
        favorites.insert(id).remove(id) == favorites,
{
    assert(favorites.insert(id).remove(id) =~= favorites);
}

/// Whether a binary hash is quarantined.
pub fn is_quarantined_hash(quarantine: &PluginIdSet, binary_hash: &str) -> (r: bool)
    ensures
        r == quarantine@.contains(binary_hash@),
{
    quarantine.contains(binary_hash)
}

/// Quarantines a plug-in's binary; refused with "plugin has no valid
/// binary identity" unless its hash is 64 bytes long.
pub fn quarantine_plugin(quarantine: &mut PluginIdSet, plugin: &InstalledPlugin) -> (r: Result<(), &'static str>)
    ensures
        byte_len(plugin.binary_hash@) == 64 ==> r is Ok && final(quarantine)@ == old(quarantine)@.insert(
            plugin.binary_hash@,
        ),
        byte_len(plugin.binary_hash@) != 64 ==> (r matches Err(e) && e@ == "plugin has no valid binary identity"@
            && final(quarantine)@ == old(quarantine)@),
{
    proof {
        reveal_strlit("plugin has no valid binary identity");
    }
    if !within_bytes(plugin.binary_hash.as_str(), 64) || within_bytes(plugin.binary_hash.as_str(), 63) {
        return Err("plugin has no valid binary identity");
    }
    quarantine.insert(plugin.binary_hash.as_str());
    Ok(())
}

/// Lifts the quarantine of a plug-in's binary and tells whether it was
/// quarantined.
pub fn clear_plugin_quarantine(quarantine: &mut PluginIdSet, plugin: &InstalledPlugin) -> (r: bool)
    ensures
        r == old(quarantine)@.contains(plugin.binary_hash@),
        final(quarantine)@ == old(quarantine)@.remove(plugin.binary_hash@),
{
    quarantine.remove(plugin.binary_hash.as_str())
}

/// A catalog entry marked a favourite exactly when its id is one.
pub open spec fn with_favorite(v: PluginView, favorites: Set<Seq<char>>) -> PluginView {
    PluginView { favorite: favorites.contains(v.id), ..v }
}

/// The catalog as listed to the browser: the built-in limiter and
/// compressor, then the scanned plug-ins, each marked a favourite exactly
/// when its id is one.
pub fn catalog_listing(scanned: &Vec<InstalledPlugin>, favorites: &PluginIdSet) -> (r: Vec<InstalledPlugin>)
    ensures
        r@.len() == 2 + scanned@.len(),
        forall|i: int| 0 <= i < 2 ==> #[trigger] plugin_view(r@[i]) == with_favorite(builtin_views()[i], favorites@),
        forall|i: int|
            0 <= i < scanned@.len() ==> plugin_view(#[trigger] r@[i + 2]) == with_favorite(
                plugin_view(scanned@[i]),
                favorites@,
            ),
{
    let builtins = builtin_plugins();
    proof {
        assert(builtin_views().len() == 11);
        assert(plugins_view(builtins@).len() == builtins@.len());
    }
    let mut r: Vec<InstalledPlugin> = Vec::new();
    let mut i: usize = 0;
    while i < 2
        invariant
            i <= 2,
            plugins_view(builtins@) == builtin_views(),
            builtins@.len() == 11,
            r@.len() == i,
            forall|j: int| 0 <= j < i ==> #[trigger] plugin_view(r@[j]) == with_favorite(builtin_views()[j], favorites@),
        decreases 2 - i,
    {
        proof {
            assert(plugins_view(builtins@)[i as int] == plugin_view(builtins@[i as int]));
        }
        let mut p = copy_plugin(&builtins[i]);
        p.favorite = favorites.contains(p.id.as_str());
        r.push(p);
        i += 1;
    }
    let mut k: usize = 0;
    while k < scanned.len()
        invariant
            k <= scanned@.len(),
            r@.len() == 2 + k,
            forall|j: int| 0 <= j < 2 ==> #[trigger] plugin_view(r@[j]) == with_favorite(builtin_views()[j], favorites@),
            forall|j: int|
                0 <= j < k ==> plugin_view(#[trigger] r@[j + 2]) == with_favorite(plugin_view(scanned@[j]), favorites@),
        decreases scanned.len() - k,
    {
        let mut p = copy_plugin(&scanned[k]);
        p.favorite = favorites.contains(p.id.as_str());
        r.push(p);
        proof {
            assert(r@[k + 2] == p);
        }
        k += 1;
    }
    r
}

} // verus!
