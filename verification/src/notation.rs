//! Score annotations (lyrics, chords, expressions) kept in position order.
use vstd::prelude::*;
use crate::sorting::{is_perm, stable_order, stably_sorted};
use crate::text::{
    ascii_lower, blank, byte_len, chars_of, contains_char, contains_chars, contains_text, copy_str,
    is_blank, lower_chars, spec_trim, trim, within_bytes,
};

verus! {

pub enum NotationType {
    Note,
    Rest,
    Clef,
    Accidental,
    Slur,
    Dynamic,
}

#[derive(Clone, Copy, Debug, PartialEq, Eq, Structural)]
pub enum AnnotationKind {
    Lyric,
    Chord,
    Expression,
}

#[derive(Clone, Debug, PartialEq, Eq)]
pub struct ScoreAnnotation {
    pub position: u64,
    pub text: String,
    pub kind: AnnotationKind,
}

/// An annotation as plain values.
pub struct AnnotationView {
    pub position: u64,
    pub text: Seq<char>,
    pub kind: AnnotationKind,
}

pub open spec fn annotation_view(a: ScoreAnnotation) -> AnnotationView {
    AnnotationView { position: a.position, text: a.text@, kind: a.kind }
}

pub open spec fn annotations_view(es: Seq<ScoreAnnotation>) -> Seq<AnnotationView> {
    es.map_values(|a: ScoreAnnotation| annotation_view(a))
}

/// Non-blank text of at most 512 bytes without NUL.
pub open spec fn annotation_ok(a: AnnotationView) -> bool {
    !is_blank(a.text) && byte_len(a.text) <= 512 && !a.text.contains('\0')
}

/// Ascending position.
pub open spec fn by_position(es: Seq<AnnotationView>) -> spec_fn(int, int) -> bool {
    |a: int, b: int| es[a].position < es[b].position
}

/// `r` is `es` sorted stably by position.
pub open spec fn position_sorted(r: Seq<AnnotationView>, es: Seq<AnnotationView>) -> bool {
    exists|p: Seq<usize>|
        {
            &&& is_perm(p, es.len() as int)
            &&& stably_sorted(p, by_position(es))
            &&& r.len() == es.len()
            &&& forall|x: int| 0 <= x < es.len() ==> #[trigger] r[x] == es[p[x] as int]
        }
}

/// The position after a shift of `delta` from `start` on.
pub open spec fn shifted(position: u64, start: u64, delta: i64) -> int {
    if position >= start {
        position + delta
    } else {
        position as int
    }
}

/// Every shifted position stays a `u64`.
pub open spec fn shift_fits(es: Seq<AnnotationView>, start: u64, delta: i64) -> bool {
    forall|i: int| 0 <= i < es.len() ==> 0 <= #[trigger] shifted(es[i].position, start, delta) <= u64::MAX
}

/// The annotations with their positions shifted.
pub open spec fn shift_all(es: Seq<AnnotationView>, start: u64, delta: i64) -> Seq<AnnotationView> {
    es.map_values(|a: AnnotationView| AnnotationView { position: shifted(a.position, start, delta) as u64, ..a })
}

/// The annotation goes at the position, of any kind or of the given one.
pub open spec fn hit_at(a: AnnotationView, position: u64, kind: Option<AnnotationKind>) -> bool {
    a.position == position && (kind matches Some(k) ==> a.kind == k)
}

impl ScoreAnnotation {
    pub fn validate(&self) -> (r: bool)
        ensures
            r == annotation_ok(annotation_view(*self)),
    {
        let t = self.text.as_str();
        !blank(t) && within_bytes(t, 512) && !contains_char(t, '\0')
    }
}

fn copy_annotation(a: &ScoreAnnotation) -> (r: ScoreAnnotation)
    ensures
        annotation_view(r) == annotation_view(*a),
{
    ScoreAnnotation { position: a.position, text: copy_str(a.text.as_str()), kind: a.kind }
}

/// The annotations stably sorted by position.
fn sort_by_position(es: &Vec<ScoreAnnotation>) -> (r: Vec<ScoreAnnotation>)
    ensures
        position_sorted(annotations_view(r@), annotations_view(es@)),
{
    let ghost ev = annotations_view(es@);
    let n = es.len();
    let lt = |a: usize, b: usize| -> (c: bool)
        requires
            a < n && b < n,
        ensures
            c == (es@[a as int].position < es@[b as int].position),
        { es[a].position < es[b].position };
    let p = stable_order(n, &lt, Ghost(by_position(ev)));
    let mut r: Vec<ScoreAnnotation> = Vec::new();
    let mut x: usize = 0;
    while x < n
        invariant
            x <= n,
            n == es.len(),
            ev == annotations_view(es@),
            is_perm(p@, n as int),
            r@.len() == x,
            forall|y: int| 0 <= y < x ==> #[trigger] annotation_view(r@[y]) == ev[p@[y] as int],
        decreases n - x,
    {
        r.push(copy_annotation(&es[p[x]]));
        x += 1;
    }
    proof {
        let pp = p@;
        assert(forall|y: int| 0 <= y < n ==> #[trigger] annotations_view(r@)[y] == ev[pp[y] as int]);
        assert(is_perm(pp, ev.len() as int) && stably_sorted(pp, by_position(ev)));
    }
    r
}

#[derive(Default)]
pub struct AnnotationTrack {
    pub entries: Vec<ScoreAnnotation>,
}

impl AnnotationTrack {
    pub open spec fn items(&self) -> Seq<AnnotationView> {
        annotations_view(self.entries@)
    }

    /// Adds a sound annotation (up to 65536) and keeps the entries in
    /// stable position order.
    pub fn insert(&mut self, annotation: ScoreAnnotation) -> (r: bool)
        ensures
            r == (annotation_ok(annotation_view(annotation)) && old(self).items().len() < 65_536),
            r ==> position_sorted(final(self).items(), old(self).items().push(annotation_view(annotation))),
            !r ==> final(self).items() == old(self).items(),
    {
        if !annotation.validate() || self.entries.len() >= 65_536 {
            return false;
        }
        let ghost a = annotation_view(annotation);
        let ghost before = self.items();
        self.entries.push(annotation);
        proof {
            assert(self.items() =~= before.push(a));
        }
        self.entries = sort_by_position(&self.entries);
        true
    }

    /// The annotations at the position, in order.
    pub fn at(&self, position: u64) -> (r: Vec<&ScoreAnnotation>)
        ensures
            r@.map_values(|a: &ScoreAnnotation| annotation_view(*a)) == self.items().filter(
                |a: AnnotationView| a.position == position,
            ),
    {
        let ghost es = self.items();
        let ghost keep = |a: AnnotationView| a.position == position;
        let mut r: Vec<&ScoreAnnotation> = Vec::new();
        let mut i: usize = 0;
        while i < self.entries.len()
            invariant
                i <= self.entries.len(),
                es == self.items(),
                keep == (|a: AnnotationView| a.position == position),
                r@.map_values(|a: &ScoreAnnotation| annotation_view(*a)) == es.take(i as int).filter(keep),
            decreases self.entries.len() - i,
        {
            proof {
                assert(es.take(i + 1) =~= es.take(i as int).push(es[i as int]));
                es.take(i as int).lemma_filter_push(es[i as int], keep);
            }
            if self.entries[i].position == position {
                let ghost b = r@;
                r.push(&self.entries[i]);
                proof {
                    assert(r@.map_values(|a: &ScoreAnnotation| annotation_view(*a)) =~= b.map_values(
                        |a: &ScoreAnnotation| annotation_view(*a),
                    ).push(es[i as int]));
                }
            }
            i += 1;
        }
        proof {
            assert(es.take(i as int) =~= es);
            assert(keep =~= (|a: AnnotationView| a.position == position));
        }
        r
    }

    /// The annotations whose lowercased text holds the trimmed, lowercased
    /// query, in order; none for an empty query.
    pub fn search(&self, query: &str) -> (r: Vec<&ScoreAnnotation>)
        ensures
            ({
                let q = ascii_lower(spec_trim(query@));
                r@.map_values(|a: &ScoreAnnotation| annotation_view(*a)) == if q.len() == 0 {
                    Seq::empty()
                } else {
                    self.items().filter(|a: AnnotationView| contains_text(ascii_lower(a.text), q))
                }
            }),
    {
        let t = trim(query);
        let tc = chars_of(t.as_str());
        let q = lower_chars(tc.as_slice());
        let mut r: Vec<&ScoreAnnotation> = Vec::new();
        if q.len() == 0 {
            proof {
                assert(r@.map_values(|a: &ScoreAnnotation| annotation_view(*a)) =~= Seq::<AnnotationView>::empty());
            }
            return r;
        }
        let ghost es = self.items();
        let ghost keep = |a: AnnotationView| contains_text(ascii_lower(a.text), q@);
        let mut i: usize = 0;
        while i < self.entries.len()
            invariant
                i <= self.entries.len(),
                es == self.items(),
                keep == (|a: AnnotationView| contains_text(ascii_lower(a.text), q@)),
                r@.map_values(|a: &ScoreAnnotation| annotation_view(*a)) == es.take(i as int).filter(keep),
            decreases self.entries.len() - i,
        {
            proof {
                assert(es.take(i + 1) =~= es.take(i as int).push(es[i as int]));
                es.take(i as int).lemma_filter_push(es[i as int], keep);
            }
            let tx = chars_of(self.entries[i].text.as_str());
            let lx = lower_chars(tx.as_slice());
            if contains_chars(lx.as_slice(), q.as_slice()) {
                let ghost b = r@;
                r.push(&self.entries[i]);
                proof {
                    assert(r@.map_values(|a: &ScoreAnnotation| annotation_view(*a)) =~= b.map_values(
                        |a: &ScoreAnnotation| annotation_view(*a),
                    ).push(es[i as int]));
                }
            }
            i += 1;
        }
        proof {
            assert(es.take(i as int) =~= es);
            assert(keep =~= (|a: AnnotationView| contains_text(ascii_lower(a.text), ascii_lower(spec_trim(query@)))));
        }
        r
    }

    /// Drops the annotations at the position (of the kind, when given) and
    /// tells how many went.
    pub fn remove_at(&mut self, position: u64, kind: Option<AnnotationKind>) -> (r: usize)
        ensures
            final(self).items() == old(self).items().filter(|a: AnnotationView| !hit_at(a, position, kind)),
            r == old(self).items().len() - final(self).items().len(),
    {
        let ghost es = self.items();
        let ghost keep = |a: AnnotationView| !hit_at(a, position, kind);
        let mut kept: Vec<ScoreAnnotation> = Vec::new();
        let mut i: usize = 0;
        while i < self.entries.len()
            invariant
                i <= self.entries.len(),
                es == self.items(),
                keep == (|a: AnnotationView| !hit_at(a, position, kind)),
                annotations_view(kept@) == es.take(i as int).filter(keep),
            decreases self.entries.len() - i,
        {
            proof {
                assert(es.take(i + 1) =~= es.take(i as int).push(es[i as int]));
                es.take(i as int).lemma_filter_push(es[i as int], keep);
            }
            let a = &self.entries[i];
            let hit = a.position == position && match kind {
                Some(k) => a.kind == k,
                None => true,
            };
            if !hit {
                let ghost b = kept@;
                kept.push(copy_annotation(a));
                proof {
                    assert(annotations_view(kept@) =~= annotations_view(b).push(es[i as int]));
                }
            }
            i += 1;
        }
        proof {
            assert(es.take(i as int) =~= es);
            assert(keep =~= (|a: AnnotationView| !hit_at(a, position, kind)));
            es.lemma_filter_len(keep);
        }
        let before = self.entries.len();
        self.entries = kept;
        before - self.entries.len()
    }

    /// Moves every annotation at or after `start` by `delta` and re-sorts;
    /// refused, with nothing changed, when a position would leave the
    /// range of `u64`.
    pub fn shift(&mut self, start: u64, delta: i64) -> (r: bool)
        ensures
            r == (delta == 0 || shift_fits(old(self).items(), start, delta)),
            delta == 0 ==> final(self).items() == old(self).items(),
            delta != 0 && r ==> position_sorted(final(self).items(), shift_all(old(self).items(), start, delta)),
            !r ==> final(self).items() == old(self).items(),
    {
        if delta == 0 {
            return true;
        }
        let ghost es = self.items();
        let magnitude: u64 = if delta < 0 {
            ((-(delta + 1)) as u64) + 1
        } else {
            delta as u64
        };
        let mut moved: Vec<ScoreAnnotation> = Vec::new();
        let mut i: usize = 0;
        while i < self.entries.len()
            invariant
                i <= self.entries.len(),
                es == self.items(),
                delta != 0,
                magnitude as int == if delta < 0 { -delta } else { delta as int },
                forall|j: int| 0 <= j < i ==> 0 <= #[trigger] shifted(es[j].position, start, delta) <= u64::MAX,
                annotations_view(moved@) == shift_all(es.take(i as int), start, delta),
            decreases self.entries.len() - i,
        {
            let a = &self.entries[i];
            let mut pos = a.position;
            if pos >= start {
                if delta < 0 {
                    if pos < magnitude {
                        proof {
                            assert(shifted(es[i as int].position, start, delta) < 0);
                        }
                        return false;
                    }
                    pos = pos - magnitude;
                } else {
                    if pos > u64::MAX - magnitude {
                        proof {
                            assert(shifted(es[i as int].position, start, delta) > u64::MAX);
                        }
                        return false;
                    }
                    pos = pos + magnitude;
                }
            }
            let ghost b = moved@;
            moved.push(ScoreAnnotation { position: pos, text: copy_str(a.text.as_str()), kind: a.kind });
            proof {
                assert(shift_all(es.take(i + 1), start, delta) =~= shift_all(es.take(i as int), start, delta).push(
                    AnnotationView { position: shifted(es[i as int].position, start, delta) as u64, ..es[i as int] },
                ));
                assert(annotations_view(moved@) =~= annotations_view(b).push(
                    AnnotationView { position: shifted(es[i as int].position, start, delta) as u64, ..es[i as int] },
                ));
            }
            i += 1;
        }
        proof {
            assert(es.take(i as int) =~= es);
        }
        self.entries = sort_by_position(&moved);
        true
    }

    /// At most 65536 sound annotations in ascending position order.
    pub fn audit(&self) -> (r: bool)
        ensures
            r == (self.items().len() <= 65_536 && (forall|i: int|
                0 <= i < self.items().len() ==> #[trigger] annotation_ok(self.items()[i])) && forall|i: int|
                0 <= i < self.items().len() - 1 ==> #[trigger] self.items()[i].position <= self.items()[i + 1].position),
    {
        let ghost es = self.items();
        if self.entries.len() > 65_536 {
            return false;
        }
        let mut i: usize = 0;
        while i < self.entries.len()
            invariant
                i <= self.entries.len(),
                es == self.items(),
                forall|a: int| 0 <= a < i ==> #[trigger] annotation_ok(es[a]),
                forall|a: int| 0 <= a < i && a + 1 < es.len() ==> #[trigger] es[a].position <= es[a + 1].position,
            decreases self.entries.len() - i,
        {
            proof {
                assert(es[i as int] == annotation_view(self.entries@[i as int]));
            }
            if !self.entries[i].validate() {
                return false;
            }
            if i + 1 < self.entries.len() && self.entries[i].position > self.entries[i + 1].position {
                proof {
                    assert(es[i + 1] == annotation_view(self.entries@[i + 1]));
                    assert(!(es[i as int].position <= es[i + 1].position));
                    assert(0 <= i < self.items().len() - 1);
                }
                return false;
            }
            i += 1;
        }
        true
    }
}

} // verus!
