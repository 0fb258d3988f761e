//! Keyswitch maps of orchestral sample libraries.
use vstd::prelude::*;
use crate::text::{blank, is_blank, str_eq};

verus! {

/// The keyswitch of each playing technique of one instrument.
pub struct ArticulationMap {
    pub id: u32,
    pub instrument: String,
    /// Technique and keyswitch pairs; techniques are distinct.
    pub technique_to_keyswitch: Vec<(String, u8)>,
}

pub struct OrchestralOrchestrator {
    /// Instrument name and its map; names are distinct.
    pub library: Vec<(String, ArticulationMap)>,
}

/// The keys of a list of text-keyed entries.
pub open spec fn keys_of<V>(es: Seq<(String, V)>) -> Seq<Seq<char>> {
    es.map_values(|e: (String, V)| e.0@)
}

/// The first entry with the key (-1 if none).
pub open spec fn find_key(ks: Seq<Seq<char>>, k: Seq<char>) -> int {
    if exists|i: int| 0 <= i < ks.len() && ks[i] == k {
        choose|i: int| 0 <= i < ks.len() && ks[i] == k && forall|j: int| 0 <= j < i ==> #[trigger] ks[j] != k
    } else {
        -1
    }
}

/// The keyswitch for the technique on the instrument, 0 when either is
/// unknown.
pub open spec fn keyswitch_of(lib: Seq<(String, ArticulationMap)>, instrument: Seq<char>, technique: Seq<char>) -> u8 {
    let i = find_key(keys_of(lib), instrument);
    if i < 0 {
        0
    } else {
        let ts = lib[i].1.technique_to_keyswitch@;
        let t = find_key(keys_of(ts), technique);
        if t < 0 {
            0
        } else {
            ts[t].1
        }
    }
}

/// Every instrument is named, keyed by its own name, and has named
/// techniques.
pub open spec fn library_ok(lib: Seq<(String, ArticulationMap)>) -> bool {
    lib.len() > 0 && forall|i: int| 0 <= i < lib.len() ==> #[trigger] instrument_ok(lib[i])
}

/// The instrument is named, keyed by its own name, and has named
/// techniques.
pub open spec fn instrument_ok(e: (String, ArticulationMap)) -> bool {
    &&& !is_blank(e.0@)
    &&& e.1.instrument@ == e.0@
    &&& e.1.technique_to_keyswitch@.len() > 0
    &&& forall|t: int|
        0 <= t < e.1.technique_to_keyswitch@.len() ==> !is_blank(#[trigger] e.1.technique_to_keyswitch@[t].0@)
}

/// The first position whose key equals `k`.
fn position_of_key<V>(es: &Vec<(String, V)>, k: &str) -> (r: Option<usize>)
    ensures
        match r {
            Some(i) => i < es@.len() && es@[i as int].0@ == k@ && i as int == find_key(keys_of(es@), k@),
            None => find_key(keys_of(es@), k@) == -1,
        },
{
    let ghost ks = keys_of(es@);
    let mut i: usize = 0;
    while i < es.len()
        invariant
            i <= es.len(),
            ks == keys_of(es@),
            forall|j: int| 0 <= j < i ==> #[trigger] ks[j] != k@,
        decreases es.len() - i,
    {
        proof {
            assert(ks[i as int] == es@[i as int].0@);
        }
        if str_eq(es[i].0.as_str(), k) {
            proof {
                let f = find_key(ks, k@);
                assert(0 <= i < ks.len() && ks[i as int] == k@);
                if f < i {
                    assert(ks[f] != k@);
                }
                if f > i {
                    assert(ks[i as int] != k@);
                }
            }
            return Some(i);
        }
        i += 1;
    }
    None
}

impl OrchestralOrchestrator {
    pub fn new() -> (r: Self)
        ensures
            r.library@.len() == 0,
    {
        OrchestralOrchestrator { library: Vec::new() }
    }

    /// The keyswitch for a technique on an instrument, 0 when either is
    /// unknown.
    pub fn get_keyswitch(&self, instrument: &str, technique: &str) -> (r: u8)
        ensures
            r == keyswitch_of(self.library@, instrument@, technique@),
    {
        match position_of_key(&self.library, instrument) {
            Some(i) => match position_of_key(&self.library[i].1.technique_to_keyswitch, technique) {
                Some(t) => self.library[i].1.technique_to_keyswitch[t].1,
                None => 0,
            },
            None => 0,
        }
    }

    /// The library is non-empty and every map is sound.
    pub fn audit_orchestral(&self) -> (r: bool)
        ensures
            r == library_ok(self.library@),
    {
        if self.library.len() == 0 {
            return false;
        }
        let mut i: usize = 0;
        while i < self.library.len()
            invariant
                i <= self.library.len(),
                self.library.len() > 0,
                forall|a: int| 0 <= a < i ==> #[trigger] instrument_ok(self.library@[a]),
            decreases self.library.len() - i,
        {
            let (name, map) = (&self.library[i].0, &self.library[i].1);
            if blank(name.as_str()) || !str_eq(map.instrument.as_str(), name.as_str())
                || map.technique_to_keyswitch.len() == 0 {
                proof {
                    assert(!instrument_ok(self.library@[i as int]));
                }
                return false;
            }
            let ts = &map.technique_to_keyswitch;
            let mut t: usize = 0;
            while t < ts.len()
                invariant
                    t <= ts.len(),
                    i < self.library.len(),
                    ts@ == self.library@[i as int].1.technique_to_keyswitch@,
                    forall|u: int| 0 <= u < t ==> !is_blank(#[trigger] ts@[u].0@),
                decreases ts.len() - t,
            {
                if blank(ts[t].0.as_str()) {
                    proof {
                        assert(!instrument_ok(self.library@[i as int]));
                    }
                    return false;
                }
                t += 1;
            }
            proof {
                assert(instrument_ok(self.library@[i as int]));
            }
            i += 1;
        }
        true
    }
}

} // verus!
