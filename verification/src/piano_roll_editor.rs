//! The piano-roll and drum editor's selection state and the General MIDI
//! drum lane names.
use vstd::prelude::*;
use std::collections::HashSet;

verus! {

broadcast use vstd::std_specs::hash::group_hash_axioms;

/// The General MIDI percussion name of a key, for keys 35 to 81.
pub open spec fn gm_drum_name(pitch: u8) -> Option<Seq<char>> {
    if 35 <= pitch <= 81 {
        Some(
            seq![
                "Acoustic Bass Drum"@, "Bass Drum 1"@, "Side Stick"@, "Acoustic Snare"@, "Hand Clap"@,
                "Electric Snare"@, "Low Floor Tom"@, "Closed Hi-Hat"@, "High Floor Tom"@, "Pedal Hi-Hat"@,
                "Low Tom"@, "Open Hi-Hat"@, "Low-Mid Tom"@, "Hi-Mid Tom"@, "Crash Cymbal 1"@, "High Tom"@,
                "Ride Cymbal 1"@, "Chinese Cymbal"@, "Ride Bell"@, "Tambourine"@, "Splash Cymbal"@, "Cowbell"@,
                "Crash Cymbal 2"@, "Vibraslap"@, "Ride Cymbal 2"@, "Hi Bongo"@, "Low Bongo"@, "Mute Hi Conga"@,
                "Open Hi Conga"@, "Low Conga"@, "High Timbale"@, "Low Timbale"@, "High Agogo"@, "Low Agogo"@,
                "Cabasa"@, "Maracas"@, "Short Whistle"@, "Long Whistle"@, "Short Guiro"@, "Long Guiro"@,
                "Claves"@, "Hi Wood Block"@, "Low Wood Block"@, "Mute Cuica"@, "Open Cuica"@, "Mute Triangle"@,
                "Open Triangle"@,
            ][pitch - 35],
        )
    } else {
        None
    }
}

/// The drum editor's lane label of a key: its General MIDI name, or
/// "Custom Drum" for keys outside the standard kit so custom kits keep a
/// stable row.
pub fn drum_lane_label(pitch: u8) -> (r: &'static str)
    ensures
        r@ == match gm_drum_name(pitch) {
            Some(n) => n,
            None => "Custom Drum"@,
        },
{
    match pitch {
        35 => "Acoustic Bass Drum",
        36 => "Bass Drum 1",
        37 => "Side Stick",
        38 => "Acoustic Snare",
        39 => "Hand Clap",
        40 => "Electric Snare",
        41 => "Low Floor Tom",
        42 => "Closed Hi-Hat",
        43 => "High Floor Tom",
        44 => "Pedal Hi-Hat",
        45 => "Low Tom",
        46 => "Open Hi-Hat",
        47 => "Low-Mid Tom",
        48 => "Hi-Mid Tom",
        49 => "Crash Cymbal 1",
        50 => "High Tom",
        51 => "Ride Cymbal 1",
        52 => "Chinese Cymbal",
        53 => "Ride Bell",
        54 => "Tambourine",
        55 => "Splash Cymbal",
        56 => "Cowbell",
        57 => "Crash Cymbal 2",
        58 => "Vibraslap",
        59 => "Ride Cymbal 2",
        60 => "Hi Bongo",
        61 => "Low Bongo",
        62 => "Mute Hi Conga",
        63 => "Open Hi Conga",
        64 => "Low Conga",
        65 => "High Timbale",
        66 => "Low Timbale",
        67 => "High Agogo",
        68 => "Low Agogo",
        69 => "Cabasa",
        70 => "Maracas",
        71 => "Short Whistle",
        72 => "Long Whistle",
        73 => "Short Guiro",
        74 => "Long Guiro",
        75 => "Claves",
        76 => "Hi Wood Block",
        77 => "Low Wood Block",
        78 => "Mute Cuica",
        79 => "Open Cuica",
        80 => "Mute Triangle",
        81 => "Open Triangle",
        _ => "Custom Drum",
    }
}

/// The editor's selected note ids and the next id it hands out; ids are
/// never reused while the editor lives.
pub struct PianoRollOrchestrator {
    pub selection: HashSet<u32>,
    pub next_note_id: u32,
}

impl PianoRollOrchestrator {
    pub fn new() -> (r: Self)
        ensures
            r.selection@ == Set::<u32>::empty(),
            r.next_note_id == 1000,
    {
        PianoRollOrchestrator { selection: HashSet::new(), next_note_id: 1000 }
    }

    /// Selects a note, alone or added to the selection.
    pub fn select_note(&mut self, note_id: u32, multi_select: bool)
        ensures
            final(self).selection@ == if multi_select {
                old(self).selection@.insert(note_id)
            } else {
                set![note_id]
            },
            final(self).next_note_id == old(self).next_note_id,
    {
        if !multi_select {
            self.selection.clear();
        }
        self.selection.insert(note_id);
        proof {
            if !multi_select {
                assert(Set::<u32>::empty().insert(note_id) =~= set![note_id]);
            }
        }
    }

    /// The next id is positive and no selected id is zero.
    pub fn audit_piano_roll_editor(&self) -> (r: bool)
        ensures
            r == (self.next_note_id > 0 && forall|id: u32| #[trigger] self.selection@.contains(id) ==> id > 0),
    {
        self.next_note_id > 0 && !self.selection.contains(&0)
    }
}

impl Default for PianoRollOrchestrator {
    fn default() -> (r: Self)
        ensures
            r.selection@ == Set::<u32>::empty(),
            r.next_note_id == 1000,
    {
        Self::new()
    }
}

} // verus!
