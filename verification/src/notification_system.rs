//! The kinds of notification the engine raises towards its clients.
use vstd::prelude::*;

verus! {

#[derive(Clone, Copy, Debug, PartialEq, Eq, Structural)]
pub enum EventTypeRust {
    AnalysisComplete,
    MeterUpdate,
    PlaybackStopped,
    StructuralChange,
    ArrangementUpdated,
    Error,
}

} // verus!
