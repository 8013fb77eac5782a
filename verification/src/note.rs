//! The note record, the tick grid, and what it means for notes to form a voice.

use vstd::prelude::*;

verus! {

/// Ticks per beat that every extracted note is expressed in.
pub const TPB: u32 = 384;

/// The quantisation step: one sixty-fourth note at [`TPB`].
pub const GRID_SIZE: u32 = 24;

/// One sounding note.
#[derive(Debug)]
pub struct Note {
    /// MIDI pitch number.
    pub note: u8,
    /// Tick at which the note starts.
    pub start: u32,
    /// Tick at which the note ends.
    pub end: u32,
    /// Ticks between `start` and `end`.
    pub duration: u32,
    /// Strength with which the note was struck.
    pub velocity: u8,
    /// Display name of the instrument that plays it.
    pub instrument: String,
}

impl Clone for Note {
    fn clone(&self) -> (r: Self)
        ensures
            r == *self,
    {
        Note {
            note: self.note,
            start: self.start,
            end: self.end,
            duration: self.duration,
            velocity: self.velocity,
            instrument: self.instrument.clone(),
        }
    }
}

impl Note {
    /// The note lies on the grid, lasts at least one grid unit, and its three
    /// tick fields agree with each other.
    pub open spec fn on_grid(self) -> bool {
        &&& self.start % 24 == 0
        &&& self.end % 24 == 0
        &&& self.duration >= 24
        &&& self.end == self.start + self.duration
    }

    /// Octave register of the pitch: `note / 12 - 1`.
    pub open spec fn spec_octave(self) -> int {
        self.note as int / 12 - 1
    }
}

/// The multiple of the grid unit nearest to `tick`; a tick halfway between
/// two grid lines goes to the later one.
pub open spec fn snapped(tick: int) -> int {
    (tick + 12) / 24 * 24
}

/// No note of the sequence starts before the one in front of it has ended.
pub open spec fn non_overlapping(notes: Seq<Note>) -> bool {
    forall|i: int| 0 <= i < notes.len() - 1 ==> (#[trigger] notes[i]).end <= notes[i + 1].start
}

/// Snaps a tick to the nearest grid line, saturating at the last grid line
/// that fits in 32 bits.
pub fn snap_to_grid(tick: u32) -> (r: u32)
    ensures
        r % 24 == 0,
        snapped(tick as int) <= u32::MAX ==> r == snapped(tick as int),
        snapped(tick as int) > u32::MAX ==> r == 4294967280u32,
{
    let cells: u64 = (tick as u64 + 12) / 24;
    let wide: u64 = cells * 24;
    if wide > u32::MAX as u64 {
        4294967280u32
    } else {
        wide as u32
    }
}

} // verus!
