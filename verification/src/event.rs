//! Decoded track events and what a track's events say about held notes.

use vstd::prelude::*;

verus! {

/// What a track event means to note extraction.
#[derive(Clone, Copy, Debug, PartialEq, Eq, Structural)]
pub enum EventKind {
    /// A key was pressed; velocity 0 releases it instead.
    NoteOn { channel: u8, key: u8, velocity: u8 },
    /// A key was released.
    NoteOff { channel: u8, key: u8 },
    /// A channel switched to another program.
    ProgramChange { channel: u8, program: u8 },
    /// The tempo was set, in microseconds per quarter note.
    Tempo { micros_per_beat: u32 },
    /// Anything else.
    Other,
}

/// One event of a track: its distance in ticks from the event before it,
/// and what it says.
#[derive(Clone, Copy, Debug, PartialEq, Eq, Structural)]
pub struct MidiEvent {
    pub delta: u32,
    pub kind: EventKind,
}

/// A decoded file: its resolution in ticks per beat, absent where the file
/// counts time in frames instead, and the events of each track.
#[derive(Debug)]
pub struct MidiFile {
    pub ticks_per_beat: Option<u16>,
    pub tracks: Vec<Vec<MidiEvent>>,
}

/// A decoded file as plain values.
pub struct MidiFileView {
    pub ticks_per_beat: Option<u16>,
    pub tracks: Seq<Seq<MidiEvent>>,
}

/// The events of each track as sequences.
pub open spec fn event_seqs(tracks: Seq<Vec<MidiEvent>>) -> Seq<Seq<MidiEvent>> {
    Seq::new(tracks.len(), |t: int| tracks[t]@)
}

impl View for MidiFile {
    type V = MidiFileView;

    open spec fn view(&self) -> MidiFileView {
        MidiFileView { ticks_per_beat: self.ticks_per_beat, tracks: event_seqs(self.tracks@) }
    }
}

/// The channel that never starts a note: percussion.
pub const PERCUSSION_CHANNEL: u8 = 9;

/// The highest key an event can name.
pub const MAX_KEY: u8 = 127;

/// A key that is down: when it went down, and how hard.
pub struct Held {
    pub start: int,
    pub velocity: u8,
}

/// Absolute tick reached after the first `n` events of the track.
pub open spec fn tick_after(track: Seq<MidiEvent>, n: int) -> int
    decreases n,
{
    if n <= 0 {
        0
    } else {
        tick_after(track, n - 1) + track[n - 1].delta
    }
}

/// The event presses `key` on `channel`. Percussion never does.
pub open spec fn opens(kind: EventKind, channel: u8, key: u8) -> bool {
    &&& key <= 127
    &&& channel != 9
    &&& kind matches EventKind::NoteOn { channel: c, key: k, velocity: v }
    &&& c == channel
    &&& k == key
    &&& v > 0
}

/// The event releases `key` on `channel`, on any channel, percussion too.
pub open spec fn closes(kind: EventKind, channel: u8, key: u8) -> bool {
    &&& key <= 127
    &&& match kind {
        EventKind::NoteOff { channel: c, key: k } => c == channel && k == key,
        EventKind::NoteOn { channel: c, key: k, velocity: v } => c == channel && k == key && v == 0,
        _ => false,
    }
}

/// The key that the event releases, if it releases one.
pub open spec fn released(kind: EventKind) -> Option<(u8, u8)> {
    match kind {
        EventKind::NoteOff { channel, key } => if key <= 127 {
            Some((channel, key))
        } else {
            None
        },
        EventKind::NoteOn { channel, key, velocity } => if key <= 127 && velocity == 0 {
            Some((channel, key))
        } else {
            None
        },
        _ => None,
    }
}

/// Whether `key` is down on `channel` once the first `n` events have passed:
/// it is if the last of them that touched the key pressed it.
pub open spec fn held_after(track: Seq<MidiEvent>, n: int, channel: u8, key: u8) -> Option<Held>
    decreases n,
{
    if n <= 0 {
        None
    } else if opens(track[n - 1].kind, channel, key) {
        Some(
            Held {
                start: tick_after(track, n),
                velocity: track[n - 1].kind->NoteOn_velocity,
            },
        )
    } else if closes(track[n - 1].kind, channel, key) {
        None
    } else {
        held_after(track, n - 1, channel, key)
    }
}

/// The program that `channel` plays once the first `n` events have passed:
/// the last one it was switched to, 0 if it never was.
pub open spec fn program_after(track: Seq<MidiEvent>, n: int, channel: u8) -> u8
    decreases n,
{
    if n <= 0 {
        0
    } else {
        match track[n - 1].kind {
            EventKind::ProgramChange { channel: c, program } => if c == channel {
                program
            } else {
                program_after(track, n - 1, channel)
            },
            _ => program_after(track, n - 1, channel),
        }
    }
}

/// The first tempo event among the first `n` events of the track.
pub open spec fn first_tempo_in(track: Seq<MidiEvent>, n: int) -> Option<u32>
    decreases n,
{
    if n <= 0 {
        None
    } else {
        match first_tempo_in(track, n - 1) {
            Some(t) => Some(t),
            None => match track[n - 1].kind {
                EventKind::Tempo { micros_per_beat } => Some(micros_per_beat),
                _ => None,
            },
        }
    }
}

/// The first tempo event among the first `n` tracks, in the order in which
/// the file stores tracks and events.
pub open spec fn first_tempo(tracks: Seq<Seq<MidiEvent>>, n: int) -> Option<u32>
    decreases n,
{
    if n <= 0 {
        None
    } else {
        match first_tempo(tracks, n - 1) {
            Some(t) => Some(t),
            None => first_tempo_in(tracks[n - 1], tracks[n - 1].len() as int),
        }
    }
}

/// Beats per minute for a tempo in microseconds per beat, rounded to the
/// nearest whole number. A tempo of zero gives the largest value there is.
pub open spec fn bpm_of(micros_per_beat: u32) -> int {
    if micros_per_beat == 0 {
        u32::MAX as int
    } else {
        (120_000_000 + micros_per_beat as int) / (2 * micros_per_beat as int)
    }
}

/// The tempo of a file: that of its first tempo event, 120 where it has none.
pub open spec fn detected_bpm(tracks: Seq<Seq<MidiEvent>>) -> int {
    match first_tempo(tracks, tracks.len() as int) {
        Some(t) => bpm_of(t),
        None => 120,
    }
}

/// Beats per minute for a tempo in microseconds per beat.
pub fn tempo_to_bpm(micros_per_beat: u32) -> (bpm: u32)
    ensures
        bpm == bpm_of(micros_per_beat),
{
    if micros_per_beat == 0 {
        u32::MAX
    } else {
        let num: u64 = 120_000_000 + micros_per_beat as u64;
        let den: u64 = 2 * micros_per_beat as u64;
        let q: u64 = num / den;
        assert(q * 2 <= num) by (nonlinear_arith)
            requires
                q == num / den,
                den >= 2,
        ;
        q as u32
    }
}

/// Finds the tempo of a file.
pub fn detect_bpm(tracks: &Vec<Vec<MidiEvent>>) -> (bpm: u32)
    ensures
        bpm == detected_bpm(event_seqs(tracks@)),
{
    let ghost all = event_seqs(tracks@);
    let mut t: usize = 0;
    while t < tracks.len()
        invariant
            t <= tracks.len(),
            all == event_seqs(tracks@),
            first_tempo(all, t as int) is None,
        decreases tracks.len() - t,
    {
        let track = &tracks[t];
        assert(all[t as int] == track@);
        let mut i: usize = 0;
        while i < track.len()
            invariant
                i <= track.len(),
                t < tracks.len(),
                all == event_seqs(tracks@),
                all[t as int] == track@,
                first_tempo(all, t as int) is None,
                first_tempo_in(track@, i as int) is None,
            decreases track.len() - i,
        {
            match track[i].kind {
                EventKind::Tempo { micros_per_beat } => {
                    proof {
                        assert(first_tempo_in(track@, i as int + 1) == Some(micros_per_beat));
                        lemma_first_tempo_in_stays(track@, i as int + 1, track@.len() as int);
                        assert(first_tempo(all, t as int + 1) == Some(micros_per_beat));
                        lemma_first_tempo_stays(all, t as int + 1, all.len() as int);
                    }
                    return tempo_to_bpm(micros_per_beat);
                },
                _ => {},
            }
            i = i + 1;
        }
        t = t + 1;
    }
    120
}

/// Once a tempo event has been met, later events of the track change nothing.
pub proof fn lemma_first_tempo_in_stays(track: Seq<MidiEvent>, n: int, m: int)
    requires
        0 <= n <= m,
        first_tempo_in(track, n) is Some,
    ensures
        first_tempo_in(track, m) == first_tempo_in(track, n),
    decreases m - n,
{
    if n < m {
        lemma_first_tempo_in_stays(track, n, m - 1);
    }
}

/// Once a tempo event has been met, later tracks change nothing.
pub proof fn lemma_first_tempo_stays(tracks: Seq<Seq<MidiEvent>>, n: int, m: int)
    requires
        0 <= n <= m,
        first_tempo(tracks, n) is Some,
    ensures
        first_tempo(tracks, m) == first_tempo(tracks, n),
    decreases m - n,
{
    if n < m {
        lemma_first_tempo_stays(tracks, n, m - 1);
    }
}

} // verus!
