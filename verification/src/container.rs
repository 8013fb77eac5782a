//! The chunk layout of a MIDI file, as far as it has to be looked at before
//! the file is handed to the decoder.
//!
//! A header chunk may declare time-code timing, whose frame rate is written
//! as a negative signed byte. The byte `0x80` has no positive counterpart,
//! and the decoder cannot be asked to read a header that holds it. The
//! functions here find such headers where the decoder would meet them.

use vstd::prelude::*;

verus! {

/// The four bytes from `at` on are `a`, `b`, `c`, `d`.
pub open spec fn tag_at(bytes: Seq<u8>, at: int, a: u8, b: u8, c: u8, d: u8) -> bool {
    &&& 0 <= at
    &&& at + 4 <= bytes.len()
    &&& bytes[at] == a
    &&& bytes[at + 1] == b
    &&& bytes[at + 2] == c
    &&& bytes[at + 3] == d
}

/// The four bytes from `at` on as a number, first byte highest.
pub open spec fn be32(bytes: Seq<u8>, at: int) -> int {
    bytes[at] as int * 16777216 + bytes[at + 1] as int * 65536 + bytes[at + 2] as int * 256
        + bytes[at + 3] as int
}

/// The four bytes from `at` on as a number, first byte lowest.
pub open spec fn le32(bytes: Seq<u8>, at: int) -> int {
    bytes[at + 3] as int * 16777216 + bytes[at + 2] as int * 65536 + bytes[at + 1] as int * 256
        + bytes[at] as int
}

/// Where the data of a chunk ends whose head starts at `pos` and declares
/// `size` bytes: behind the data, or at `end` where the file is cut short.
pub open spec fn chunk_stop(pos: int, end: int, size: int) -> int {
    if pos + 8 + size <= end {
        pos + 8 + size
    } else {
        end
    }
}

/// The data from `start` to `stop` is a header with a known format whose
/// timing byte is the one that cannot be read.
pub open spec fn header_traps(bytes: Seq<u8>, start: int, stop: int) -> bool {
    &&& stop - start >= 6
    &&& bytes[start] == 0
    &&& bytes[start + 1] <= 2
    &&& bytes[start + 4] == 0x80
}

/// The data from `start` to `stop` is a header that reads without an
/// error: a known format, and ticks per beat or one of the four frame
/// rates.
pub open spec fn header_reads(bytes: Seq<u8>, start: int, stop: int) -> bool {
    &&& stop - start >= 6
    &&& bytes[start] == 0
    &&& bytes[start + 1] <= 2
    &&& (bytes[start + 4] < 0x80 || bytes[start + 4] == 0xe8 || bytes[start + 4] == 0xe7
        || bytes[start + 4] == 0xe3 || bytes[start + 4] == 0xe2)
}

/// A reader that walks the chunks from `pos` to `end` meets a header that
/// cannot be read. The walk ends at a header that reads with an error, at a
/// track chunk where no header has been seen, and where fewer than eight
/// bytes are left; chunks of other kinds are passed over.
pub open spec fn walk_traps(bytes: Seq<u8>, pos: int, end: int, seen_header: bool) -> bool
    decreases end - pos,
{
    if pos < 0 || end > bytes.len() || end - pos < 8 {
        false
    } else {
        let stop = chunk_stop(pos, end, be32(bytes, pos + 4));
        if tag_at(bytes, pos, 0x4d, 0x54, 0x68, 0x64) {
            header_traps(bytes, pos + 8, stop) || (header_reads(bytes, pos + 8, stop)
                && walk_traps(bytes, stop, end, true))
        } else if tag_at(bytes, pos, 0x4d, 0x54, 0x72, 0x6b) && !seen_header {
            false
        } else {
            walk_traps(bytes, stop, end, seen_header)
        }
    }
}

/// The data of the first `data` chunk among the chunks from `pos` to `end`
/// of a RIFF file. A chunk of odd size is followed by one byte of padding.
pub open spec fn riff_find(bytes: Seq<u8>, pos: int, end: int) -> Option<(int, int)>
    decreases end - pos,
{
    if pos < 0 || end > bytes.len() || end - pos < 8 {
        None
    } else {
        let size = le32(bytes, pos + 4);
        let stop = chunk_stop(pos, end, size);
        if tag_at(bytes, pos, 0x64, 0x61, 0x74, 0x61) {
            Some((pos + 8, stop))
        } else if size % 2 == 1 && stop < end {
            riff_find(bytes, stop + 1, end)
        } else {
            riff_find(bytes, stop, end)
        }
    }
}

/// Where the MIDI data lies in a RIFF file: in the first `data` chunk of a
/// main chunk of form `RMID`.
pub open spec fn riff_data(bytes: Seq<u8>) -> Option<(int, int)> {
    if bytes.len() < 8 {
        None
    } else {
        let end = chunk_stop(0, bytes.len() as int, le32(bytes, 4));
        if tag_at(bytes, 8, 0x52, 0x4d, 0x49, 0x44) && end >= 12 {
            riff_find(bytes, 12, end)
        } else {
            None
        }
    }
}

/// The file holds, where a reader of its chunks meets it, a header with the
/// timing byte that cannot be read. A file is read from its start if it
/// starts with `MThd`, from the start of its data if it starts with `RIFF`,
/// and not at all otherwise.
pub open spec fn timing_trap(bytes: Seq<u8>) -> bool {
    if tag_at(bytes, 0, 0x52, 0x49, 0x46, 0x46) {
        match riff_data(bytes) {
            Some((start, end)) => walk_traps(bytes, start, end, false),
            None => false,
        }
    } else if tag_at(bytes, 0, 0x4d, 0x54, 0x68, 0x64) {
        walk_traps(bytes, 0, bytes.len() as int, false)
    } else {
        false
    }
}

/// The four bytes from `at` on are `a`, `b`, `c`, `d`.
fn has_tag(bytes: &[u8], at: usize, a: u8, b: u8, c: u8, d: u8) -> (r: bool)
    ensures
        r == tag_at(bytes@, at as int, a, b, c, d),
{
    at <= bytes.len() && bytes.len() - at >= 4 && bytes[at] == a && bytes[at + 1] == b && bytes[at
        + 2] == c && bytes[at + 3] == d
}

/// Where the data of a chunk ends whose head starts at `pos`, given the
/// four bytes of its size from the highest to the lowest.
fn stop_of(pos: usize, end: usize, b3: u8, b2: u8, b1: u8, b0: u8) -> (stop: usize)
    requires
        pos <= end,
        end - pos >= 8,
    ensures
        stop == chunk_stop(
            pos as int,
            end as int,
            b3 as int * 16777216 + b2 as int * 65536 + b1 as int * 256 + b0 as int,
        ),
        pos + 8 <= stop <= end,
{
    let size: u64 = b3 as u64 * 16777216 + b2 as u64 * 65536 + b1 as u64 * 256 + b0 as u64;
    let room: usize = end - pos - 8;
    if size <= room as u64 {
        pos + 8 + size as usize
    } else {
        end
    }
}

/// Walks the chunks from `pos` to `end` as a reader does, and says whether
/// it meets a header that cannot be read.
fn find_trap(bytes: &[u8], pos: usize, end: usize, seen_header: bool) -> (r: bool)
    requires
        pos <= end <= bytes@.len(),
    ensures
        r == walk_traps(bytes@, pos as int, end as int, seen_header),
{
    let mut at: usize = pos;
    let mut seen: bool = seen_header;
    while end - at >= 8
        invariant
            at <= end <= bytes@.len(),
            walk_traps(bytes@, at as int, end as int, seen) == walk_traps(
                bytes@,
                pos as int,
                end as int,
                seen_header,
            ),
        decreases end - at,
    {
        let stop = stop_of(at, end, bytes[at + 4], bytes[at + 5], bytes[at + 6], bytes[at + 7]);
        if has_tag(bytes, at, 0x4d, 0x54, 0x68, 0x64) {
            if stop - at - 8 < 6 || bytes[at + 8] != 0 || bytes[at + 9] > 2 {
                return false;
            }
            let timing = bytes[at + 12];
            if timing == 0x80 {
                return true;
            }
            if !(timing < 0x80 || timing == 0xe8 || timing == 0xe7 || timing == 0xe3 || timing
                == 0xe2) {
                return false;
            }
            seen = true;
        } else if has_tag(bytes, at, 0x4d, 0x54, 0x72, 0x6b) && !seen {
            return false;
        }
        at = stop;
    }
    false
}

/// Finds the data of the first `data` chunk among the chunks from `pos` to
/// `end` of a RIFF file.
fn find_riff_data(bytes: &[u8], pos: usize, end: usize) -> (r: Option<(usize, usize)>)
    requires
        pos <= end <= bytes@.len(),
    ensures
        match r {
            Some((start, stop)) => riff_find(bytes@, pos as int, end as int) == Some(
                (start as int, stop as int),
            ) && start <= stop <= end,
            None => riff_find(bytes@, pos as int, end as int) is None,
        },
{
    let mut at: usize = pos;
    while end - at >= 8
        invariant
            at <= end <= bytes@.len(),
            riff_find(bytes@, at as int, end as int) == riff_find(bytes@, pos as int, end as int),
        decreases end - at,
    {
        let stop = stop_of(at, end, bytes[at + 7], bytes[at + 6], bytes[at + 5], bytes[at + 4]);
        if has_tag(bytes, at, 0x64, 0x61, 0x74, 0x61) {
            return Some((at + 8, stop));
        }
        if bytes[at + 4] % 2 == 1 && stop < end {
            at = stop + 1;
        } else {
            at = stop;
        }
    }
    None
}

/// Says whether the file holds, where a reader of its chunks meets it, a
/// header with the timing byte that cannot be read.
pub fn has_timing_trap(bytes: &[u8]) -> (r: bool)
    ensures
        r == timing_trap(bytes@),
{
    let len = bytes.len();
    if has_tag(bytes, 0, 0x52, 0x49, 0x46, 0x46) {
        if len < 8 {
            return false;
        }
        let end = stop_of(0, len, bytes[7], bytes[6], bytes[5], bytes[4]);
        if !has_tag(bytes, 8, 0x52, 0x4d, 0x49, 0x44) || end < 12 {
            return false;
        }
        match find_riff_data(bytes, 12, end) {
            Some((start, stop)) => find_trap(bytes, start, stop, false),
            None => false,
        }
    } else if has_tag(bytes, 0, 0x4d, 0x54, 0x68, 0x64) {
        find_trap(bytes, 0, len, false)
    } else {
        false
    }
}

} // verus!
