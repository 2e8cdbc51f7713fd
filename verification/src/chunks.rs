//! The chunk layout of a MIDI container, followed far enough to tell whether
//! the decoder would be asked to negate a frame rate of -128.
//!
//! A container is a run of chunks: four bytes of id, four bytes of length,
//! then the data, which ends early where the file does. A header chunk has
//! the id `MThd` and six bytes of data: format, track count and timing. A
//! timing whose first byte is `0x80` or more is a negated frame rate, and
//! the negative of -128 does not exist in eight bits.

use vstd::prelude::*;

verus! {

/// The big-endian number in the four bytes from `i`.
pub open spec fn be32(bytes: Seq<u8>, i: int) -> int {
    bytes[i] * 0x100_0000 + bytes[i + 1] * 0x1_0000 + bytes[i + 2] * 0x100 + bytes[i + 3]
}

/// The little-endian number in the four bytes from `i`.
pub open spec fn le32(bytes: Seq<u8>, i: int) -> int {
    bytes[i] + bytes[i + 1] * 0x100 + bytes[i + 2] * 0x1_0000 + bytes[i + 3] * 0x100_0000
}

/// The four bytes from `i` are `a`, `b`, `c`, `d`.
pub open spec fn tag_at(bytes: Seq<u8>, i: int, a: u8, b: u8, c: u8, d: u8) -> bool {
    bytes[i] == a && bytes[i + 1] == b && bytes[i + 2] == c && bytes[i + 3] == d
}

/// Where the data of the chunk at `pos` ends: after `len` bytes, or where
/// the enclosing range ends if that comes first.
pub open spec fn chunk_end(pos: int, len: int, end: int) -> int {
    if pos + 8 + len <= end {
        pos + 8 + len
    } else {
        end
    }
}

/// A header whose data is `[data, data_end)` has a known format and the
/// frame rate byte `0x80`: reading it negates -128.
pub open spec fn header_negates(bytes: Seq<u8>, data: int, data_end: int) -> bool {
    &&& data_end - data >= 6
    &&& bytes[data] == 0
    &&& bytes[data + 1] <= 2
    &&& bytes[data + 4] == 0x80
}

/// A header whose data is `[data, data_end)` is read without error: a known
/// format, and a timing that is metrical or has one of the four frame rates
/// 24, 25, 29 and 30.
pub open spec fn header_reads(bytes: Seq<u8>, data: int, data_end: int) -> bool {
    &&& data_end - data >= 6
    &&& bytes[data] == 0
    &&& bytes[data + 1] <= 2
    &&& (bytes[data + 4] < 0x80 || bytes[data + 4] == 0xE8 || bytes[data + 4] == 0xE7
        || bytes[data + 4] == 0xE3 || bytes[data + 4] == 0xE2)
}

/// Reading the chunks of `[pos, end)` one after the other comes to a header
/// that negates -128. Reading stops at the first chunk that fails: one cut
/// short before its data, a header that is not read, or a track before any
/// header. Chunks with other ids are passed over.
pub open spec fn negates_from(bytes: Seq<u8>, pos: int, end: int, seen_header: bool) -> bool
    decreases end - pos,
{
    if pos < 0 || end - pos < 8 {
        false
    } else {
        let data = pos + 8;
        let data_end = chunk_end(pos, be32(bytes, pos + 4), end);
        if tag_at(bytes, pos, 0x4D, 0x54, 0x68, 0x64) {
            header_negates(bytes, data, data_end) || (header_reads(bytes, data, data_end)
                && negates_from(bytes, data_end, end, true))
        } else if tag_at(bytes, pos, 0x4D, 0x54, 0x72, 0x6B) {
            seen_header && negates_from(bytes, data_end, end, true)
        } else {
            negates_from(bytes, data_end, end, seen_header)
        }
    }
}

/// The data of the first chunk with the id `data` among the RIFF chunks of
/// `[pos, end)`. RIFF lengths are little-endian, and a chunk of odd length
/// is followed by one byte of padding.
pub open spec fn riff_data_from(bytes: Seq<u8>, pos: int, end: int) -> Option<(int, int)>
    decreases end - pos,
{
    if pos < 0 || end - pos < 8 {
        None
    } else {
        let len = le32(bytes, pos + 4);
        let data_end = chunk_end(pos, len, end);
        if tag_at(bytes, pos, 0x64, 0x61, 0x74, 0x61) {
            Some((pos + 8, data_end))
        } else if len % 2 == 1 && data_end < end {
            riff_data_from(bytes, data_end + 1, end)
        } else {
            riff_data_from(bytes, data_end, end)
        }
    }
}

/// The range of `bytes` that holds the MIDI chunks: all of it where it
/// begins with `MThd`; where it begins with `RIFF`, the `data` chunk of a
/// form of type `RMID`; else none.
pub open spec fn midi_range(bytes: Seq<u8>) -> Option<(int, int)> {
    if bytes.len() >= 4 && tag_at(bytes, 0, 0x4D, 0x54, 0x68, 0x64) {
        Some((0, bytes.len() as int))
    } else if bytes.len() >= 12 && tag_at(bytes, 0, 0x52, 0x49, 0x46, 0x46) && chunk_end(
        0,
        le32(bytes, 4),
        bytes.len() as int,
    ) >= 12 && tag_at(bytes, 8, 0x52, 0x4D, 0x49, 0x44) {
        riff_data_from(bytes, 12, chunk_end(0, le32(bytes, 4), bytes.len() as int))
    } else {
        None
    }
}

/// Decoding `bytes` comes to a header chunk with the frame rate -128.
pub open spec fn frame_rate_overflows(bytes: Seq<u8>) -> bool {
    match midi_range(bytes) {
        Some((start, end)) => negates_from(bytes, start, end, false),
        None => false,
    }
}

fn read_be32(bytes: &[u8], i: usize) -> (r: u32)
    requires
        i + 4 <= bytes.len(),
    ensures
        r == be32(bytes@, i as int),
{
    let a: u32 = bytes[i] as u32;
    let b: u32 = bytes[i + 1] as u32;
    let c: u32 = bytes[i + 2] as u32;
    let d: u32 = bytes[i + 3] as u32;
    a * 0x100_0000 + b * 0x1_0000 + c * 0x100 + d
}

fn read_le32(bytes: &[u8], i: usize) -> (r: u32)
    requires
        i + 4 <= bytes.len(),
    ensures
        r == le32(bytes@, i as int),
{
    let a: u32 = bytes[i] as u32;
    let b: u32 = bytes[i + 1] as u32;
    let c: u32 = bytes[i + 2] as u32;
    let d: u32 = bytes[i + 3] as u32;
    a + b * 0x100 + c * 0x1_0000 + d * 0x100_0000
}

fn has_tag(bytes: &[u8], i: usize, a: u8, b: u8, c: u8, d: u8) -> (r: bool)
    requires
        i + 4 <= bytes.len(),
    ensures
        r == tag_at(bytes@, i as int, a, b, c, d),
{
    bytes[i] == a && bytes[i + 1] == b && bytes[i + 2] == c && bytes[i + 3] == d
}

fn end_of_chunk(pos: usize, len: u32, end: usize) -> (r: usize)
    requires
        pos + 8 <= end,
    ensures
        r == chunk_end(pos as int, len as int, end as int),
        pos + 8 <= r <= end,
{
    if len as usize <= end - pos - 8 {
        pos + 8 + len as usize
    } else {
        end
    }
}

fn find_riff_data(bytes: &[u8], start: usize, end: usize) -> (r: Option<(usize, usize)>)
    requires
        start <= end <= bytes.len(),
    ensures
        match r {
            Some((a, b)) => riff_data_from(bytes@, start as int, end as int) == Some(
                (a as int, b as int),
            ) && a <= b <= end,
            None => riff_data_from(bytes@, start as int, end as int) is None,
        },
{
    let mut pos: usize = start;
    while end - pos >= 8
        invariant
            start <= pos <= end <= bytes.len(),
            riff_data_from(bytes@, start as int, end as int) == riff_data_from(
                bytes@,
                pos as int,
                end as int,
            ),
        decreases end - pos,
    {
        let len = read_le32(bytes, pos + 4);
        let data_end = end_of_chunk(pos, len, end);
        if has_tag(bytes, pos, 0x64, 0x61, 0x74, 0x61) {
            return Some((pos + 8, data_end));
        }
        if len % 2 == 1 && data_end < end {
            pos = data_end + 1;
        } else {
            pos = data_end;
        }
    }
    None
}

fn find_midi_range(bytes: &[u8]) -> (r: Option<(usize, usize)>)
    ensures
        match r {
            Some((a, b)) => midi_range(bytes@) == Some((a as int, b as int)) && a <= b
                <= bytes.len(),
            None => midi_range(bytes@) is None,
        },
{
    let n = bytes.len();
    if n >= 4 && has_tag(bytes, 0, 0x4D, 0x54, 0x68, 0x64) {
        return Some((0, n));
    }
    if n >= 12 && has_tag(bytes, 0, 0x52, 0x49, 0x46, 0x46) {
        let form_end = end_of_chunk(0, read_le32(bytes, 4), n);
        if form_end >= 12 && has_tag(bytes, 8, 0x52, 0x4D, 0x49, 0x44) {
            return find_riff_data(bytes, 12, form_end);
        }
    }
    None
}

fn negates_within(bytes: &[u8], start: usize, end: usize) -> (r: bool)
    requires
        start <= end <= bytes.len(),
    ensures
        r == negates_from(bytes@, start as int, end as int, false),
{
    let mut pos: usize = start;
    let mut seen_header = false;
    while end - pos >= 8
        invariant
            start <= pos <= end <= bytes.len(),
            negates_from(bytes@, start as int, end as int, false) == negates_from(
                bytes@,
                pos as int,
                end as int,
                seen_header,
            ),
        decreases end - pos,
    {
        let len = read_be32(bytes, pos + 4);
        let data = pos + 8;
        let data_end = end_of_chunk(pos, len, end);
        if has_tag(bytes, pos, 0x4D, 0x54, 0x68, 0x64) {
            if data_end - data < 6 || bytes[data] != 0 || bytes[data + 1] > 2 {
                return false;
            }
            let rate = bytes[data + 4];
            if rate == 0x80 {
                return true;
            }
            if rate > 0x80 && rate != 0xE8 && rate != 0xE7 && rate != 0xE3 && rate != 0xE2 {
                return false;
            }
            seen_header = true;
        } else if has_tag(bytes, pos, 0x4D, 0x54, 0x72, 0x6B) {
            if !seen_header {
                return false;
            }
        }
        pos = data_end;
    }
    false
}

/// Whether decoding `bytes` comes to a header chunk with the frame rate
/// -128.
pub fn has_overflowing_header(bytes: &[u8]) -> (r: bool)
    ensures
        r == frame_rate_overflows(bytes@),
{
    match find_midi_range(bytes) {
        Some((start, end)) => negates_within(bytes, start, end),
        None => false,
    }
}

} // verus!
