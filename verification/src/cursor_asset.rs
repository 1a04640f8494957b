//! Parsing of Windows `.cur` cursor files: the directory entries with
//! their geometry, hotspot and payload location, and the choice of the
//! largest image for rendering. The bytes come from the surrounding
//! application; everything here is pure byte arithmetic.

use vstd::prelude::*;
use crate::text::{concat_map, lemma_concat_map_push, push_char};

verus! {

/// One directory entry of a cursor file.
#[derive(Debug, Clone, Copy, PartialEq, Eq, Structural)]
pub struct CurEntryInfo {
    pub width: u32,
    pub height: u32,
    pub hotspot_x: u32,
    pub hotspot_y: u32,
    pub bytes_in_res: u32,
    pub image_offset: u32,
}

/// A 16-bit little-endian value read at offset `i`.
pub open spec fn u16_le(b: Seq<u8>, i: int) -> int {
    b[i] + 256 * b[i + 1]
}

/// A 32-bit little-endian value read at offset `i`.
pub open spec fn u32_le(b: Seq<u8>, i: int) -> int {
    b[i] + 0x100 * b[i + 1] + 0x1_0000 * b[i + 2] + 0x100_0000 * b[i + 3]
}

/// The directory entry encoded at offset `off`: a zero width or height
/// byte stands for 256.
pub open spec fn spec_cur_entry_at(b: Seq<u8>, off: int) -> CurEntryInfo {
    CurEntryInfo {
        width: if b[off] == 0 {
            256u32
        } else {
            b[off] as u32
        },
        height: if b[off + 1] == 0 {
            256u32
        } else {
            b[off + 1] as u32
        },
        hotspot_x: u16_le(b, off + 4) as u32,
        hotspot_y: u16_le(b, off + 6) as u32,
        bytes_in_res: u32_le(b, off + 8) as u32,
        image_offset: u32_le(b, off + 12) as u32,
    }
}

/// The directory entries of a cursor file: nothing unless the header is
/// present, declares icon type 2 (cursor), a non-zero entry count, and
/// the file holds all the 16-byte entries it declares.
pub open spec fn spec_cur_entries(b: Seq<u8>) -> Seq<CurEntryInfo> {
    if b.len() < 6 {
        Seq::empty()
    } else {
        let icon_type = u16_le(b, 2);
        let count = u16_le(b, 4);
        if icon_type != 2 || count == 0 {
            Seq::empty()
        } else if b.len() < 6 + count * 16 {
            Seq::empty()
        } else {
            Seq::new(count as nat, |k: int| spec_cur_entry_at(b, 6 + k * 16))
        }
    }
}

fn read_u16_le(bytes: &[u8], i: usize) -> (r: u32)
    requires
        i + 2 <= bytes@.len(),
    ensures
        r == u16_le(bytes@, i as int),
        r < 0x1_0000,
{
    (bytes[i] as u32) + 256 * (bytes[i + 1] as u32)
}

fn read_u32_le(bytes: &[u8], i: usize) -> (r: u32)
    requires
        i + 4 <= bytes@.len(),
    ensures
        r == u32_le(bytes@, i as int),
{
    (bytes[i] as u32) + 0x100 * (bytes[i + 1] as u32) + 0x1_0000 * (bytes[i + 2] as u32)
        + 0x100_0000 * (bytes[i + 3] as u32)
}

/// Parses the directory entries of a `.cur` file.
pub fn parse_cur_entries_from_bytes(bytes: &[u8]) -> (r: Vec<CurEntryInfo>)
    ensures
        r@ == spec_cur_entries(bytes@),
{
    let n: usize = bytes.len();
    if n < 6 {
        return Vec::new();
    }
    let icon_type: u32 = read_u16_le(bytes, 2);
    let count32: u32 = read_u16_le(bytes, 4);
    let count: usize = count32 as usize;
    if icon_type != 2 || count == 0 {
        return Vec::new();
    }
    if n < 6 + count * 16 {
        return Vec::new();
    }
    let ghost target: Seq<CurEntryInfo> = spec_cur_entries(bytes@);
    let mut entries: Vec<CurEntryInfo> = Vec::new();
    let mut index: usize = 0;
    proof {
        assert(target =~= Seq::new(count as nat, |k: int| spec_cur_entry_at(bytes@, 6 + k * 16)));
        assert(entries@ =~= target.subrange(0, 0));
    }
    while index < count
        invariant
            n == bytes@.len(),
            count < 0x1_0000,
            n >= 6 + count * 16,
            target == Seq::new(count as nat, |k: int| spec_cur_entry_at(bytes@, 6 + k * 16)),
            0 <= index <= count,
            entries@ == target.subrange(0, index as int),
        decreases count - index,
    {
        proof {
            assert(6 + (index + 1) * 16 <= 6 + count * 16) by (nonlinear_arith)
                requires
                    0 <= index < count,
            ;
            assert((index + 1) * 16 == index * 16 + 16) by (nonlinear_arith);
        }
        let off: usize = 6 + index * 16;
        let wb: u8 = bytes[off];
        let hb: u8 = bytes[off + 1];
        let width: u32 = if wb == 0 {
            256
        } else {
            wb as u32
        };
        let height: u32 = if hb == 0 {
            256
        } else {
            hb as u32
        };
        let hotspot_x: u32 = read_u16_le(bytes, off + 4);
        let hotspot_y: u32 = read_u16_le(bytes, off + 6);
        let bytes_in_res: u32 = read_u32_le(bytes, off + 8);
        let image_offset: u32 = read_u32_le(bytes, off + 12);
        let entry: CurEntryInfo = CurEntryInfo {
            width,
            height,
            hotspot_x,
            hotspot_y,
            bytes_in_res,
            image_offset,
        };
        proof {
            assert(entry == spec_cur_entry_at(bytes@, 6 + (index as int) * 16));
            assert(target[index as int] == spec_cur_entry_at(bytes@, 6 + (index as int) * 16));
            assert(target.subrange(0, index as int).push(target[index as int]) =~= target.subrange(
                0,
                index + 1,
            ));
        }
        entries.push(entry);
        index = index + 1;
    }
    proof {
        assert(target.subrange(0, count as int) =~= target);
    }
    entries
}

/// The pixel area of an entry.
pub open spec fn entry_area(e: CurEntryInfo) -> int {
    (e.width as int) * (e.height as int)
}

/// The index, among the first `i` entries, of the best entry to render:
/// the largest area, later entries winning ties.
pub open spec fn best_entry_idx(entries: Seq<CurEntryInfo>, i: int) -> Option<int>
    decreases i,
{
    if i <= 0 {
        None
    } else {
        match best_entry_idx(entries, i - 1) {
            None => Some(i - 1),
            Some(j) => if entry_area(entries[i - 1]) >= entry_area(entries[j]) {
                Some(i - 1)
            } else {
                Some(j)
            },
        }
    }
}

/// Picks the cursor image to render: the entry with the largest pixel
/// area, the last such entry when several tie. `None` when the bytes
/// hold no entries.
pub fn parse_cur_entry_info_from_bytes(bytes: &[u8]) -> (r: Option<CurEntryInfo>)
    ensures
        ({
            let es = spec_cur_entries(bytes@);
            match r {
                None => es.len() == 0,
                Some(e) => best_entry_idx(es, es.len() as int) matches Some(j) && e == es[j],
            }
        }),
{
    let entries: Vec<CurEntryInfo> = parse_cur_entries_from_bytes(bytes);
    if entries.len() == 0 {
        return None;
    }
    let mut best: usize = 0;
    let mut i: usize = 1;
    proof {
        reveal_with_fuel(best_entry_idx, 2);
        assert(best_entry_idx(entries@, 1) == Some(0int));
    }
    while i < entries.len()
        invariant
            1 <= i <= entries@.len(),
            best < i,
            best_entry_idx(entries@, i as int) == Some(best as int),
        decreases entries@.len() - i,
    {
        let cur: CurEntryInfo = entries[i];
        let prev: CurEntryInfo = entries[best];
        proof {
            assert(0 <= (cur.width as int) * (cur.height as int)
                && (cur.width as int) * (cur.height as int) < 0x1_0000_0000_0000_0000 && 0 <= (
            prev.width as int) * (prev.height as int) && (prev.width as int) * (prev.height as int)
                < 0x1_0000_0000_0000_0000) by (nonlinear_arith)
                requires
                    0 <= (cur.width as int) < 0x1_0000_0000,
                    0 <= (cur.height as int) < 0x1_0000_0000,
                    0 <= (prev.width as int) < 0x1_0000_0000,
                    0 <= (prev.height as int) < 0x1_0000_0000,
            ;
        }
        let cur_area: u64 = (cur.width as u64) * (cur.height as u64);
        let prev_area: u64 = (prev.width as u64) * (prev.height as u64);
        if cur_area >= prev_area {
            best = i;
        }
        i = i + 1;
    }
    Some(entries[best])
}

/// A string escaped for a single-quoted shell argument: each single
/// quote is doubled, every other character is kept.
pub open spec fn spec_ps_escape(s: Seq<char>) -> Seq<char> {
    concat_map(
        s,
        |c: char|
            if c == '\'' {
                seq!['\'', '\'']
            } else {
                seq![c]
            },
    )
}

/// Escapes a path for use inside a single-quoted shell string.
pub fn escape_powershell_single_quote(path: &str) -> (r: String)
    ensures
        r@ == spec_ps_escape(path@),
{
    let ghost f: spec_fn(char) -> Seq<char> = |c: char|
        if c == '\'' {
            seq!['\'', '\'']
        } else {
            seq![c]
        };
    let n: usize = path.unicode_len();
    let mut out: String = String::new();
    let mut i: usize = 0;
    proof {
        assert(out@ =~= concat_map(path@.subrange(0, 0), f));
    }
    while i < n
        invariant
            n == path@.len(),
            f == (|c: char|
                if c == '\'' {
                    seq!['\'', '\'']
                } else {
                    seq![c]
                }),
            0 <= i <= n,
            out@ == concat_map(path@.subrange(0, i as int), f),
        decreases n - i,
    {
        let c: char = path.get_char(i);
        if c == '\'' {
            push_char(&mut out, '\'');
            push_char(&mut out, '\'');
        } else {
            push_char(&mut out, c);
        }
        proof {
            lemma_concat_map_push(path@.subrange(0, i as int), path@[i as int], f);
            assert(path@.subrange(0, i as int).push(path@[i as int]) =~= path@.subrange(0, i + 1));
            assert(out@ =~= concat_map(path@.subrange(0, i + 1), f));
        }
        i = i + 1;
    }
    proof {
        assert(path@.subrange(0, n as int) =~= path@);
    }
    out
}

} // verus!
