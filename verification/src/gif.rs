//! The layout of a GIF file, as far as it is needed to find the first frame
//! and compare it with the logical screen.
//!
//! A GIF file starts with a 6-byte signature, the screen width and height
//! (little-endian 16-bit numbers at offsets 6 and 8), a flags byte, the
//! background color and the aspect ratio, then the global color table when
//! the flags announce one. Blocks follow: an extension (`0x21`, a label and
//! sub-blocks, each a size byte and that many bytes, ended by a size of 0),
//! an image (`0x2C` and its descriptor: left, top, width, height) or the
//! trailer.
use vstd::prelude::*;

verus! {

/// The little-endian 16-bit number at `i`.
pub open spec fn u16_le(b: Seq<u8>, i: int) -> int {
    b[i] as int + 256 * (b[i + 1] as int)
}

/// Entries of a color table whose size field is `k`: two to the power `k + 1`.
pub open spec fn table_entries(k: u8) -> int {
    if k == 0 {
        2
    } else if k == 1 {
        4
    } else if k == 2 {
        8
    } else if k == 3 {
        16
    } else if k == 4 {
        32
    } else if k == 5 {
        64
    } else if k == 6 {
        128
    } else {
        256
    }
}

/// Bytes of the global color table that the flags byte announces.
pub open spec fn palette_bytes(flags: u8) -> int {
    if flags < 128 {
        0
    } else {
        3 * table_entries(flags % 8)
    }
}

/// Where the sub-blocks that start at `q` end (just past the size byte 0);
/// `None` when the file ends first.
pub open spec fn sub_blocks_end(b: Seq<u8>, q: int) -> Option<int>
    decreases b.len() - q,
{
    if q < 0 || q >= b.len() {
        None
    } else if b[q] == 0 {
        Some(q + 1)
    } else if q + 1 + b[q] >= b.len() {
        None
    } else {
        sub_blocks_end(b, q + 1 + b[q])
    }
}

/// Where the descriptor of the first image at or after block `p` starts,
/// skipping extensions; `None` when another block or the end comes first.
pub open spec fn frame_at(b: Seq<u8>, p: int) -> Option<int>
    decreases b.len() - p,
{
    if p < 0 || p >= b.len() {
        None
    } else if b[p] == 0x2C {
        Some(p + 1)
    } else if b[p] == 0x21 {
        match sub_blocks_end(b, p + 2) {
            Some(r) => if p < r && r <= b.len() {
                frame_at(b, r)
            } else {
                None
            },
            None => None,
        }
    } else {
        None
    }
}

/// Where the descriptor of the first frame starts, if the file has one.
pub open spec fn first_frame(b: Seq<u8>) -> Option<int> {
    if b.len() < 13 {
        None
    } else {
        frame_at(b, 13 + palette_bytes(b[10]))
    }
}

/// The first frame lies at the top left corner, differs in size from the
/// logical screen and holds more pixels than it.
pub open spec fn frame_overflows_screen(b: Seq<u8>, d: int) -> bool {
    &&& u16_le(b, d) == 0
    &&& u16_le(b, d + 2) == 0
    &&& (u16_le(b, d + 4) != u16_le(b, 6) || u16_le(b, d + 6) != u16_le(b, 8))
    &&& u16_le(b, d + 4) * u16_le(b, d + 6) > u16_le(b, 6) * u16_le(b, 8)
}

/// The first frame of the file, if it has a whole descriptor, fits in the
/// logical screen as the decoder reads it.
pub open spec fn gif_frame_fits(b: Seq<u8>) -> bool {
    match first_frame(b) {
        None => true,
        Some(d) => d + 8 > b.len() || !frame_overflows_screen(b, d),
    }
}

fn u16_le_exec(b: &[u8], i: usize) -> (r: u64)
    requires
        i + 1 < b.len(),
    ensures
        r == u16_le(b@, i as int),
        r < 65536,
{
    b[i] as u64 + 256 * (b[i + 1] as u64)
}

fn palette_bytes_exec(flags: u8) -> (r: usize)
    ensures
        r == palette_bytes(flags),
{
    if flags < 128 {
        return 0;
    }
    let k = flags % 8;
    let entries: usize = if k == 0 {
        2
    } else if k == 1 {
        4
    } else if k == 2 {
        8
    } else if k == 3 {
        16
    } else if k == 4 {
        32
    } else if k == 5 {
        64
    } else if k == 6 {
        128
    } else {
        256
    };
    3 * entries
}

fn sub_blocks_end_exec(b: &[u8], start: usize) -> (r: Option<usize>)
    ensures
        match r {
            Some(x) => sub_blocks_end(b@, start as int) == Some(x as int),
            None => sub_blocks_end(b@, start as int) is None,
        },
{
    let mut q = start;
    loop
        invariant
            sub_blocks_end(b@, start as int) == sub_blocks_end(b@, q as int),
        decreases b.len() - q,
    {
        if q >= b.len() {
            return None;
        }
        let s = b[q] as usize;
        if s == 0 {
            return Some(q + 1);
        }
        if s >= b.len() - q - 1 {
            return None;
        }
        q = q + 1 + s;
    }
}

fn first_frame_exec(b: &[u8]) -> (r: Option<usize>)
    ensures
        match r {
            Some(x) => first_frame(b@) == Some(x as int),
            None => first_frame(b@) is None,
        },
{
    if b.len() < 13 {
        return None;
    }
    let mut p = 13 + palette_bytes_exec(b[10]);
    loop
        invariant
            b.len() >= 13,
            first_frame(b@) == frame_at(b@, p as int),
        decreases b.len() - p,
    {
        if p >= b.len() {
            return None;
        }
        if b[p] == 0x2C {
            return Some(p + 1);
        }
        if b[p] != 0x21 || b.len() - p < 2 {
            return None;
        }
        match sub_blocks_end_exec(b, p + 2) {
            Some(r) => {
                if p < r && r <= b.len() {
                    p = r;
                } else {
                    return None;
                }
            },
            None => {
                return None;
            },
        }
    }
}

/// Whether the first frame of the GIF file `b` fits in its logical screen.
pub fn gif_frame_fits_exec(b: &[u8]) -> (r: bool)
    ensures
        r == gif_frame_fits(b@),
{
    match first_frame_exec(b) {
        None => true,
        Some(d) => {
            if d > b.len() || b.len() - d < 8 {
                return true;
            }
            let left = u16_le_exec(b, d);
            let top = u16_le_exec(b, d + 2);
            let w = u16_le_exec(b, d + 4);
            let h = u16_le_exec(b, d + 6);
            let sw = u16_le_exec(b, 6);
            let sh = u16_le_exec(b, 8);
            assert(w * h < 65536 * 65536) by (nonlinear_arith)
                requires
                    w < 65536,
                    h < 65536,
            ;
            assert(sw * sh < 65536 * 65536) by (nonlinear_arith)
                requires
                    sw < 65536,
                    sh < 65536,
            ;
            let overflows = left == 0 && top == 0 && (w != sw || h != sh) && w * h > sw * sh;
            !overflows
        },
    }
}

} // verus!
