//! The MSF sprite container: header, pixel-format descriptor, palette, frame
//! table, extension chunks closed by an `END` sentinel, and the pixel payload.

use crate::bytes::{le16, le32, read_i16, read_u16, read_u32};
use crate::bytes::{signed16, u16_le_at, u32_le_at, unsigned16};
use vstd::prelude::*;

verus! {

/// Bytes of one frame-table entry.
pub const FRAME_ENTRY_SIZE: usize = 16;

/// Offset of the palette: preamble (8), header (16) and format descriptor (4).
pub const PALETTE_START: usize = 28;

/// How the pixels of a frame are stored in the payload.
#[derive(Clone, Copy, Debug, PartialEq, Eq, Structural)]
pub enum PixelFormat {
    /// Four bytes per pixel: red, green, blue, alpha.
    Rgba8,
    /// One byte per pixel: a palette index; a palette entry with alpha 0 is transparent.
    Indexed8,
    /// Two bytes per pixel: a palette index and the pixel's own alpha.
    Indexed8Alpha8,
}

impl PixelFormat {
    /// The format that a tag byte stands for.
    pub open spec fn spec_from_u8(v: u8) -> Option<PixelFormat> {
        if v == 0 {
            Some(PixelFormat::Rgba8)
        } else if v == 1 {
            Some(PixelFormat::Indexed8)
        } else if v == 2 {
            Some(PixelFormat::Indexed8Alpha8)
        } else {
            None
        }
    }

    /// The tag byte of a format.
    pub open spec fn spec_tag(self) -> u8 {
        match self {
            PixelFormat::Rgba8 => 0,
            PixelFormat::Indexed8 => 1,
            PixelFormat::Indexed8Alpha8 => 2,
        }
    }

    pub open spec fn spec_bytes_per_pixel(self) -> int {
        match self {
            PixelFormat::Rgba8 => 4,
            PixelFormat::Indexed8 => 1,
            PixelFormat::Indexed8Alpha8 => 2,
        }
    }

    pub fn from_u8(v: u8) -> (r: Option<PixelFormat>)
        ensures
            r == Self::spec_from_u8(v),
    {
        match v {
            0 => Some(PixelFormat::Rgba8),
            1 => Some(PixelFormat::Indexed8),
            2 => Some(PixelFormat::Indexed8Alpha8),
            _ => None,
        }
    }

    pub fn tag(self) -> (r: u8)
        ensures
            r == self.spec_tag(),
            Self::spec_from_u8(r) == Some(self),
    {
        match self {
            PixelFormat::Rgba8 => 0,
            PixelFormat::Indexed8 => 1,
            PixelFormat::Indexed8Alpha8 => 2,
        }
    }

    pub fn bytes_per_pixel(self) -> (r: usize)
        ensures
            r as int == self.spec_bytes_per_pixel(),
    {
        match self {
            PixelFormat::Rgba8 => 4,
            PixelFormat::Indexed8 => 1,
            PixelFormat::Indexed8Alpha8 => 2,
        }
    }
}

/// What the fixed part of an MSF file says about the sprite.
#[derive(Clone, Copy, Debug, PartialEq, Eq, Structural)]
pub struct MsfHeader {
    pub canvas_width: u16,
    pub canvas_height: u16,
    pub frame_count: u16,
    pub directions: u8,
    pub fps: u8,
    pub anchor_x: i16,
    pub anchor_y: i16,
    pub pixel_format: u8,
    pub palette_size: u16,
    pub frames_per_direction: u16,
    /// Bytes of all frames decoded one by one, an empty frame counted as one pixel.
    pub total_individual_pixel_bytes: u64,
}

/// One entry of the frame table: where the frame sits in the canvas and
/// where its pixels lie in the decompressed payload.
#[derive(Clone, Copy, Debug, PartialEq, Eq, Structural)]
pub struct MsfFrameEntry {
    pub offset_x: i16,
    pub offset_y: i16,
    pub width: u16,
    pub height: u16,
    pub data_offset: u32,
    pub data_length: u32,
}

/// The sixteen bytes of a frame-table entry.
pub open spec fn entry_bytes(e: MsfFrameEntry) -> Seq<u8> {
    le16(unsigned16(e.offset_x as int)) + le16(unsigned16(e.offset_y as int)) + le16(
        e.width as int,
    ) + le16(e.height as int) + le32(e.data_offset as int) + le32(e.data_length as int)
}

/// The frame-table entry stored at `off`.
pub open spec fn entry_at(s: Seq<u8>, off: int) -> MsfFrameEntry {
    MsfFrameEntry {
        offset_x: signed16(u16_le_at(s, off) as int) as i16,
        offset_y: signed16(u16_le_at(s, off + 2) as int) as i16,
        width: u16_le_at(s, off + 4) as u16,
        height: u16_le_at(s, off + 6) as u16,
        data_offset: u32_le_at(s, off + 8) as u32,
        data_length: u32_le_at(s, off + 12) as u32,
    }
}

/// True where `s` is long enough for the fixed part and starts with `MSF1` or `MSF2`.
pub open spec fn has_msf_magic(s: Seq<u8>) -> bool {
    s.len() >= 28 && s[0] == 0x4d && s[1] == 0x53 && s[2] == 0x46 && (s[3] == 0x31 || s[3]
        == 0x32)
}

/// Offset of the frame table: the palette follows the fixed part.
pub open spec fn frame_table_start(s: Seq<u8>) -> int {
    28 + 4 * (u16_le_at(s, 25) as int)
}

/// Number of frames that the header declares.
pub open spec fn declared_frames(s: Seq<u8>) -> int {
    u16_le_at(s, 12) as int
}

/// True where the whole frame table lies inside the file.
pub open spec fn table_fits(s: Seq<u8>) -> bool {
    frame_table_start(s) + 16 * declared_frames(s) <= s.len()
}

/// Bytes that frame `e` takes when decoded on its own: an empty frame counts as one pixel.
pub open spec fn individual_bytes(e: MsfFrameEntry) -> int {
    if e.width > 0 && e.height > 0 {
        e.width as int * e.height as int * 4
    } else {
        4
    }
}

/// Sum of `individual_bytes` over the first `n` entries of the table at `start`.
pub open spec fn individual_total(s: Seq<u8>, start: int, n: int) -> int
    decreases n,
{
    if n <= 0 {
        0
    } else {
        individual_total(s, start, n - 1) + individual_bytes(entry_at(s, start + 16 * (n - 1)))
    }
}

/// The header that `s` carries; meaningful where `has_msf_magic(s)`.
pub open spec fn header_of(s: Seq<u8>) -> MsfHeader {
    let fc = u16_le_at(s, 12) as int;
    let dirs = s[14];
    MsfHeader {
        canvas_width: u16_le_at(s, 8) as u16,
        canvas_height: u16_le_at(s, 10) as u16,
        frame_count: fc as u16,
        directions: dirs,
        fps: s[15],
        anchor_x: signed16(u16_le_at(s, 16) as int) as i16,
        anchor_y: signed16(u16_le_at(s, 18) as int) as i16,
        pixel_format: s[24],
        palette_size: u16_le_at(s, 25) as u16,
        frames_per_direction: (if dirs > 0 {
            fc / (dirs as int)
        } else {
            fc
        }) as u16,
        total_individual_pixel_bytes: (if table_fits(s) {
            individual_total(s, frame_table_start(s), fc)
        } else {
            0
        }) as u64,
    }
}

/// Reads the frame-table entry at `off`.
pub fn read_entry(data: &[u8], off: usize) -> (e: MsfFrameEntry)
    requires
        off + 16 <= data.len(),
    ensures
        e == entry_at(data@, off as int),
{
    MsfFrameEntry {
        offset_x: read_i16(data, off),
        offset_y: read_i16(data, off + 2),
        width: read_u16(data, off + 4),
        height: read_u16(data, off + 6),
        data_offset: read_u32(data, off + 8),
        data_length: read_u32(data, off + 12),
    }
}

proof fn lemma_individual_total_bound(s: Seq<u8>, start: int, n: int)
    requires
        n >= 0,
    ensures
        0 <= individual_total(s, start, n) <= n * 17179344900,
    decreases n,
{
    if n > 0 {
        lemma_individual_total_bound(s, start, n - 1);
        let e = entry_at(s, start + 16 * (n - 1));
        assert(e.width as int * e.height as int <= 65535 * 65535) by (nonlinear_arith)
            requires
                0 <= e.width as int <= 65535,
                0 <= e.height as int <= 65535,
        ;
        assert(0 <= e.width as int * e.height as int) by (nonlinear_arith)
            requires
                0 <= e.width as int,
                0 <= e.height as int,
        ;
    }
}

/// Parses the fixed part of an MSF file and sums the sizes of its frames.
///
/// Fails exactly where the file is shorter than the fixed part or carries
/// neither magic.
pub fn parse_msf_header(data: &[u8]) -> (r: Option<MsfHeader>)
    ensures
        r == if has_msf_magic(data@) {
            Some(header_of(data@))
        } else {
            None
        },
{
    if data.len() < 28 {
        return None;
    }
    if data[0] != 0x4d || data[1] != 0x53 || data[2] != 0x46 || (data[3] != 0x31 && data[3]
        != 0x32) {
        return None;
    }
    let canvas_width: u16 = read_u16(data, 8);
    let canvas_height: u16 = read_u16(data, 10);
    let frame_count: u16 = read_u16(data, 12);
    let directions: u8 = data[14];
    let fps: u8 = data[15];
    let anchor_x: i16 = read_i16(data, 16);
    let anchor_y: i16 = read_i16(data, 18);
    let pixel_format: u8 = data[24];
    let palette_size: u16 = read_u16(data, 25);
    let frames_per_direction: u16 = if directions > 0 {
        frame_count / (directions as u16)
    } else {
        frame_count
    };
    let start: usize = PALETTE_START + palette_size as usize * 4;
    let fc: usize = frame_count as usize;
    let mut total: u64 = 0;
    if start + fc * FRAME_ENTRY_SIZE <= data.len() {
        let mut i: usize = 0;
        while i < fc
            invariant
                i <= fc,
                fc <= 65535,
                start + fc * 16 <= data.len(),
                total as int == individual_total(data@, start as int, i as int),
            decreases fc - i,
        {
            let e = read_entry(data, start + i * FRAME_ENTRY_SIZE);
            proof {
                lemma_individual_total_bound(data@, start as int, i as int);
                lemma_individual_total_bound(data@, start as int, i as int + 1);
            }
            if e.width > 0 && e.height > 0 {
                assert(e.width as int * e.height as int <= 65535 * 65535) by (nonlinear_arith)
                    requires
                        0 <= e.width as int <= 65535,
                        0 <= e.height as int <= 65535,
                ;
                total = total + (e.width as u64) * (e.height as u64) * 4;
            } else {
                total = total + 4;
            }
            i = i + 1;
        }
    }
    Some(
        MsfHeader {
            canvas_width,
            canvas_height,
            frame_count,
            directions,
            fps,
            anchor_x,
            anchor_y,
            pixel_format,
            palette_size,
            frames_per_direction,
            total_individual_pixel_bytes: total,
        },
    )
}

/// Reads the `count` entries of the frame table at `start`.
pub fn read_frame_table(data: &[u8], start: usize, count: usize) -> (t: Vec<MsfFrameEntry>)
    requires
        start + 16 * count <= data.len(),
    ensures
        t.len() == count,
        forall|i: int| 0 <= i < count ==> #[trigger] t[i] == entry_at(data@, start + 16 * i),
{
    let mut t: Vec<MsfFrameEntry> = Vec::new();
    let mut i: usize = 0;
    while i < count
        invariant
            i <= count,
            start + 16 * count <= data.len(),
            t.len() == i,
            forall|k: int| 0 <= k < i ==> #[trigger] t[k] == entry_at(data@, start + 16 * k),
        decreases count - i,
    {
        t.push(read_entry(data, start + 16 * i));
        i = i + 1;
    }
    t
}

/// True where the four bytes at `off` spell `END` and a zero byte.
pub open spec fn is_end_id(s: Seq<u8>, off: int) -> bool {
    s[off] == 0x45 && s[off + 1] == 0x4e && s[off + 2] == 0x44 && s[off + 3] == 0
}

/// Walks the extension chunks from `off`: each is a four-byte id, a 32-bit
/// length and that many bytes. Gives the offset just behind the first chunk
/// whose id is `END\0`, or `None` where the file ends before one is found.
pub open spec fn payload_start(s: Seq<u8>, off: int) -> Option<int>
    decreases s.len() - off,
{
    if off < 0 || off + 8 > s.len() {
        None
    } else if is_end_id(s, off) {
        Some(off + 8)
    } else if off + 8 + u32_le_at(s, off + 4) > s.len() {
        None
    } else {
        payload_start(s, off + 8 + u32_le_at(s, off + 4))
    }
}

/// Skips the extension chunks that start at `off` and finds the payload.
pub fn find_payload_start(data: &[u8], off: usize) -> (r: Option<usize>)
    ensures
        match r {
            Some(p) => payload_start(data@, off as int) == Some(p as int) && p <= data.len(),
            None => payload_start(data@, off as int).is_none(),
        },
{
    let mut cur: usize = off;
    loop
        invariant
            payload_start(data@, off as int) == payload_start(data@, cur as int),
        decreases data.len() - cur,
    {
        if cur > data.len() || data.len() - cur < 8 {
            return None;
        }
        let len: u32 = read_u32(data, cur + 4);
        if data[cur] == 0x45 && data[cur + 1] == 0x4e && data[cur + 2] == 0x44 && data[cur + 3]
            == 0 {
            return Some(cur + 8);
        }
        if len as usize > data.len() - cur - 8 {
            return None;
        }
        cur = cur + 8 + len as usize;
    }
}

} // verus!
