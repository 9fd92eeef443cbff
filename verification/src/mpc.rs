//! The MPC sprite format: a header, a BGRA palette, a table of frame
//! offsets and, per frame, a small header and a run-length encoded stream of
//! palette indices at the frame's own size.

use crate::asf::{field16, pad_palette, padded_palette, read_field16};
use crate::bytes::{read_i32, read_u32, signed16, signed32, u32_le_at};
use crate::decode::{zeros, DecodedFrame};
use vstd::prelude::*;

verus! {

/// Largest width or height of a frame that is decoded; a larger one, or
/// zero, marks an empty frame.
pub const MAX_FRAME_DIM: u32 = 2048;

/// True where `s` holds at least 160 bytes and starts with the ASCII
/// signature `MPC File Ver`.
pub open spec fn has_mpc_signature(s: Seq<u8>) -> bool {
    s.len() >= 160 && s[0] == 0x4d && s[1] == 0x50 && s[2] == 0x43 && s[3] == 0x20 && s[4]
        == 0x46 && s[5] == 0x69 && s[6] == 0x6c && s[7] == 0x65 && s[8] == 0x20 && s[9] == 0x56
        && s[10] == 0x65 && s[11] == 0x72
}

/// Tests the length and the signature of an MPC file.
pub fn check_mpc_signature(data: &[u8]) -> (ok: bool)
    ensures
        ok == has_mpc_signature(data@),
{
    data.len() >= 160 && data[0] == 0x4d && data[1] == 0x50 && data[2] == 0x43 && data[3] == 0x20
        && data[4] == 0x46 && data[5] == 0x69 && data[6] == 0x6c && data[7] == 0x65 && data[8]
        == 0x20 && data[9] == 0x56 && data[10] == 0x65 && data[11] == 0x72
}

/// Offset of the table of frame offsets: it follows the declared palette.
pub open spec fn mpc_offsets_start(s: Seq<u8>) -> int {
    128 + 4 * (u32_le_at(s, 84) as int)
}

/// Number of frames: the low 16 bits of the header's count.
pub open spec fn mpc_frame_count(s: Seq<u8>) -> int {
    field16(s, 76)
}

/// Offset of the frame data: it follows the table of frame offsets.
pub open spec fn mpc_data_start(s: Seq<u8>) -> int {
    mpc_offsets_start(s) + 4 * mpc_frame_count(s)
}

/// Offset of the header of frame `i`.
pub open spec fn mpc_frame_at(s: Seq<u8>, i: int) -> int {
    mpc_data_start(s) + u32_le_at(s, mpc_offsets_start(s) + 4 * i) as int
}

/// True where frame `i` holds pixels: its offset entry and its header lie
/// inside the file, and its width and height are between 1 and 2048.
pub open spec fn mpc_frame_present(s: Seq<u8>, i: int) -> bool {
    let at = mpc_frame_at(s, i);
    let w = u32_le_at(s, at + 4);
    let h = u32_le_at(s, at + 8);
    &&& 0 <= i < mpc_frame_count(s)
    &&& mpc_offsets_start(s) + 4 * i + 4 <= s.len()
    &&& at + 12 <= s.len()
    &&& 1 <= w <= 2048
    &&& 1 <= h <= 2048
}

/// Width of frame `i`.
pub open spec fn mpc_width(s: Seq<u8>, i: int) -> int {
    u32_le_at(s, mpc_frame_at(s, i) + 4) as int
}

/// Height of frame `i`.
pub open spec fn mpc_height(s: Seq<u8>, i: int) -> int {
    u32_le_at(s, mpc_frame_at(s, i) + 8) as int
}

/// Where the stream of frame `i` starts: behind the 20 bytes of its header.
pub open spec fn mpc_rle_start(s: Seq<u8>, i: int) -> int {
    mpc_frame_at(s, i) + 20
}

/// Where the stream of frame `i` ends, by the length that its header declares.
pub open spec fn mpc_rle_end(s: Seq<u8>, i: int) -> int {
    mpc_frame_at(s, i) + u32_le_at(s, mpc_frame_at(s, i)) as int
}

/// Place and size of a frame that holds pixels.
pub struct MpcFrameInfo {
    pub rle_start: u64,
    pub rle_end: u64,
    pub width: u16,
    pub height: u16,
}

/// Finds frame `i` of an MPC file. Gives `None` exactly where the frame is
/// absent or empty.
pub fn mpc_frame_info(data: &[u8], i: usize) -> (r: Option<MpcFrameInfo>)
    ensures
        r.is_some() == mpc_frame_present(data@, i as int),
        r matches Some(f) ==> {
            &&& f.rle_start as int == mpc_rle_start(data@, i as int)
            &&& f.rle_end as int == mpc_rle_end(data@, i as int)
            &&& f.width as int == mpc_width(data@, i as int)
            &&& f.height as int == mpc_height(data@, i as int)
            &&& 1 <= f.width <= 2048
            &&& 1 <= f.height <= 2048
        },
{
    let frame_count: u64 = read_field16(data, 76) as u64;
    if i as u64 >= frame_count {
        return None;
    }
    let offsets_start: u64 = 128 + 4 * (read_u32(data, 84) as u64);
    let entry: u64 = offsets_start + 4 * (i as u64);
    if entry + 4 > data.len() as u64 {
        return None;
    }
    let at: u64 = offsets_start + 4 * frame_count + read_u32(data, entry as usize) as u64;
    if at + 12 > data.len() as u64 {
        return None;
    }
    let data_len: u32 = read_u32(data, at as usize);
    let w: u32 = read_u32(data, at as usize + 4);
    let h: u32 = read_u32(data, at as usize + 8);
    if w == 0 || h == 0 || w > MAX_FRAME_DIM || h > MAX_FRAME_DIM {
        return None;
    }
    Some(
        MpcFrameInfo {
            rle_start: at + 20,
            rle_end: at + data_len as u64,
            width: w as u16,
            height: h as u16,
        },
    )
}

/// A plane of `total` pixels that no run has reached: every entry is -1.
pub open spec fn untouched(total: int) -> Seq<int> {
    Seq::new(total as nat, |i: int| -1int)
}

/// One opaque run of an MPC stream: up to `count` palette indices read
/// from `d` on and stored from pixel `pi` on. Gives the plane, the stream
/// position and the pixel position after the run.
pub open spec fn mpc_run(data: Seq<u8>, plane: Seq<int>, d: int, pi: int, count: int) -> (
    Seq<int>,
    int,
    int,
)
    decreases count,
{
    if count <= 0 || pi >= plane.len() || d >= data.len() || d < 0 || pi < 0 {
        (plane, d, pi)
    } else {
        mpc_run(data, plane.update(pi, data[d] as int), d + 1, pi + 1, count - 1)
    }
}

/// The plane after the stream from `d` to `end` was read, pixels stored
/// from `pi` on. A byte above `0x80` skips that many pixels less `0x80`; any
/// other byte opens an opaque run of that length. The stream ends at `end`,
/// at the end of the file, or where the plane is full.
pub open spec fn mpc_stream(data: Seq<u8>, plane: Seq<int>, d: int, pi: int, end: int) -> Seq<int>
    decreases data.len() - d,
    via mpc_stream_decreases
{
    if 0 <= d && d < end && d < data.len() && 0 <= pi < plane.len() {
        if data[d] > 0x80 {
            mpc_stream(data, plane, d + 1, pi + (data[d] - 0x80), end)
        } else {
            let r = mpc_run(data, plane, d + 1, pi, data[d] as int);
            mpc_stream(data, r.0, r.1, r.2, end)
        }
    } else {
        plane
    }
}

#[via_fn]
proof fn mpc_stream_decreases(data: Seq<u8>, plane: Seq<int>, d: int, pi: int, end: int) {
    if 0 <= d && d < end && d < data.len() && 0 <= pi < plane.len() {
        lemma_mpc_run_bounds(data, plane, d + 1, pi, data[d] as int);
    }
}

/// A run moves forward in the stream, never past its end, and keeps the
/// length of the plane.
pub proof fn lemma_mpc_run_bounds(data: Seq<u8>, plane: Seq<int>, d: int, pi: int, count: int)
    requires
        0 <= d <= data.len(),
    ensures
        d <= mpc_run(data, plane, d, pi, count).1 <= data.len(),
        pi <= mpc_run(data, plane, d, pi, count).2,
        mpc_run(data, plane, d, pi, count).0.len() == plane.len(),
    decreases count,
{
    if count <= 0 || pi >= plane.len() || d >= data.len() || d < 0 || pi < 0 {
    } else {
        lemma_mpc_run_bounds(data, plane.update(pi, data[d] as int), d + 1, pi + 1, count - 1);
    }
}

/// The palette index of each pixel of frame `i`, or -1 where the stream
/// skipped the pixel or ended before it.
pub open spec fn mpc_plane(s: Seq<u8>, i: int) -> Seq<int> {
    mpc_stream(
        s,
        untouched(mpc_width(s, i) * mpc_height(s, i)),
        mpc_rle_start(s, i),
        0,
        mpc_rle_end(s, i),
    )
}

/// A plane as bytes, with `fill` at every pixel that no run reached.
pub open spec fn filled_plane(plane: Seq<int>, fill: u8) -> Seq<u8> {
    Seq::new(
        plane.len(),
        |i: int|
            if plane[i] < 0 {
                fill
            } else {
                plane[i] as u8
            },
    )
}

/// Expands the run-length encoded stream between `rle_start` and `rle_end`
/// into one palette index per pixel of a `width` by `height` frame. Pixels
/// that the stream skips hold `transparent_idx`.
pub fn decode_mpc_rle_to_indexed(
    data: &[u8],
    rle_start: u64,
    rle_end: u64,
    width: usize,
    height: usize,
    transparent_idx: u8,
) -> (buf: Vec<u8>)
    requires
        width <= 2048,
        height <= 2048,
    ensures
        buf@ == filled_plane(
            mpc_stream(
                data@,
                untouched(width as int * height as int),
                rle_start as int,
                0,
                rle_end as int,
            ),
            transparent_idx,
        ),
{
    assert(0 <= (width as int) * (height as int) <= 2048 * 2048) by (nonlinear_arith)
        requires
            0 <= width as int <= 2048,
            0 <= height as int <= 2048,
    ;
    let total: usize = width * height;
    let mut buf: Vec<u8> = vec![transparent_idx; total];
    let ghost start_plane = untouched(width as int * height as int);
    let ghost mut plane = start_plane;
    assert(buf@ =~= filled_plane(plane, transparent_idx));
    let mut d: u64 = rle_start;
    let mut pi: usize = 0;
    while d < rle_end && d < data.len() as u64 && pi < total
        invariant
            pi <= total + 127,
            total <= 2048 * 2048,
            plane.len() == total,
            buf.len() == total,
            buf@ == filled_plane(plane, transparent_idx),
            mpc_stream(data@, start_plane, rle_start as int, 0, rle_end as int) == mpc_stream(
                data@,
                plane,
                d as int,
                pi as int,
                rle_end as int,
            ),
        decreases data.len() - d,
    {
        let byte: u8 = data[d as usize];
        d = d + 1;
        if byte > 0x80 {
            pi = pi + (byte - 0x80) as usize;
        } else {
            let ghost run_plane = plane;
            let ghost run_d = d as int;
            let ghost run_pi = pi as int;
            let mut k: u8 = 0;
            while k < byte && pi < total && d < data.len() as u64
                invariant
                    k <= byte,
                    run_d <= d <= data.len(),
                    pi <= total,
                    plane.len() == total,
                    buf.len() == total,
                    buf@ == filled_plane(plane, transparent_idx),
                    mpc_run(data@, run_plane, run_d, run_pi, byte as int) == mpc_run(
                        data@,
                        plane,
                        d as int,
                        pi as int,
                        byte as int - k as int,
                    ),
                decreases byte - k,
            {
                buf[pi] = data[d as usize];
                proof {
                    plane = plane.update(pi as int, data@[d as int] as int);
                    assert(buf@ =~= filled_plane(plane, transparent_idx));
                }
                d = d + 1;
                pi = pi + 1;
                k = k + 1;
            }
        }
    }
    buf
}

/// The RGBA bytes of a plane under a palette table of 256 entries: a pixel
/// that no run reached is transparent black.
pub open spec fn plane_rgba(plane: Seq<int>, table: Seq<[u8; 4]>) -> Seq<u8> {
    Seq::new(
        4 * plane.len(),
        |k: int|
            if plane[k / 4] < 0 {
                0u8
            } else {
                table[plane[k / 4]][k % 4]
            },
    )
}

/// Expands the run-length encoded stream between `rle_start` and `rle_end`
/// into the RGBA pixels of a `width` by `height` frame, colours taken from
/// a palette table of 256 entries.
pub fn decode_rle_frame(
    data: &[u8],
    table: &[[u8; 4]],
    rle_start: u64,
    rle_end: u64,
    width: usize,
    height: usize,
) -> (pixels: Vec<u8>)
    requires
        table.len() == 256,
        width <= 2048,
        height <= 2048,
    ensures
        pixels@ == plane_rgba(
            mpc_stream(
                data@,
                untouched(width as int * height as int),
                rle_start as int,
                0,
                rle_end as int,
            ),
            table@,
        ),
{
    assert(0 <= (width as int) * (height as int) <= 2048 * 2048) by (nonlinear_arith)
        requires
            0 <= width as int <= 2048,
            0 <= height as int <= 2048,
    ;
    let total: usize = width * height;
    let mut pixels: Vec<u8> = vec![0u8; 4 * total];
    let ghost start_plane = untouched(width as int * height as int);
    let ghost mut plane = start_plane;
    assert(pixels@ =~= plane_rgba(plane, table@));
    let mut d: u64 = rle_start;
    let mut pi: usize = 0;
    while d < rle_end && d < data.len() as u64 && pi < total
        invariant
            pi <= total + 127,
            total <= 2048 * 2048,
            table.len() == 256,
            plane.len() == total,
            pixels.len() == 4 * total,
            pixels@ == plane_rgba(plane, table@),
            mpc_stream(data@, start_plane, rle_start as int, 0, rle_end as int) == mpc_stream(
                data@,
                plane,
                d as int,
                pi as int,
                rle_end as int,
            ),
        decreases data.len() - d,
    {
        let byte: u8 = data[d as usize];
        d = d + 1;
        if byte > 0x80 {
            pi = pi + (byte - 0x80) as usize;
        } else {
            let ghost run_plane = plane;
            let ghost run_d = d as int;
            let ghost run_pi = pi as int;
            let mut k: u8 = 0;
            while k < byte && pi < total && d < data.len() as u64
                invariant
                    k <= byte,
                    run_d <= d <= data.len(),
                    pi <= total,
                    total <= 2048 * 2048,
                    table.len() == 256,
                    plane.len() == total,
                    pixels.len() == 4 * total,
                    pixels@ == plane_rgba(plane, table@),
                    mpc_run(data@, run_plane, run_d, run_pi, byte as int) == mpc_run(
                        data@,
                        plane,
                        d as int,
                        pi as int,
                        byte as int - k as int,
                    ),
                decreases byte - k,
            {
                let c: usize = data[d as usize] as usize;
                pixels[4 * pi] = table[c][0];
                pixels[4 * pi + 1] = table[c][1];
                pixels[4 * pi + 2] = table[c][2];
                pixels[4 * pi + 3] = table[c][3];
                proof {
                    plane = plane.update(pi as int, c as int);
                    assert(pixels@ =~= plane_rgba(plane, table@));
                }
                d = d + 1;
                pi = pi + 1;
                k = k + 1;
            }
        }
    }
    pixels
}

/// What the fixed part of an MPC file says about the sprite.
#[derive(Clone, Copy, Debug, PartialEq, Eq, Structural)]
pub struct MpcHeader {
    pub frames_data_length_sum: u32,
    pub global_width: u32,
    pub global_height: u32,
    pub frame_count: u32,
    pub direction: u32,
    pub color_count: u32,
    pub interval: u32,
    pub bottom: i32,
    pub left: i32,
    /// Bytes of all frames decoded to RGBA, an empty frame counted as one pixel.
    pub total_pixel_bytes: u64,
}

/// The anchor's distance from the top for a sprite `height` pixels high
/// whose header stores `raw`.
pub open spec fn anchor_bottom(height: int, raw: int) -> int {
    if height >= 16 {
        height - 16 - raw
    } else {
        16 - height - raw
    }
}

/// `v` reduced to 32 bits and read as a two's-complement value.
pub open spec fn wrap32(v: int) -> int {
    signed32(v % 4294967296)
}

/// `v` reduced to 16 bits and read as a two's-complement value.
pub open spec fn wrap16(v: int) -> int {
    signed16(v % 65536)
}

/// Bytes that frame `i` takes as RGBA; an absent or empty frame is one pixel.
pub open spec fn mpc_frame_bytes(s: Seq<u8>, i: int) -> int {
    if mpc_frame_present(s, i) {
        mpc_width(s, i) * mpc_height(s, i) * 4
    } else {
        4
    }
}

/// Sum of `mpc_frame_bytes` over the first `n` frames.
pub open spec fn mpc_total_bytes(s: Seq<u8>, n: int) -> int
    decreases n,
{
    if n <= 0 {
        0
    } else {
        mpc_total_bytes(s, n - 1) + mpc_frame_bytes(s, n - 1)
    }
}

/// The header that `s` carries; meaningful where `has_mpc_signature(s)`.
pub open spec fn mpc_header_of(s: Seq<u8>) -> MpcHeader {
    MpcHeader {
        frames_data_length_sum: u32_le_at(s, 64) as u32,
        global_width: u32_le_at(s, 68) as u32,
        global_height: u32_le_at(s, 72) as u32,
        frame_count: u32_le_at(s, 76) as u32,
        direction: u32_le_at(s, 80) as u32,
        color_count: u32_le_at(s, 84) as u32,
        interval: u32_le_at(s, 88) as u32,
        bottom: wrap32(
            anchor_bottom(u32_le_at(s, 72) as int, signed32(u32_le_at(s, 92) as int)),
        ) as i32,
        left: (u32_le_at(s, 68) / 2) as i32,
        total_pixel_bytes: mpc_total_bytes(s, mpc_frame_count(s)) as u64,
    }
}

/// Reduces a value between -2^33 and 2^33 to a 32-bit two's-complement value.
pub fn wrap_to_i32(v: i64) -> (r: i32)
    requires
        -8589934592 < v < 8589934592,
    ensures
        r as int == wrap32(v as int),
{
    let m: i64 = (v + 8589934592) % 4294967296;
    if m < 2147483648 {
        m as i32
    } else {
        (m - 4294967296) as i32
    }
}

/// Reduces a value between -2^33 and 2^33 to a 16-bit two's-complement value.
pub fn wrap_to_i16(v: i64) -> (r: i16)
    requires
        -8589934592 < v < 8589934592,
    ensures
        r as int == wrap16(v as int),
{
    let m: i64 = (v + 8589934592) % 65536;
    if m < 32768 {
        m as i16
    } else {
        (m - 65536) as i16
    }
}

proof fn lemma_mpc_total_bound(s: Seq<u8>, n: int)
    requires
        n >= 0,
    ensures
        0 <= mpc_total_bytes(s, n) <= n * 16777216,
    decreases n,
{
    if n > 0 {
        lemma_mpc_total_bound(s, n - 1);
        if mpc_frame_present(s, n - 1) {
            let w = mpc_width(s, n - 1);
            let h = mpc_height(s, n - 1);
            assert(0 <= w * h <= 2048 * 2048) by (nonlinear_arith)
                requires
                    1 <= w <= 2048,
                    1 <= h <= 2048,
            ;
        }
    }
}

/// Parses the fixed part of an MPC file and sums the sizes of its frames.
/// Fails exactly where the file is shorter than 160 bytes or does not start
/// with the signature.
pub fn parse_mpc_header(data: &[u8]) -> (r: Option<MpcHeader>)
    ensures
        r == if has_mpc_signature(data@) {
            Some(mpc_header_of(data@))
        } else {
            None
        },
{
    if !check_mpc_signature(data) {
        return None;
    }
    let global_width: u32 = read_u32(data, 68);
    let global_height: u32 = read_u32(data, 72);
    let raw: i32 = read_i32(data, 92);
    let bottom: i32 = if global_height >= 16 {
        wrap_to_i32(global_height as i64 - 16 - raw as i64)
    } else {
        wrap_to_i32(16 - global_height as i64 - raw as i64)
    };
    let frame_count: usize = read_field16(data, 76) as usize;
    let mut total: u64 = 0;
    let mut i: usize = 0;
    while i < frame_count
        invariant
            i <= frame_count <= 65535,
            total as int == mpc_total_bytes(data@, i as int),
        decreases frame_count - i,
    {
        proof {
            lemma_mpc_total_bound(data@, i as int);
            lemma_mpc_total_bound(data@, i as int + 1);
        }
        match mpc_frame_info(data, i) {
            Some(f) => {
                assert(0 <= f.width as int * f.height as int <= 2048 * 2048) by (nonlinear_arith)
                    requires
                        1 <= f.width as int <= 2048,
                        1 <= f.height as int <= 2048,
                ;
                total = total + (f.width as u64) * (f.height as u64) * 4;
            },
            None => {
                total = total + 4;
            },
        }
        i = i + 1;
    }
    Some(
        MpcHeader {
            frames_data_length_sum: read_u32(data, 64),
            global_width,
            global_height,
            frame_count: read_u32(data, 76),
            direction: read_u32(data, 80),
            color_count: read_u32(data, 84),
            interval: read_u32(data, 88),
            bottom,
            left: (global_width / 2) as i32,
            total_pixel_bytes: total,
        },
    )
}

/// Number of palette entries that the file holds: the declared count, cut
/// where the file ends.
pub open spec fn mpc_palette_len(s: Seq<u8>) -> int {
    let declared = u32_le_at(s, 84) as int;
    let held = (s.len() - 128) / 4;
    if declared < held {
        declared
    } else {
        held
    }
}

/// The palette of an MPC file as RGBA: the stored order is blue, green, red,
/// and every entry is opaque.
pub open spec fn mpc_palette(s: Seq<u8>) -> Seq<[u8; 4]> {
    Seq::new(
        mpc_palette_len(s) as nat,
        |i: int| [s[128 + 4 * i + 2], s[128 + 4 * i + 1], s[128 + 4 * i], 255u8],
    )
}

/// Reads the palette of an MPC file.
pub fn read_mpc_palette(data: &[u8]) -> (p: Vec<[u8; 4]>)
    requires
        data.len() >= 128,
    ensures
        p@ == mpc_palette(data@),
{
    let declared: u32 = read_u32(data, 84);
    let held: usize = (data.len() - 128) / 4;
    let n: usize = if (declared as u64) < held as u64 {
        declared as usize
    } else {
        held
    };
    let mut p: Vec<[u8; 4]> = Vec::new();
    let mut i: usize = 0;
    while i < n
        invariant
            i <= n,
            n as int == mpc_palette_len(data@),
            128 + 4 * n <= data.len(),
            p.len() == i,
            forall|k: int| 0 <= k < i ==> #[trigger] p[k] == mpc_palette(data@)[k],
        decreases n - i,
    {
        let at: usize = 128 + 4 * i;
        p.push([data[at + 2], data[at + 1], data[at], 255u8]);
        i = i + 1;
    }
    assert(p@ =~= mpc_palette(data@));
    p
}

/// Frame `i` of an MPC file as RGBA at its own size, colours from the
/// file's palette as a table of 256 entries; an absent or empty frame is
/// one transparent pixel.
pub open spec fn mpc_frame_rgba(s: Seq<u8>, i: int) -> Seq<u8> {
    if mpc_frame_present(s, i) {
        plane_rgba(mpc_plane(s, i), padded_palette(mpc_palette(s)))
    } else {
        zeros(4)
    }
}

/// Decodes every frame of an MPC file to RGBA at the frame's own size. An
/// absent or empty frame becomes one transparent pixel. Fails exactly where
/// the file is too short or lacks the signature.
pub fn decode_mpc_to_rgba(data: &[u8]) -> (r: Option<Vec<DecodedFrame>>)
    ensures
        r.is_some() == has_mpc_signature(data@),
        r matches Some(frames) ==> {
            &&& frames.len() == mpc_frame_count(data@)
            &&& forall|i: int|
                0 <= i < frames.len() ==> {
                    &&& (#[trigger] frames[i]).pixels@ == mpc_frame_rgba(data@, i)
                    &&& frames[i].width as int == (if mpc_frame_present(data@, i) {
                        mpc_width(data@, i)
                    } else {
                        1
                    })
                    &&& frames[i].height as int == (if mpc_frame_present(data@, i) {
                        mpc_height(data@, i)
                    } else {
                        1
                    })
                }
        },
{
    if !check_mpc_signature(data) {
        return None;
    }
    let palette = read_mpc_palette(data);
    let table = pad_palette(palette.as_slice());
    let frame_count: usize = read_field16(data, 76) as usize;
    let mut frames: Vec<DecodedFrame> = Vec::new();
    let mut i: usize = 0;
    while i < frame_count
        invariant
            i <= frame_count,
            frame_count as int == mpc_frame_count(data@),
            table@ == padded_palette(mpc_palette(data@)),
            frames.len() == i,
            forall|k: int|
                0 <= k < i ==> {
                    &&& (#[trigger] frames[k]).pixels@ == mpc_frame_rgba(data@, k)
                    &&& frames[k].width as int == (if mpc_frame_present(data@, k) {
                        mpc_width(data@, k)
                    } else {
                        1
                    })
                    &&& frames[k].height as int == (if mpc_frame_present(data@, k) {
                        mpc_height(data@, k)
                    } else {
                        1
                    })
                },
        decreases frame_count - i,
    {
        match mpc_frame_info(data, i) {
            Some(f) => {
                let pixels = decode_rle_frame(
                    data,
                    table.as_slice(),
                    f.rle_start,
                    f.rle_end,
                    f.width as usize,
                    f.height as usize,
                );
                frames.push(DecodedFrame { width: f.width, height: f.height, pixels });
            },
            None => {
                let pixels: Vec<u8> = vec![0u8; 4];
                assert(pixels@ =~= zeros(4));
                frames.push(DecodedFrame { width: 1, height: 1, pixels });
            },
        }
        i = i + 1;
    }
    Some(frames)
}

/// Decodes every frame of an MPC file to RGBA, as `decode_mpc_to_rgba` does.
pub fn decode_mpc_frames(data: &[u8]) -> (r: Option<Vec<DecodedFrame>>)
    ensures
        r.is_some() == has_mpc_signature(data@),
        r matches Some(frames) ==> {
            &&& frames.len() == mpc_frame_count(data@)
            &&& forall|i: int|
                0 <= i < frames.len() ==> {
                    &&& (#[trigger] frames[i]).pixels@ == mpc_frame_rgba(data@, i)
                    &&& frames[i].width as int == (if mpc_frame_present(data@, i) {
                        mpc_width(data@, i)
                    } else {
                        1
                    })
                    &&& frames[i].height as int == (if mpc_frame_present(data@, i) {
                        mpc_height(data@, i)
                    } else {
                        1
                    })
                }
        },
{
    decode_mpc_to_rgba(data)
}

/// True where some pixel of the plane holds the palette index `v`.
pub open spec fn plane_holds(plane: Seq<int>, v: int) -> bool {
    exists|k: int| 0 <= k < plane.len() && #[trigger] plane[k] == v
}

/// True where an opaque pixel of one of the first `n` frames holds the
/// palette index `v`.
pub open spec fn used_before(s: Seq<u8>, v: int, n: int) -> bool {
    exists|i: int|
        0 <= i < n && #[trigger] mpc_frame_present(s, i) && plane_holds(mpc_plane(s, i), v)
}

/// True where an opaque pixel of some frame of the file holds the palette index `v`.
pub open spec fn index_used(s: Seq<u8>, v: int) -> bool {
    used_before(s, v, mpc_frame_count(s))
}

/// True where `t` is the index that stands for transparency in the file:
/// the smallest palette index that no opaque pixel holds, or 0 where all 256
/// are held.
pub open spec fn is_transparent_index(s: Seq<u8>, t: int) -> bool {
    &&& 0 <= t < 256
    &&& forall|v: int| 0 <= v < t ==> index_used(s, v)
    &&& (!index_used(s, t) || (t == 0 && forall|v: int| 0 <= v < 256 ==> index_used(s, v)))
}

/// The smallest palette index from `v` on that no opaque pixel holds, or 0
/// where there is none below 256.
pub open spec fn first_unused(s: Seq<u8>, v: int) -> int
    decreases 256 - v,
{
    if v >= 256 {
        0
    } else if !index_used(s, v) {
        v
    } else {
        first_unused(s, v + 1)
    }
}

/// The palette index that stands for transparency in the file.
pub open spec fn transparent_index(s: Seq<u8>) -> int {
    first_unused(s, 0)
}

/// Where some palette index is free, the transparent index is a free one.
pub proof fn lemma_first_unused_is_free(s: Seq<u8>, from: int, free: int)
    requires
        0 <= from <= free < 256,
        !index_used(s, free),
    ensures
        from <= first_unused(s, from) <= free,
        !index_used(s, first_unused(s, from)),
    decreases 256 - from,
{
    if index_used(s, from) {
        lemma_first_unused_is_free(s, from + 1, free);
    }
}

/// Where some palette index is free, no opaque pixel of any frame holds
/// the transparent index: a pixel that holds it was skipped by the source.
pub proof fn lemma_transparent_index_is_unused(s: Seq<u8>, free: int, i: int, k: int)
    requires
        0 <= free < 256,
        !index_used(s, free),
        mpc_frame_present(s, i),
        0 <= k < mpc_plane(s, i).len(),
    ensures
        mpc_plane(s, i)[k] != transparent_index(s),
        filled_plane(mpc_plane(s, i), transparent_index(s) as u8)[k] == transparent_index(s)
            ==> mpc_plane(s, i)[k] < 0,
{
    lemma_first_unused_is_free(s, 0, free);
    let t = transparent_index(s);
    if mpc_plane(s, i)[k] == t {
        assert(plane_holds(mpc_plane(s, i), t));
        assert(used_before(s, t, mpc_frame_count(s)));
    }
    lemma_plane_range(s, i, k);
}

/// Every entry of a frame's plane is a byte value, or -1.
pub proof fn lemma_plane_range(s: Seq<u8>, i: int, k: int)
    requires
        0 <= k < mpc_plane(s, i).len(),
    ensures
        -1 <= mpc_plane(s, i)[k] < 256,
        mpc_plane(s, i).len() == untouched(mpc_width(s, i) * mpc_height(s, i)).len(),
{
    let start = untouched(mpc_width(s, i) * mpc_height(s, i));
    lemma_stream_range(s, start, mpc_rle_start(s, i), 0, mpc_rle_end(s, i));
}

/// True where every entry of the plane is a byte value, or -1.
pub open spec fn plane_in_range(plane: Seq<int>) -> bool {
    forall|k: int| 0 <= k < plane.len() ==> -1 <= #[trigger] plane[k] < 256
}

/// A run keeps the plane's entries in range.
pub proof fn lemma_run_range(data: Seq<u8>, plane: Seq<int>, d: int, pi: int, count: int)
    requires
        plane_in_range(plane),
    ensures
        plane_in_range(mpc_run(data, plane, d, pi, count).0),
        mpc_run(data, plane, d, pi, count).0.len() == plane.len(),
    decreases count,
{
    if count <= 0 || pi >= plane.len() || d >= data.len() || d < 0 || pi < 0 {
    } else {
        let next = plane.update(pi, data[d] as int);
        assert(plane_in_range(next));
        lemma_run_range(data, next, d + 1, pi + 1, count - 1);
    }
}

/// A stream keeps the plane's length and its entries in range.
pub proof fn lemma_stream_range(data: Seq<u8>, plane: Seq<int>, d: int, pi: int, end: int)
    requires
        plane_in_range(plane),
    ensures
        plane_in_range(mpc_stream(data, plane, d, pi, end)),
        mpc_stream(data, plane, d, pi, end).len() == plane.len(),
    decreases data.len() - d,
{
    if 0 <= d && d < end && d < data.len() && 0 <= pi < plane.len() {
        if data[d] > 0x80 {
            lemma_stream_range(data, plane, d + 1, pi + (data[d] - 0x80), end);
        } else {
            lemma_mpc_run_bounds(data, plane, d + 1, pi, data[d] as int);
            lemma_run_range(data, plane, d + 1, pi, data[d] as int);
            let r = mpc_run(data, plane, d + 1, pi, data[d] as int);
            lemma_stream_range(data, r.0, r.1, r.2, end);
        }
    }
}

/// Marks in `used` every palette index that an opaque run of the stream
/// between `rle_start` and `rle_end` stores in a `width` by `height` frame.
pub fn mark_used_indices(
    data: &[u8],
    rle_start: u64,
    rle_end: u64,
    width: usize,
    height: usize,
    used: &mut Vec<bool>,
)
    requires
        width <= 2048,
        height <= 2048,
        old(used).len() == 256,
    ensures
        final(used).len() == 256,
        forall|v: int|
            0 <= v < 256 ==> (#[trigger] final(used)[v] <==> (old(used)[v] || plane_holds(
                mpc_stream(
                    data@,
                    untouched(width as int * height as int),
                    rle_start as int,
                    0,
                    rle_end as int,
                ),
                v,
            ))),
{
    assert(0 <= (width as int) * (height as int) <= 2048 * 2048) by (nonlinear_arith)
        requires
            0 <= width as int <= 2048,
            0 <= height as int <= 2048,
    ;
    let total: usize = width * height;
    let ghost start_plane = untouched(width as int * height as int);
    let ghost mut plane = start_plane;
    let mut d: u64 = rle_start;
    let mut pi: usize = 0;
    while d < rle_end && d < data.len() as u64 && pi < total
        invariant
            pi <= total + 127,
            total <= 2048 * 2048,
            plane.len() == total,
            used.len() == 256,
            forall|k: int| pi <= k < total ==> #[trigger] plane[k] == -1,
            forall|v: int|
                0 <= v < 256 ==> (#[trigger] used[v] <==> (old(used)[v] || plane_holds(plane, v))),
            mpc_stream(data@, start_plane, rle_start as int, 0, rle_end as int) == mpc_stream(
                data@,
                plane,
                d as int,
                pi as int,
                rle_end as int,
            ),
        decreases data.len() - d,
    {
        let byte: u8 = data[d as usize];
        d = d + 1;
        if byte > 0x80 {
            pi = pi + (byte - 0x80) as usize;
        } else {
            let ghost run_plane = plane;
            let ghost run_d = d as int;
            let ghost run_pi = pi as int;
            let mut k: u8 = 0;
            while k < byte && pi < total && d < data.len() as u64
                invariant
                    k <= byte,
                    run_d <= d <= data.len(),
                    pi <= total,
                    plane.len() == total,
                    used.len() == 256,
                    forall|j: int| pi <= j < total ==> #[trigger] plane[j] == -1,
                    forall|v: int|
                        0 <= v < 256 ==> (#[trigger] used[v] <==> (old(used)[v] || plane_holds(
                            plane,
                            v,
                        ))),
                    mpc_run(data@, run_plane, run_d, run_pi, byte as int) == mpc_run(
                        data@,
                        plane,
                        d as int,
                        pi as int,
                        byte as int - k as int,
                    ),
                decreases byte - k,
            {
                let c: usize = data[d as usize] as usize;
                let ghost before = plane;
                let ghost used_before_step = used@;
                used[c] = true;
                proof {
                    plane = before.update(pi as int, c as int);
                    assert(plane[pi as int] == c as int);
                    assert forall|v: int| 0 <= v < 256 implies (#[trigger] used[v] <==> (old(
                        used,
                    )[v] || plane_holds(plane, v))) by {
                        if v == c as int {
                            assert(plane_holds(plane, v));
                        } else {
                            assert(used[v] == used_before_step[v]);
                            if plane_holds(before, v) {
                                let w = choose|w: int| 0 <= w < before.len() && before[w] == v;
                                assert(plane[w] == v);
                            }
                            if plane_holds(plane, v) {
                                let w = choose|w: int| 0 <= w < plane.len() && plane[w] == v;
                                assert(before[w] == v);
                            }
                        }
                    }
                }
                d = d + 1;
                pi = pi + 1;
                k = k + 1;
            }
        }
    }
}

/// Finds the palette index that can stand for transparency: the smallest
/// one that no opaque pixel of any frame holds. Where all 256 are held the
/// answer is 0.
pub fn find_transparent_index_mpc(data: &[u8]) -> (t: u8)
    ensures
        t as int == transparent_index(data@),
        is_transparent_index(data@, t as int),
{
    let frame_count: usize = read_field16(data, 76) as usize;
    let mut used: Vec<bool> = vec![false; 256];
    let mut i: usize = 0;
    while i < frame_count
        invariant
            i <= frame_count,
            frame_count as int == mpc_frame_count(data@),
            used.len() == 256,
            forall|v: int| 0 <= v < 256 ==> (#[trigger] used[v] <==> used_before(data@, v, i as int)),
        decreases frame_count - i,
    {
        let ghost prior = used@;
        match mpc_frame_info(data, i) {
            Some(f) => {
                mark_used_indices(
                    data,
                    f.rle_start,
                    f.rle_end,
                    f.width as usize,
                    f.height as usize,
                    &mut used,
                );
            },
            None => {},
        }
        proof {
            assert forall|v: int| 0 <= v < 256 implies (#[trigger] used[v] <==> used_before(
                data@,
                v,
                i as int + 1,
            )) by {
                let here = mpc_frame_present(data@, i as int) && plane_holds(
                    mpc_plane(data@, i as int),
                    v,
                );
                assert(used[v] <==> (prior[v] || here));
                if used_before(data@, v, i as int) {
                    let w = choose|w: int|
                        0 <= w < i && #[trigger] mpc_frame_present(data@, w) && plane_holds(
                            mpc_plane(data@, w),
                            v,
                        );
                    assert(mpc_frame_present(data@, w));
                }
                if used_before(data@, v, i as int + 1) {
                    let w = choose|w: int|
                        0 <= w < i + 1 && #[trigger] mpc_frame_present(data@, w) && plane_holds(
                            mpc_plane(data@, w),
                            v,
                        );
                    if w < i {
                        assert(mpc_frame_present(data@, w));
                    }
                }
                if here {
                    assert(mpc_frame_present(data@, i as int));
                }
            }
        }
        i = i + 1;
    }
    let mut t: usize = 0;
    while t < 256
        invariant
            t <= 256,
            used.len() == 256,
            forall|v: int| 0 <= v < 256 ==> (#[trigger] used[v] <==> index_used(data@, v)),
            forall|v: int| 0 <= v < t ==> #[trigger] used[v],
            transparent_index(data@) == first_unused(data@, t as int),
        decreases 256 - t,
    {
        if !used[t] {
            proof {
                assert forall|v: int| 0 <= v < t implies index_used(data@, v) by {
                    assert(used[v]);
                }
            }
            return t as u8;
        }
        t = t + 1;
    }
    proof {
        assert forall|v: int| 0 <= v < 256 implies index_used(data@, v) by {
            assert(used[v]);
        }
    }
    0
}

} // verus!
