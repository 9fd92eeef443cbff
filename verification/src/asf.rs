//! The ASF sprite format: a header, a BGRA palette, a frame index and one
//! run-length encoded stream per frame, each painted on a canvas-sized
//! RGBA buffer.

use crate::bytes::{read_i32, read_u32, signed32, u32_le_at};
use crate::decode::{write4, zeros};
use vstd::prelude::*;

verus! {

/// What the fixed part of an ASF file says about the sprite.
#[derive(Clone, Copy, Debug, PartialEq, Eq, Structural)]
pub struct AsfHeader {
    pub width: u32,
    pub height: u32,
    pub frame_count: u32,
    pub directions: u32,
    pub color_count: u32,
    pub interval: u32,
    pub left: i32,
    pub bottom: i32,
    pub frames_per_direction: u32,
}

/// True where `s` holds at least the 80 bytes of the fixed part and starts
/// with the ASCII signature `ASF 1.0`.
pub open spec fn has_asf_signature(s: Seq<u8>) -> bool {
    s.len() >= 80 && s[0] == 0x41 && s[1] == 0x53 && s[2] == 0x46 && s[3] == 0x20 && s[4] == 0x31
        && s[5] == 0x2e && s[6] == 0x30
}

/// The header that `s` carries; meaningful where `has_asf_signature(s)`.
pub open spec fn asf_header_of(s: Seq<u8>) -> AsfHeader {
    let fc = u32_le_at(s, 24) as int;
    let dirs = u32_le_at(s, 28) as int;
    AsfHeader {
        width: u32_le_at(s, 16) as u32,
        height: u32_le_at(s, 20) as u32,
        frame_count: fc as u32,
        directions: dirs as u32,
        color_count: u32_le_at(s, 32) as u32,
        interval: u32_le_at(s, 36) as u32,
        left: signed32(u32_le_at(s, 40) as int) as i32,
        bottom: signed32(u32_le_at(s, 44) as int) as i32,
        frames_per_direction: (if dirs > 0 {
            fc / dirs
        } else {
            fc
        }) as u32,
    }
}

/// Tests the length and the signature of an ASF file.
pub fn check_asf_signature(data: &[u8]) -> (ok: bool)
    ensures
        ok == has_asf_signature(data@),
{
    data.len() >= 80 && data[0] == 0x41 && data[1] == 0x53 && data[2] == 0x46 && data[3] == 0x20
        && data[4] == 0x31 && data[5] == 0x2e && data[6] == 0x30
}

/// Parses the fixed part of an ASF file. Fails exactly where the file is
/// shorter than 80 bytes or does not start with the signature.
pub fn parse_asf_header(data: &[u8]) -> (r: Option<AsfHeader>)
    ensures
        r == if has_asf_signature(data@) {
            Some(asf_header_of(data@))
        } else {
            None
        },
{
    if !check_asf_signature(data) {
        return None;
    }
    let frame_count: u32 = read_u32(data, 24);
    let directions: u32 = read_u32(data, 28);
    let frames_per_direction: u32 = if directions > 0 {
        frame_count / directions
    } else {
        frame_count
    };
    Some(
        AsfHeader {
            width: read_u32(data, 16),
            height: read_u32(data, 20),
            frame_count,
            directions,
            color_count: read_u32(data, 32),
            interval: read_u32(data, 36),
            left: read_i32(data, 40),
            bottom: read_i32(data, 44),
            frames_per_direction,
        },
    )
}

/// Number of palette entries that the file holds: the declared count, cut
/// where the file ends.
pub open spec fn asf_palette_len(s: Seq<u8>) -> int {
    let declared = u32_le_at(s, 32) as int;
    let held = (s.len() - 80) / 4;
    if declared < held {
        declared
    } else {
        held
    }
}

/// The palette of an ASF file as RGBA: the stored order is blue, green, red,
/// and every entry is opaque.
pub open spec fn asf_palette(s: Seq<u8>) -> Seq<[u8; 4]> {
    Seq::new(
        asf_palette_len(s) as nat,
        |i: int| [s[80 + 4 * i + 2], s[80 + 4 * i + 1], s[80 + 4 * i], 255u8],
    )
}

/// Reads the palette of an ASF file.
pub fn read_asf_palette(data: &[u8]) -> (p: Vec<[u8; 4]>)
    requires
        data.len() >= 80,
    ensures
        p@ == asf_palette(data@),
{
    let declared: u32 = read_u32(data, 32);
    let held: usize = (data.len() - 80) / 4;
    let n: usize = if (declared as u64) < held as u64 {
        declared as usize
    } else {
        held
    };
    let mut p: Vec<[u8; 4]> = Vec::new();
    let mut i: usize = 0;
    while i < n
        invariant
            i <= n,
            n as int == asf_palette_len(data@),
            80 + 4 * n <= data.len(),
            p.len() == i,
            forall|k: int| 0 <= k < i ==> #[trigger] p[k] == asf_palette(data@)[k],
        decreases n - i,
    {
        let at: usize = 80 + 4 * i;
        p.push([data[at + 2], data[at + 1], data[at], 255u8]);
        i = i + 1;
    }
    assert(p@ =~= asf_palette(data@));
    p
}

/// A palette as a table of exactly 256 entries: the first 256 of `p`,
/// filled up with zero entries.
pub open spec fn padded_palette(p: Seq<[u8; 4]>) -> Seq<[u8; 4]> {
    Seq::new(
        256,
        |i: int|
            if i < p.len() {
                p[i]
            } else {
                [0u8, 0u8, 0u8, 0u8]
            },
    )
}

/// Cuts or fills a palette to exactly 256 entries.
pub fn pad_palette(p: &[[u8; 4]]) -> (t: Vec<[u8; 4]>)
    ensures
        t@ == padded_palette(p@),
{
    let mut t: Vec<[u8; 4]> = Vec::new();
    let mut i: usize = 0;
    while i < 256
        invariant
            i <= 256,
            t.len() == i,
            forall|k: int| 0 <= k < i ==> #[trigger] t[k] == padded_palette(p@)[k],
        decreases 256 - i,
    {
        if i < p.len() {
            t.push(p[i]);
        } else {
            t.push([0u8, 0u8, 0u8, 0u8]);
        }
        i = i + 1;
    }
    assert(t@ =~= padded_palette(p@));
    t
}

/// One run of an ASF stream: up to `count` pixels with the alpha `alpha`,
/// starting at byte `pi` of `pixels`, colour indices read from `d` on.
/// A run with alpha 0 skips pixels and reads nothing. A colour index outside
/// the palette leaves its pixel untouched. Gives the buffer, the stream
/// position and the buffer position after the run.
pub open spec fn asf_run(
    data: Seq<u8>,
    palette: Seq<[u8; 4]>,
    pixels: Seq<u8>,
    d: int,
    pi: int,
    alpha: u8,
    count: int,
) -> (Seq<u8>, int, int)
    decreases count,
{
    if count <= 0 || pi >= pixels.len() {
        (pixels, d, pi)
    } else if alpha == 0 {
        asf_run(data, palette, pixels, d, pi + 4, alpha, count - 1)
    } else if 0 <= d < data.len() {
        let c = data[d] as int;
        let next = if c < palette.len() {
            write4(pixels, pi, seq![palette[c][0], palette[c][1], palette[c][2], alpha])
        } else {
            pixels
        };
        asf_run(data, palette, next, d + 1, pi + 4, alpha, count - 1)
    } else {
        (pixels, d, pi)
    }
}

/// The buffer after the runs of an ASF stream from `d` on were painted,
/// starting at byte `pi`. Each run opens with a count and an alpha. The
/// stream ends at `end`, one byte before the end of the file, or where the
/// buffer is full.
pub open spec fn asf_frame(
    data: Seq<u8>,
    palette: Seq<[u8; 4]>,
    pixels: Seq<u8>,
    d: int,
    pi: int,
    end: int,
) -> Seq<u8>
    decreases data.len() - d,
    via asf_frame_decreases
{
    if 0 <= d && d < end && d + 1 < data.len() && pi < pixels.len() {
        let r = asf_run(data, palette, pixels, d + 2, pi, data[d + 1], data[d] as int);
        asf_frame(data, palette, r.0, r.1, r.2, end)
    } else {
        pixels
    }
}

#[via_fn]
proof fn asf_frame_decreases(
    data: Seq<u8>,
    palette: Seq<[u8; 4]>,
    pixels: Seq<u8>,
    d: int,
    pi: int,
    end: int,
) {
    if 0 <= d && d < end && d + 1 < data.len() && pi < pixels.len() {
        lemma_asf_run_bounds(data, palette, pixels, d + 2, pi, data[d + 1], data[d] as int);
    }
}

/// A run moves forward in the stream, never past its end, and keeps the
/// length of the buffer.
pub proof fn lemma_asf_run_bounds(
    data: Seq<u8>,
    palette: Seq<[u8; 4]>,
    pixels: Seq<u8>,
    d: int,
    pi: int,
    alpha: u8,
    count: int,
)
    requires
        0 <= d <= data.len(),
    ensures
        d <= asf_run(data, palette, pixels, d, pi, alpha, count).1 <= data.len(),
        pi <= asf_run(data, palette, pixels, d, pi, alpha, count).2,
        asf_run(data, palette, pixels, d, pi, alpha, count).0.len() == pixels.len(),
    decreases count,
{
    if count <= 0 || pi >= pixels.len() {
    } else if alpha == 0 {
        lemma_asf_run_bounds(data, palette, pixels, d, pi + 4, alpha, count - 1);
    } else if d < data.len() {
        let c = data[d] as int;
        let next = if c < palette.len() {
            write4(pixels, pi, seq![palette[c][0], palette[c][1], palette[c][2], alpha])
        } else {
            pixels
        };
        lemma_asf_run_bounds(data, palette, next, d + 1, pi + 4, alpha, count - 1);
    }
}

/// Paints the run-length encoded stream at `offset` into `pixels`, an RGBA
/// buffer of `width` by `height` pixels.
pub fn decode_asf_rle_frame(
    data: &[u8],
    palette: &[[u8; 4]],
    offset: usize,
    length: usize,
    width: usize,
    height: usize,
    pixels: &mut Vec<u8>,
)
    requires
        old(pixels).len() == (width * height) * 4,
    ensures
        final(pixels)@ == asf_frame(
            data@,
            palette@,
            old(pixels)@,
            offset as int,
            0,
            offset as int + length as int,
        ),
{
    let ghost end: int = offset as int + length as int;
    let max: usize = pixels.len();
    let mut d: usize = offset;
    let mut pi: usize = 0;
    while d - offset < length && data.len() >= 2 && d < data.len() - 1 && pi < max
        invariant
            offset <= d,
            pi <= max,
            pi % 4 == 0,
            max % 4 == 0,
            pixels.len() == max,
            end == offset as int + length as int,
            asf_frame(data@, palette@, old(pixels)@, offset as int, 0, end) == asf_frame(
                data@,
                palette@,
                pixels@,
                d as int,
                pi as int,
                end,
            ),
        decreases data.len() - d,
    {
        let count: u8 = data[d];
        let alpha: u8 = data[d + 1];
        d = d + 2;
        let ghost run_pixels = pixels@;
        let ghost run_d = d as int;
        let ghost run_pi = pi as int;
        let mut k: u8 = 0;
        while k < count && pi < max && (alpha == 0 || d < data.len())
            invariant
                k <= count,
                run_d <= d <= data.len(),
                pi <= max,
                pi % 4 == 0,
                max % 4 == 0,
                pixels.len() == max,
                asf_run(data@, palette@, run_pixels, run_d, run_pi, alpha, count as int)
                    == asf_run(
                    data@,
                    palette@,
                    pixels@,
                    d as int,
                    pi as int,
                    alpha,
                    count as int - k as int,
                ),
            decreases count - k,
        {
            if alpha != 0 {
                let c: usize = data[d] as usize;
                d = d + 1;
                if c < palette.len() {
                    let ghost before = pixels@;
                    pixels[pi] = palette[c][0];
                    pixels[pi + 1] = palette[c][1];
                    pixels[pi + 2] = palette[c][2];
                    pixels[pi + 3] = alpha;
                    assert(pixels@ =~= write4(
                        before,
                        pi as int,
                        seq![palette@[c as int][0], palette@[c as int][1], palette@[c as int][2], alpha],
                    ));
                }
            }
            pi = pi + 4;
            k = k + 1;
        }
    }
}

/// Low 16 bits of the 32-bit field at `off`.
pub open spec fn field16(s: Seq<u8>, off: int) -> int {
    (u32_le_at(s, off) % 65536) as int
}

/// Offset of the frame index: it follows the palette entries that the file holds.
pub open spec fn asf_index_start(s: Seq<u8>) -> int {
    80 + 4 * asf_palette_len(s)
}

/// Number of frames whose index entry lies inside the file.
pub open spec fn asf_frames_listed(s: Seq<u8>) -> int {
    let declared = field16(s, 24);
    let held = (s.len() - asf_index_start(s)) / 8;
    if declared < held {
        declared
    } else {
        held
    }
}

/// Frame `i` of an ASF file painted with `palette` on a transparent canvas.
/// A frame without an index entry stays transparent.
pub open spec fn asf_canvas(s: Seq<u8>, palette: Seq<[u8; 4]>, i: int) -> Seq<u8> {
    let blank = zeros(field16(s, 16) * field16(s, 20) * 4);
    if i < asf_frames_listed(s) {
        let at = asf_index_start(s) + 8 * i;
        asf_frame(
            s,
            palette,
            blank,
            u32_le_at(s, at) as int,
            0,
            u32_le_at(s, at) as int + u32_le_at(s, at + 4) as int,
        )
    } else {
        blank
    }
}

/// Reads the low 16 bits of the 32-bit field at `off`.
pub fn read_field16(data: &[u8], off: usize) -> (v: u16)
    ensures
        v as int == field16(data@, off as int),
{
    (read_u32(data, off) % 65536) as u16
}

/// True where this machine can address one canvas of the sprite, or the
/// sprite has no frame. A canvas of fewer than 32768 pixels each way can be
/// addressed on every machine.
pub open spec fn asf_canvas_fits(s: Seq<u8>) -> bool {
    field16(s, 24) == 0 || field16(s, 16) * field16(s, 20) * 4 <= usize::MAX
}

/// Tests whether this machine can address one canvas of the sprite.
pub fn asf_canvas_is_addressable(data: &[u8]) -> (r: bool)
    ensures
        r == asf_canvas_fits(data@),
{
    let w: u64 = read_field16(data, 16) as u64;
    let h: u64 = read_field16(data, 20) as u64;
    assert(0 <= w as int * h as int <= 65535 * 65535) by (nonlinear_arith)
        requires
            0 <= w as int <= 65535,
            0 <= h as int <= 65535,
    ;
    read_field16(data, 24) == 0 || w * h * 4 <= usize::MAX as u64
}

/// Decodes every frame of an ASF file with the given palette, each on a
/// canvas of the sprite's size.
pub fn decode_asf_canvases(data: &[u8], palette: &[[u8; 4]]) -> (frames: Vec<Vec<u8>>)
    requires
        data.len() >= 80,
        asf_canvas_fits(data@),
    ensures
        frames.len() == field16(data@, 24),
        forall|i: int|
            0 <= i < frames.len() ==> (#[trigger] frames[i])@ == asf_canvas(data@, palette@, i),
{
    let w: usize = read_field16(data, 16) as usize;
    let h: usize = read_field16(data, 20) as usize;
    let frame_count: usize = read_field16(data, 24) as usize;
    let declared: u32 = read_u32(data, 32);
    let held_colors: usize = (data.len() - 80) / 4;
    let colors: usize = if (declared as u64) < held_colors as u64 {
        declared as usize
    } else {
        held_colors
    };
    let index_start: usize = 80 + 4 * colors;
    let held: usize = (data.len() - index_start) / 8;
    let listed: usize = if frame_count < held {
        frame_count
    } else {
        held
    };
    assert(0 <= (w as int) * (h as int) <= 65535 * 65535) by (nonlinear_arith)
        requires
            0 <= w as int <= 65535,
            0 <= h as int <= 65535,
    ;
    let size: usize = if frame_count > 0 {
        (w * h) * 4
    } else {
        0
    };
    let mut frames: Vec<Vec<u8>> = Vec::new();
    let mut i: usize = 0;
    while i < frame_count
        invariant
            i <= frame_count,
            frame_count as int == field16(data@, 24),
            w as int == field16(data@, 16),
            h as int == field16(data@, 20),
            frame_count > 0 ==> size == (w * h) * 4,
            index_start as int == asf_index_start(data@),
            listed as int == asf_frames_listed(data@),
            index_start + 8 * listed <= data.len(),
            frames.len() == i,
            forall|k: int|
                0 <= k < i ==> (#[trigger] frames[k])@ == asf_canvas(data@, palette@, k),
        decreases frame_count - i,
    {
        let mut pixels: Vec<u8> = vec![0u8; size];
        assert(pixels@ =~= zeros(field16(data@, 16) * field16(data@, 20) * 4));
        if i < listed {
            let at: usize = index_start + 8 * i;
            let offset: usize = read_u32(data, at) as usize;
            let length: usize = read_u32(data, at + 4) as usize;
            decode_asf_rle_frame(data, palette, offset, length, w, h, &mut pixels);
        }
        frames.push(pixels);
        i = i + 1;
    }
    frames
}

/// Decodes an ASF file to one RGBA canvas per frame, as a consumer that
/// keeps a palette table of 256 entries sees it: a colour index that the
/// palette does not hold paints black with the run's alpha. Gives the canvas
/// width and height and the frame count with the frames. Fails exactly
/// where the file is too short, lacks the signature, or has a canvas that
/// this machine cannot address.
pub fn decode_asf_to_rgba(data: &[u8]) -> (r: Option<(u16, u16, u16, Vec<Vec<u8>>)>)
    ensures
        r.is_some() == (has_asf_signature(data@) && asf_canvas_fits(data@)),
        r matches Some((w, h, n, frames)) ==> {
            &&& w as int == field16(data@, 16)
            &&& h as int == field16(data@, 20)
            &&& n as int == field16(data@, 24)
            &&& frames.len() == n
            &&& forall|i: int|
                0 <= i < frames.len() ==> (#[trigger] frames[i])@ == asf_canvas(
                    data@,
                    padded_palette(asf_palette(data@)),
                    i,
                )
        },
{
    if !check_asf_signature(data) || !asf_canvas_is_addressable(data) {
        return None;
    }
    let palette = read_asf_palette(data);
    let table = pad_palette(palette.as_slice());
    let frames = decode_asf_canvases(data, table.as_slice());
    Some((read_field16(data, 16), read_field16(data, 20), read_field16(data, 24), frames))
}

/// Decodes every frame of an ASF file to a canvas-sized RGBA buffer, with
/// the palette table of `decode_asf_to_rgba`.
pub fn decode_asf_frames(data: &[u8]) -> (r: Option<Vec<Vec<u8>>>)
    ensures
        r.is_some() == (has_asf_signature(data@) && asf_canvas_fits(data@)),
        r matches Some(frames) ==> {
            &&& frames.len() == field16(data@, 24)
            &&& forall|i: int|
                0 <= i < frames.len() ==> (#[trigger] frames[i])@ == asf_canvas(
                    data@,
                    padded_palette(asf_palette(data@)),
                    i,
                )
        },
{
    match decode_asf_to_rgba(data) {
        Some((_, _, _, frames)) => Some(frames),
        None => None,
    }
}

} // verus!
