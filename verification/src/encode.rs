//! Building an MSF file: staging each frame's pixel data, laying out the
//! frame table over the concatenated data, and writing the container.

use crate::bbox::{bbox_of, bbox_rows, extract_bbox_pixels, tight_bbox_exact};
use crate::bbox::{has_content, is_tight_bbox, lemma_bbox_rows_len, visible_at};
use crate::bytes::{le16, push_i16, push_u16, push_u32, signed16, unsigned16};
use crate::compression::{opt_bytes, zstd_compress, zstd_compressed, ZSTD_LEVEL};
use crate::msf::{entry_bytes, MsfFrameEntry, PixelFormat};
use crate::palette::{indexed_alpha_plane, indexed_plane, rgba_to_indexed, rgba_to_indexed_alpha};
use vstd::prelude::*;

verus! {

/// A frame ready to be stored: its place in the canvas and its pixel data
/// in the container's pixel format. An empty frame has no data.
pub struct StagedFrame {
    pub offset_x: i16,
    pub offset_y: i16,
    pub width: u16,
    pub height: u16,
    pub data: Vec<u8>,
}

/// What a `StagedFrame` holds, as plain values.
pub ghost struct Staged {
    pub x: int,
    pub y: int,
    pub w: int,
    pub h: int,
    pub data: Seq<u8>,
}

impl StagedFrame {
    /// The frame as plain values.
    pub open spec fn view(&self) -> Staged {
        Staged {
            x: self.offset_x as int,
            y: self.offset_y as int,
            w: self.width as int,
            h: self.height as int,
            data: self.data@,
        }
    }
}

/// The frames of a vector as plain values.
pub open spec fn staged_views(frames: Seq<StagedFrame>) -> Seq<Staged> {
    Seq::new(frames.len(), |i: int| frames[i]@)
}

/// The pixel data of the first `n` frames, one behind the other.
pub open spec fn blob_prefix(frames: Seq<Staged>, n: int) -> Seq<u8>
    decreases n,
{
    if n <= 0 {
        Seq::<u8>::empty()
    } else {
        blob_prefix(frames, n - 1) + frames[n - 1].data
    }
}

/// The whole pixel data of a sprite.
pub open spec fn blob_of_frames(frames: Seq<Staged>) -> Seq<u8> {
    blob_prefix(frames, frames.len() as int)
}

/// The table entry of frame `i`: its data starts where the data of the
/// frames before it ends. Offsets and lengths are stored in 32 bits.
pub open spec fn table_entry(frames: Seq<Staged>, i: int) -> MsfFrameEntry {
    MsfFrameEntry {
        offset_x: frames[i].x as i16,
        offset_y: frames[i].y as i16,
        width: frames[i].w as u16,
        height: frames[i].h as u16,
        data_offset: (blob_prefix(frames, i).len() % 4294967296) as u32,
        data_length: (frames[i].data.len() % 4294967296) as u32,
    }
}

/// The frame table of a sprite.
pub open spec fn table_of(frames: Seq<Staged>) -> Seq<MsfFrameEntry> {
    Seq::new(frames.len(), |i: int| table_entry(frames, i))
}

/// The data of the first `i` frames is a prefix of the data of the first `j`.
pub proof fn lemma_blob_prefix_grows(frames: Seq<Staged>, i: int, j: int)
    requires
        0 <= i <= j,
    ensures
        blob_prefix(frames, i).len() <= blob_prefix(frames, j).len(),
    decreases j - i,
{
    if i < j {
        lemma_blob_prefix_grows(frames, i, j - 1);
    }
}

/// The data of frame `i` lies in the sprite's pixel data right behind the
/// data of the frames before it.
pub proof fn lemma_blob_holds_frame(frames: Seq<Staged>, n: int, i: int, p: int)
    requires
        0 <= i < n,
        0 <= p < frames[i].data.len(),
    ensures
        blob_prefix(frames, i).len() + frames[i].data.len() <= blob_prefix(frames, n).len(),
        blob_prefix(frames, n)[blob_prefix(frames, i).len() + p] == frames[i].data[p],
    decreases n,
{
    if i + 1 < n {
        lemma_blob_holds_frame(frames, n - 1, i, p);
    }
}

/// In the frame table of a sprite whose pixel data takes less than 2^32
/// bytes, the data offsets never decrease from one entry to the next, each
/// frame's data ends where the next one's starts, the last one's ends at
/// the end of the pixel data, and an empty frame has length zero.
pub proof fn lemma_table_offsets(frames: Seq<Staged>, i: int)
    requires
        0 <= i < frames.len(),
        blob_of_frames(frames).len() < 4294967296,
    ensures
        i + 1 < frames.len() ==> table_entry(frames, i).data_offset + table_entry(
            frames,
            i,
        ).data_length == table_entry(frames, i + 1).data_offset,
        i + 1 < frames.len() ==> table_entry(frames, i).data_offset <= table_entry(
            frames,
            i + 1,
        ).data_offset,
        i + 1 == frames.len() ==> table_entry(frames, i).data_offset + table_entry(
            frames,
            i,
        ).data_length == blob_of_frames(frames).len(),
        table_entry(frames, i).data_offset as int == blob_prefix(frames, i).len(),
        table_entry(frames, i).data_length as int == frames[i].data.len(),
        frames[i].data.len() == 0 ==> table_entry(frames, i).data_length == 0,
{
    lemma_blob_prefix_grows(frames, i, i + 1);
    lemma_blob_prefix_grows(frames, i + 1, frames.len() as int);
    if i + 1 < frames.len() {
        lemma_blob_prefix_grows(frames, i + 2, frames.len() as int);
    }
}

/// Lays the frames' data end to end and builds the frame table over it.
pub fn build_frame_table(frames: &Vec<StagedFrame>) -> (r: (Vec<MsfFrameEntry>, Vec<u8>))
    ensures
        r.0@ == table_of(staged_views(frames@)),
        r.1@ == blob_of_frames(staged_views(frames@)),
{
    let ghost staged = staged_views(frames@);
    let mut entries: Vec<MsfFrameEntry> = Vec::new();
    let mut blob: Vec<u8> = Vec::new();
    let mut i: usize = 0;
    while i < frames.len()
        invariant
            i <= frames.len(),
            staged == staged_views(frames@),
            entries.len() == i,
            forall|k: int| 0 <= k < i ==> #[trigger] entries[k] == table_entry(staged, k),
            blob@ == blob_prefix(staged, i as int),
        decreases frames.len() - i,
    {
        let f = &frames[i];
        assert(staged[i as int] == frames@[i as int]@);
        entries.push(
            MsfFrameEntry {
                offset_x: f.offset_x,
                offset_y: f.offset_y,
                width: f.width,
                height: f.height,
                data_offset: (blob.len() as u64 % 4294967296) as u32,
                data_length: (f.data.len() as u64 % 4294967296) as u32,
            },
        );
        blob.extend_from_slice(f.data.as_slice());
        i = i + 1;
    }
    assert(entries@ =~= table_of(staged));
    (entries, blob)
}

/// The fixed fields of an MSF file.
pub struct MsfMeta {
    pub version: u16,
    pub flags: u16,
    pub canvas_width: u16,
    pub canvas_height: u16,
    pub frame_count: u16,
    pub directions: u8,
    pub fps: u8,
    pub anchor_x: i16,
    pub anchor_y: i16,
    pub pixel_format: PixelFormat,
}

/// The first `n` palette entries, four bytes each.
pub open spec fn palette_bytes(palette: Seq<[u8; 4]>, n: int) -> Seq<u8> {
    Seq::new((4 * n) as nat, |k: int| palette[k / 4][k % 4])
}

/// The first `n` entries of a frame table, sixteen bytes each.
pub open spec fn table_bytes(entries: Seq<MsfFrameEntry>, n: int) -> Seq<u8> {
    Seq::new((16 * n) as nat, |k: int| entry_bytes(entries[k / 16])[k % 16])
}

/// The preamble, header and format descriptor: 28 bytes.
pub open spec fn fixed_bytes(meta: MsfMeta, palette_len: int) -> Seq<u8> {
    seq![0x4du8, 0x53u8, 0x46u8, (0x30 + meta.version) as u8] + le16(meta.version as int) + le16(
        meta.flags as int,
    ) + le16(meta.canvas_width as int) + le16(meta.canvas_height as int) + le16(
        meta.frame_count as int,
    ) + seq![meta.directions, meta.fps] + le16(unsigned16(meta.anchor_x as int)) + le16(
        unsigned16(meta.anchor_y as int),
    ) + seq![0u8, 0u8, 0u8, 0u8] + seq![meta.pixel_format.spec_tag()] + le16(palette_len % 65536)
        + seq![0u8]
}

/// The `END` sentinel that closes the extension chunks: the id and a zero length.
pub open spec fn end_sentinel() -> Seq<u8> {
    seq![0x45u8, 0x4eu8, 0x44u8, 0u8, 0u8, 0u8, 0u8, 0u8]
}

/// The bytes of an MSF file: fixed part, palette, frame table, `END`
/// sentinel and payload.
pub open spec fn msf_bytes(
    meta: MsfMeta,
    palette: Seq<[u8; 4]>,
    entries: Seq<MsfFrameEntry>,
    payload: Seq<u8>,
) -> Seq<u8> {
    fixed_bytes(meta, palette.len() as int) + palette_bytes(palette, palette.len() as int)
        + table_bytes(entries, entries.len() as int) + end_sentinel() + payload
}

/// Writes an MSF file from its parts.
pub fn assemble_msf(
    meta: &MsfMeta,
    palette: &[[u8; 4]],
    entries: &[MsfFrameEntry],
    payload: &[u8],
) -> (out: Vec<u8>)
    requires
        1 <= meta.version <= 9,
    ensures
        out@ == msf_bytes(*meta, palette@, entries@, payload@),
{
    let mut out: Vec<u8> = Vec::new();
    out.push(0x4d);
    out.push(0x53);
    out.push(0x46);
    out.push(0x30 + meta.version as u8);
    push_u16(&mut out, meta.version);
    push_u16(&mut out, meta.flags);
    push_u16(&mut out, meta.canvas_width);
    push_u16(&mut out, meta.canvas_height);
    push_u16(&mut out, meta.frame_count);
    out.push(meta.directions);
    out.push(meta.fps);
    push_i16(&mut out, meta.anchor_x);
    push_i16(&mut out, meta.anchor_y);
    out.push(0);
    out.push(0);
    out.push(0);
    out.push(0);
    out.push(meta.pixel_format.tag());
    push_u16(&mut out, (palette.len() % 65536) as u16);
    out.push(0);
    assert(out@ =~= fixed_bytes(*meta, palette.len() as int));
    let ghost fixed = out@;
    let mut i: usize = 0;
    while i < palette.len()
        invariant
            i <= palette.len(),
            out@ == fixed + palette_bytes(palette@, i as int),
        decreases palette.len() - i,
    {
        let e = palette[i];
        out.push(e[0]);
        out.push(e[1]);
        out.push(e[2]);
        out.push(e[3]);
        i = i + 1;
        assert(out@ =~= fixed + palette_bytes(palette@, i as int));
    }
    let ghost with_palette = out@;
    let mut j: usize = 0;
    while j < entries.len()
        invariant
            j <= entries.len(),
            out@ == with_palette + table_bytes(entries@, j as int),
        decreases entries.len() - j,
    {
        let e = entries[j];
        let ghost before = out@;
        push_i16(&mut out, e.offset_x);
        push_i16(&mut out, e.offset_y);
        push_u16(&mut out, e.width);
        push_u16(&mut out, e.height);
        push_u32(&mut out, e.data_offset);
        push_u32(&mut out, e.data_length);
        assert(out@ =~= before + entry_bytes(e));
        j = j + 1;
        assert(out@ =~= with_palette + table_bytes(entries@, j as int));
    }
    let ghost with_table = out@;
    out.push(0x45);
    out.push(0x4e);
    out.push(0x44);
    out.push(0);
    out.push(0);
    out.push(0);
    out.push(0);
    out.push(0);
    assert(out@ =~= with_table + end_sentinel());
    out.extend_from_slice(payload);
    out
}

/// What a canvas-sized RGBA frame becomes when staged: its tight bounding
/// box, offsets as 16-bit two's-complement values, and the pixels inside
/// the box in the pixel format `fmt`. A frame without a visible pixel is empty.
pub open spec fn stage_canvas(
    pixels: Seq<u8>,
    cw: int,
    ch: int,
    fmt: PixelFormat,
    palette: Seq<[u8; 4]>,
) -> Staged {
    let b = bbox_of(pixels, cw, ch);
    if b.2 == 0 || b.3 == 0 {
        Staged { x: 0, y: 0, w: 0, h: 0, data: Seq::<u8>::empty() }
    } else {
        let cropped = bbox_rows(pixels, cw, b.0, b.1, b.2, b.3);
        Staged {
            x: signed16(b.0),
            y: signed16(b.1),
            w: b.2,
            h: b.3,
            data: match fmt {
                PixelFormat::Rgba8 => cropped,
                PixelFormat::Indexed8 => indexed_plane(cropped, palette),
                PixelFormat::Indexed8Alpha8 => indexed_alpha_plane(cropped, palette),
            },
        }
    }
}

/// A frame without a visible pixel is staged as an empty frame: no size,
/// no offset and no data, so that its table entry has length zero.
pub proof fn lemma_clear_canvas_is_empty(
    pixels: Seq<u8>,
    cw: int,
    ch: int,
    fmt: PixelFormat,
    palette: Seq<[u8; 4]>,
)
    requires
        forall|x: int, y: int| 0 <= x < cw && 0 <= y < ch ==> !visible_at(pixels, cw, x, y),
    ensures
        stage_canvas(pixels, cw, ch, fmt, palette) == (Staged {
            x: 0,
            y: 0,
            w: 0,
            h: 0,
            data: Seq::<u8>::empty(),
        }),
{
    assert(!has_content(pixels, cw, ch));
}

/// A staged frame holds exactly the pixels of its bounding box, in the
/// pixel format's size: nothing outside the box is stored.
pub proof fn lemma_staged_size(
    pixels: Seq<u8>,
    cw: int,
    ch: int,
    fmt: PixelFormat,
    palette: Seq<[u8; 4]>,
)
    requires
        has_content(pixels, cw, ch) ==> ({
            let b = bbox_of(pixels, cw, ch);
            is_tight_bbox(pixels, cw, ch, b.0, b.1, b.2, b.3)
        }),
    ensures
        stage_canvas(pixels, cw, ch, fmt, palette).data.len() == fmt.spec_bytes_per_pixel() * (
        stage_canvas(pixels, cw, ch, fmt, palette).w * stage_canvas(pixels, cw, ch, fmt, palette).h),
{
    let b = bbox_of(pixels, cw, ch);
    if b.2 == 0 || b.3 == 0 {
        assert(0 * 0 == 0int);
    } else {
        lemma_bbox_rows_len(pixels, cw, b.0, b.1, b.2, b.3);
    }
}

/// Stages a canvas-sized RGBA frame: crops it to its tight bounding box and
/// turns the pixels into the format `fmt`.
pub fn stage_frame(pixels: &[u8], cw: u16, ch: u16, fmt: PixelFormat, palette: &[[u8; 4]]) -> (f:
    StagedFrame)
    ensures
        f@ == stage_canvas(pixels@, cw as int, ch as int, fmt, palette@),
{
    let (x0, y0, w, h) = tight_bbox_exact(pixels, cw as usize, ch as usize);
    if w == 0 || h == 0 {
        return StagedFrame { offset_x: 0, offset_y: 0, width: 0, height: 0, data: Vec::new() };
    }
    let cropped = extract_bbox_pixels(pixels, cw as usize, x0, y0, w as usize, h as usize);
    let data = match fmt {
        PixelFormat::Rgba8 => cropped,
        PixelFormat::Indexed8 => rgba_to_indexed(cropped.as_slice(), palette),
        PixelFormat::Indexed8Alpha8 => rgba_to_indexed_alpha(cropped.as_slice(), palette),
    };
    let ox: i16 = if x0 < 32768 {
        x0 as i16
    } else {
        (x0 as i32 - 65536) as i16
    };
    let oy: i16 = if y0 < 32768 {
        y0 as i16
    } else {
        (y0 as i32 - 65536) as i16
    };
    StagedFrame { offset_x: ox, offset_y: oy, width: w, height: h, data }
}

/// The buffers of a vector of frames.
pub open spec fn buffers(frames: Seq<Vec<u8>>) -> Seq<Seq<u8>> {
    Seq::new(frames.len(), |i: int| frames[i]@)
}

/// The first `n` canvases of a sprite, staged.
pub open spec fn stage_canvases(
    canvases: Seq<Seq<u8>>,
    n: int,
    cw: int,
    ch: int,
    fmt: PixelFormat,
    palette: Seq<[u8; 4]>,
) -> Seq<Staged> {
    Seq::new(n as nat, |i: int| stage_canvas(canvases[i], cw, ch, fmt, palette))
}

/// Stages the first `count` canvases of a sprite.
pub fn stage_all(
    canvases: &Vec<Vec<u8>>,
    count: u16,
    cw: u16,
    ch: u16,
    fmt: PixelFormat,
    palette: &[[u8; 4]],
) -> (frames: Vec<StagedFrame>)
    requires
        count <= canvases.len(),
    ensures
        staged_views(frames@) == stage_canvases(
            buffers(canvases@),
            count as int,
            cw as int,
            ch as int,
            fmt,
            palette@,
        ),
{
    let mut frames: Vec<StagedFrame> = Vec::new();
    let mut i: usize = 0;
    while i < count as usize
        invariant
            i <= count <= canvases.len(),
            frames.len() == i,
            forall|k: int|
                0 <= k < i ==> (#[trigger] frames[k])@ == stage_canvas(
                    canvases[k]@,
                    cw as int,
                    ch as int,
                    fmt,
                    palette@,
                ),
        decreases count - i,
    {
        frames.push(stage_frame(canvases[i].as_slice(), cw, ch, fmt, palette));
        i = i + 1;
    }
    assert(staged_views(frames@) =~= stage_canvases(
        buffers(canvases@),
        count as int,
        cw as int,
        ch as int,
        fmt,
        palette@,
    ));
    frames
}

/// A sprite to be encoded: its fixed fields, its palette and one
/// canvas-sized RGBA buffer per frame.
pub struct MsfEncodeInput {
    pub canvas_width: u16,
    pub canvas_height: u16,
    pub frame_count: u16,
    pub directions: u8,
    pub fps: u8,
    pub anchor_x: i16,
    pub anchor_y: i16,
    pub pixel_format: PixelFormat,
    pub palette: Vec<[u8; 4]>,
    pub frame_pixels: Vec<Vec<u8>>,
}

impl MsfEncodeInput {
    /// The fixed fields of the file that this sprite is written to.
    pub open spec fn meta(&self, version: u16, flags: u16) -> MsfMeta {
        MsfMeta {
            version,
            flags,
            canvas_width: self.canvas_width,
            canvas_height: self.canvas_height,
            frame_count: self.frame_count,
            directions: self.directions,
            fps: self.fps,
            anchor_x: self.anchor_x,
            anchor_y: self.anchor_y,
            pixel_format: self.pixel_format,
        }
    }

    /// The sprite's frames, staged.
    pub open spec fn staged(&self) -> Seq<Staged> {
        stage_canvases(
            buffers(self.frame_pixels@),
            self.frame_count as int,
            self.canvas_width as int,
            self.canvas_height as int,
            self.pixel_format,
            self.palette@,
        )
    }

    /// The file that this sprite is encoded to, given what compressing its
    /// pixel data yields: version 1, flags 1, the frame table over the
    /// staged frames and the compressed data as payload.
    pub open spec fn encoded(&self, compressed: Option<Seq<u8>>) -> Option<Seq<u8>> {
        match compressed {
            Some(payload) => Some(
                msf_bytes(self.meta(1, 1), self.palette@, table_of(self.staged()), payload),
            ),
            None => None,
        }
    }

    /// The fixed fields, as a value.
    pub fn make_meta(&self, version: u16, flags: u16) -> (m: MsfMeta)
        ensures
            m == self.meta(version, flags),
    {
        MsfMeta {
            version,
            flags,
            canvas_width: self.canvas_width,
            canvas_height: self.canvas_height,
            frame_count: self.frame_count,
            directions: self.directions,
            fps: self.fps,
            anchor_x: self.anchor_x,
            anchor_y: self.anchor_y,
            pixel_format: self.pixel_format,
        }
    }
}

/// Encodes a sprite as an MSF file of version 1 with flags 1: every frame
/// cropped to its tight bounding box, its pixels in the sprite's pixel
/// format, the data of all frames end to end and compressed with Zstandard.
/// `None` exactly where the compression fails.
pub fn encode_msf(input: &MsfEncodeInput) -> (r: Option<Vec<u8>>)
    requires
        input.frame_count <= input.frame_pixels.len(),
    ensures
        opt_bytes(r) == input.encoded(
            zstd_compressed(blob_of_frames(input.staged()), ZSTD_LEVEL as int),
        ),
{
    let frames = stage_all(
        &input.frame_pixels,
        input.frame_count,
        input.canvas_width,
        input.canvas_height,
        input.pixel_format,
        input.palette.as_slice(),
    );
    let (entries, blob) = build_frame_table(&frames);
    let payload = match zstd_compress(blob.as_slice(), ZSTD_LEVEL) {
        Some(p) => p,
        None => { return None; },
    };
    let meta = input.make_meta(1, 1);
    Some(assemble_msf(&meta, input.palette.as_slice(), entries.as_slice(), payload.as_slice()))
}

} // verus!
