//! Decoding MSF pixel data to RGBA, either composited into canvas-sized
//! frames or frame by frame at each frame's own size.

use crate::bytes::{read_u16, u16_le_at};
use crate::compression::{zstd_bulk_content, zstd_bulk_decompress, zstd_decompress};
use crate::compression::{zstd_frame_content, MAX_PAYLOAD};
use crate::msf::{declared_frames, entry_at, find_payload_start, frame_table_start};
use crate::msf::{has_msf_magic, payload_start, read_frame_table, table_fits};
use crate::msf::{MsfFrameEntry, PixelFormat};
use vstd::slice::slice_subrange;
use vstd::prelude::*;

verus! {

/// `n` zero bytes: a fully transparent buffer.
pub open spec fn zeros(n: int) -> Seq<u8> {
    Seq::new(n as nat, |i: int| 0u8)
}

/// The palette of an MSF file as a table of 256 RGBA entries, four bytes
/// each. Entries that the file does not hold are zero.
pub open spec fn palette_table(s: Seq<u8>) -> Seq<u8> {
    Seq::new(
        1024,
        |k: int|
            if k / 4 < u16_le_at(s, 25) && 28 + 4 * (k / 4) + 4 <= s.len() {
                s[28 + k]
            } else {
                0u8
            },
    )
}

/// Reads the palette of an MSF file into a table of 256 entries.
pub fn read_palette_table(data: &[u8]) -> (t: Vec<u8>)
    requires
        data.len() >= 28,
    ensures
        t@ == palette_table(data@),
{
    let size: u16 = crate::bytes::read_u16(data, 25);
    let avail: usize = (data.len() - 28) / 4;
    let n: usize = if size < 256 {
        size as usize
    } else {
        256
    };
    let m: usize = if avail < n {
        avail
    } else {
        n
    };
    let mut t: Vec<u8> = vec![0u8; 1024];
    let mut i: usize = 0;
    while i < m
        invariant
            i <= m <= 256,
            m <= size,
            size as nat == u16_le_at(data@, 25),
            28 + 4 * m <= data.len(),
            t.len() == 1024,
            forall|k: int| 0 <= k < 4 * i ==> #[trigger] t[k] == palette_table(data@)[k],
            forall|k: int| 4 * i <= k < 1024 ==> #[trigger] t[k] == 0,
        decreases m - i,
    {
        let po: usize = 28 + 4 * i;
        t[4 * i] = data[po];
        t[4 * i + 1] = data[po + 1];
        t[4 * i + 2] = data[po + 2];
        t[4 * i + 3] = data[po + 3];
        i = i + 1;
    }
    assert(t@ =~= palette_table(data@));
    t
}

/// The canvas `canvas` with the four bytes at `dst` replaced by `px`.
pub open spec fn write4(canvas: Seq<u8>, dst: int, px: Seq<u8>) -> Seq<u8> {
    Seq::new(
        canvas.len(),
        |i: int|
            if dst <= i < dst + 4 {
                px[i - dst]
            } else {
                canvas[i]
            },
    )
}

/// Byte index in the canvas of the pixel at column `x`, row `y` of frame `e`.
pub open spec fn dst_index(e: MsfFrameEntry, cw: int, x: int, y: int) -> int {
    ((e.offset_y as int + y) * cw + e.offset_x as int + x) * 4
}

/// The RGBA value that the payload holds for the pixel at column `x`, row
/// `y` of frame `e`, or `None` where the pixel is transparent or its bytes lie
/// outside the payload. An RGBA8 row is taken whole or not at all.
pub open spec fn stored_pixel(
    fmt: PixelFormat,
    table: Seq<u8>,
    blob: Seq<u8>,
    e: MsfFrameEntry,
    x: int,
    y: int,
) -> Option<Seq<u8>> {
    let off = e.data_offset as int;
    let fw = e.width as int;
    let p = y * fw + x;
    match fmt {
        PixelFormat::Indexed8 => {
            let src = off + p;
            if src < blob.len() && table[4 * (blob[src] as int) + 3] > 0 {
                let c = 4 * (blob[src] as int);
                Some(seq![table[c], table[c + 1], table[c + 2], table[c + 3]])
            } else {
                None
            }
        },
        PixelFormat::Indexed8Alpha8 => {
            let src = off + 2 * p;
            if src + 1 < blob.len() && blob[src + 1] != 0 {
                let c = 4 * (blob[src] as int);
                Some(seq![table[c], table[c + 1], table[c + 2], blob[src + 1]])
            } else {
                None
            }
        },
        PixelFormat::Rgba8 => {
            let src = off + 4 * p;
            if off + 4 * (y * fw) + 4 * fw <= blob.len() {
                Some(seq![blob[src], blob[src + 1], blob[src + 2], blob[src + 3]])
            } else {
                None
            }
        },
    }
}

/// True where the pixel at column `x`, row `y` of frame `e` may be written:
/// its four bytes lie inside the canvas; for RGBA8 the whole row must.
pub open spec fn dst_fits(
    fmt: PixelFormat,
    e: MsfFrameEntry,
    cw: int,
    size: int,
    x: int,
    y: int,
) -> bool {
    match fmt {
        PixelFormat::Rgba8 => 0 <= dst_index(e, cw, 0, y) && dst_index(e, cw, 0, y) + 4
            * e.width as int <= size,
        _ => 0 <= dst_index(e, cw, x, y) && dst_index(e, cw, x, y) + 4 <= size,
    }
}

/// The canvas after the pixel at column `x`, row `y` of frame `e` was painted.
pub open spec fn paint_pixel(
    canvas: Seq<u8>,
    fmt: PixelFormat,
    table: Seq<u8>,
    blob: Seq<u8>,
    e: MsfFrameEntry,
    cw: int,
    x: int,
    y: int,
) -> Seq<u8> {
    match stored_pixel(fmt, table, blob, e, x, y) {
        Some(px) => if dst_fits(fmt, e, cw, canvas.len() as int, x, y) {
            write4(canvas, dst_index(e, cw, x, y), px)
        } else {
            canvas
        },
        None => canvas,
    }
}

/// The canvas after the first `n` pixels of row `y` of frame `e` were painted, left to right.
pub open spec fn paint_row(
    canvas: Seq<u8>,
    fmt: PixelFormat,
    table: Seq<u8>,
    blob: Seq<u8>,
    e: MsfFrameEntry,
    cw: int,
    y: int,
    n: int,
) -> Seq<u8>
    decreases n,
{
    if n <= 0 {
        canvas
    } else {
        paint_pixel(paint_row(canvas, fmt, table, blob, e, cw, y, n - 1), fmt, table, blob, e, cw, n - 1, y)
    }
}

/// The canvas after the first `n` rows of frame `e` were painted, top to bottom.
pub open spec fn paint_rows(
    canvas: Seq<u8>,
    fmt: PixelFormat,
    table: Seq<u8>,
    blob: Seq<u8>,
    e: MsfFrameEntry,
    cw: int,
    n: int,
) -> Seq<u8>
    decreases n,
{
    if n <= 0 {
        canvas
    } else {
        paint_row(
            paint_rows(canvas, fmt, table, blob, e, cw, n - 1),
            fmt,
            table,
            blob,
            e,
            cw,
            n - 1,
            e.width as int,
        )
    }
}

/// True where frame `e` holds no pixels or its data region leaves the payload:
/// such a frame decodes to a transparent canvas.
pub open spec fn frame_skipped(blob: Seq<u8>, e: MsfFrameEntry) -> bool {
    e.width == 0 || e.height == 0 || e.data_offset as int + e.data_length as int > blob.len()
}

/// Frame `e` composited into a transparent canvas of `cw` by `ch` pixels.
pub open spec fn painted_frame(
    fmt: PixelFormat,
    table: Seq<u8>,
    blob: Seq<u8>,
    e: MsfFrameEntry,
    cw: int,
    ch: int,
) -> Seq<u8> {
    if frame_skipped(blob, e) {
        zeros(cw * ch * 4)
    } else {
        paint_rows(zeros(cw * ch * 4), fmt, table, blob, e, cw, e.height as int)
    }
}

/// Paints one pixel of frame `e` into `canvas`.
fn paint_one(
    canvas: &mut Vec<u8>,
    fmt: PixelFormat,
    table: &[u8],
    blob: &[u8],
    e: &MsfFrameEntry,
    cw: u16,
    x: u16,
    y: u16,
)
    requires
        table.len() == 1024,
        x < e.width,
        y < e.height,
    ensures
        final(canvas)@ == paint_pixel(old(canvas)@, fmt, table@, blob@, *e, cw as int, x as int, y as int),
{
    let fw: u64 = e.width as u64;
    let off: u64 = e.data_offset as u64;
    assert(0 <= (y as int) * (fw as int) <= 65535 * 65535) by (nonlinear_arith)
        requires
            0 <= y as int <= 65535,
            0 <= fw as int <= 65535,
    ;
    let row: u64 = (y as u64) * fw;
    let p: u64 = row + x as u64;
    let rows: i64 = e.offset_y as i64 + y as i64;
    assert(-32768 * 65535 <= (rows as int) * (cw as int) <= 98302 * 65535) by (nonlinear_arith)
        requires
            -32768 <= rows as int <= 98302,
            0 <= cw as int <= 65535,
    ;
    let dst: i64 = (rows * (cw as i64) + e.offset_x as i64 + x as i64) * 4;
    let dst_row: i64 = (rows * (cw as i64) + e.offset_x as i64) * 4;
    let size: usize = canvas.len();
    assert(dst as int == dst_index(*e, cw as int, x as int, y as int));
    assert(dst_row as int == dst_index(*e, cw as int, 0, y as int));
    let ghost before = canvas@;
    match fmt {
        PixelFormat::Indexed8 => {
            let src: u64 = off + p;
            if src < blob.len() as u64 {
                let c: usize = 4 * (blob[src as usize] as usize);
                if table[c + 3] > 0 && dst >= 0 && (dst as u64) + 4 <= size as u64 {
                    let d: usize = dst as usize;
                    canvas[d] = table[c];
                    canvas[d + 1] = table[c + 1];
                    canvas[d + 2] = table[c + 2];
                    canvas[d + 3] = table[c + 3];
                    assert(canvas@ =~= write4(
                        before,
                        dst as int,
                        seq![table@[c as int], table@[c + 1], table@[c + 2], table@[c + 3]],
                    ));
                }
            }
        },
        PixelFormat::Indexed8Alpha8 => {
            let src: u64 = off + 2 * p;
            if src + 1 < blob.len() as u64 {
                let c: usize = 4 * (blob[src as usize] as usize);
                let alpha: u8 = blob[src as usize + 1];
                if alpha != 0 && dst >= 0 && (dst as u64) + 4 <= size as u64 {
                    let d: usize = dst as usize;
                    canvas[d] = table[c];
                    canvas[d + 1] = table[c + 1];
                    canvas[d + 2] = table[c + 2];
                    canvas[d + 3] = alpha;
                    assert(canvas@ =~= write4(
                        before,
                        dst as int,
                        seq![table@[c as int], table@[c + 1], table@[c + 2], alpha],
                    ));
                }
            }
        },
        PixelFormat::Rgba8 => {
            let src: u64 = off + 4 * p;
            if off + 4 * row + 4 * fw <= blob.len() as u64 && dst_row >= 0 && (dst_row as u64)
                + 4 * fw <= size as u64 {
                let s: usize = src as usize;
                let d: usize = dst as usize;
                canvas[d] = blob[s];
                canvas[d + 1] = blob[s + 1];
                canvas[d + 2] = blob[s + 2];
                canvas[d + 3] = blob[s + 3];
                assert(canvas@ =~= write4(
                    before,
                    dst as int,
                    seq![blob@[s as int], blob@[s + 1], blob@[s + 2], blob@[s + 3]],
                ));
            }
        },
    }
}

/// Composites frame `e` into a fresh transparent canvas of `cw` by `ch` pixels.
pub fn composite_frame(
    fmt: PixelFormat,
    table: &[u8],
    blob: &[u8],
    e: &MsfFrameEntry,
    cw: u16,
    ch: u16,
) -> (canvas: Vec<u8>)
    requires
        table.len() == 1024,
        cw as int * ch as int * 4 <= usize::MAX,
    ensures
        canvas@ == painted_frame(fmt, table@, blob@, *e, cw as int, ch as int),
{
    assert(0 <= cw as int * ch as int <= 65535 * 65535) by (nonlinear_arith)
        requires
            0 <= cw as int <= 65535,
            0 <= ch as int <= 65535,
    ;
    let size: usize = (cw as usize) * (ch as usize) * 4;
    let mut canvas: Vec<u8> = vec![0u8; size];
    assert(canvas@ =~= zeros(cw as int * ch as int * 4));
    if e.width == 0 || e.height == 0 || e.data_offset as u64 + e.data_length as u64
        > blob.len() as u64 {
        return canvas;
    }
    let mut y: u16 = 0;
    while y < e.height
        invariant
            y <= e.height,
            table.len() == 1024,
            canvas@ == paint_rows(
                zeros(cw as int * ch as int * 4),
                fmt,
                table@,
                blob@,
                *e,
                cw as int,
                y as int,
            ),
        decreases e.height - y,
    {
        let ghost start = canvas@;
        let mut x: u16 = 0;
        while x < e.width
            invariant
                x <= e.width,
                y < e.height,
                table.len() == 1024,
                canvas@ == paint_row(start, fmt, table@, blob@, *e, cw as int, y as int, x as int),
            decreases e.width - x,
        {
            paint_one(&mut canvas, fmt, table, blob, e, cw, x, y);
            x = x + 1;
        }
        y = y + 1;
    }
    canvas
}

/// One byte of frame `e` decoded on its own: byte `k` of its RGBA buffer.
/// A pixel that is transparent or lies outside the payload is zero; an RGBA8
/// frame is taken whole or not at all.
pub open spec fn individual_byte(
    fmt: PixelFormat,
    table: Seq<u8>,
    blob: Seq<u8>,
    e: MsfFrameEntry,
    k: int,
) -> u8 {
    let off = e.data_offset as int;
    let p = k / 4;
    let c = k % 4;
    match fmt {
        PixelFormat::Indexed8 => {
            let src = off + p;
            if src < blob.len() && table[4 * (blob[src] as int) + 3] > 0 {
                table[4 * (blob[src] as int) + c]
            } else {
                0
            }
        },
        PixelFormat::Indexed8Alpha8 => {
            let src = off + 2 * p;
            if src + 1 < blob.len() && blob[src + 1] != 0 {
                if c < 3 {
                    table[4 * (blob[src] as int) + c]
                } else {
                    blob[src + 1]
                }
            } else {
                0
            }
        },
        PixelFormat::Rgba8 => {
            if off + e.width as int * e.height as int * 4 <= blob.len() {
                blob[off + k]
            } else {
                0
            }
        },
    }
}

/// Frame `e` decoded on its own. An empty frame is one transparent pixel.
pub open spec fn individual_frame(
    fmt: PixelFormat,
    table: Seq<u8>,
    blob: Seq<u8>,
    e: MsfFrameEntry,
) -> Seq<u8> {
    if e.width == 0 || e.height == 0 {
        zeros(4)
    } else {
        Seq::new(
            (e.width as int * e.height as int * 4) as nat,
            |k: int| individual_byte(fmt, table, blob, e, k),
        )
    }
}

/// An empty frame decodes to a fully transparent canvas when composited
/// and to one transparent pixel when decoded on its own.
pub proof fn lemma_empty_frame_decodes_clear(
    fmt: PixelFormat,
    table: Seq<u8>,
    blob: Seq<u8>,
    e: MsfFrameEntry,
    cw: int,
    ch: int,
)
    requires
        e.width == 0 || e.height == 0,
    ensures
        painted_frame(fmt, table, blob, e, cw, ch) == zeros(cw * ch * 4),
        individual_frame(fmt, table, blob, e) == zeros(4),
        individual_frame(fmt, table, blob, e).len() == 4,
{
}

/// In a frame stored as one palette index per pixel, a pixel whose index
/// names a palette entry with alpha 0 decodes to a transparent pixel.
pub proof fn lemma_clear_entry_decodes_clear(
    table: Seq<u8>,
    blob: Seq<u8>,
    e: MsfFrameEntry,
    p: int,
)
    requires
        e.width > 0 && e.height > 0,
        0 <= p < e.width * e.height,
        e.data_offset + p < blob.len(),
        table[4 * (blob[e.data_offset + p] as int) + 3] == 0,
    ensures
        forall|j: int|
            0 <= j < 4 ==> #[trigger] individual_frame(PixelFormat::Indexed8, table, blob, e)[4 * p
                + j] == 0,
{
    assert forall|j: int| 0 <= j < 4 implies #[trigger] individual_frame(
        PixelFormat::Indexed8,
        table,
        blob,
        e,
    )[4 * p + j] == 0 by {
        assert((4 * p + j) / 4 == p);
    }
}

/// A frame decoded at its own size.
#[derive(Debug)]
pub struct DecodedFrame {
    pub width: u16,
    pub height: u16,
    /// `width * height` RGBA pixels, row by row.
    pub pixels: Vec<u8>,
}

/// Decodes frame `e` at its own size.
pub fn decode_individual_frame(
    fmt: PixelFormat,
    table: &[u8],
    blob: &[u8],
    e: &MsfFrameEntry,
) -> (f: DecodedFrame)
    requires
        table.len() == 1024,
    ensures
        f.pixels@ == individual_frame(fmt, table@, blob@, *e),
        f.width == (if e.width == 0 || e.height == 0 { 1u16 } else { e.width }),
        f.height == (if e.width == 0 || e.height == 0 { 1u16 } else { e.height }),
{
    if e.width == 0 || e.height == 0 {
        let pixels: Vec<u8> = vec![0u8; 4];
        assert(pixels@ =~= zeros(4));
        return DecodedFrame { width: 1, height: 1, pixels };
    }
    assert(0 <= e.width as int * e.height as int <= 65535 * 65535) by (nonlinear_arith)
        requires
            0 <= e.width as int <= 65535,
            0 <= e.height as int <= 65535,
    ;
    let npix: usize = (e.width as usize) * (e.height as usize);
    let off: u64 = e.data_offset as u64;
    let whole: bool = off + 4 * (npix as u64) <= blob.len() as u64;
    let mut pixels: Vec<u8> = Vec::new();
    let mut p: usize = 0;
    while p < npix
        invariant
            p <= npix,
            npix as int == e.width as int * e.height as int,
            npix <= 65535 * 65535,
            off == e.data_offset,
            whole == (off + 4 * npix <= blob.len()),
            table.len() == 1024,
            pixels.len() == 4 * p,
            forall|k: int|
                0 <= k < 4 * p ==> #[trigger] pixels[k] == individual_byte(
                    fmt,
                    table@,
                    blob@,
                    *e,
                    k,
                ),
        decreases npix - p,
    {
        let mut px: [u8; 4] = [0u8, 0u8, 0u8, 0u8];
        match fmt {
            PixelFormat::Indexed8 => {
                let src: u64 = off + p as u64;
                if src < blob.len() as u64 {
                    let c: usize = 4 * (blob[src as usize] as usize);
                    if table[c + 3] > 0 {
                        px = [table[c], table[c + 1], table[c + 2], table[c + 3]];
                    }
                }
            },
            PixelFormat::Indexed8Alpha8 => {
                let src: u64 = off + 2 * (p as u64);
                if src + 1 < blob.len() as u64 {
                    let c: usize = 4 * (blob[src as usize] as usize);
                    let alpha: u8 = blob[src as usize + 1];
                    if alpha != 0 {
                        px = [table[c], table[c + 1], table[c + 2], alpha];
                    }
                }
            },
            PixelFormat::Rgba8 => {
                if whole {
                    let s: usize = (off + 4 * (p as u64)) as usize;
                    px = [blob[s], blob[s + 1], blob[s + 2], blob[s + 3]];
                }
            },
        }
        pixels.push(px[0]);
        pixels.push(px[1]);
        pixels.push(px[2]);
        pixels.push(px[3]);
        p = p + 1;
    }
    assert(pixels@ =~= individual_frame(fmt, table@, blob@, *e));
    DecodedFrame { width: e.width, height: e.height, pixels }
}

/// True where bit 0 of the flags is set: the payload is a Zstandard frame.
pub open spec fn is_compressed(s: Seq<u8>) -> bool {
    u16_le_at(s, 6) % 2 == 1
}

/// The pixel format that the file names, if it is a known one.
pub open spec fn format_of(s: Seq<u8>) -> Option<PixelFormat> {
    PixelFormat::spec_from_u8(s[24])
}

/// Offset of the first byte behind the `END` sentinel, for a file with a
/// magic, a known pixel format and a whole frame table.
pub open spec fn payload_offset(s: Seq<u8>) -> Option<int> {
    if has_msf_magic(s) && format_of(s).is_some() && table_fits(s) {
        payload_start(s, frame_table_start(s) + 16 * declared_frames(s))
    } else {
        None
    }
}

/// The bytes behind the `END` sentinel; empty where `payload_offset` finds none.
pub open spec fn payload_of(s: Seq<u8>) -> Seq<u8> {
    match payload_offset(s) {
        Some(p) => s.subrange(p, s.len() as int),
        None => Seq::<u8>::empty(),
    }
}

/// The pixel data of the file, given what decompressing its payload yields.
pub open spec fn blob_of(s: Seq<u8>, decompressed: Option<Seq<u8>>) -> Option<Seq<u8>> {
    if payload_offset(s).is_none() {
        None
    } else if is_compressed(s) {
        decompressed
    } else {
        Some(payload_of(s))
    }
}

/// Entry `i` of the file's frame table.
pub open spec fn file_entry(s: Seq<u8>, i: int) -> MsfFrameEntry {
    entry_at(s, frame_table_start(s) + 16 * i)
}

/// The file's frames composited into canvases, given what decompressing its
/// payload yields; `None` where the file is malformed or decompression failed.
pub open spec fn canvas_decode(s: Seq<u8>, decompressed: Option<Seq<u8>>) -> Option<Seq<Seq<u8>>> {
    match blob_of(s, decompressed) {
        None => None,
        Some(blob) => Some(
            Seq::new(
                declared_frames(s) as nat,
                |i: int|
                    painted_frame(
                        format_of(s).unwrap(),
                        palette_table(s),
                        blob,
                        file_entry(s, i),
                        u16_le_at(s, 8) as int,
                        u16_le_at(s, 10) as int,
                    ),
            ),
        ),
    }
}

/// The file's frames decoded one by one, given what decompressing its
/// payload yields; `None` where the file is malformed or decompression failed.
pub open spec fn individual_decode(s: Seq<u8>, decompressed: Option<Seq<u8>>) -> Option<
    Seq<Seq<u8>>,
> {
    match blob_of(s, decompressed) {
        None => None,
        Some(blob) => Some(
            Seq::new(
                declared_frames(s) as nat,
                |i: int|
                    individual_frame(
                        format_of(s).unwrap(),
                        palette_table(s),
                        blob,
                        file_entry(s, i),
                    ),
            ),
        ),
    }
}

/// True where this machine can address one canvas of the file, or the file
/// has no frame to decode. A canvas of fewer than 32768 pixels each way can
/// be addressed on every machine.
pub open spec fn canvas_fits(s: Seq<u8>) -> bool {
    declared_frames(s) == 0 || u16_le_at(s, 8) * u16_le_at(s, 10) * 4 <= usize::MAX
}

/// The canvases `decoded` where this machine can address them, else nothing.
pub open spec fn where_canvas_fits(s: Seq<u8>, decoded: Option<Seq<Seq<u8>>>) -> Option<
    Seq<Seq<u8>>,
> {
    if canvas_fits(s) {
        decoded
    } else {
        None
    }
}

/// Tests whether this machine can address one canvas of the file.
pub fn canvas_is_addressable(data: &[u8]) -> (r: bool)
    ensures
        r == canvas_fits(data@),
{
    let cw: u64 = read_u16(data, 8) as u64;
    let ch: u64 = read_u16(data, 10) as u64;
    assert(0 <= cw as int * ch as int <= 65535 * 65535) by (nonlinear_arith)
        requires
            0 <= cw as int <= 65535,
            0 <= ch as int <= 65535,
    ;
    read_u16(data, 12) == 0 || cw * ch * 4 <= usize::MAX as u64
}

/// True where `frames` holds exactly the buffers `expect`.
pub open spec fn buffers_are(frames: Option<Vec<Vec<u8>>>, expect: Option<Seq<Seq<u8>>>) -> bool {
    match frames {
        Some(v) => expect.is_some() && v.len() == expect.unwrap().len() && forall|i: int|
            0 <= i < v.len() ==> (#[trigger] v[i])@ == expect.unwrap()[i],
        None => expect.is_none(),
    }
}

/// True where `frames` holds exactly the pixel buffers `expect`, each with
/// the size of its table entry, an empty frame being one by one.
pub open spec fn frames_are(
    frames: Option<Vec<DecodedFrame>>,
    s: Seq<u8>,
    expect: Option<Seq<Seq<u8>>>,
) -> bool {
    match frames {
        Some(v) => expect.is_some() && v.len() == expect.unwrap().len() && forall|i: int|
            0 <= i < v.len() ==> {
                let e = file_entry(s, i);
                let empty = e.width == 0 || e.height == 0;
                &&& (#[trigger] v[i]).pixels@ == expect.unwrap()[i]
                &&& v[i].width == (if empty { 1u16 } else { e.width })
                &&& v[i].height == (if empty { 1u16 } else { e.height })
            },
        None => expect.is_none(),
    }
}

/// Finds where the payload of an MSF file starts. Fails where the file has
/// no magic, names an unknown pixel format, ends inside its frame table or
/// has no `END` sentinel.
pub fn locate_payload(data: &[u8]) -> (r: Option<usize>)
    ensures
        match r {
            Some(p) => payload_offset(data@) == Some(p as int) && p <= data.len(),
            None => payload_offset(data@).is_none(),
        },
{
    if data.len() < 28 {
        return None;
    }
    if data[0] != 0x4d || data[1] != 0x53 || data[2] != 0x46 || (data[3] != 0x31 && data[3]
        != 0x32) {
        return None;
    }
    if PixelFormat::from_u8(data[24]).is_none() {
        return None;
    }
    let palette_size: usize = read_u16(data, 25) as usize;
    let frame_count: usize = read_u16(data, 12) as usize;
    let start: usize = 28 + 4 * palette_size;
    if start + 16 * frame_count > data.len() {
        return None;
    }
    find_payload_start(data, start + 16 * frame_count)
}

/// Composites every frame of an MSF file whose pixel data is `blob`.
fn composite_all(data: &[u8], blob: &[u8]) -> (frames: Vec<Vec<u8>>)
    requires
        payload_offset(data@).is_some(),
        canvas_fits(data@),
    ensures
        frames.len() == declared_frames(data@),
        forall|i: int|
            0 <= i < frames.len() ==> (#[trigger] frames[i])@ == painted_frame(
                format_of(data@).unwrap(),
                palette_table(data@),
                blob@,
                file_entry(data@, i),
                u16_le_at(data@, 8) as int,
                u16_le_at(data@, 10) as int,
            ),
{
    let fmt = PixelFormat::from_u8(data[24]).unwrap();
    let cw: u16 = read_u16(data, 8);
    let ch: u16 = read_u16(data, 10);
    let palette_size: usize = read_u16(data, 25) as usize;
    let frame_count: usize = read_u16(data, 12) as usize;
    let start: usize = 28 + 4 * palette_size;
    let table = read_palette_table(data);
    let entries = read_frame_table(data, start, frame_count);
    assert(cw as int * ch as int <= 65535 * 65535) by (nonlinear_arith)
        requires
            0 <= cw as int <= 65535,
            0 <= ch as int <= 65535,
    ;
    let mut frames: Vec<Vec<u8>> = Vec::new();
    let mut i: usize = 0;
    while i < frame_count
        invariant
            i <= frame_count,
            frame_count == declared_frames(data@),
            start == frame_table_start(data@),
            entries.len() == frame_count,
            forall|k: int|
                0 <= k < frame_count ==> #[trigger] entries[k] == entry_at(data@, start + 16 * k),
            table@ == palette_table(data@),
            cw as nat == u16_le_at(data@, 8),
            ch as nat == u16_le_at(data@, 10),
            frame_count > 0 ==> cw as int * ch as int * 4 <= usize::MAX,
            Some(fmt) == format_of(data@),
            frames.len() == i,
            forall|k: int|
                0 <= k < i ==> (#[trigger] frames[k])@ == painted_frame(
                    fmt,
                    table@,
                    blob@,
                    file_entry(data@, k),
                    cw as int,
                    ch as int,
                ),
        decreases frame_count - i,
    {
        let canvas = composite_frame(fmt, table.as_slice(), blob, &entries[i], cw, ch);
        frames.push(canvas);
        i = i + 1;
    }
    frames
}

/// Decodes every frame of an MSF file whose pixel data is `blob` at its own size.
fn individual_all(data: &[u8], blob: &[u8]) -> (frames: Vec<DecodedFrame>)
    requires
        payload_offset(data@).is_some(),
    ensures
        frames.len() == declared_frames(data@),
        forall|i: int|
            0 <= i < frames.len() ==> {
                let e = file_entry(data@, i);
                let empty = e.width == 0 || e.height == 0;
                &&& (#[trigger] frames[i]).pixels@ == individual_frame(
                    format_of(data@).unwrap(),
                    palette_table(data@),
                    blob@,
                    e,
                )
                &&& frames[i].width == (if empty { 1u16 } else { e.width })
                &&& frames[i].height == (if empty { 1u16 } else { e.height })
            },
{
    let fmt = PixelFormat::from_u8(data[24]).unwrap();
    let palette_size: usize = read_u16(data, 25) as usize;
    let frame_count: usize = read_u16(data, 12) as usize;
    let start: usize = 28 + 4 * palette_size;
    let table = read_palette_table(data);
    let entries = read_frame_table(data, start, frame_count);
    let mut frames: Vec<DecodedFrame> = Vec::new();
    let mut i: usize = 0;
    while i < frame_count
        invariant
            i <= frame_count,
            frame_count == declared_frames(data@),
            start == frame_table_start(data@),
            entries.len() == frame_count,
            forall|k: int|
                0 <= k < frame_count ==> #[trigger] entries[k] == entry_at(data@, start + 16 * k),
            table@ == palette_table(data@),
            Some(fmt) == format_of(data@),
            frames.len() == i,
            forall|k: int|
                0 <= k < i ==> {
                    let e = file_entry(data@, k);
                    let empty = e.width == 0 || e.height == 0;
                    &&& (#[trigger] frames[k]).pixels@ == individual_frame(fmt, table@, blob@, e)
                    &&& frames[k].width == (if empty { 1u16 } else { e.width })
                    &&& frames[k].height == (if empty { 1u16 } else { e.height })
                },
        decreases frame_count - i,
    {
        let f = decode_individual_frame(fmt, table.as_slice(), blob, &entries[i]);
        frames.push(f);
        i = i + 1;
    }
    frames
}

/// Composites the frames of an MSF file, given the outcome of decompressing
/// its payload. `decompressed` is read only where the file says that its
/// payload is compressed. Fails where the file is malformed, the needed
/// pixel data is missing, or this machine cannot address one canvas.
pub fn composite_msf(data: &[u8], decompressed: Option<Vec<u8>>) -> (r: Option<Vec<Vec<u8>>>)
    ensures
        buffers_are(
            r,
            where_canvas_fits(
                data@,
                canvas_decode(
                    data@,
                    match decompressed {
                        Some(v) => Some(v@),
                        None => None,
                    },
                ),
            ),
        ),
{
    let start = match locate_payload(data) {
        Some(p) => p,
        None => { return None; },
    };
    if !canvas_is_addressable(data) {
        return None;
    }
    let flags: u16 = read_u16(data, 6);
    if flags % 2 == 1 {
        match decompressed {
            Some(blob) => Some(composite_all(data, blob.as_slice())),
            None => None,
        }
    } else {
        let payload = slice_subrange(data, start, data.len());
        Some(composite_all(data, payload))
    }
}

/// Decodes the frames of an MSF file one by one, given the outcome of
/// decompressing its payload. `decompressed` is read only where the file
/// says that its payload is compressed.
pub fn individual_msf(data: &[u8], decompressed: Option<Vec<u8>>) -> (r: Option<Vec<DecodedFrame>>)
    ensures
        frames_are(
            r,
            data@,
            individual_decode(
                data@,
                match decompressed {
                    Some(v) => Some(v@),
                    None => None,
                },
            ),
        ),
{
    let start = match locate_payload(data) {
        Some(p) => p,
        None => { return None; },
    };
    let flags: u16 = read_u16(data, 6);
    if flags % 2 == 1 {
        match decompressed {
            Some(blob) => Some(individual_all(data, blob.as_slice())),
            None => None,
        }
    } else {
        let payload = slice_subrange(data, start, data.len());
        Some(individual_all(data, payload))
    }
}

/// The payload of `data` where it is compressed, else nothing.
fn compressed_payload(data: &[u8]) -> (r: Option<&[u8]>)
    ensures
        match r {
            Some(p) => payload_offset(data@).is_some() && is_compressed(data@) && p@
                == payload_of(data@),
            None => payload_offset(data@).is_none() || !is_compressed(data@),
        },
{
    let start = match locate_payload(data) {
        Some(p) => p,
        None => { return None; },
    };
    let flags: u16 = read_u16(data, 6);
    if flags % 2 == 1 {
        Some(slice_subrange(data, start, data.len()))
    } else {
        None
    }
}

/// Decodes an MSF file into one canvas-sized RGBA buffer per frame, each
/// frame's tight rectangle composited at its offset. A compressed payload is
/// decompressed by the streaming decoder. Fails where the file is
/// malformed, decompression fails, or this machine cannot address one canvas.
pub fn decode_msf_frames(data: &[u8]) -> (r: Option<Vec<Vec<u8>>>)
    ensures
        buffers_are(
            r,
            where_canvas_fits(data@, canvas_decode(data@, zstd_frame_content(payload_of(data@)))),
        ),
{
    let decompressed = match compressed_payload(data) {
        Some(p) => zstd_decompress(p),
        None => None,
    };
    composite_msf(data, decompressed)
}

/// Decodes an MSF file into canvas-sized frames as `decode_msf_frames`
/// does, with the bulk decompressor under the 256 MiB limit, and reports the
/// canvas size and the frame count with them.
pub fn decode_msf_to_rgba(data: &[u8]) -> (r: Option<(u16, u16, u16, Vec<Vec<u8>>)>)
    ensures
        match r {
            Some((w, h, n, frames)) => {
                &&& buffers_are(
                    Some(frames),
                    where_canvas_fits(
                        data@,
                        canvas_decode(
                            data@,
                            zstd_bulk_content(payload_of(data@), MAX_PAYLOAD as int),
                        ),
                    ),
                )
                &&& w as nat == u16_le_at(data@, 8)
                &&& h as nat == u16_le_at(data@, 10)
                &&& n as nat == u16_le_at(data@, 12)
            },
            None => where_canvas_fits(
                data@,
                canvas_decode(data@, zstd_bulk_content(payload_of(data@), MAX_PAYLOAD as int)),
            ).is_none(),
        },
{
    let decompressed = match compressed_payload(data) {
        Some(p) => zstd_bulk_decompress(p, MAX_PAYLOAD),
        None => None,
    };
    match composite_msf(data, decompressed) {
        Some(frames) => Some((read_u16(data, 8), read_u16(data, 10), read_u16(data, 12), frames)),
        None => None,
    }
}

/// Decodes an MSF file frame by frame, each at its own size; an empty frame
/// becomes one transparent pixel. A compressed payload is decompressed by
/// the streaming decoder.
pub fn decode_msf_individual_frames(data: &[u8]) -> (r: Option<Vec<DecodedFrame>>)
    ensures
        frames_are(r, data@, individual_decode(data@, zstd_frame_content(payload_of(data@)))),
{
    let decompressed = match compressed_payload(data) {
        Some(p) => zstd_decompress(p),
        None => None,
    };
    individual_msf(data, decompressed)
}

/// Decodes an MSF file frame by frame as `decode_msf_individual_frames`
/// does, with the bulk decompressor under the 256 MiB limit.
pub fn decode_msf_individual_to_rgba(data: &[u8]) -> (r: Option<Vec<DecodedFrame>>)
    ensures
        frames_are(
            r,
            data@,
            individual_decode(data@, zstd_bulk_content(payload_of(data@), MAX_PAYLOAD as int)),
        ),
{
    let decompressed = match compressed_payload(data) {
        Some(p) => zstd_bulk_decompress(p, MAX_PAYLOAD),
        None => None,
    };
    individual_msf(data, decompressed)
}

/// In every decoded file, an empty frame is a fully transparent canvas when
/// composited and one transparent pixel when decoded on its own, whatever
/// the other frames hold.
pub proof fn lemma_empty_frame_of_file(s: Seq<u8>, decompressed: Option<Seq<u8>>, i: int)
    requires
        blob_of(s, decompressed).is_some(),
        0 <= i < declared_frames(s),
        file_entry(s, i).width == 0 || file_entry(s, i).height == 0,
    ensures
        canvas_decode(s, decompressed).unwrap()[i] == zeros(
            (u16_le_at(s, 8) as int) * (u16_le_at(s, 10) as int) * 4,
        ),
        individual_decode(s, decompressed).unwrap()[i] == zeros(4),
{
}

/// In a decoded file of one palette index per pixel, every pixel that the
/// pixel data holds is the palette entry that its index names, or
/// transparent where that entry has alpha 0: an index whose entry is
/// transparent never shows as an opaque pixel.
pub proof fn lemma_indexed_pixel_of_file(
    s: Seq<u8>,
    decompressed: Option<Seq<u8>>,
    i: int,
    p: int,
    j: int,
)
    requires
        blob_of(s, decompressed).is_some(),
        format_of(s) == Some(PixelFormat::Indexed8),
        0 <= i < declared_frames(s),
        file_entry(s, i).width > 0 && file_entry(s, i).height > 0,
        0 <= p < file_entry(s, i).width * file_entry(s, i).height,
        0 <= j < 4,
        file_entry(s, i).data_offset + p < blob_of(s, decompressed).unwrap().len(),
    ensures
        ({
            let blob = blob_of(s, decompressed).unwrap();
            let index = blob[file_entry(s, i).data_offset + p] as int;
            let table = palette_table(s);
            individual_decode(s, decompressed).unwrap()[i][4 * p + j] == (if table[4 * index + 3]
                == 0 {
                0u8
            } else {
                table[4 * index + j]
            })
        }),
{
    let e = file_entry(s, i);
    let blob = blob_of(s, decompressed).unwrap();
    let frame = individual_frame(PixelFormat::Indexed8, palette_table(s), blob, e);
    assert(individual_decode(s, decompressed).unwrap()[i] == frame);
    assert((4 * p + j) / 4 == p && (4 * p + j) % 4 == j);
    assert(0 <= 4 * p + j < e.width * e.height * 4);
}

} // verus!
