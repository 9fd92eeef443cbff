//! Staging a canvas and compositing the staged frame again gives the
//! canvas back.

use crate::bbox::{bbox_of, bbox_row, bbox_rows, has_content, is_tight_bbox};
use crate::asf::{asf_canvas, asf_frame, asf_palette, asf_run, field16, has_asf_signature};
use crate::asf::lemma_asf_run_bounds;
use crate::bbox::{lemma_bbox_rows_len, lemma_tight_bbox_exists, visible_at};
use crate::bytes::signed16;
use crate::convert::{asf_canvases, asf_staged};
use crate::encode::{blob_of_frames, lemma_blob_holds_frame, lemma_table_offsets, table_entry};
use crate::encode::Staged;
use crate::convert::table_of_palette;
use crate::decode::{dst_fits, dst_index, frame_skipped, paint_pixel, paint_row, paint_rows};
use crate::decode::{painted_frame, stored_pixel, write4, zeros};
use crate::encode::stage_canvas;
use crate::msf::{MsfFrameEntry, PixelFormat};
use crate::palette::{index_of_pixel, indexed_alpha_plane, lemma_nearest_exact, nearest_index};
use crate::palette::reachable;
use vstd::arithmetic::div_mod::{lemma_fundamental_div_mod, lemma_fundamental_div_mod_converse};
use vstd::arithmetic::div_mod::{lemma_div_pos_is_pos, lemma_mod_pos_bound};
use vstd::prelude::*;

verus! {

/// True where pixel `q` of the canvas is either all zero or has an alpha
/// above zero and a colour that the palette holds at an index a byte can reach.
pub open spec fn pixel_clean(c: Seq<u8>, p: Seq<[u8; 4]>, q: int) -> bool {
    if c[4 * q + 3] == 0 {
        c[4 * q] == 0 && c[4 * q + 1] == 0 && c[4 * q + 2] == 0
    } else {
        exists|k: int|
            0 <= k < reachable(p) && (#[trigger] p[k])[0] == c[4 * q] && p[k][1] == c[4 * q + 1]
                && p[k][2] == c[4 * q + 2]
    }
}

/// True where every pixel of the canvas is clean.
pub open spec fn canvas_clean(c: Seq<u8>, p: Seq<[u8; 4]>) -> bool {
    forall|q: int| 0 <= q && 4 * q + 3 < c.len() ==> #[trigger] pixel_clean(c, p, q)
}

/// True where pixel `q` of a canvas `cw` wide lies in the box `bx` and, row
/// by row, before column `cols` of the box's row `rows`.
pub open spec fn covered(bx: (int, int, int, int), cw: int, q: int, rows: int, cols: int) -> bool {
    let yy = q / cw - bx.1;
    let xx = q % cw - bx.0;
    0 <= xx < bx.2 && 0 <= yy && (yy < rows || (yy == rows && xx < cols))
}

/// The canvas with every pixel cleared that is not covered or has alpha zero.
pub open spec fn masked(c: Seq<u8>, bx: (int, int, int, int), cw: int, rows: int, cols: int) -> Seq<
    u8,
> {
    Seq::new(
        c.len(),
        |i: int|
            if covered(bx, cw, i / 4, rows, cols) && c[4 * (i / 4) + 3] != 0 {
                c[i]
            } else {
                0u8
            },
    )
}

/// What ties a canvas, its staged form and the table entry together.
pub open spec fn staged_in_blob(
    c: Seq<u8>,
    cw: int,
    ch: int,
    p: Seq<[u8; 4]>,
    blob: Seq<u8>,
    e: MsfFrameEntry,
) -> bool {
    let st = stage_canvas(c, cw, ch, PixelFormat::Indexed8Alpha8, p);
    &&& 0 < cw < 32768
    &&& 0 < ch < 32768
    &&& c.len() == cw * ch * 4
    &&& canvas_clean(c, p)
    &&& e.offset_x == st.x
    &&& e.offset_y == st.y
    &&& e.width == st.w
    &&& e.height == st.h
    &&& e.data_length == st.data.len()
    &&& e.data_offset + st.data.len() <= blob.len()
    &&& forall|j: int| 0 <= j < st.data.len() ==> blob[e.data_offset + j] == #[trigger] st.data[j]
}

/// Byte `m` of row `r` of the cropped rectangle is the canvas byte at the
/// same place, where every row of the rectangle lies inside the canvas.
#[verifier::rlimit(40)]
proof fn lemma_cropped_byte(
    c: Seq<u8>,
    cw: int,
    ch: int,
    bx: (int, int, int, int),
    n: int,
    r: int,
    m: int,
)
    requires
        0 < cw,
        0 < ch,
        c.len() == cw * ch * 4,
        0 <= bx.0,
        0 <= bx.1,
        0 <= bx.2,
        bx.0 + bx.2 <= cw,
        0 <= r < n,
        bx.1 + n <= ch,
        0 <= m < 4 * bx.2,
    ensures
        4 * (bx.2 * r) + m < bbox_rows(c, cw, bx.0, bx.1, bx.2, n).len(),
        bbox_rows(c, cw, bx.0, bx.1, bx.2, n)[4 * (bx.2 * r) + m] == c[((bx.1 + r) * cw + bx.0) * 4
            + m],
        0 <= ((bx.1 + r) * cw + bx.0) * 4 + m < c.len(),
    decreases n,
{
    let w = bx.2;
    lemma_bbox_rows_len(c, cw, bx.0, bx.1, w, n - 1);
    lemma_bbox_rows_len(c, cw, bx.0, bx.1, w, n);
    assert(w * n == w * (n - 1) + w) by (nonlinear_arith);
    let last = n - 1;
    assert((bx.1 + last) * cw + cw <= ch * cw) by (nonlinear_arith)
        requires
            bx.1 + last + 1 <= ch,
            cw > 0,
    ;
    assert((bx.1 + last) * cw >= 0) by (nonlinear_arith)
        requires
            bx.1 + last >= 0,
            cw > 0,
    ;
    assert(ch * cw == cw * ch) by (nonlinear_arith);
    let start = ((bx.1 + last) * cw + bx.0) * 4;
    assert(start + 4 * w <= c.len());
    assert(bbox_row(c, cw, bx.0, bx.1, w, last) == c.subrange(start, start + 4 * w));
    if r == last {
    } else {
        lemma_cropped_byte(c, cw, ch, bx, n - 1, r, m);
        assert(w * (r + 1) <= w * (n - 1)) by (nonlinear_arith)
            requires
                r + 1 <= n - 1,
                w >= 0,
        ;
        assert(w * (r + 1) == w * r + w) by (nonlinear_arith);
    }
}

/// The canvas pixel that the frame's pixel at column `x`, row `y` stands for.
pub open spec fn canvas_pixel(bx: (int, int, int, int), cw: int, x: int, y: int) -> int {
    (bx.1 + y) * cw + bx.0 + x
}

/// The four bytes of pixel `q`.
pub open spec fn pixel_bytes(c: Seq<u8>, q: int) -> Seq<u8> {
    seq![c[4 * q], c[4 * q + 1], c[4 * q + 2], c[4 * q + 3]]
}

/// Where the frame's pixel at column `x`, row `y` lies in the canvas and
/// in the cropped rectangle.
#[verifier::rlimit(40)]
proof fn lemma_step_geometry(c: Seq<u8>, cw: int, ch: int, bx: (int, int, int, int), x: int, y: int)
    requires
        0 < cw,
        0 < ch,
        c.len() == cw * ch * 4,
        is_tight_bbox(c, cw, ch, bx.0, bx.1, bx.2, bx.3),
        0 <= x < bx.2,
        0 <= y < bx.3,
    ensures
        ({
            let q = canvas_pixel(bx, cw, x, y);
            let pp = y * bx.2 + x;
            let cropped = bbox_rows(c, cw, bx.0, bx.1, bx.2, bx.3);
            &&& 0 <= q
            &&& 4 * q + 3 < c.len()
            &&& q / cw == bx.1 + y
            &&& q % cw == bx.0 + x
            &&& 0 <= pp < bx.2 * bx.3
            &&& cropped.len() == 4 * (bx.2 * bx.3)
            &&& cropped[4 * pp] == c[4 * q]
            &&& cropped[4 * pp + 1] == c[4 * q + 1]
            &&& cropped[4 * pp + 2] == c[4 * q + 2]
            &&& cropped[4 * pp + 3] == c[4 * q + 3]
        }),
{
    let (x0, y0, w, h) = bx;
    let q = canvas_pixel(bx, cw, x, y);
    lemma_bbox_rows_len(c, cw, x0, y0, w, h);
    assert(y * w + w <= h * w) by (nonlinear_arith)
        requires
            y + 1 <= h,
            w >= 0,
    ;
    assert(y * w >= 0) by (nonlinear_arith)
        requires
            y >= 0,
            w >= 0,
    ;
    assert(h * w == w * h) by (nonlinear_arith);
    assert(y * w == w * y) by (nonlinear_arith);
    lemma_cropped_byte(c, cw, ch, bx, h, y, 4 * x);
    lemma_cropped_byte(c, cw, ch, bx, h, y, 4 * x + 1);
    lemma_cropped_byte(c, cw, ch, bx, h, y, 4 * x + 2);
    lemma_cropped_byte(c, cw, ch, bx, h, y, 4 * x + 3);
    lemma_fundamental_div_mod_converse(q, cw, y0 + y, x0 + x);
}

/// The pair of palette index and alpha that stands for a pixel of a clean
/// canvas decodes to that pixel, or to nothing where the pixel is transparent.
proof fn lemma_pair_decodes(
    p: Seq<[u8; 4]>,
    blob: Seq<u8>,
    e: MsfFrameEntry,
    x: int,
    y: int,
    px: Seq<u8>,
)
    requires
        px.len() == 4,
        0 <= e.data_offset + 2 * (y * e.width + x),
        e.data_offset + 2 * (y * e.width + x) + 1 < blob.len(),
        blob[e.data_offset + 2 * (y * e.width + x) + 1] == px[3],
        px[3] != 0 ==> blob[e.data_offset + 2 * (y * e.width + x)] == nearest_index(
            p,
            px[0],
            px[1],
            px[2],
        ) as u8,
        px[3] != 0 ==> exists|k: int|
            0 <= k < reachable(p) && (#[trigger] p[k])[0] == px[0] && p[k][1] == px[1] && p[k][2]
                == px[2],
    ensures
        stored_pixel(PixelFormat::Indexed8Alpha8, table_of_palette(p), blob, e, x, y) == (if px[3]
            != 0 {
            Some(px)
        } else {
            None
        }),
{
    let table = table_of_palette(p);
    if px[3] != 0 {
        let k = choose|k: int|
            0 <= k < reachable(p) && (#[trigger] p[k])[0] == px[0] && p[k][1] == px[1] && p[k][2]
                == px[2];
        lemma_nearest_exact(p, px[0], px[1], px[2], k);
        let ci = nearest_index(p, px[0], px[1], px[2]);
        assert(table[4 * ci] == p[ci][0]);
        assert(table[4 * ci + 1] == p[ci][1]);
        assert(table[4 * ci + 2] == p[ci][2]);
        assert(stored_pixel(PixelFormat::Indexed8Alpha8, table, blob, e, x, y).unwrap() =~= px);
    }
}

/// Where the staged data of a canvas holds the pair for the frame's pixel
/// at column `x`, row `y`, and what the pair is.
#[verifier::rlimit(40)]
proof fn lemma_step_pair(
    c: Seq<u8>,
    cw: int,
    ch: int,
    p: Seq<[u8; 4]>,
    x: int,
    y: int,
)
    requires
        0 < cw < 32768,
        0 < ch < 32768,
        c.len() == cw * ch * 4,
        has_content(c, cw, ch),
        0 <= x < bbox_of(c, cw, ch).2,
        0 <= y < bbox_of(c, cw, ch).3,
    ensures
        ({
            let bx = bbox_of(c, cw, ch);
            let q = canvas_pixel(bx, cw, x, y);
            let st = stage_canvas(c, cw, ch, PixelFormat::Indexed8Alpha8, p);
            let at = 2 * (y * bx.2 + x);
            &&& st.x == bx.0 && st.y == bx.1 && st.w == bx.2 && st.h == bx.3
            &&& 0 <= at
            &&& at + 1 < st.data.len()
            &&& st.data[at + 1] == c[4 * q + 3]
            &&& c[4 * q + 3] != 0 ==> st.data[at] == nearest_index(
                p,
                c[4 * q],
                c[4 * q + 1],
                c[4 * q + 2],
            ) as u8
        }),
{
    lemma_tight_bbox_exists(c, cw, ch);
    let bx = bbox_of(c, cw, ch);
    let (x0, y0, w, h) = bx;
    let st = stage_canvas(c, cw, ch, PixelFormat::Indexed8Alpha8, p);
    let cropped = bbox_rows(c, cw, x0, y0, w, h);
    assert(st.data == indexed_alpha_plane(cropped, p));
    let pp = y * w + x;
    lemma_step_geometry(c, cw, ch, bx, x, y);
    assert(st.data.len() == 2 * (w * h));
    assert(st.data[2 * pp + 1] == cropped[4 * pp + 3]);
    assert(st.data[2 * pp] == index_of_pixel(cropped, p, pp));
}

/// What the payload holds for the frame's pixel at column `x`, row `y`:
/// the canvas pixel, or nothing where that pixel is transparent.
#[verifier::rlimit(40)]
proof fn lemma_step_stored(
    c: Seq<u8>,
    cw: int,
    ch: int,
    p: Seq<[u8; 4]>,
    blob: Seq<u8>,
    e: MsfFrameEntry,
    x: int,
    y: int,
)
    requires
        staged_in_blob(c, cw, ch, p, blob, e),
        has_content(c, cw, ch),
        0 <= x < e.width,
        0 <= y < e.height,
    ensures
        ({
            let bx = bbox_of(c, cw, ch);
            let q = canvas_pixel(bx, cw, x, y);
            &&& e.width as int == bx.2
            &&& e.height as int == bx.3
            &&& dst_index(e, cw, x, y) == 4 * q
            &&& stored_pixel(
                PixelFormat::Indexed8Alpha8,
                table_of_palette(p),
                blob,
                e,
                x,
                y,
            ) == (if c[4 * q + 3] != 0 {
                Some(pixel_bytes(c, q))
            } else {
                None
            })
        }),
{
    lemma_tight_bbox_exists(c, cw, ch);
    let bx = bbox_of(c, cw, ch);
    let st = stage_canvas(c, cw, ch, PixelFormat::Indexed8Alpha8, p);
    assert(e.width as int == st.w && e.height as int == st.h);
    lemma_step_pair(c, cw, ch, p, x, y);
    lemma_step_geometry(c, cw, ch, bx, x, y);
    let qt = canvas_pixel(bx, cw, x, y);
    let at = 2 * (y * bx.2 + x);
    assert(e.offset_x as int == bx.0 && e.offset_y as int == bx.1);
    assert(blob[e.data_offset + at + 1] == st.data[at + 1]);
    assert(blob[e.data_offset + at] == st.data[at]);
    if c[4 * qt + 3] != 0 {
        assert(pixel_clean(c, p, qt));
    }
    lemma_pair_decodes(p, blob, e, x, y, pixel_bytes(c, qt));
}

/// Writing the canvas pixel `q`, where it is not transparent, into the
/// canvas masked up to that pixel gives the canvas masked up to the next one.
#[verifier::rlimit(40)]
proof fn lemma_step_mask(c: Seq<u8>, cw: int, bx: (int, int, int, int), x: int, y: int, q: int)
    requires
        0 < cw,
        0 <= q,
        4 * q + 3 < c.len(),
        q / cw == bx.1 + y,
        q % cw == bx.0 + x,
        0 <= x < bx.2,
        0 <= y,
    ensures
        (if c[4 * q + 3] != 0 {
            write4(masked(c, bx, cw, y, x), 4 * q, pixel_bytes(c, q))
        } else {
            masked(c, bx, cw, y, x)
        }) == masked(c, bx, cw, y, x + 1),
{
    let before = masked(c, bx, cw, y, x);
    let after = masked(c, bx, cw, y, x + 1);
    let painted = if c[4 * q + 3] != 0 {
        write4(before, 4 * q, pixel_bytes(c, q))
    } else {
        before
    };
    assert forall|i: int| 0 <= i < c.len() implies painted[i] == after[i] by {
        let qi = i / 4;
        if qi == q {
            assert(covered(bx, cw, qi, y, x + 1));
            assert(!covered(bx, cw, qi, y, x));
        } else {
            lemma_fundamental_div_mod(qi, cw);
            lemma_fundamental_div_mod(q, cw);
            assert(covered(bx, cw, qi, y, x + 1) == covered(bx, cw, qi, y, x));
        }
    }
    assert(painted =~= after);
}

/// Painting one more pixel of the staged frame uncovers one more pixel of
/// the canvas.
proof fn lemma_paint_step(
    c: Seq<u8>,
    cw: int,
    ch: int,
    p: Seq<[u8; 4]>,
    blob: Seq<u8>,
    e: MsfFrameEntry,
    x: int,
    y: int,
)
    requires
        staged_in_blob(c, cw, ch, p, blob, e),
        has_content(c, cw, ch),
        0 <= x < e.width,
        0 <= y < e.height,
    ensures
        paint_pixel(
            masked(c, bbox_of(c, cw, ch), cw, y, x),
            PixelFormat::Indexed8Alpha8,
            table_of_palette(p),
            blob,
            e,
            cw,
            x,
            y,
        ) == masked(c, bbox_of(c, cw, ch), cw, y, x + 1),
{
    lemma_tight_bbox_exists(c, cw, ch);
    let bx = bbox_of(c, cw, ch);
    let q = canvas_pixel(bx, cw, x, y);
    lemma_step_stored(c, cw, ch, p, blob, e, x, y);
    lemma_step_geometry(c, cw, ch, bx, x, y);
    lemma_step_mask(c, cw, bx, x, y, q);
    assert(dst_fits(
        PixelFormat::Indexed8Alpha8,
        e,
        cw,
        masked(c, bx, cw, y, x).len() as int,
        x,
        y,
    ));
}

/// Painting a row of the staged frame uncovers that row of the canvas.
proof fn lemma_paint_row(
    c: Seq<u8>,
    cw: int,
    ch: int,
    p: Seq<[u8; 4]>,
    blob: Seq<u8>,
    e: MsfFrameEntry,
    y: int,
    n: int,
)
    requires
        staged_in_blob(c, cw, ch, p, blob, e),
        has_content(c, cw, ch),
        0 <= n <= e.width,
        0 <= y < e.height,
    ensures
        paint_row(
            masked(c, bbox_of(c, cw, ch), cw, y, 0),
            PixelFormat::Indexed8Alpha8,
            table_of_palette(p),
            blob,
            e,
            cw,
            y,
            n,
        ) == masked(c, bbox_of(c, cw, ch), cw, y, n),
    decreases n,
{
    if n > 0 {
        lemma_paint_row(c, cw, ch, p, blob, e, y, n - 1);
        lemma_paint_step(c, cw, ch, p, blob, e, n - 1, y);
    }
}

/// Painting the first rows of the staged frame uncovers those rows of the canvas.
proof fn lemma_paint_rows(
    c: Seq<u8>,
    cw: int,
    ch: int,
    p: Seq<[u8; 4]>,
    blob: Seq<u8>,
    e: MsfFrameEntry,
    n: int,
)
    requires
        staged_in_blob(c, cw, ch, p, blob, e),
        has_content(c, cw, ch),
        0 <= n <= e.height,
    ensures
        paint_rows(
            zeros(cw * ch * 4),
            PixelFormat::Indexed8Alpha8,
            table_of_palette(p),
            blob,
            e,
            cw,
            n,
        ) == masked(c, bbox_of(c, cw, ch), cw, n, 0),
    decreases n,
{
    let bx = bbox_of(c, cw, ch);
    if n > 0 {
        lemma_paint_rows(c, cw, ch, p, blob, e, n - 1);
        lemma_paint_row(c, cw, ch, p, blob, e, n - 1, e.width as int);
        assert(masked(c, bx, cw, n - 1, e.width as int) =~= masked(c, bx, cw, n, 0));
    } else {
        assert(zeros(cw * ch * 4) =~= masked(c, bx, cw, 0, 0));
    }
}

/// Compositing a staged frame gives the canvas back: where a canvas of
/// clean pixels is staged as palette index and alpha per pixel and its data
/// lies in the payload at the entry's offset, the composited frame equals
/// the canvas.
#[verifier::rlimit(40)]
pub proof fn lemma_stage_then_composite(
    c: Seq<u8>,
    cw: int,
    ch: int,
    p: Seq<[u8; 4]>,
    blob: Seq<u8>,
    e: MsfFrameEntry,
)
    requires
        staged_in_blob(c, cw, ch, p, blob, e),
    ensures
        painted_frame(PixelFormat::Indexed8Alpha8, table_of_palette(p), blob, e, cw, ch) == c,
{
    let fmt = PixelFormat::Indexed8Alpha8;
    let table = table_of_palette(p);
    let bx = bbox_of(c, cw, ch);
    let painted = painted_frame(fmt, table, blob, e, cw, ch);
    if has_content(c, cw, ch) {
        lemma_tight_bbox_exists(c, cw, ch);
        assert(!frame_skipped(blob, e));
        lemma_paint_rows(c, cw, ch, p, blob, e, e.height as int);
        assert(painted == masked(c, bx, cw, e.height as int, 0));
    } else {
        assert(painted == zeros(cw * ch * 4));
    }
    assert forall|i: int| 0 <= i < c.len() implies painted[i] == c[i] by {
        let qi = i / 4;
        lemma_fundamental_div_mod(qi, cw);
        lemma_mod_pos_bound(qi, cw);
        lemma_div_pos_is_pos(qi, cw);
        let yy = qi / cw;
        let xx = qi % cw;
        assert(cw * yy == yy * cw) by (nonlinear_arith);
        assert(yy < ch) by (nonlinear_arith)
            requires
                qi == cw * yy + xx,
                0 <= xx,
                qi < cw * ch,
                cw > 0,
        ;
        assert(pixel_clean(c, p, qi));
        if c[4 * qi + 3] != 0 {
            assert(visible_at(c, cw, xx, yy));
            assert(has_content(c, cw, ch));
            assert(covered(bx, cw, qi, e.height as int, 0));
        }
    }
    assert(painted =~= c);
}

/// The palette index stored for the pixel at column `x`, row `y` of a frame
/// of palette index and alpha per pixel.
pub open spec fn index_at(blob: Seq<u8>, e: MsfFrameEntry, x: int, y: int) -> int {
    blob[e.data_offset + 2 * (y * e.width + x)] as int
}

/// True where every pixel of the frame that the payload holds with an alpha
/// above zero names a palette entry that exists and that a byte can reach.
pub open spec fn indices_in_palette(blob: Seq<u8>, e: MsfFrameEntry, p: Seq<[u8; 4]>) -> bool {
    forall|x: int, y: int|
        0 <= x < e.width && 0 <= y < e.height && e.data_offset + 2 * (y * e.width + x) + 1
            < blob.len() && blob[e.data_offset + 2 * (y * e.width + x) + 1] != 0
            ==> #[trigger] index_at(blob, e, x, y) < reachable(p)
}

/// Painting a pixel whose index the palette holds keeps a canvas clean.
proof fn lemma_pixel_keeps_clean(
    canvas: Seq<u8>,
    p: Seq<[u8; 4]>,
    blob: Seq<u8>,
    e: MsfFrameEntry,
    cw: int,
    x: int,
    y: int,
)
    requires
        canvas_clean(canvas, p),
        indices_in_palette(blob, e, p),
        0 <= x < e.width,
        0 <= y < e.height,
    ensures
        canvas_clean(
            paint_pixel(canvas, PixelFormat::Indexed8Alpha8, table_of_palette(p), blob, e, cw, x, y),
            p,
        ),
        paint_pixel(
            canvas,
            PixelFormat::Indexed8Alpha8,
            table_of_palette(p),
            blob,
            e,
            cw,
            x,
            y,
        ).len() == canvas.len(),
{
    let fmt = PixelFormat::Indexed8Alpha8;
    let table = table_of_palette(p);
    let next = paint_pixel(canvas, fmt, table, blob, e, cw, x, y);
    let dst = dst_index(e, cw, x, y);
    if stored_pixel(fmt, table, blob, e, x, y).is_some() && dst_fits(
        fmt,
        e,
        cw,
        canvas.len() as int,
        x,
        y,
    ) {
        let ci = index_at(blob, e, x, y);
        assert(0 <= ci < reachable(p));
        assert(table[4 * ci] == p[ci][0]);
        assert(table[4 * ci + 1] == p[ci][1]);
        assert(table[4 * ci + 2] == p[ci][2]);
        let qd = (e.offset_y as int + y) * cw + e.offset_x as int + x;
        assert(dst == 4 * qd);
        assert forall|q: int| 0 <= q && 4 * q + 3 < next.len() implies #[trigger] pixel_clean(
            next,
            p,
            q,
        ) by {
            if q == qd {
                assert(p[ci][0] == next[4 * q] && p[ci][1] == next[4 * q + 1] && p[ci][2] == next[4
                    * q + 2]);
            } else {
                assert(pixel_clean(canvas, p, q));
                assert(next[4 * q] == canvas[4 * q]);
                assert(next[4 * q + 1] == canvas[4 * q + 1]);
                assert(next[4 * q + 2] == canvas[4 * q + 2]);
                assert(next[4 * q + 3] == canvas[4 * q + 3]);
            }
        }
    }
}

/// Painting the first pixels of a row keeps a canvas clean.
proof fn lemma_row_keeps_clean(
    canvas: Seq<u8>,
    p: Seq<[u8; 4]>,
    blob: Seq<u8>,
    e: MsfFrameEntry,
    cw: int,
    y: int,
    n: int,
)
    requires
        canvas_clean(canvas, p),
        indices_in_palette(blob, e, p),
        0 <= n <= e.width,
        0 <= y < e.height,
    ensures
        canvas_clean(
            paint_row(canvas, PixelFormat::Indexed8Alpha8, table_of_palette(p), blob, e, cw, y, n),
            p,
        ),
        paint_row(
            canvas,
            PixelFormat::Indexed8Alpha8,
            table_of_palette(p),
            blob,
            e,
            cw,
            y,
            n,
        ).len() == canvas.len(),
    decreases n,
{
    if n > 0 {
        lemma_row_keeps_clean(canvas, p, blob, e, cw, y, n - 1);
        lemma_pixel_keeps_clean(
            paint_row(
                canvas,
                PixelFormat::Indexed8Alpha8,
                table_of_palette(p),
                blob,
                e,
                cw,
                y,
                n - 1,
            ),
            p,
            blob,
            e,
            cw,
            n - 1,
            y,
        );
    }
}

/// Painting the first rows of a frame keeps a canvas clean.
proof fn lemma_rows_keep_clean(
    canvas: Seq<u8>,
    p: Seq<[u8; 4]>,
    blob: Seq<u8>,
    e: MsfFrameEntry,
    cw: int,
    n: int,
)
    requires
        canvas_clean(canvas, p),
        indices_in_palette(blob, e, p),
        0 <= n <= e.height,
    ensures
        canvas_clean(
            paint_rows(canvas, PixelFormat::Indexed8Alpha8, table_of_palette(p), blob, e, cw, n),
            p,
        ),
        paint_rows(
            canvas,
            PixelFormat::Indexed8Alpha8,
            table_of_palette(p),
            blob,
            e,
            cw,
            n,
        ).len() == canvas.len(),
    decreases n,
{
    if n > 0 {
        lemma_rows_keep_clean(canvas, p, blob, e, cw, n - 1);
        lemma_row_keeps_clean(
            paint_rows(
                canvas,
                PixelFormat::Indexed8Alpha8,
                table_of_palette(p),
                blob,
                e,
                cw,
                n - 1,
            ),
            p,
            blob,
            e,
            cw,
            n - 1,
            e.width as int,
        );
    }
}

/// A frame of palette index and alpha per pixel whose indices the palette
/// holds composites to a clean canvas of the sprite's size.
pub proof fn lemma_composited_is_clean(
    p: Seq<[u8; 4]>,
    blob: Seq<u8>,
    e: MsfFrameEntry,
    cw: int,
    ch: int,
)
    requires
        indices_in_palette(blob, e, p),
        0 <= cw,
        0 <= ch,
    ensures
        canvas_clean(
            painted_frame(PixelFormat::Indexed8Alpha8, table_of_palette(p), blob, e, cw, ch),
            p,
        ),
        painted_frame(PixelFormat::Indexed8Alpha8, table_of_palette(p), blob, e, cw, ch).len()
            == cw * ch * 4,
{
    let blank = zeros(cw * ch * 4);
    assert(0 <= cw * ch) by (nonlinear_arith)
        requires
            0 <= cw,
            0 <= ch,
    ;
    assert forall|q: int| 0 <= q && 4 * q + 3 < blank.len() implies #[trigger] pixel_clean(
        blank,
        p,
        q,
    ) by {}
    if !frame_skipped(blob, e) {
        lemma_rows_keep_clean(blank, p, blob, e, cw, e.height as int);
    }
}

/// A run of an ASF stream keeps a canvas clean: it writes whole pixels in
/// palette colours with an alpha above zero.
proof fn lemma_run_keeps_clean(
    data: Seq<u8>,
    p: Seq<[u8; 4]>,
    pixels: Seq<u8>,
    d: int,
    pi: int,
    alpha: u8,
    count: int,
)
    requires
        canvas_clean(pixels, p),
        pixels.len() % 4 == 0,
        pi % 4 == 0,
        0 <= pi,
    ensures
        canvas_clean(asf_run(data, p, pixels, d, pi, alpha, count).0, p),
        asf_run(data, p, pixels, d, pi, alpha, count).0.len() == pixels.len(),
        asf_run(data, p, pixels, d, pi, alpha, count).2 % 4 == 0,
        asf_run(data, p, pixels, d, pi, alpha, count).2 >= 0,
    decreases count,
{
    if count <= 0 || pi >= pixels.len() {
    } else if alpha == 0 {
        lemma_run_keeps_clean(data, p, pixels, d, pi + 4, alpha, count - 1);
    } else if 0 <= d < data.len() {
        let ci = data[d] as int;
        if ci < p.len() {
            let px = seq![p[ci][0], p[ci][1], p[ci][2], alpha];
            let next = write4(pixels, pi, px);
            assert forall|q: int| 0 <= q && 4 * q + 3 < next.len() implies #[trigger] pixel_clean(
                next,
                p,
                q,
            ) by {
                if 4 * q == pi {
                    assert(0 <= ci < reachable(p));
                    assert(p[ci][0] == next[4 * q] && p[ci][1] == next[4 * q + 1] && p[ci][2]
                        == next[4 * q + 2]);
                } else {
                    assert(pixel_clean(pixels, p, q));
                    assert(next[4 * q] == pixels[4 * q]);
                    assert(next[4 * q + 1] == pixels[4 * q + 1]);
                    assert(next[4 * q + 2] == pixels[4 * q + 2]);
                    assert(next[4 * q + 3] == pixels[4 * q + 3]);
                }
            }
            lemma_run_keeps_clean(data, p, next, d + 1, pi + 4, alpha, count - 1);
        } else {
            lemma_run_keeps_clean(data, p, pixels, d + 1, pi + 4, alpha, count - 1);
        }
    }
}

/// An ASF stream keeps a canvas clean.
proof fn lemma_stream_keeps_clean(
    data: Seq<u8>,
    p: Seq<[u8; 4]>,
    pixels: Seq<u8>,
    d: int,
    pi: int,
    end: int,
)
    requires
        canvas_clean(pixels, p),
        pixels.len() % 4 == 0,
        pi % 4 == 0,
        0 <= pi,
    ensures
        canvas_clean(asf_frame(data, p, pixels, d, pi, end), p),
        asf_frame(data, p, pixels, d, pi, end).len() == pixels.len(),
    decreases data.len() - d,
{
    if 0 <= d && d < end && d + 1 < data.len() && pi < pixels.len() {
        lemma_asf_run_bounds(data, p, pixels, d + 2, pi, data[d + 1], data[d] as int);
        lemma_run_keeps_clean(data, p, pixels, d + 2, pi, data[d + 1], data[d] as int);
        let r = asf_run(data, p, pixels, d + 2, pi, data[d + 1], data[d] as int);
        lemma_stream_keeps_clean(data, p, r.0, r.1, r.2, end);
    }
}

/// Every canvas that the ASF decoder paints with a palette is clean for
/// that palette and has the size of the sprite.
pub proof fn lemma_asf_canvas_clean(s: Seq<u8>, p: Seq<[u8; 4]>, i: int)
    ensures
        canvas_clean(asf_canvas(s, p, i), p),
        asf_canvas(s, p, i).len() == zeros(field16(s, 16) * field16(s, 20) * 4).len(),
{
    let blank = zeros(field16(s, 16) * field16(s, 20) * 4);
    assert(canvas_clean(blank, p)) by {
        assert forall|q: int| 0 <= q && 4 * q + 3 < blank.len() implies #[trigger] pixel_clean(
            blank,
            p,
            q,
        ) by {}
    }
    assert(0 <= field16(s, 16) * field16(s, 20)) by (nonlinear_arith)
        requires
            0 <= field16(s, 16),
            0 <= field16(s, 20),
    ;
    let at = crate::asf::asf_index_start(s) + 8 * i;
    lemma_stream_keeps_clean(
        s,
        p,
        blank,
        crate::bytes::u32_le_at(s, at) as int,
        0,
        crate::bytes::u32_le_at(s, at) as int + crate::bytes::u32_le_at(s, at + 4) as int,
    );
}

/// The staged form of a clean canvas lies in the sprite's pixel data where
/// its table entry says.
#[verifier::rlimit(40)]
pub proof fn lemma_staged_frame_in_blob(
    c: Seq<u8>,
    cw: int,
    ch: int,
    p: Seq<[u8; 4]>,
    st: Seq<Staged>,
    i: int,
)
    requires
        0 < cw < 32768,
        0 < ch < 32768,
        c.len() == cw * ch * 4,
        canvas_clean(c, p),
        0 <= i < st.len(),
        st[i] == stage_canvas(c, cw, ch, PixelFormat::Indexed8Alpha8, p),
        blob_of_frames(st).len() < 4294967296,
    ensures
        staged_in_blob(c, cw, ch, p, blob_of_frames(st), table_entry(st, i)),
{
    let blob = blob_of_frames(st);
    let e = table_entry(st, i);
    lemma_table_offsets(st, i);
    if has_content(c, cw, ch) {
        lemma_tight_bbox_exists(c, cw, ch);
    }
    assert forall|j: int| 0 <= j < st[i].data.len() implies blob[e.data_offset + j]
        == #[trigger] st[i].data[j] by {
        lemma_blob_holds_frame(st, st.len() as int, i, j);
    }
    crate::encode::lemma_blob_prefix_grows(st, i, st.len() as int);
    crate::encode::lemma_blob_prefix_grows(st, i + 1, st.len() as int);
    let sf = stage_canvas(c, cw, ch, PixelFormat::Indexed8Alpha8, p);
    assert(e.offset_x == sf.x);
    assert(e.offset_y == sf.y);
    assert(e.width == sf.w);
    assert(e.height == sf.h);
    assert(e.data_length == sf.data.len());
    assert(e.data_offset + sf.data.len() <= blob.len());
}

/// Converting an ASF sprite and compositing the result gives the source
/// frames: for every frame, the staged data composited against the sprite's
/// palette equals the canvas that the ASF decoder paints with that palette.
/// This holds for a sprite of at least one and fewer than 32768 pixels each
/// way whose pixel data takes less than 2^32 bytes.
#[verifier::rlimit(40)]
pub proof fn lemma_asf_round_trip(s: Seq<u8>, i: int)
    requires
        has_asf_signature(s),
        0 < field16(s, 16) < 32768,
        0 < field16(s, 20) < 32768,
        blob_of_frames(asf_staged(s)).len() < 4294967296,
        0 <= i < field16(s, 24),
    ensures
        painted_frame(
            PixelFormat::Indexed8Alpha8,
            table_of_palette(asf_palette(s)),
            blob_of_frames(asf_staged(s)),
            table_entry(asf_staged(s), i),
            field16(s, 16),
            field16(s, 20),
        ) == asf_canvas(s, asf_palette(s), i),
{
    let p = asf_palette(s);
    let cw = field16(s, 16);
    let ch = field16(s, 20);
    let c = asf_canvas(s, p, i);
    let st = asf_staged(s);
    let blob = blob_of_frames(st);
    let e = table_entry(st, i);
    lemma_asf_canvas_clean(s, p, i);
    assert(0 <= cw * ch) by (nonlinear_arith)
        requires
            0 <= cw,
            0 <= ch,
    ;
    assert(asf_canvases(s)[i] == c);
    assert(st[i] == stage_canvas(c, cw, ch, PixelFormat::Indexed8Alpha8, p));
    lemma_staged_frame_in_blob(c, cw, ch, p, st, i);
    lemma_stage_then_composite(c, cw, ch, p, blob, e);
}

/// The table entry of a converted ASF frame is the tight bounding box of
/// the decoded canvas, and its data holds exactly the pixels of that box as
/// pairs of palette index and alpha: two bytes for each. This holds where
/// the pixel data of the sprite takes less than 2^32 bytes.
pub proof fn lemma_asf_entry_is_tight_box(s: Seq<u8>, i: int)
    requires
        0 <= i < field16(s, 24),
        blob_of_frames(asf_staged(s)).len() < 4294967296,
    ensures
        ({
            let c = asf_canvas(s, asf_palette(s), i);
            let b = bbox_of(c, field16(s, 16), field16(s, 20));
            let e = table_entry(asf_staged(s), i);
            &&& has_content(c, field16(s, 16), field16(s, 20)) ==> is_tight_bbox(
                c,
                field16(s, 16),
                field16(s, 20),
                b.0,
                b.1,
                b.2,
                b.3,
            )
            &&& !has_content(c, field16(s, 16), field16(s, 20)) ==> b == (0int, 0int, 0int, 0int)
            &&& e.offset_x as int == signed16(b.0)
            &&& e.offset_y as int == signed16(b.1)
            &&& e.width as int == b.2
            &&& e.height as int == b.3
            &&& e.data_length as int == 2 * (b.2 * b.3)
        }),
{
    let p = asf_palette(s);
    let cw = field16(s, 16);
    let ch = field16(s, 20);
    let c = asf_canvas(s, p, i);
    let st = asf_staged(s);
    assert(asf_canvases(s)[i] == c);
    assert(st[i] == stage_canvas(c, cw, ch, PixelFormat::Indexed8Alpha8, p));
    lemma_table_offsets(st, i);
    if has_content(c, cw, ch) {
        lemma_tight_bbox_exists(c, cw, ch);
    }
    crate::encode::lemma_staged_size(c, cw, ch, PixelFormat::Indexed8Alpha8, p);
    let b = bbox_of(c, cw, ch);
    if b.2 == 0 || b.3 == 0 {
        assert(b.2 * b.3 == 0) by (nonlinear_arith)
            requires
                b.2 == 0 || b.3 == 0,
        ;
    }
}

/// A frame of an ASF file whose index entry the file does not hold, as in
/// a file that was cut short, is converted to an empty entry: no size, no
/// offset, no data, and a data offset at the running total.
pub proof fn lemma_unlisted_asf_frame_is_empty(s: Seq<u8>, i: int)
    requires
        crate::asf::asf_frames_listed(s) <= i < field16(s, 24),
        blob_of_frames(asf_staged(s)).len() < 4294967296,
    ensures
        asf_canvas(s, asf_palette(s), i) == zeros(field16(s, 16) * field16(s, 20) * 4),
        asf_staged(s)[i].data.len() == 0,
        ({
            let e = table_entry(asf_staged(s), i);
            &&& e.offset_x == 0
            &&& e.offset_y == 0
            &&& e.width == 0
            &&& e.height == 0
            &&& e.data_length == 0
            &&& e.data_offset as int == crate::encode::blob_prefix(asf_staged(s), i).len()
        }),
{
    let p = asf_palette(s);
    let cw = field16(s, 16);
    let ch = field16(s, 20);
    let c = asf_canvas(s, p, i);
    let st = asf_staged(s);
    assert(asf_canvases(s)[i] == c);
    assert(st[i] == stage_canvas(c, cw, ch, PixelFormat::Indexed8Alpha8, p));
    crate::encode::lemma_clear_canvas_is_empty(c, cw, ch, PixelFormat::Indexed8Alpha8, p);
    lemma_table_offsets(st, i);
}

} // verus!
