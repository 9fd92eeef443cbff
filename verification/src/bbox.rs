//! The tight bounding box of a frame's visible pixels, and its extraction.

use crate::bytes::signed16;
use crate::decode::zeros;
use vstd::prelude::*;
use vstd::slice::slice_subrange;

verus! {

/// True where the pixel at column `x`, row `y` of an RGBA buffer `width`
/// pixels wide has an alpha above zero.
pub open spec fn visible_at(pixels: Seq<u8>, width: int, x: int, y: int) -> bool {
    (y * width + x) * 4 + 3 < pixels.len() && pixels[(y * width + x) * 4 + 3] > 0
}

/// True where some pixel of the `width` by `height` frame is visible.
pub open spec fn has_content(pixels: Seq<u8>, width: int, height: int) -> bool {
    exists|x: int, y: int| 0 <= x < width && 0 <= y < height && visible_at(pixels, width, x, y)
}

/// True where the rectangle at `(x0, y0)` of `w` by `h` pixels holds every
/// visible pixel of the frame and each of its four edges holds one: no edge
/// can move inward without losing a visible pixel.
pub open spec fn is_tight_bbox(
    pixels: Seq<u8>,
    width: int,
    height: int,
    x0: int,
    y0: int,
    w: int,
    h: int,
) -> bool {
    &&& 0 <= x0 && 0 <= y0 && w >= 1 && h >= 1 && x0 + w <= width && y0 + h <= height
    &&& forall|x: int, y: int|
        0 <= x < width && 0 <= y < height && #[trigger] visible_at(pixels, width, x, y) ==> x0
            <= x < x0 + w && y0 <= y < y0 + h
    &&& exists|y: int| 0 <= y < height && #[trigger] visible_at(pixels, width, x0, y)
    &&& exists|y: int| 0 <= y < height && #[trigger] visible_at(pixels, width, x0 + w - 1, y)
    &&& exists|x: int| 0 <= x < width && #[trigger] visible_at(pixels, width, x, y0)
    &&& exists|x: int| 0 <= x < width && #[trigger] visible_at(pixels, width, x, y0 + h - 1)
}

/// True where the pixel at `(x, y)` comes before `(cx, cy)` in row-major order.
pub open spec fn scanned(x: int, y: int, cx: int, cy: int) -> bool {
    y < cy || (y == cy && x < cx)
}

/// The tight bounding box of a frame as `(x, y, width, height)`, or
/// `(0, 0, 0, 0)` for a frame without a visible pixel.
pub open spec fn bbox_of(pixels: Seq<u8>, width: int, height: int) -> (int, int, int, int) {
    if has_content(pixels, width, height) {
        choose|b: (int, int, int, int)| is_tight_bbox(pixels, width, height, b.0, b.1, b.2, b.3)
    } else {
        (0, 0, 0, 0)
    }
}

/// A frame has at most one tight bounding box.
pub proof fn lemma_tight_bbox_unique(
    pixels: Seq<u8>,
    width: int,
    height: int,
    a: (int, int, int, int),
    b: (int, int, int, int),
)
    requires
        is_tight_bbox(pixels, width, height, a.0, a.1, a.2, a.3),
        is_tight_bbox(pixels, width, height, b.0, b.1, b.2, b.3),
    ensures
        a == b,
{
    let ay0 = choose|y: int| 0 <= y < height && #[trigger] visible_at(pixels, width, a.0, y);
    let ay1 = choose|y: int|
        0 <= y < height && #[trigger] visible_at(pixels, width, a.0 + a.2 - 1, y);
    let ax0 = choose|x: int| 0 <= x < width && #[trigger] visible_at(pixels, width, x, a.1);
    let ax1 = choose|x: int|
        0 <= x < width && #[trigger] visible_at(pixels, width, x, a.1 + a.3 - 1);
    let by0 = choose|y: int| 0 <= y < height && #[trigger] visible_at(pixels, width, b.0, y);
    let by1 = choose|y: int|
        0 <= y < height && #[trigger] visible_at(pixels, width, b.0 + b.2 - 1, y);
    let bx0 = choose|x: int| 0 <= x < width && #[trigger] visible_at(pixels, width, x, b.1);
    let bx1 = choose|x: int|
        0 <= x < width && #[trigger] visible_at(pixels, width, x, b.1 + b.3 - 1);
    assert(visible_at(pixels, width, a.0, ay0));
    assert(visible_at(pixels, width, a.0 + a.2 - 1, ay1));
    assert(visible_at(pixels, width, ax0, a.1));
    assert(visible_at(pixels, width, ax1, a.1 + a.3 - 1));
    assert(visible_at(pixels, width, b.0, by0));
    assert(visible_at(pixels, width, b.0 + b.2 - 1, by1));
    assert(visible_at(pixels, width, bx0, b.1));
    assert(visible_at(pixels, width, bx1, b.1 + b.3 - 1));
}

/// Among the numbers from `lo` up to `hi` that satisfy `pred`, where there
/// is one, there is a least.
pub proof fn lemma_least(pred: spec_fn(int) -> bool, lo: int, hi: int) -> (m: int)
    requires
        exists|x: int| lo <= x < hi && #[trigger] pred(x),
    ensures
        lo <= m < hi,
        pred(m),
        forall|x: int| lo <= x < m ==> !#[trigger] pred(x),
    decreases hi - lo,
{
    if pred(lo) {
        lo
    } else {
        let w = choose|x: int| lo <= x < hi && #[trigger] pred(x);
        assert(lo + 1 <= w < hi && pred(w));
        lemma_least(pred, lo + 1, hi)
    }
}

/// Among the numbers from `lo` up to `hi` that satisfy `pred`, where there
/// is one, there is a greatest.
pub proof fn lemma_greatest(pred: spec_fn(int) -> bool, lo: int, hi: int) -> (m: int)
    requires
        exists|x: int| lo <= x < hi && #[trigger] pred(x),
    ensures
        lo <= m < hi,
        pred(m),
        forall|x: int| m < x < hi ==> !#[trigger] pred(x),
    decreases hi - lo,
{
    if pred(hi - 1) {
        hi - 1
    } else {
        let w = choose|x: int| lo <= x < hi && #[trigger] pred(x);
        assert(lo <= w < hi - 1 && pred(w));
        lemma_greatest(pred, lo, hi - 1)
    }
}

/// A frame with a visible pixel has a tight bounding box, and `bbox_of` is it.
pub proof fn lemma_tight_bbox_exists(pixels: Seq<u8>, width: int, height: int)
    requires
        has_content(pixels, width, height),
    ensures
        ({
            let b = bbox_of(pixels, width, height);
            is_tight_bbox(pixels, width, height, b.0, b.1, b.2, b.3)
        }),
{
    let (wx, wy) = choose|x: int, y: int|
        0 <= x < width && 0 <= y < height && visible_at(pixels, width, x, y);
    let in_column = |x: int|
        exists|y: int| 0 <= y < height && #[trigger] visible_at(pixels, width, x, y);
    let in_row = |y: int|
        exists|x: int| 0 <= x < width && #[trigger] visible_at(pixels, width, x, y);
    assert(visible_at(pixels, width, wx, wy));
    assert(in_column(wx));
    assert(in_row(wy));
    let x0 = lemma_least(in_column, 0, width);
    let x1 = lemma_greatest(in_column, 0, width);
    let y0 = lemma_least(in_row, 0, height);
    let y1 = lemma_greatest(in_row, 0, height);
    assert forall|x: int, y: int|
        0 <= x < width && 0 <= y < height && #[trigger] visible_at(
            pixels,
            width,
            x,
            y,
        ) implies x0 <= x < x1 + 1 && y0 <= y < y1 + 1 by {
        assert(in_column(x));
        assert(in_row(y));
    }
    assert(in_column(x0) && in_column(x1) && in_row(y0) && in_row(y1));
    let found = (x0, y0, x1 - x0 + 1, y1 - y0 + 1);
    assert(in_column(found.0 + found.2 - 1));
    assert(in_row(found.1 + found.3 - 1));
    assert(is_tight_bbox(pixels, width, height, found.0, found.1, found.2, found.3));
}

/// Finds the tight bounding box with its offsets as plain numbers.
pub fn tight_bbox_exact(pixels: &[u8], width: usize, height: usize) -> (r: (usize, usize, u16, u16))
    requires
        width <= 65535,
        height <= 65535,
    ensures
        (r.0 as int, r.1 as int, r.2 as int, r.3 as int) == bbox_of(
            pixels@,
            width as int,
            height as int,
        ),
        has_content(pixels@, width as int, height as int) ==> is_tight_bbox(
            pixels@,
            width as int,
            height as int,
            r.0 as int,
            r.1 as int,
            r.2 as int,
            r.3 as int,
        ),
        !has_content(pixels@, width as int, height as int) ==> r == (0usize, 0usize, 0u16, 0u16),
{
    let mut min_x: usize = width;
    let mut min_y: usize = height;
    let mut max_x: usize = 0;
    let mut max_y: usize = 0;
    let mut found: bool = false;
    let ghost mut at_min_x: int = 0;
    let ghost mut at_max_x: int = 0;
    let ghost mut at_min_y: int = 0;
    let ghost mut at_max_y: int = 0;
    let ghost w = width as int;
    let ghost h = height as int;
    let mut y: usize = 0;
    while y < height
        invariant
            y <= height <= 65535,
            width <= 65535,
            w == width,
            h == height,
            forall|xx: int, yy: int|
                0 <= xx < w && 0 <= yy < y && #[trigger] visible_at(pixels@, w, xx, yy) ==> found
                    && min_x <= xx <= max_x && min_y <= yy <= max_y,
            found ==> min_x <= max_x < w && min_y <= max_y < h,
            found ==> 0 <= at_min_x < h && visible_at(pixels@, w, min_x as int, at_min_x),
            found ==> 0 <= at_max_x < h && visible_at(pixels@, w, max_x as int, at_max_x),
            found ==> 0 <= at_min_y < w && visible_at(pixels@, w, at_min_y, min_y as int),
            found ==> 0 <= at_max_y < w && visible_at(pixels@, w, at_max_y, max_y as int),
        decreases height - y,
    {
        assert(0 <= (y as int) * (width as int) <= 65535 * 65535) by (nonlinear_arith)
            requires
                0 <= y as int <= 65535,
                0 <= width as int <= 65535,
        ;
        let row: u64 = (y as u64) * (width as u64);
        let mut x: usize = 0;
        while x < width
            invariant
                x <= width <= 65535,
                y < height <= 65535,
                w == width,
                h == height,
                row as int == (y as int) * w,
                row <= 65535 * 65535,
                forall|xx: int, yy: int|
                    0 <= xx < w && 0 <= yy < h && scanned(xx, yy, x as int, y as int)
                        && #[trigger] visible_at(pixels@, w, xx, yy) ==> found && min_x <= xx
                        <= max_x && min_y <= yy <= max_y,
                found ==> min_x <= max_x < w && min_y <= max_y < h,
                found ==> 0 <= at_min_x < h && visible_at(pixels@, w, min_x as int, at_min_x),
                found ==> 0 <= at_max_x < h && visible_at(pixels@, w, max_x as int, at_max_x),
                found ==> 0 <= at_min_y < w && visible_at(pixels@, w, at_min_y, min_y as int),
                found ==> 0 <= at_max_y < w && visible_at(pixels@, w, at_max_y, max_y as int),
            decreases width - x,
        {
            let idx: u64 = (row + x as u64) * 4;
            if idx + 3 < pixels.len() as u64 && pixels[(idx + 3) as usize] > 0 {
                assert(visible_at(pixels@, w, x as int, y as int));
                if !found || x < min_x {
                    min_x = x;
                    proof {
                        at_min_x = y as int;
                    }
                }
                if !found || x > max_x {
                    max_x = x;
                    proof {
                        at_max_x = y as int;
                    }
                }
                if !found || y < min_y {
                    min_y = y;
                    proof {
                        at_min_y = x as int;
                    }
                }
                if !found || y > max_y {
                    max_y = y;
                    proof {
                        at_max_y = x as int;
                    }
                }
                found = true;
            } else {
                assert(!visible_at(pixels@, w, x as int, y as int));
            }
            x = x + 1;
        }
        y = y + 1;
    }
    if !found {
        return (0, 0, 0, 0);
    }
    assert(has_content(pixels@, w, h));
    let bw: u16 = (max_x - min_x + 1) as u16;
    let bh: u16 = (max_y - min_y + 1) as u16;
    proof {
        assert(visible_at(pixels@, w, min_x as int, at_min_x));
        assert(visible_at(pixels@, w, min_x as int + bw as int - 1, at_max_x));
        assert(visible_at(pixels@, w, at_min_y, min_y as int));
        assert(visible_at(pixels@, w, at_max_y, min_y as int + bh as int - 1));
        let found_box = (min_x as int, min_y as int, bw as int, bh as int);
        assert(is_tight_bbox(pixels@, w, h, found_box.0, found_box.1, found_box.2, found_box.3));
        let chosen = bbox_of(pixels@, w, h);
        lemma_tight_bbox_unique(pixels@, w, h, found_box, chosen);
    }
    (min_x, min_y, bw, bh)
}

/// Finds the smallest rectangle that holds every pixel with alpha above
/// zero, as `(x, y, width, height)`. Gives `(0, 0, 0, 0)` for a frame
/// without one. The offsets are returned as 16-bit two's-complement values.
pub fn compute_tight_bbox(pixels: &[u8], width: usize, height: usize) -> (r: (i16, i16, u16, u16))
    requires
        width <= 65535,
        height <= 65535,
    ensures
        r.0 as int == signed16(bbox_of(pixels@, width as int, height as int).0),
        r.1 as int == signed16(bbox_of(pixels@, width as int, height as int).1),
        r.2 as int == bbox_of(pixels@, width as int, height as int).2,
        r.3 as int == bbox_of(pixels@, width as int, height as int).3,
        has_content(pixels@, width as int, height as int) ==> ({
            let b = bbox_of(pixels@, width as int, height as int);
            is_tight_bbox(pixels@, width as int, height as int, b.0, b.1, b.2, b.3)
        }),
        !has_content(pixels@, width as int, height as int) ==> r == (0i16, 0i16, 0u16, 0u16),
{
    let (x0, y0, bw, bh) = tight_bbox_exact(pixels, width, height);
    let ox: i16 = if x0 < 32768 {
        x0 as i16
    } else {
        (x0 as i32 - 65536) as i16
    };
    let oy: i16 = if y0 < 32768 {
        y0 as i16
    } else {
        (y0 as i32 - 65536) as i16
    };
    (ox, oy, bw, bh)
}

/// Row `r` of the rectangle that `extract_bbox_pixels` cuts out: `4 * w`
/// bytes copied from the frame, or zeros where the row leaves the buffer.
pub open spec fn bbox_row(pixels: Seq<u8>, full_width: int, ox: int, oy: int, w: int, r: int) -> Seq<
    u8,
> {
    let start = ((oy + r) * full_width + ox) * 4;
    if start + 4 * w <= pixels.len() {
        pixels.subrange(start, start + 4 * w)
    } else {
        zeros(4 * w)
    }
}

/// The first `n` rows of the rectangle, one behind the other.
pub open spec fn bbox_rows(pixels: Seq<u8>, full_width: int, ox: int, oy: int, w: int, n: int) -> Seq<
    u8,
>
    decreases n,
{
    if n <= 0 {
        Seq::<u8>::empty()
    } else {
        bbox_rows(pixels, full_width, ox, oy, w, n - 1) + bbox_row(
            pixels,
            full_width,
            ox,
            oy,
            w,
            n - 1,
        )
    }
}

/// The first `n` rows of a rectangle `w` pixels wide take `4 * w * n` bytes.
pub proof fn lemma_bbox_rows_len(
    pixels: Seq<u8>,
    full_width: int,
    ox: int,
    oy: int,
    w: int,
    n: int,
)
    requires
        w >= 0,
        n >= 0,
        ox >= 0,
        oy >= 0,
        full_width >= 0,
    ensures
        bbox_rows(pixels, full_width, ox, oy, w, n).len() == 4 * (w * n),
    decreases n,
{
    if n > 0 {
        lemma_bbox_rows_len(pixels, full_width, ox, oy, w, n - 1);
        assert(w * n == w * (n - 1) + w) by (nonlinear_arith);
        assert((oy + (n - 1)) * full_width >= 0) by (nonlinear_arith)
            requires
                oy + (n - 1) >= 0,
                full_width >= 0,
        ;
        assert(bbox_row(pixels, full_width, ox, oy, w, n - 1).len() == 4 * w);
    } else {
        assert(w * n == 0) by (nonlinear_arith)
            requires
                n == 0,
        ;
    }
}

/// Copies the rectangle at `(ox, oy)` of `w` by `h` pixels out of a frame
/// `full_width` pixels wide. A row that would leave the buffer is zero-filled.
pub fn extract_bbox_pixels(
    pixels: &[u8],
    full_width: usize,
    ox: usize,
    oy: usize,
    w: usize,
    h: usize,
) -> (out: Vec<u8>)
    requires
        full_width <= 65535,
        ox <= 65535,
        oy <= 65535,
        w <= 65535,
        h <= 65535,
    ensures
        out@ == bbox_rows(pixels@, full_width as int, ox as int, oy as int, w as int, h as int),
{
    let mut out: Vec<u8> = Vec::new();
    let mut r: usize = 0;
    while r < h
        invariant
            r <= h <= 65535,
            full_width <= 65535,
            ox <= 65535,
            oy <= 65535,
            w <= 65535,
            out@ == bbox_rows(pixels@, full_width as int, ox as int, oy as int, w as int, r as int),
        decreases h - r,
    {
        assert(0 <= (oy as int + r as int) * (full_width as int) <= 131070 * 65535)
            by (nonlinear_arith)
            requires
                0 <= oy as int + r as int <= 131070,
                0 <= full_width as int <= 65535,
        ;
        let start: u64 = ((oy as u64 + r as u64) * (full_width as u64) + ox as u64) * 4;
        let end: u64 = start + 4 * (w as u64);
        if end <= pixels.len() as u64 {
            let row = slice_subrange(pixels, start as usize, end as usize);
            out.extend_from_slice(row);
        } else {
            let ghost before = out@;
            let mut k: usize = 0;
            while k < 4 * w
                invariant
                    k <= 4 * w,
                    w <= 65535,
                    out@ == before + zeros(k as int),
                decreases 4 * w - k,
            {
                out.push(0u8);
                k = k + 1;
                assert(out@ =~= before + zeros(k as int));
            }
        }
        r = r + 1;
    }
    out
}

} // verus!
