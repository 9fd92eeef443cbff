//! Files that were cut short: a frame whose index entry and stream lie
//! wholly before the cut decodes as it does in the whole file.

use crate::asf::{asf_canvas, asf_frame, asf_frames_listed, asf_index_start, asf_palette};
use crate::asf::{asf_palette_len, asf_run, field16, lemma_asf_run_bounds};
use crate::bytes::u32_le_at;
use crate::convert::{asf_canvases, asf_staged};
use crate::decode::zeros;
use crate::encode::stage_canvas;
use crate::msf::PixelFormat;
use vstd::prelude::*;

verus! {

/// True where `a` is the beginning of `b`.
pub open spec fn begins(a: Seq<u8>, b: Seq<u8>) -> bool {
    a.len() <= b.len() && forall|k: int| 0 <= k < a.len() ==> a[k] == b[k]
}

/// True where painting the stream from `d` on reads none of the bytes of
/// `data` from position `m` on: every run header and every colour index
/// that is read lies before `m`.
pub open spec fn reads_before(
    data: Seq<u8>,
    palette: Seq<[u8; 4]>,
    pixels: Seq<u8>,
    d: int,
    pi: int,
    end: int,
    m: int,
) -> bool
    decreases data.len() - d,
    via reads_before_decreases
{
    if 0 <= d && d < end && d + 1 < data.len() && pi < pixels.len() {
        let r = asf_run(data, palette, pixels, d + 2, pi, data[d + 1], data[d] as int);
        d + 1 < m && r.1 <= m && reads_before(data, palette, r.0, r.1, r.2, end, m)
    } else {
        true
    }
}

#[via_fn]
proof fn reads_before_decreases(
    data: Seq<u8>,
    palette: Seq<[u8; 4]>,
    pixels: Seq<u8>,
    d: int,
    pi: int,
    end: int,
    m: int,
) {
    if 0 <= d && d < end && d + 1 < data.len() && pi < pixels.len() {
        lemma_asf_run_bounds(data, palette, pixels, d + 2, pi, data[d + 1], data[d] as int);
    }
}

/// A run that ends inside the beginning `a` of `b` is the same run in `a`.
pub proof fn lemma_run_of_beginning(
    a: Seq<u8>,
    b: Seq<u8>,
    palette: Seq<[u8; 4]>,
    pixels: Seq<u8>,
    d: int,
    pi: int,
    alpha: u8,
    count: int,
)
    requires
        begins(a, b),
        0 <= d <= b.len(),
        asf_run(b, palette, pixels, d, pi, alpha, count).1 <= a.len(),
    ensures
        asf_run(a, palette, pixels, d, pi, alpha, count) == asf_run(
            b,
            palette,
            pixels,
            d,
            pi,
            alpha,
            count,
        ),
    decreases count,
{
    if count <= 0 || pi >= pixels.len() {
    } else if alpha == 0 {
        lemma_run_of_beginning(a, b, palette, pixels, d, pi + 4, alpha, count - 1);
    } else if d < b.len() {
        let c = b[d] as int;
        let next = if c < palette.len() {
            crate::decode::write4(pixels, pi, seq![palette[c][0], palette[c][1], palette[c][2], alpha])
        } else {
            pixels
        };
        lemma_asf_run_bounds(b, palette, next, d + 1, pi + 4, alpha, count - 1);
        assert(d < a.len());
        assert(a[d] == b[d]);
        lemma_run_of_beginning(a, b, palette, next, d + 1, pi + 4, alpha, count - 1);
    }
}

/// A stream whose painting reads only the beginning `a` of `b` paints the
/// same pixels from `a`.
pub proof fn lemma_stream_of_beginning(
    a: Seq<u8>,
    b: Seq<u8>,
    palette: Seq<[u8; 4]>,
    pixels: Seq<u8>,
    d: int,
    pi: int,
    end: int,
)
    requires
        begins(a, b),
        reads_before(b, palette, pixels, d, pi, end, a.len() as int),
    ensures
        asf_frame(a, palette, pixels, d, pi, end) == asf_frame(b, palette, pixels, d, pi, end),
    decreases b.len() - d,
{
    if 0 <= d && d < end && d + 1 < b.len() && pi < pixels.len() {
        assert(a[d] == b[d] && a[d + 1] == b[d + 1]);
        let r = asf_run(b, palette, pixels, d + 2, pi, b[d + 1], b[d] as int);
        lemma_asf_run_bounds(b, palette, pixels, d + 2, pi, b[d + 1], b[d] as int);
        lemma_run_of_beginning(a, b, palette, pixels, d + 2, pi, b[d + 1], b[d] as int);
        lemma_stream_of_beginning(a, b, palette, r.0, r.1, r.2, end);
    }
}

/// True where the header, the whole palette and the index entry of frame
/// `i` of the file `full` lie before `cut`, and painting the frame reads
/// nothing from `cut` on.
pub open spec fn frame_lies_before(full: Seq<u8>, cut: int, i: int) -> bool {
    let at = 80 + 4 * (u32_le_at(full, 32) as int) + 8 * i;
    &&& 80 <= cut <= full.len()
    &&& 0 <= i < field16(full, 24)
    &&& at + 8 <= cut
    &&& reads_before(
        full,
        asf_palette(full),
        zeros(field16(full, 16) * field16(full, 20) * 4),
        u32_le_at(full, at) as int,
        0,
        u32_le_at(full, at) as int + u32_le_at(full, at + 4) as int,
        cut,
    )
}

/// In an ASF file that was cut short, every frame that lies before the cut
/// is decoded and staged as in the whole file: the same canvas, the same
/// bounding box, the same pixel data.
#[verifier::rlimit(40)]
pub proof fn lemma_frame_before_the_cut(full: Seq<u8>, cut: int, i: int)
    requires
        frame_lies_before(full, cut, i),
    ensures
        asf_palette(full.take(cut)) == asf_palette(full),
        asf_canvas(full.take(cut), asf_palette(full.take(cut)), i) == asf_canvas(
            full,
            asf_palette(full),
            i,
        ),
        asf_staged(full.take(cut))[i] == asf_staged(full)[i],
{
    let a = full.take(cut);
    assert(begins(a, full));
    let declared = u32_le_at(full, 32) as int;
    assert(u32_le_at(a, 32) == u32_le_at(full, 32));
    assert(u32_le_at(a, 16) == u32_le_at(full, 16));
    assert(u32_le_at(a, 20) == u32_le_at(full, 20));
    assert(u32_le_at(a, 24) == u32_le_at(full, 24));
    assert(asf_palette_len(a) == declared);
    assert(asf_palette_len(full) == declared);
    assert(asf_palette(a) =~= asf_palette(full));
    let at = 80 + 4 * declared + 8 * i;
    assert(asf_index_start(a) == 80 + 4 * declared);
    assert(asf_index_start(full) == 80 + 4 * declared);
    assert(i < asf_frames_listed(a));
    assert(i < asf_frames_listed(full));
    assert(u32_le_at(a, at) == u32_le_at(full, at));
    assert(u32_le_at(a, at + 4) == u32_le_at(full, at + 4));
    let blank = zeros(field16(full, 16) * field16(full, 20) * 4);
    lemma_stream_of_beginning(
        a,
        full,
        asf_palette(full),
        blank,
        u32_le_at(full, at) as int,
        0,
        u32_le_at(full, at) as int + u32_le_at(full, at + 4) as int,
    );
    let c = asf_canvas(full, asf_palette(full), i);
    assert(asf_canvas(a, asf_palette(a), i) == c);
    assert(asf_canvases(a)[i] == c);
    assert(asf_canvases(full)[i] == c);
    assert(asf_staged(a)[i] == stage_canvas(
        c,
        field16(full, 16),
        field16(full, 20),
        PixelFormat::Indexed8Alpha8,
        asf_palette(full),
    ));
}

} // verus!
