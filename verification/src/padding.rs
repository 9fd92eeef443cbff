//! Decoding an ASF file with its own palette and with the palette filled
//! up to a table of 256 entries gives the same canvases, where every colour
//! index that is read names an entry of the palette.

use crate::asf::{asf_canvas, asf_frame, asf_frames_listed, asf_index_start, asf_palette};
use crate::asf::{asf_run, field16, has_asf_signature, lemma_asf_run_bounds, padded_palette};
use crate::bytes::u32_le_at;
use crate::convert::{asf_canvases, asf_meta, asf_staged};
use crate::decode::{canvas_decode, canvas_fits, payload_of, where_canvas_fits, write4, zeros};
use crate::encode::{blob_of_frames, msf_bytes, table_of};
use crate::layout::{lemma_converted_asf_decodes, lemma_file_reads_back};
use vstd::prelude::*;

verus! {

/// True where every colour index that the run reads is below `n`.
pub open spec fn run_names_entries(
    data: Seq<u8>,
    n: int,
    len: int,
    d: int,
    pi: int,
    alpha: u8,
    count: int,
) -> bool
    decreases count,
{
    if count <= 0 || pi >= len {
        true
    } else if alpha == 0 {
        run_names_entries(data, n, len, d, pi + 4, alpha, count - 1)
    } else if 0 <= d < data.len() {
        data[d] < n && run_names_entries(data, n, len, d + 1, pi + 4, alpha, count - 1)
    } else {
        true
    }
}

/// True where every colour index that painting the stream from `d` on
/// reads names an entry of `palette`.
pub open spec fn stream_names_entries(
    data: Seq<u8>,
    palette: Seq<[u8; 4]>,
    pixels: Seq<u8>,
    d: int,
    pi: int,
    end: int,
) -> bool
    decreases data.len() - d,
    via stream_names_entries_decreases
{
    if 0 <= d && d < end && d + 1 < data.len() && pi < pixels.len() {
        let r = asf_run(data, palette, pixels, d + 2, pi, data[d + 1], data[d] as int);
        run_names_entries(
            data,
            palette.len() as int,
            pixels.len() as int,
            d + 2,
            pi,
            data[d + 1],
            data[d] as int,
        ) && stream_names_entries(data, palette, r.0, r.1, r.2, end)
    } else {
        true
    }
}

#[via_fn]
proof fn stream_names_entries_decreases(
    data: Seq<u8>,
    palette: Seq<[u8; 4]>,
    pixels: Seq<u8>,
    d: int,
    pi: int,
    end: int,
) {
    if 0 <= d && d < end && d + 1 < data.len() && pi < pixels.len() {
        lemma_asf_run_bounds(data, palette, pixels, d + 2, pi, data[d + 1], data[d] as int);
    }
}

/// A run whose colour indices name entries of the palette paints the same
/// with the palette filled up to 256 entries.
pub proof fn lemma_run_with_padding(
    data: Seq<u8>,
    p: Seq<[u8; 4]>,
    pixels: Seq<u8>,
    d: int,
    pi: int,
    alpha: u8,
    count: int,
)
    requires
        run_names_entries(data, p.len() as int, pixels.len() as int, d, pi, alpha, count),
    ensures
        asf_run(data, padded_palette(p), pixels, d, pi, alpha, count) == asf_run(
            data,
            p,
            pixels,
            d,
            pi,
            alpha,
            count,
        ),
    decreases count,
{
    if count <= 0 || pi >= pixels.len() {
    } else if alpha == 0 {
        lemma_run_with_padding(data, p, pixels, d, pi + 4, alpha, count - 1);
    } else if 0 <= d < data.len() {
        let c = data[d] as int;
        assert(padded_palette(p)[c] == p[c]);
        let next = write4(pixels, pi, seq![p[c][0], p[c][1], p[c][2], alpha]);
        assert(next.len() == pixels.len());
        lemma_run_with_padding(data, p, next, d + 1, pi + 4, alpha, count - 1);
    }
}

/// A stream whose colour indices name entries of the palette paints the
/// same with the palette filled up to 256 entries.
pub proof fn lemma_stream_with_padding(
    data: Seq<u8>,
    p: Seq<[u8; 4]>,
    pixels: Seq<u8>,
    d: int,
    pi: int,
    end: int,
)
    requires
        stream_names_entries(data, p, pixels, d, pi, end),
    ensures
        asf_frame(data, padded_palette(p), pixels, d, pi, end) == asf_frame(
            data,
            p,
            pixels,
            d,
            pi,
            end,
        ),
    decreases data.len() - d,
{
    if 0 <= d && d < end && d + 1 < data.len() && pi < pixels.len() {
        lemma_asf_run_bounds(data, p, pixels, d + 2, pi, data[d + 1], data[d] as int);
        lemma_run_with_padding(data, p, pixels, d + 2, pi, data[d + 1], data[d] as int);
        let r = asf_run(data, p, pixels, d + 2, pi, data[d + 1], data[d] as int);
        lemma_stream_with_padding(data, p, r.0, r.1, r.2, end);
    }
}

/// True where every colour index that painting frame `i` of the file reads
/// names an entry of the file's palette.
pub open spec fn frame_names_entries(s: Seq<u8>, i: int) -> bool {
    let at = asf_index_start(s) + 8 * i;
    i < asf_frames_listed(s) ==> stream_names_entries(
        s,
        asf_palette(s),
        zeros(field16(s, 16) * field16(s, 20) * 4),
        u32_le_at(s, at) as int,
        0,
        u32_le_at(s, at) as int + u32_le_at(s, at + 4) as int,
    )
}

/// A frame whose colour indices name entries of the file's palette decodes
/// to the same canvas with the palette as it stands and with the table of
/// 256 entries.
pub proof fn lemma_canvas_with_padding(s: Seq<u8>, i: int)
    requires
        frame_names_entries(s, i),
    ensures
        asf_canvas(s, padded_palette(asf_palette(s)), i) == asf_canvas(s, asf_palette(s), i),
{
    if i < asf_frames_listed(s) {
        let at = asf_index_start(s) + 8 * i;
        lemma_stream_with_padding(
            s,
            asf_palette(s),
            zeros(field16(s, 16) * field16(s, 20) * 4),
            u32_le_at(s, at) as int,
            0,
            u32_le_at(s, at) as int + u32_le_at(s, at + 4) as int,
        );
    }
}

/// The frames of an ASF file as the decoder with the table of 256 entries
/// gives them.
pub open spec fn asf_frames_rgba(s: Seq<u8>) -> Seq<Seq<u8>> {
    Seq::new(field16(s, 24) as nat, |i: int| asf_canvas(s, padded_palette(asf_palette(s)), i))
}

/// A converted ASF sprite decodes to the frames that the ASF decoder gives
/// for the source, with the same canvas size and frame count, where
/// decompressing the payload gives back the pixel data that was compressed.
/// This holds where every colour index that is read names an entry of the
/// palette, for a sprite of at least one and fewer than 32768 pixels each
/// way, a palette of at most 65535 entries and less than 2^32 bytes of
/// pixel data.
#[verifier::rlimit(40)]
pub proof fn lemma_asf_conversion_is_exact(s: Seq<u8>, payload: Seq<u8>)
    requires
        has_asf_signature(s),
        0 < field16(s, 16) < 32768,
        0 < field16(s, 20) < 32768,
        asf_palette(s).len() <= 65535,
        blob_of_frames(asf_staged(s)).len() < 4294967296,
        forall|i: int| 0 <= i < field16(s, 24) ==> frame_names_entries(s, i),
    ensures
        ({
            let f = msf_bytes(asf_meta(s, 1, 1), asf_palette(s), table_of(asf_staged(s)), payload);
            &&& payload_of(f) == payload
            &&& canvas_fits(f)
            &&& crate::bytes::u16_le_at(f, 8) == field16(s, 16)
            &&& crate::bytes::u16_le_at(f, 10) == field16(s, 20)
            &&& crate::bytes::u16_le_at(f, 12) == field16(s, 24)
            &&& where_canvas_fits(f, canvas_decode(f, Some(blob_of_frames(asf_staged(s)))))
                == Some(asf_frames_rgba(s))
        }),
{
    let meta = asf_meta(s, 1, 1);
    let entries = table_of(asf_staged(s));
    let f = msf_bytes(meta, asf_palette(s), entries, payload);
    lemma_file_reads_back(meta, asf_palette(s), entries, payload);
    lemma_converted_asf_decodes(s, payload);
    assert(field16(s, 16) * field16(s, 20) * 4 <= 32767 * 32767 * 4) by (nonlinear_arith)
        requires
            0 < field16(s, 16) < 32768,
            0 < field16(s, 20) < 32768,
    ;
    assert(canvas_fits(f));
    assert forall|i: int| 0 <= i < field16(s, 24) implies asf_canvases(s)[i] == asf_frames_rgba(
        s,
    )[i] by {
        lemma_canvas_with_padding(s, i);
    }
    assert(asf_canvases(s) =~= asf_frames_rgba(s));
}

} // verus!
