//! Converting ASF and MPC sprites to MSF files.

use crate::asf::{asf_canvas, asf_canvas_fits, asf_canvas_is_addressable, asf_palette};
use crate::asf::{check_asf_signature, decode_asf_canvases, field16, has_asf_signature};
use crate::asf::{padded_palette, read_asf_palette, read_field16};
use crate::bytes::{read_i32, read_u32, signed16, signed32, u32_le_at};
use crate::compression::{opt_bytes, zstd_compress, zstd_compressed, ZSTD_LEVEL};
use crate::decode::individual_frame;
use crate::encode::{assemble_msf, blob_of_frames, buffers, build_frame_table, encode_msf};
use crate::encode::{lemma_blob_holds_frame, lemma_table_offsets, msf_bytes, table_entry};
use crate::encode::{stage_canvases, staged_views, table_of};
use crate::encode::{MsfEncodeInput, MsfMeta, Staged, StagedFrame};
use crate::mpc::{anchor_bottom, check_mpc_signature, decode_mpc_rle_to_indexed, filled_plane};
use crate::mpc::{find_transparent_index_mpc, has_mpc_signature, mpc_frame_count, mpc_frame_info};
use crate::mpc::{index_used, lemma_first_unused_is_free, lemma_plane_range};
use crate::mpc::{lemma_transparent_index_is_unused, mpc_frame_rgba, mpc_palette_len};
use crate::mpc::{mpc_frame_present, mpc_height, mpc_palette, mpc_plane, mpc_width};
use crate::mpc::{plane_holds, plane_rgba, used_before};
use crate::mpc::{read_mpc_palette, transparent_index, wrap16, wrap_to_i16};
use crate::msf::{MsfFrameEntry, PixelFormat};
use vstd::prelude::*;

verus! {

/// Frames per second for a frame interval in milliseconds: 1000 divided by
/// the interval, at most 255; 15 where the interval is zero.
pub open spec fn fps_of(interval: int) -> int {
    if interval <= 0 {
        15
    } else if 1000int / interval > 255 {
        255
    } else {
        1000int / interval
    }
}

/// Computes the frames per second for a frame interval in milliseconds.
pub fn fps_from_interval(interval: u16) -> (fps: u8)
    ensures
        fps as int == fps_of(interval as int),
{
    if interval == 0 {
        15
    } else {
        let f: u16 = 1000 / interval;
        if f > 255 {
            255
        } else {
            f as u8
        }
    }
}

/// The canvases of an ASF file, painted with the file's own palette: a
/// colour index that the palette does not hold leaves its pixel transparent.
pub open spec fn asf_canvases(s: Seq<u8>) -> Seq<Seq<u8>> {
    Seq::new(field16(s, 24) as nat, |i: int| asf_canvas(s, asf_palette(s), i))
}

/// The fixed fields of the MSF file that an ASF file is converted to.
pub open spec fn asf_meta(s: Seq<u8>, version: u16, flags: u16) -> MsfMeta {
    MsfMeta {
        version,
        flags,
        canvas_width: field16(s, 16) as u16,
        canvas_height: field16(s, 20) as u16,
        frame_count: field16(s, 24) as u16,
        directions: (u32_le_at(s, 28) % 256) as u8,
        fps: fps_of(field16(s, 36)) as u8,
        anchor_x: signed16(field16(s, 40)) as i16,
        anchor_y: signed16(field16(s, 44)) as i16,
        pixel_format: PixelFormat::Indexed8Alpha8,
    }
}

/// Reads the low 16 bits of the 32-bit field at `off` as a two's-complement value.
pub fn read_field_i16(data: &[u8], off: usize) -> (v: i16)
    ensures
        v as int == signed16(field16(data@, off as int)),
{
    let u: u16 = read_field16(data, off);
    if u < 32768 {
        u as i16
    } else {
        (u as i32 - 65536) as i16
    }
}

/// Parses an ASF file into the input of the encoder: the header fields,
/// the palette with every entry opaque, and every frame decoded to a
/// canvas-sized RGBA buffer. Fails exactly where the file is too short,
/// lacks the signature, or has a canvas that this machine cannot address.
pub fn asf_to_msf_input(asf_data: &[u8]) -> (r: Option<MsfEncodeInput>)
    ensures
        r.is_some() == (has_asf_signature(asf_data@) && asf_canvas_fits(asf_data@)),
        r matches Some(input) ==> {
            &&& input.meta(1, 1) == asf_meta(asf_data@, 1, 1)
            &&& input.palette@ == asf_palette(asf_data@)
            &&& buffers(input.frame_pixels@) == asf_canvases(asf_data@)
            &&& input.frame_pixels.len() == input.frame_count
            &&& input.pixel_format == PixelFormat::Indexed8Alpha8
        },
{
    if !check_asf_signature(asf_data) || !asf_canvas_is_addressable(asf_data) {
        return None;
    }
    let palette = read_asf_palette(asf_data);
    let frame_pixels = decode_asf_canvases(asf_data, palette.as_slice());
    assert(buffers(frame_pixels@) =~= asf_canvases(asf_data@));
    Some(
        MsfEncodeInput {
            canvas_width: read_field16(asf_data, 16),
            canvas_height: read_field16(asf_data, 20),
            frame_count: read_field16(asf_data, 24),
            directions: (read_u32(asf_data, 28) % 256) as u8,
            fps: fps_from_interval(read_field16(asf_data, 36)),
            anchor_x: read_field_i16(asf_data, 40),
            anchor_y: read_field_i16(asf_data, 44),
            pixel_format: PixelFormat::Indexed8Alpha8,
            palette,
            frame_pixels,
        },
    )
}

/// The frames of an ASF file, staged as palette index and alpha per pixel.
pub open spec fn asf_staged(s: Seq<u8>) -> Seq<Staged> {
    stage_canvases(
        asf_canvases(s),
        field16(s, 24),
        field16(s, 16),
        field16(s, 20),
        PixelFormat::Indexed8Alpha8,
        asf_palette(s),
    )
}

/// The MSF file that an ASF file is converted to, given what compressing
/// its pixel data yields: version 1, flags 1, palette index and alpha per
/// pixel. `None` where the file is no ASF file, its canvas cannot be
/// addressed on this machine, or compression failed.
pub open spec fn asf_msf_file(s: Seq<u8>, compressed: Option<Seq<u8>>) -> Option<Seq<u8>> {
    if !has_asf_signature(s) || !asf_canvas_fits(s) {
        None
    } else {
        match compressed {
            Some(payload) => Some(
                msf_bytes(asf_meta(s, 1, 1), asf_palette(s), table_of(asf_staged(s)), payload),
            ),
            None => None,
        }
    }
}

/// Converts an ASF file to an MSF file with a Zstandard-compressed payload.
#[verifier::rlimit(40)]
pub fn convert_asf_to_msf(asf_data: &[u8]) -> (r: Option<Vec<u8>>)
    ensures
        opt_bytes(r) == asf_msf_file(
            asf_data@,
            zstd_compressed(blob_of_frames(asf_staged(asf_data@)), ZSTD_LEVEL as int),
        ),
{
    let input = match asf_to_msf_input(asf_data) {
        Some(i) => i,
        None => { return None; },
    };
    assert(input.meta(1, 1) == asf_meta(asf_data@, 1, 1));
    assert(input.frame_count as int == field16(asf_data@, 24));
    assert(input.canvas_width as int == field16(asf_data@, 16));
    assert(input.canvas_height as int == field16(asf_data@, 20));
    assert(input.staged() == asf_staged(asf_data@));
    encode_msf(&input)
}

/// A palette with the entry at `t` made the transparent one: that entry is
/// `(0, 0, 0, 0)`; where the palette was too short to hold it, opaque black
/// fills the gap.
pub open spec fn with_transparent(p: Seq<[u8; 4]>, t: int) -> Seq<[u8; 4]> {
    Seq::new(
        if p.len() > t {
            p.len()
        } else {
            (t + 1) as nat
        },
        |i: int|
            if i == t {
                [0u8, 0u8, 0u8, 0u8]
            } else if i < p.len() {
                p[i]
            } else {
                [0u8, 0u8, 0u8, 255u8]
            },
    )
}

/// In a palette with the entry at `t` made the transparent one, that entry
/// has alpha zero and every other entry of the source palette is unchanged.
pub proof fn lemma_marked_entry_is_clear(p: Seq<[u8; 4]>, t: int, i: int)
    requires
        0 <= t,
        0 <= i < with_transparent(p, t).len(),
    ensures
        t < with_transparent(p, t).len(),
        with_transparent(p, t)[t][3] == 0,
        i != t && i < p.len() ==> with_transparent(p, t)[i] == p[i],
        i != t && i >= p.len() ==> with_transparent(p, t)[i] == [0u8, 0u8, 0u8, 255u8],
{
}

/// Makes the entry at `t` the transparent one, growing the palette with
/// opaque black where it is too short.
pub fn mark_transparent(palette: &mut Vec<[u8; 4]>, t: u8)
    ensures
        final(palette)@ == with_transparent(old(palette)@, t as int),
{
    let ghost before = palette@;
    while palette.len() <= t as usize
        invariant
            palette.len() >= before.len(),
            palette.len() <= t + 1 || palette.len() == before.len(),
            forall|i: int| 0 <= i < before.len() ==> #[trigger] palette[i] == before[i],
            forall|i: int|
                before.len() <= i < palette.len() ==> #[trigger] palette[i] == [
                    0u8,
                    0u8,
                    0u8,
                    255u8,
                ],
        decreases t + 1 - palette.len(),
    {
        palette.push([0u8, 0u8, 0u8, 255u8]);
    }
    palette[t as usize] = [0u8, 0u8, 0u8, 0u8];
    assert(palette@ =~= with_transparent(before, t as int));
}

/// The frames of an MPC file, staged as one palette index per pixel at the
/// frame's own size, skipped pixels holding the index `t`. An absent or
/// empty frame has no data.
pub open spec fn mpc_staged_with(s: Seq<u8>, t: u8) -> Seq<Staged> {
    Seq::new(
        mpc_frame_count(s) as nat,
        |i: int|
            if mpc_frame_present(s, i) {
                Staged {
                    x: 0,
                    y: 0,
                    w: mpc_width(s, i),
                    h: mpc_height(s, i),
                    data: filled_plane(mpc_plane(s, i), t),
                }
            } else {
                Staged { x: 0, y: 0, w: 0, h: 0, data: Seq::<u8>::empty() }
            },
    )
}

/// The frames of an MPC file as the conversion stages them: skipped pixels
/// hold the file's transparent index.
pub open spec fn mpc_staged(s: Seq<u8>) -> Seq<Staged> {
    mpc_staged_with(s, transparent_index(s) as u8)
}

/// The fixed fields of the MSF file that an MPC file is converted to.
pub open spec fn mpc_meta(s: Seq<u8>) -> MsfMeta {
    MsfMeta {
        version: 2,
        flags: 1,
        canvas_width: field16(s, 68) as u16,
        canvas_height: field16(s, 72) as u16,
        frame_count: field16(s, 76) as u16,
        directions: (u32_le_at(s, 80) % 256) as u8,
        fps: fps_of(field16(s, 88)) as u8,
        anchor_x: (field16(s, 68) / 2) as i16,
        anchor_y: wrap16(anchor_bottom(field16(s, 72), signed32(u32_le_at(s, 92) as int))) as i16,
        pixel_format: PixelFormat::Indexed8,
    }
}

/// The MSF file that an MPC file is converted to, given what compressing
/// its pixel data yields: version 2, flags 1, one palette index per pixel,
/// the palette with the transparent entry marked. `None` where the file is
/// no MPC file or compression failed.
pub open spec fn mpc_msf_file(s: Seq<u8>, compressed: Option<Seq<u8>>) -> Option<Seq<u8>> {
    if !has_mpc_signature(s) {
        None
    } else {
        match compressed {
            Some(payload) => Some(
                msf_bytes(
                    mpc_meta(s),
                    with_transparent(mpc_palette(s), transparent_index(s)),
                    table_of(mpc_staged(s)),
                    payload,
                ),
            ),
            None => None,
        }
    }
}

/// Stages every frame of an MPC file with `t` as the transparent index.
pub fn stage_mpc_frames(data: &[u8], t: u8) -> (frames: Vec<StagedFrame>)
    ensures
        staged_views(frames@) == mpc_staged_with(data@, t),
{
    let frame_count: usize = read_field16(data, 76) as usize;
    let mut frames: Vec<StagedFrame> = Vec::new();
    let mut i: usize = 0;
    while i < frame_count
        invariant
            i <= frame_count,
            frame_count as int == mpc_frame_count(data@),
            frames.len() == i,
            forall|k: int| 0 <= k < i ==> (#[trigger] frames[k])@ == mpc_staged_with(data@, t)[k],
        decreases frame_count - i,
    {
        match mpc_frame_info(data, i) {
            Some(f) => {
                let indexed = decode_mpc_rle_to_indexed(
                    data,
                    f.rle_start,
                    f.rle_end,
                    f.width as usize,
                    f.height as usize,
                    t,
                );
                frames.push(
                    StagedFrame {
                        offset_x: 0,
                        offset_y: 0,
                        width: f.width,
                        height: f.height,
                        data: indexed,
                    },
                );
            },
            None => {
                frames.push(
                    StagedFrame { offset_x: 0, offset_y: 0, width: 0, height: 0, data: Vec::new() },
                );
            },
        }
        i = i + 1;
    }
    assert(staged_views(frames@) =~= mpc_staged_with(data@, t));
    frames
}

/// Converts an MPC file to an MSF file with a Zstandard-compressed payload.
/// The smallest palette index that no opaque pixel holds becomes the
/// transparent one and fills every pixel that the source skipped.
pub fn convert_mpc_to_msf(mpc_data: &[u8]) -> (r: Option<Vec<u8>>)
    ensures
        opt_bytes(r) == mpc_msf_file(
            mpc_data@,
            zstd_compressed(blob_of_frames(mpc_staged(mpc_data@)), ZSTD_LEVEL as int),
        ),
{
    if !check_mpc_signature(mpc_data) {
        return None;
    }
    let global_width: u16 = read_field16(mpc_data, 68);
    let global_height: u16 = read_field16(mpc_data, 72);
    let raw_bottom: i32 = read_i32(mpc_data, 92);
    let bottom: i16 = if global_height >= 16 {
        wrap_to_i16(global_height as i64 - 16 - raw_bottom as i64)
    } else {
        wrap_to_i16(16 - global_height as i64 - raw_bottom as i64)
    };
    let meta = MsfMeta {
        version: 2,
        flags: 1,
        canvas_width: global_width,
        canvas_height: global_height,
        frame_count: read_field16(mpc_data, 76),
        directions: (read_u32(mpc_data, 80) % 256) as u8,
        fps: fps_from_interval(read_field16(mpc_data, 88)),
        anchor_x: (global_width / 2) as i16,
        anchor_y: bottom,
        pixel_format: PixelFormat::Indexed8,
    };
    let mut palette = read_mpc_palette(mpc_data);
    let t: u8 = find_transparent_index_mpc(mpc_data);
    mark_transparent(&mut palette, t);
    let frames = stage_mpc_frames(mpc_data, t);
    let (entries, blob) = build_frame_table(&frames);
    let payload = match zstd_compress(blob.as_slice(), ZSTD_LEVEL) {
        Some(p) => p,
        None => { return None; },
    };
    Some(assemble_msf(&meta, palette.as_slice(), entries.as_slice(), payload.as_slice()))
}

/// A palette as the table of 256 entries that a decoder looks colours up
/// in: four bytes per entry, zero beyond the palette.
pub open spec fn table_of_palette(p: Seq<[u8; 4]>) -> Seq<u8> {
    Seq::new(
        1024,
        |k: int|
            if k / 4 < p.len() {
                p[k / 4][k % 4]
            } else {
                0u8
            },
    )
}

/// One byte of a staged plane decoded against the marked palette is the
/// byte that the plane has under the source palette.
proof fn lemma_mpc_byte(
    pal: Seq<[u8; 4]>,
    t: int,
    plane: Seq<int>,
    blob: Seq<u8>,
    e: MsfFrameEntry,
    k: int,
)
    requires
        0 <= t < 256,
        crate::mpc::plane_in_range(plane),
        e.width > 0 && e.height > 0,
        e.width * e.height == plane.len(),
        0 <= k < 4 * plane.len(),
        e.data_offset + k / 4 < blob.len(),
        blob[e.data_offset + k / 4] == filled_plane(plane, t as u8)[k / 4],
        plane[k / 4] >= 0 ==> plane[k / 4] != t && plane[k / 4] < pal.len() && pal[plane[k
            / 4]][3] > 0,
    ensures
        crate::decode::individual_byte(
            PixelFormat::Indexed8,
            table_of_palette(with_transparent(pal, t)),
            blob,
            e,
            k,
        ) == plane_rgba(plane, padded_palette(pal))[k],
{
    let table = table_of_palette(with_transparent(pal, t));
    let p = k / 4;
    let j = k % 4;
    let c = plane[p];
    if c >= 0 {
        assert(with_transparent(pal, t)[c] == pal[c]);
        assert(table[4 * c + 3] == pal[c][3]);
        assert(table[4 * c + j] == pal[c][j]);
        assert(padded_palette(pal)[c] == pal[c]);
    } else {
        assert(with_transparent(pal, t)[t] == [0u8, 0u8, 0u8, 0u8]);
        assert(table[4 * t + 3] == 0);
    }
}

/// Decoding a converted MPC sprite frame by frame gives the pixels of the
/// source: for every frame, the staged data decoded against the palette with
/// the transparent entry marked equals the frame as the MPC decoder sees it.
/// This holds where some palette index is free, every opaque pixel names an
/// entry that the palette holds, and the pixel data takes less than 2^32 bytes.
#[verifier::rlimit(40)]
pub proof fn lemma_mpc_round_trip(s: Seq<u8>, free: int, i: int)
    requires
        has_mpc_signature(s),
        0 <= free < 256,
        !index_used(s, free),
        forall|v: int| 0 <= v < 256 && index_used(s, v) ==> v < mpc_palette_len(s),
        blob_of_frames(mpc_staged(s)).len() < 4294967296,
        0 <= i < mpc_frame_count(s),
    ensures
        individual_frame(
            PixelFormat::Indexed8,
            table_of_palette(with_transparent(mpc_palette(s), transparent_index(s))),
            blob_of_frames(mpc_staged(s)),
            table_entry(mpc_staged(s), i),
        ) == mpc_frame_rgba(s, i),
{
    let st = mpc_staged(s);
    let t = transparent_index(s);
    let pal = mpc_palette(s);
    let table = table_of_palette(with_transparent(pal, t));
    let blob = blob_of_frames(st);
    let e = table_entry(st, i);
    let decoded = individual_frame(PixelFormat::Indexed8, table, blob, e);
    lemma_first_unused_is_free(s, 0, free);
    lemma_table_offsets(st, i);
    if mpc_frame_present(s, i) {
        let plane = mpc_plane(s, i);
        let w = mpc_width(s, i);
        let h = mpc_height(s, i);
        assert(0 < w * h <= 2048 * 2048) by (nonlinear_arith)
            requires
                1 <= w <= 2048,
                1 <= h <= 2048,
        ;
        assert(st[i] == (Staged { x: 0, y: 0, w, h, data: filled_plane(plane, t as u8) }));
        assert(e.width as int == w && e.height as int == h);
        lemma_plane_len(s, i);
        assert(plane.len() == w * h);
        assert(crate::mpc::plane_in_range(plane)) by {
            assert forall|k: int| 0 <= k < plane.len() implies -1 <= #[trigger] plane[k] < 256 by {
                lemma_plane_range(s, i, k);
            }
        }
        assert(decoded.len() == mpc_frame_rgba(s, i).len());
        assert forall|k: int| 0 <= k < decoded.len() implies decoded[k] == mpc_frame_rgba(s, i)[k] by {
            let p = k / 4;
            lemma_blob_holds_frame(st, st.len() as int, i, p);
            lemma_transparent_index_is_unused(s, free, i, p);
            let c = plane[p];
            if c >= 0 {
                assert(plane_holds(plane, c));
                assert(used_before(s, c, mpc_frame_count(s)));
                assert(index_used(s, c));
                assert(pal[c][3] == 255);
            }
            lemma_mpc_byte(pal, t, plane, blob, e, k);
        }
        assert(decoded =~= mpc_frame_rgba(s, i));
    }
}

/// The plane of a frame has one entry per pixel.
pub proof fn lemma_plane_len(s: Seq<u8>, i: int)
    ensures
        mpc_plane(s, i).len() == crate::mpc::untouched(mpc_width(s, i) * mpc_height(s, i)).len(),
{
    crate::mpc::lemma_stream_range(
        s,
        crate::mpc::untouched(mpc_width(s, i) * mpc_height(s, i)),
        crate::mpc::mpc_rle_start(s, i),
        0,
        crate::mpc::mpc_rle_end(s, i),
    );
}

} // verus!
