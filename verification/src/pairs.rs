//! Checking a converted sprite against its source: both are decoded, their
//! sizes and frame counts are held against each other, and every frame is
//! compared byte for byte.

use crate::asf::{asf_canvas_fits, decode_asf_to_rgba, field16, has_asf_signature};
use crate::bytes::u16_le_at;
use crate::asf::asf_palette;
use crate::compare::{compare_frames, diff_of, differing_total, differs_at, frame_differs};
use crate::compare::{lemma_diff_count, shared_pixels, SpriteDiff};
use crate::convert::{asf_meta, asf_staged, mpc_meta, mpc_staged, with_transparent};
use crate::encode::{blob_of_frames, msf_bytes, table_of};
use crate::layout::{lemma_converted_mpc_decodes, lemma_file_reads_back};
use crate::mpc::{index_used, mpc_palette, mpc_palette_len, transparent_index};
use crate::padding::{frame_names_entries, lemma_asf_conversion_is_exact};
use crate::compression::{zstd_bulk_content, MAX_PAYLOAD};
use crate::decode::{canvas_decode, decode_msf_individual_to_rgba, decode_msf_to_rgba};
use crate::decode::{file_entry, individual_decode, payload_of, where_canvas_fits, DecodedFrame};
use crate::encode::buffers;
use crate::layout::mpc_frames_rgba;
use crate::mpc::{decode_mpc_to_rgba, has_mpc_signature, mpc_frame_count, mpc_frame_present};
use crate::mpc::{mpc_height, mpc_width};
use crate::msf::declared_frames;
use crate::padding::asf_frames_rgba;
use vstd::prelude::*;
use vstd::slice::slice_to_vec;

verus! {

/// How the check of a source file against its converted file ended.
#[derive(Clone, Copy, Debug)]
pub enum PairOutcome {
    /// The source could not be decoded.
    SourceUnreadable,
    /// The converted file could not be decoded.
    ConvertedUnreadable,
    /// The two disagree on canvas size, frame count or a frame's size.
    MetadataMismatch,
    /// Both were decoded and compared.
    Compared(SpriteDiff),
}

/// The frames of an ASF file as its decoder gives them, if it gives any.
pub open spec fn asf_source(s: Seq<u8>) -> Option<Seq<Seq<u8>>> {
    if has_asf_signature(s) && asf_canvas_fits(s) {
        Some(asf_frames_rgba(s))
    } else {
        None
    }
}

/// The canvases of an MSF file as the decoder gives them, if it gives any,
/// given what decompressing the payload yields.
pub open spec fn msf_canvases(f: Seq<u8>, decompressed: Option<Seq<u8>>) -> Option<Seq<Seq<u8>>> {
    where_canvas_fits(f, canvas_decode(f, decompressed))
}

/// True where an ASF file and an MSF file agree on canvas size and frame count.
pub open spec fn asf_sizes_agree(s: Seq<u8>, f: Seq<u8>) -> bool {
    field16(s, 16) == u16_le_at(f, 8) && field16(s, 20) == u16_le_at(f, 10) && field16(s, 24)
        == u16_le_at(f, 12)
}

/// What checking `asf` against `msf` must give, given what decompressing
/// the payload of `msf` yields.
pub open spec fn asf_pair_checked(
    r: PairOutcome,
    asf: Seq<u8>,
    msf: Seq<u8>,
    decompressed: Option<Seq<u8>>,
) -> bool {
    let converted = msf_canvases(msf, decompressed);
    match r {
        PairOutcome::SourceUnreadable => asf_source(asf).is_none(),
        PairOutcome::ConvertedUnreadable => asf_source(asf).is_some() && converted.is_none(),
        PairOutcome::MetadataMismatch => asf_source(asf).is_some() && converted.is_some()
            && !asf_sizes_agree(asf, msf),
        PairOutcome::Compared(d) => asf_source(asf).is_some() && converted.is_some()
            && asf_sizes_agree(asf, msf) && diff_of(d, asf_source(asf).unwrap(), converted.unwrap()),
    }
}

/// Checks an ASF file against the MSF file that it was converted to: both
/// are decoded to canvases, canvas size and frame count must agree, and all
/// frames are compared pixel by pixel.
pub fn compare_asf_pair(asf: &[u8], msf: &[u8]) -> (r: PairOutcome)
    ensures
        asf_pair_checked(
            r,
            asf@,
            msf@,
            zstd_bulk_content(payload_of(msf@), MAX_PAYLOAD as int),
        ),
{
    let (w, h, n, source) = match decode_asf_to_rgba(asf) {
        Some(d) => d,
        None => { return PairOutcome::SourceUnreadable; },
    };
    assert(buffers(source@) =~= asf_frames_rgba(asf@));
    let (mw, mh, mn, converted) = match decode_msf_to_rgba(msf) {
        Some(d) => d,
        None => { return PairOutcome::ConvertedUnreadable; },
    };
    assert(buffers(converted@) =~= msf_canvases(
        msf@,
        zstd_bulk_content(payload_of(msf@), MAX_PAYLOAD as int),
    ).unwrap());
    if w != mw || h != mh || n != mn {
        return PairOutcome::MetadataMismatch;
    }
    PairOutcome::Compared(compare_frames(&source, &converted))
}

/// The frames of an MPC file as its decoder gives them, if it gives any.
pub open spec fn mpc_source(s: Seq<u8>) -> Option<Seq<Seq<u8>>> {
    if has_mpc_signature(s) {
        Some(mpc_frames_rgba(s))
    } else {
        None
    }
}

/// The frames of an MSF file decoded one by one, if the decoder gives any,
/// given what decompressing the payload yields.
pub open spec fn msf_tiles(f: Seq<u8>, decompressed: Option<Seq<u8>>) -> Option<Seq<Seq<u8>>> {
    individual_decode(f, decompressed)
}

/// The size of frame `i` as the MPC decoder reports it.
pub open spec fn mpc_size(s: Seq<u8>, i: int) -> (int, int) {
    if mpc_frame_present(s, i) {
        (mpc_width(s, i), mpc_height(s, i))
    } else {
        (1, 1)
    }
}

/// The size of frame `i` as the MSF decoder reports it.
pub open spec fn msf_size(f: Seq<u8>, i: int) -> (int, int) {
    let e = file_entry(f, i);
    if e.width == 0 || e.height == 0 {
        (1, 1)
    } else {
        (e.width as int, e.height as int)
    }
}

/// True where an MPC file and an MSF file agree on the frame count and on
/// the size of every frame.
pub open spec fn mpc_sizes_agree(s: Seq<u8>, f: Seq<u8>) -> bool {
    mpc_frame_count(s) == declared_frames(f) && forall|i: int|
        0 <= i < mpc_frame_count(s) ==> #[trigger] mpc_size(s, i) == msf_size(f, i)
}

/// What checking `mpc` against `msf` must give, given what decompressing
/// the payload of `msf` yields.
pub open spec fn mpc_pair_checked(
    r: PairOutcome,
    mpc: Seq<u8>,
    msf: Seq<u8>,
    decompressed: Option<Seq<u8>>,
) -> bool {
    let converted = msf_tiles(msf, decompressed);
    match r {
        PairOutcome::SourceUnreadable => mpc_source(mpc).is_none(),
        PairOutcome::ConvertedUnreadable => mpc_source(mpc).is_some() && converted.is_none(),
        PairOutcome::MetadataMismatch => mpc_source(mpc).is_some() && converted.is_some()
            && !mpc_sizes_agree(mpc, msf),
        PairOutcome::Compared(d) => mpc_source(mpc).is_some() && converted.is_some()
            && mpc_sizes_agree(mpc, msf) && diff_of(d, mpc_source(mpc).unwrap(), converted.unwrap()),
    }
}

/// Copies the pixel buffers out of decoded frames.
pub fn pixel_buffers(frames: &Vec<DecodedFrame>) -> (out: Vec<Vec<u8>>)
    ensures
        out.len() == frames.len(),
        forall|i: int| 0 <= i < out.len() ==> (#[trigger] out[i])@ == frames[i].pixels@,
{
    let mut out: Vec<Vec<u8>> = Vec::new();
    let mut i: usize = 0;
    while i < frames.len()
        invariant
            i <= frames.len(),
            out.len() == i,
            forall|k: int| 0 <= k < i ==> (#[trigger] out[k])@ == frames[k].pixels@,
        decreases frames.len() - i,
    {
        out.push(slice_to_vec(frames[i].pixels.as_slice()));
        i = i + 1;
    }
    out
}

/// Tests whether two decoded sprites have the same number of frames and
/// the same size frame by frame.
pub fn same_sizes(a: &Vec<DecodedFrame>, b: &Vec<DecodedFrame>) -> (r: bool)
    ensures
        r == (a.len() == b.len() && forall|i: int|
            0 <= i < a.len() ==> (#[trigger] a[i]).width == b[i].width && a[i].height
                == b[i].height),
{
    if a.len() != b.len() {
        return false;
    }
    let mut i: usize = 0;
    while i < a.len()
        invariant
            i <= a.len(),
            a.len() == b.len(),
            forall|k: int|
                0 <= k < i ==> (#[trigger] a[k]).width == b[k].width && a[k].height == b[k].height,
        decreases a.len() - i,
    {
        if a[i].width != b[i].width || a[i].height != b[i].height {
            return false;
        }
        i = i + 1;
    }
    true
}

/// Checks an MPC file against the MSF file that it was converted to: both
/// are decoded frame by frame, frame count and frame sizes must agree, and
/// all frames are compared pixel by pixel.
#[verifier::rlimit(40)]
pub fn compare_mpc_pair(mpc: &[u8], msf: &[u8]) -> (r: PairOutcome)
    ensures
        mpc_pair_checked(
            r,
            mpc@,
            msf@,
            zstd_bulk_content(payload_of(msf@), MAX_PAYLOAD as int),
        ),
{
    let source = match decode_mpc_to_rgba(mpc) {
        Some(d) => d,
        None => { return PairOutcome::SourceUnreadable; },
    };
    let converted = match decode_msf_individual_to_rgba(msf) {
        Some(d) => d,
        None => { return PairOutcome::ConvertedUnreadable; },
    };
    assert(converted.len() == declared_frames(msf@));
    if !same_sizes(&source, &converted) {
        proof {
            if mpc_sizes_agree(mpc@, msf@) {
                assert forall|i: int| 0 <= i < source.len() implies (#[trigger] source[i]).width
                    == converted[i].width && source[i].height == converted[i].height by {
                    assert(mpc_size(mpc@, i) == msf_size(msf@, i));
                }
            }
        }
        return PairOutcome::MetadataMismatch;
    }
    proof {
        assert forall|i: int| 0 <= i < mpc_frame_count(mpc@) implies #[trigger] mpc_size(mpc@, i)
            == msf_size(msf@, i) by {
            assert(source[i].width == converted[i].width);
        }
    }
    let a = pixel_buffers(&source);
    let b = pixel_buffers(&converted);
    assert(buffers(a@) =~= mpc_frames_rgba(mpc@));
    assert(buffers(b@) =~= msf_tiles(
        msf@,
        zstd_bulk_content(payload_of(msf@), MAX_PAYLOAD as int),
    ).unwrap());
    PairOutcome::Compared(compare_frames(&a, &b))
}

/// Comparing a sprite with itself finds no differing pixel.
pub proof fn lemma_same_frames_do_not_differ(a: Seq<Seq<u8>>, n: int)
    ensures
        differing_total(a, a, n) == 0,
        forall|i: int| 0 <= i < n ==> !frame_differs(a, a, i),
    decreases n,
{
    if n > 0 {
        lemma_same_frames_do_not_differ(a, n - 1);
        lemma_diff_count(a[n - 1], a[n - 1], shared_pixels(a[n - 1], a[n - 1]));
    }
    assert forall|i: int| 0 <= i < n implies !frame_differs(a, a, i) by {
        lemma_diff_count(a[i], a[i], shared_pixels(a[i], a[i]));
    }
}

/// Checking a converted ASF sprite against its source finds zero differing
/// pixels in every frame, where decompressing the payload gives back the
/// pixel data that was compressed. This holds where every colour index
/// that is read names an entry of the palette, for a sprite of at least one
/// and fewer than 32768 pixels each way, a palette of at most 65535 entries
/// and less than 2^32 bytes of pixel data.
#[verifier::rlimit(40)]
pub proof fn lemma_converted_asf_checks_out(s: Seq<u8>, payload: Seq<u8>, r: PairOutcome)
    requires
        has_asf_signature(s),
        0 < field16(s, 16) < 32768,
        0 < field16(s, 20) < 32768,
        asf_palette(s).len() <= 65535,
        blob_of_frames(asf_staged(s)).len() < 4294967296,
        forall|i: int| 0 <= i < field16(s, 24) ==> frame_names_entries(s, i),
        asf_pair_checked(
            r,
            s,
            msf_bytes(asf_meta(s, 1, 1), asf_palette(s), table_of(asf_staged(s)), payload),
            Some(blob_of_frames(asf_staged(s))),
        ),
    ensures
        r matches PairOutcome::Compared(d) && d.differing == 0 && d.first.is_none() && d.frames
            == field16(s, 24),
{
    lemma_asf_conversion_is_exact(s, payload);
    assert(field16(s, 16) * field16(s, 20) * 4 <= 32767 * 32767 * 4) by (nonlinear_arith)
        requires
            0 < field16(s, 16) < 32768,
            0 < field16(s, 20) < 32768,
    ;
    assert(asf_canvas_fits(s));
    lemma_same_frames_do_not_differ(asf_frames_rgba(s), field16(s, 24));
    match r {
        PairOutcome::Compared(d) => {
            if d.first.is_some() {
                let frame = d.first.unwrap().0;
                let pixel = d.first.unwrap().1;
                assert(differs_at(
                    asf_frames_rgba(s)[frame as int],
                    asf_frames_rgba(s)[frame as int],
                    pixel as int,
                ));
            }
        },
        _ => {},
    }
}

/// Checking a converted MPC sprite against its source finds zero differing
/// pixels in every frame, where decompressing the payload gives back the
/// pixel data that was compressed. This holds where some palette index is
/// free, every opaque pixel names an entry that the palette holds, the
/// palette has at most 65535 entries and the pixel data takes less than
/// 2^32 bytes.
#[verifier::rlimit(40)]
pub proof fn lemma_converted_mpc_checks_out(
    s: Seq<u8>,
    payload: Seq<u8>,
    free: int,
    r: PairOutcome,
)
    requires
        has_mpc_signature(s),
        0 <= free < 256,
        !index_used(s, free),
        forall|v: int| 0 <= v < 256 && index_used(s, v) ==> v < mpc_palette_len(s),
        mpc_palette(s).len() <= 65535,
        blob_of_frames(mpc_staged(s)).len() < 4294967296,
        mpc_pair_checked(
            r,
            s,
            msf_bytes(
                mpc_meta(s),
                with_transparent(mpc_palette(s), transparent_index(s)),
                table_of(mpc_staged(s)),
                payload,
            ),
            Some(blob_of_frames(mpc_staged(s))),
        ),
    ensures
        r matches PairOutcome::Compared(d) && d.differing == 0 && d.first.is_none() && d.frames
            == mpc_frame_count(s),
{
    let palette = with_transparent(mpc_palette(s), transparent_index(s));
    let entries = table_of(mpc_staged(s));
    let f = msf_bytes(mpc_meta(s), palette, entries, payload);
    crate::mpc::lemma_first_unused_is_free(s, 0, free);
    lemma_converted_mpc_decodes(s, payload, free);
    lemma_file_reads_back(mpc_meta(s), palette, entries, payload);
    assert(declared_frames(f) == mpc_frame_count(s));
    assert forall|i: int| 0 <= i < mpc_frame_count(s) implies #[trigger] mpc_size(s, i) == msf_size(
        f,
        i,
    ) by {
        assert(file_entry(f, i) == entries[i]);
        assert(entries[i] == crate::encode::table_entry(mpc_staged(s), i));
    }
    assert(mpc_sizes_agree(s, f));
    lemma_same_frames_do_not_differ(mpc_frames_rgba(s), mpc_frame_count(s));
    match r {
        PairOutcome::Compared(d) => {
            if d.first.is_some() {
                let frame = d.first.unwrap().0;
                let pixel = d.first.unwrap().1;
                assert(differs_at(
                    mpc_frames_rgba(s)[frame as int],
                    mpc_frames_rgba(s)[frame as int],
                    pixel as int,
                ));
            }
        },
        _ => {},
    }
}

} // verus!
