//! Reading back what the encoder wrote: the parts of an assembled MSF file
//! are the ones that the decoders find in it.

use crate::asf::{asf_palette, field16, has_asf_signature};
use crate::bytes::{le16, le32, signed16, u16_le_at, u32_le_at, unsigned16};
use crate::convert::{asf_canvases, asf_meta, asf_staged, mpc_meta, mpc_staged, table_of_palette};
use crate::convert::{lemma_mpc_round_trip, with_transparent};
use crate::decode::{blob_of, canvas_decode, file_entry, format_of, individual_decode};
use crate::decode::{individual_frame, painted_frame};
use crate::decode::{is_compressed, palette_table, payload_of, payload_offset};
use crate::encode::{blob_of_frames, end_sentinel, fixed_bytes, msf_bytes, palette_bytes};
use crate::encode::{buffers, table_bytes, table_of, MsfEncodeInput, MsfMeta};
use crate::mpc::{has_mpc_signature, index_used, mpc_frame_count, mpc_frame_rgba, mpc_palette};
use crate::mpc::{mpc_palette_len, transparent_index};
use crate::msf::{declared_frames, entry_at, entry_bytes, frame_table_start, has_msf_magic};
use crate::msf::{is_end_id, payload_start, table_fits, MsfFrameEntry, PixelFormat};
use crate::roundtrip::{canvas_clean, lemma_asf_round_trip, lemma_stage_then_composite};
use crate::roundtrip::{indices_in_palette, lemma_composited_is_clean, lemma_staged_frame_in_blob};
use vstd::prelude::*;

verus! {

/// The 28 bytes of the fixed part, one by one.
proof fn lemma_fixed_bytes(meta: MsfMeta, palette_len: int)
    ensures
        fixed_bytes(meta, palette_len) == seq![
            0x4du8,
            0x53u8,
            0x46u8,
            (0x30 + meta.version) as u8,
            le16(meta.version as int)[0],
            le16(meta.version as int)[1],
            le16(meta.flags as int)[0],
            le16(meta.flags as int)[1],
            le16(meta.canvas_width as int)[0],
            le16(meta.canvas_width as int)[1],
            le16(meta.canvas_height as int)[0],
            le16(meta.canvas_height as int)[1],
            le16(meta.frame_count as int)[0],
            le16(meta.frame_count as int)[1],
            meta.directions,
            meta.fps,
            le16(unsigned16(meta.anchor_x as int))[0],
            le16(unsigned16(meta.anchor_x as int))[1],
            le16(unsigned16(meta.anchor_y as int))[0],
            le16(unsigned16(meta.anchor_y as int))[1],
            0u8,
            0u8,
            0u8,
            0u8,
            meta.pixel_format.spec_tag(),
            le16(palette_len % 65536)[0],
            le16(palette_len % 65536)[1],
            0u8,
        ],
{
    assert(fixed_bytes(meta, palette_len) =~= seq![
        0x4du8,
        0x53u8,
        0x46u8,
        (0x30 + meta.version) as u8,
        le16(meta.version as int)[0],
        le16(meta.version as int)[1],
        le16(meta.flags as int)[0],
        le16(meta.flags as int)[1],
        le16(meta.canvas_width as int)[0],
        le16(meta.canvas_width as int)[1],
        le16(meta.canvas_height as int)[0],
        le16(meta.canvas_height as int)[1],
        le16(meta.frame_count as int)[0],
        le16(meta.frame_count as int)[1],
        meta.directions,
        meta.fps,
        le16(unsigned16(meta.anchor_x as int))[0],
        le16(unsigned16(meta.anchor_x as int))[1],
        le16(unsigned16(meta.anchor_y as int))[0],
        le16(unsigned16(meta.anchor_y as int))[1],
        0u8,
        0u8,
        0u8,
        0u8,
        meta.pixel_format.spec_tag(),
        le16(palette_len % 65536)[0],
        le16(palette_len % 65536)[1],
        0u8,
    ]);
}

/// The two bytes of a 16-bit value, low byte first, add up to the value.
proof fn lemma_le16_value(v: int)
    requires
        0 <= v < 65536,
    ensures
        le16(v).len() == 2,
        le16(v)[0] as int + 256 * (le16(v)[1] as int) == v,
{
}

/// The four bytes of a 32-bit value, low byte first, add up to the value.
proof fn lemma_le32_value(v: int)
    requires
        0 <= v < 4294967296,
    ensures
        le32(v).len() == 4,
        le32(v)[0] as int + 256 * (le32(v)[1] as int) + 65536 * (le32(v)[2] as int) + 16777216 * (
        le32(v)[3] as int) == v,
{
}

/// The sixteen bytes of a table entry, read back, give the entry.
#[verifier::rlimit(40)]
proof fn lemma_entry_reads_back(s: Seq<u8>, off: int, e: MsfFrameEntry)
    requires
        0 <= off,
        off + 16 <= s.len(),
        forall|m: int| 0 <= m < 16 ==> #[trigger] s[off + m] == entry_bytes(e)[m],
    ensures
        entry_at(s, off) == e,
{
    let b = entry_bytes(e);
    let ox = le16(unsigned16(e.offset_x as int));
    let oy = le16(unsigned16(e.offset_y as int));
    let w = le16(e.width as int);
    let h = le16(e.height as int);
    let off32 = le32(e.data_offset as int);
    let len32 = le32(e.data_length as int);
    lemma_le16_value(unsigned16(e.offset_x as int));
    lemma_le16_value(unsigned16(e.offset_y as int));
    lemma_le16_value(e.width as int);
    lemma_le16_value(e.height as int);
    lemma_le32_value(e.data_offset as int);
    lemma_le32_value(e.data_length as int);
    assert(b =~= ox + oy + w + h + off32 + len32);
    assert(b.len() == 16);
    assert(b[0] == ox[0] && b[1] == ox[1] && b[2] == oy[0] && b[3] == oy[1]);
    assert(b[4] == w[0] && b[5] == w[1] && b[6] == h[0] && b[7] == h[1]);
    assert(b[8] == off32[0] && b[9] == off32[1] && b[10] == off32[2] && b[11] == off32[3]);
    assert(b[12] == len32[0] && b[13] == len32[1] && b[14] == len32[2] && b[15] == len32[3]);
    assert(s[off + 0] == b[0]);
    assert(s[off + 1] == b[1]);
    assert(s[off + 2] == b[2]);
    assert(s[off + 3] == b[3]);
    assert(s[off + 4] == b[4]);
    assert(s[off + 5] == b[5]);
    assert(s[off + 6] == b[6]);
    assert(s[off + 7] == b[7]);
    assert(s[off + 8] == b[8]);
    assert(s[off + 9] == b[9]);
    assert(s[off + 10] == b[10]);
    assert(s[off + 11] == b[11]);
    assert(s[off + 12] == b[12]);
    assert(s[off + 13] == b[13]);
    assert(s[off + 14] == b[14]);
    assert(s[off + 15] == b[15]);
    assert(u16_le_at(s, off) == unsigned16(e.offset_x as int));
    assert(u16_le_at(s, off + 2) == unsigned16(e.offset_y as int));
    assert(u16_le_at(s, off + 4) == e.width as int);
    assert(u16_le_at(s, off + 6) == e.height as int);
    assert(u32_le_at(s, off + 8) == e.data_offset as int);
    assert(u32_le_at(s, off + 12) == e.data_length as int);
}

/// True where the table entries lie in `f` from `start` on, sixteen bytes each.
pub open spec fn table_laid_out(f: Seq<u8>, start: int, entries: Seq<MsfFrameEntry>) -> bool {
    forall|k: int|
        0 <= k < 16 * entries.len() ==> #[trigger] f[start + k] == entry_bytes(entries[k / 16])[k
            % 16]
}

/// Where each part of an assembled file lies in it.
pub open spec fn laid_out(
    f: Seq<u8>,
    meta: MsfMeta,
    palette: Seq<[u8; 4]>,
    entries: Seq<MsfFrameEntry>,
    payload: Seq<u8>,
) -> bool {
    let pl = palette.len() as int;
    let n = entries.len() as int;
    &&& f.len() == 28 + 4 * pl + 16 * n + 8 + payload.len()
    &&& forall|k: int| 0 <= k < 28 ==> #[trigger] f[k] == fixed_bytes(meta, pl)[k]
    &&& forall|k: int| 0 <= k < 4 * pl ==> #[trigger] f[28 + k] == palette[k / 4][k % 4]
    &&& table_laid_out(f, 28 + 4 * pl, entries)
    &&& forall|k: int| 0 <= k < 8 ==> #[trigger] f[28 + 4 * pl + 16 * n + k] == end_sentinel()[k]
    &&& forall|k: int|
        0 <= k < payload.len() ==> #[trigger] f[28 + 4 * pl + 16 * n + 8 + k] == payload[k]
}

/// An assembled file holds its parts one behind the other.
#[verifier::rlimit(40)]
proof fn lemma_laid_out(
    meta: MsfMeta,
    palette: Seq<[u8; 4]>,
    entries: Seq<MsfFrameEntry>,
    payload: Seq<u8>,
)
    ensures
        laid_out(msf_bytes(meta, palette, entries, payload), meta, palette, entries, payload),
{
    let f = msf_bytes(meta, palette, entries, payload);
    let pl = palette.len() as int;
    let n = entries.len() as int;
    let a = fixed_bytes(meta, pl);
    let b = palette_bytes(palette, pl);
    let c = table_bytes(entries, n);
    let d = end_sentinel();
    lemma_fixed_bytes(meta, pl);
    assert(a.len() == 28);
    assert(b.len() == 4 * pl);
    assert(c.len() == 16 * n);
    assert(d.len() == 8);
    let ab = a + b;
    let abc = ab + c;
    let abcd = abc + d;
    assert(f == abcd + payload);
    assert forall|k: int| 0 <= k < 28 implies #[trigger] f[k] == a[k] by {
        assert(ab[k] == a[k]);
        assert(abc[k] == ab[k]);
        assert(abcd[k] == abc[k]);
    }
    assert forall|k: int| 0 <= k < 4 * pl implies #[trigger] f[28 + k] == palette[k / 4][k
        % 4] by {
        assert(ab[28 + k] == b[k]);
        assert(abc[28 + k] == ab[28 + k]);
        assert(abcd[28 + k] == abc[28 + k]);
    }
    let start = 28 + 4 * pl;
    assert forall|k: int| 0 <= k < 16 * n implies #[trigger] f[start + k] == entry_bytes(
        entries[k / 16],
    )[k % 16] by {
        assert(abc[start + k] == c[k]);
        assert(abcd[start + k] == abc[start + k]);
    }
    assert(table_laid_out(f, start, entries));
    assert forall|k: int| 0 <= k < 8 implies #[trigger] f[28 + 4 * pl + 16 * n + k]
        == end_sentinel()[k] by {
        assert(abcd[28 + 4 * pl + 16 * n + k] == d[k]);
    }
}

/// The header fields of a laid-out file.
pub open spec fn header_reads_back(f: Seq<u8>, meta: MsfMeta, palette_len: int) -> bool {
    &&& has_msf_magic(f)
    &&& u16_le_at(f, 4) == meta.version
    &&& u16_le_at(f, 6) == meta.flags
    &&& u16_le_at(f, 8) == meta.canvas_width
    &&& u16_le_at(f, 10) == meta.canvas_height
    &&& u16_le_at(f, 12) == meta.frame_count
    &&& f[14] == meta.directions
    &&& f[15] == meta.fps
    &&& signed16(u16_le_at(f, 16) as int) == meta.anchor_x
    &&& signed16(u16_le_at(f, 18) as int) == meta.anchor_y
    &&& format_of(f) == Some(meta.pixel_format)
    &&& u16_le_at(f, 25) == palette_len
}

#[verifier::rlimit(40)]
proof fn lemma_header_reads_back(
    f: Seq<u8>,
    meta: MsfMeta,
    palette: Seq<[u8; 4]>,
    entries: Seq<MsfFrameEntry>,
    payload: Seq<u8>,
)
    requires
        laid_out(f, meta, palette, entries, payload),
        meta.version == 1 || meta.version == 2,
        palette.len() <= 65535,
    ensures
        header_reads_back(f, meta, palette.len() as int),
{
    let pl = palette.len() as int;
    let a = fixed_bytes(meta, pl);
    lemma_fixed_bytes(meta, pl);
    lemma_le16_value(meta.version as int);
    lemma_le16_value(meta.flags as int);
    lemma_le16_value(meta.canvas_width as int);
    lemma_le16_value(meta.canvas_height as int);
    lemma_le16_value(meta.frame_count as int);
    lemma_le16_value(unsigned16(meta.anchor_x as int));
    lemma_le16_value(unsigned16(meta.anchor_y as int));
    lemma_le16_value(pl % 65536);
    assert(f[0] == a[0] && f[1] == a[1] && f[2] == a[2] && f[3] == a[3]);
    assert(f[4] == a[4] && f[5] == a[5] && f[6] == a[6] && f[7] == a[7]);
    assert(f[8] == a[8] && f[9] == a[9] && f[10] == a[10] && f[11] == a[11]);
    assert(f[12] == a[12] && f[13] == a[13] && f[14] == a[14] && f[15] == a[15]);
    assert(f[16] == a[16] && f[17] == a[17] && f[18] == a[18] && f[19] == a[19]);
    assert(f[24] == a[24] && f[25] == a[25] && f[26] == a[26]);
}

/// What the decoders find in an assembled file.
pub open spec fn reads_back(
    f: Seq<u8>,
    meta: MsfMeta,
    palette: Seq<[u8; 4]>,
    entries: Seq<MsfFrameEntry>,
    payload: Seq<u8>,
) -> bool {
    &&& header_reads_back(f, meta, palette.len() as int)
    &&& palette_table(f) == table_of_palette(palette)
    &&& forall|i: int| 0 <= i < entries.len() ==> #[trigger] file_entry(f, i) == entries[i]
    &&& payload_offset(f) == Some(28 + 4 * (palette.len() as int) + 16 * (entries.len() as int) + 8)
    &&& payload_of(f) == payload
}

proof fn lemma_palette_reads_back(
    f: Seq<u8>,
    meta: MsfMeta,
    palette: Seq<[u8; 4]>,
    entries: Seq<MsfFrameEntry>,
    payload: Seq<u8>,
)
    requires
        laid_out(f, meta, palette, entries, payload),
        u16_le_at(f, 25) == palette.len(),
    ensures
        palette_table(f) == table_of_palette(palette),
{
    let pl = palette.len() as int;
    assert forall|k: int| 0 <= k < 1024 implies palette_table(f)[k] == table_of_palette(
        palette,
    )[k] by {
        if k / 4 < pl {
            assert(f[28 + k] == palette[k / 4][k % 4]);
        }
    }
    assert(palette_table(f) =~= table_of_palette(palette));
}

#[verifier::rlimit(40)]
proof fn lemma_entries_read_back(f: Seq<u8>, start: int, entries: Seq<MsfFrameEntry>, i: int)
    requires
        table_laid_out(f, start, entries),
        0 <= start,
        start + 16 * entries.len() <= f.len(),
        0 <= i < entries.len(),
    ensures
        entry_at(f, start + 16 * i) == entries[i],
{
    let off = start + 16 * i;
    assert forall|m: int| 0 <= m < 16 implies #[trigger] f[off + m] == entry_bytes(entries[i])[m] by {
        let k = 16 * i + m;
        assert(k / 16 == i && k % 16 == m);
        assert(f[start + k] == entry_bytes(entries[k / 16])[k % 16]);
    }
    lemma_entry_reads_back(f, off, entries[i]);
}

proof fn lemma_payload_reads_back(
    f: Seq<u8>,
    meta: MsfMeta,
    palette: Seq<[u8; 4]>,
    entries: Seq<MsfFrameEntry>,
    payload: Seq<u8>,
)
    requires
        laid_out(f, meta, palette, entries, payload),
        header_reads_back(f, meta, palette.len() as int),
        entries.len() == meta.frame_count,
    ensures
        payload_offset(f) == Some(28 + 4 * (palette.len() as int) + 16 * (entries.len() as int) + 8),
        payload_of(f) == payload,
{
    let pl = palette.len() as int;
    let n = entries.len() as int;
    let end = 28 + 4 * pl + 16 * n;
    assert(frame_table_start(f) == 28 + 4 * pl);
    assert(declared_frames(f) == n);
    assert(table_fits(f));
    let d = end_sentinel();
    assert(f[end + 0] == d[0] && f[end + 1] == d[1] && f[end + 2] == d[2] && f[end + 3] == d[3]);
    assert(is_end_id(f, end));
    assert(payload_start(f, end) == Some(end + 8));
    assert(payload_offset(f) == Some(end + 8));
    assert forall|k: int| 0 <= k < payload.len() implies payload_of(f)[k] == payload[k] by {
        assert(f[28 + 4 * pl + 16 * n + 8 + k] == payload[k]);
    }
    assert(payload_of(f) =~= payload);
}

/// An assembled file reads back as its parts: the magic, every header
/// field, the palette, every table entry and the payload behind the
/// sentinel. This holds for version 1 or 2, a palette that its 16-bit size
/// can count, and a table with one entry per frame.
#[verifier::rlimit(40)]
pub proof fn lemma_file_reads_back(
    meta: MsfMeta,
    palette: Seq<[u8; 4]>,
    entries: Seq<MsfFrameEntry>,
    payload: Seq<u8>,
)
    requires
        meta.version == 1 || meta.version == 2,
        palette.len() <= 65535,
        entries.len() == meta.frame_count,
    ensures
        reads_back(msf_bytes(meta, palette, entries, payload), meta, palette, entries, payload),
{
    let f = msf_bytes(meta, palette, entries, payload);
    lemma_laid_out(meta, palette, entries, payload);
    lemma_header_reads_back(f, meta, palette, entries, payload);
    lemma_palette_reads_back(f, meta, palette, entries, payload);
    lemma_payload_reads_back(f, meta, palette, entries, payload);
    assert forall|i: int| 0 <= i < entries.len() implies #[trigger] file_entry(f, i)
        == entries[i] by {
        lemma_entries_read_back(f, 28 + 4 * (palette.len() as int), entries, i);
    }
}

/// The frames that the decoders give for an assembled file with a
/// compressed payload, once the payload is decompressed to `blob`: each
/// table entry decoded against the palette.
#[verifier::rlimit(40)]
pub proof fn lemma_decode_by_parts(
    meta: MsfMeta,
    palette: Seq<[u8; 4]>,
    entries: Seq<MsfFrameEntry>,
    payload: Seq<u8>,
    blob: Seq<u8>,
)
    requires
        meta.version == 1 || meta.version == 2,
        meta.flags % 2 == 1,
        palette.len() <= 65535,
        entries.len() == meta.frame_count,
    ensures
        canvas_decode(msf_bytes(meta, palette, entries, payload), Some(blob)) == Some(
            Seq::new(
                entries.len(),
                |i: int|
                    painted_frame(
                        meta.pixel_format,
                        table_of_palette(palette),
                        blob,
                        entries[i],
                        meta.canvas_width as int,
                        meta.canvas_height as int,
                    ),
            ),
        ),
        individual_decode(msf_bytes(meta, palette, entries, payload), Some(blob)) == Some(
            Seq::new(
                entries.len(),
                |i: int|
                    individual_frame(meta.pixel_format, table_of_palette(palette), blob, entries[i]),
            ),
        ),
{
    let f = msf_bytes(meta, palette, entries, payload);
    lemma_file_reads_back(meta, palette, entries, payload);
    assert(is_compressed(f));
    assert(blob_of(f, Some(blob)) == Some(blob));
    assert(declared_frames(f) == entries.len());
    let got = canvas_decode(f, Some(blob)).unwrap();
    let want = Seq::new(
        entries.len(),
        |i: int|
            painted_frame(
                meta.pixel_format,
                table_of_palette(palette),
                blob,
                entries[i],
                meta.canvas_width as int,
                meta.canvas_height as int,
            ),
    );
    assert forall|i: int| 0 <= i < got.len() implies got[i] == want[i] by {
        assert(file_entry(f, i) == entries[i]);
    }
    assert(got =~= want);
    let got2 = individual_decode(f, Some(blob)).unwrap();
    let want2 = Seq::new(
        entries.len(),
        |i: int| individual_frame(meta.pixel_format, table_of_palette(palette), blob, entries[i]),
    );
    assert forall|i: int| 0 <= i < got2.len() implies got2[i] == want2[i] by {
        assert(file_entry(f, i) == entries[i]);
    }
    assert(got2 =~= want2);
}

/// Decoding a converted ASF sprite gives the source frames, where
/// decompressing its payload gives back the pixel data that was compressed:
/// the file that the conversion writes around any payload, composited with
/// the staged pixel data, yields for every frame the canvas that the ASF
/// decoder paints with the sprite's palette. This holds for a sprite of at
/// least one and fewer than 32768 pixels each way, with a palette of at most
/// 65535 entries and less than 2^32 bytes of pixel data.
pub proof fn lemma_converted_asf_decodes(s: Seq<u8>, payload: Seq<u8>)
    requires
        has_asf_signature(s),
        0 < field16(s, 16) < 32768,
        0 < field16(s, 20) < 32768,
        asf_palette(s).len() <= 65535,
        blob_of_frames(asf_staged(s)).len() < 4294967296,
    ensures
        canvas_decode(
            msf_bytes(asf_meta(s, 1, 1), asf_palette(s), table_of(asf_staged(s)), payload),
            Some(blob_of_frames(asf_staged(s))),
        ) == Some(asf_canvases(s)),
{
    let meta = asf_meta(s, 1, 1);
    let entries = table_of(asf_staged(s));
    let blob = blob_of_frames(asf_staged(s));
    lemma_decode_by_parts(meta, asf_palette(s), entries, payload, blob);
    let got = canvas_decode(msf_bytes(meta, asf_palette(s), entries, payload), Some(blob)).unwrap();
    assert(got.len() == asf_canvases(s).len());
    assert forall|i: int| 0 <= i < got.len() implies got[i] == asf_canvases(s)[i] by {
        lemma_asf_round_trip(s, i);
    }
    assert(got =~= asf_canvases(s));
}

/// The frames of an MPC file as its decoder gives them.
pub open spec fn mpc_frames_rgba(s: Seq<u8>) -> Seq<Seq<u8>> {
    Seq::new(mpc_frame_count(s) as nat, |i: int| mpc_frame_rgba(s, i))
}

/// Decoding a converted MPC sprite frame by frame gives the source frames,
/// where decompressing its payload gives back the pixel data that was
/// compressed. This holds where some palette index is free, every opaque
/// pixel names an entry that the palette holds, the palette has at most
/// 65535 entries and the pixel data takes less than 2^32 bytes.
pub proof fn lemma_converted_mpc_decodes(s: Seq<u8>, payload: Seq<u8>, free: int)
    requires
        has_mpc_signature(s),
        0 <= free < 256,
        !index_used(s, free),
        forall|v: int| 0 <= v < 256 && index_used(s, v) ==> v < mpc_palette_len(s),
        mpc_palette(s).len() <= 65535,
        blob_of_frames(mpc_staged(s)).len() < 4294967296,
    ensures
        individual_decode(
            msf_bytes(
                mpc_meta(s),
                with_transparent(mpc_palette(s), transparent_index(s)),
                table_of(mpc_staged(s)),
                payload,
            ),
            Some(blob_of_frames(mpc_staged(s))),
        ) == Some(mpc_frames_rgba(s)),
{
    let meta = mpc_meta(s);
    let palette = with_transparent(mpc_palette(s), transparent_index(s));
    let entries = table_of(mpc_staged(s));
    let blob = blob_of_frames(mpc_staged(s));
    crate::mpc::lemma_first_unused_is_free(s, 0, free);
    assert(palette.len() <= 65535);
    lemma_decode_by_parts(meta, palette, entries, payload, blob);
    let got = individual_decode(msf_bytes(meta, palette, entries, payload), Some(blob)).unwrap();
    let want = mpc_frames_rgba(s);
    assert(got.len() == want.len());
    assert forall|i: int| 0 <= i < got.len() implies got[i] == want[i] by {
        lemma_mpc_round_trip(s, free, i);
    }
    assert(got =~= want);
}

/// The canvases that the composited decoder gives for an assembled file,
/// whatever its flags: the pixel data is the payload itself where the file
/// is not compressed and the decompressed data where it is, and each table
/// entry is composited from it.
#[verifier::rlimit(40)]
pub proof fn lemma_decode_any(
    meta: MsfMeta,
    palette: Seq<[u8; 4]>,
    entries: Seq<MsfFrameEntry>,
    payload: Seq<u8>,
    decompressed: Option<Seq<u8>>,
)
    requires
        meta.version == 1 || meta.version == 2,
        palette.len() <= 65535,
        entries.len() == meta.frame_count,
    ensures
        blob_of(msf_bytes(meta, palette, entries, payload), decompressed) == (if meta.flags % 2
            == 1 {
            decompressed
        } else {
            Some(payload)
        }),
        blob_of(msf_bytes(meta, palette, entries, payload), decompressed).is_some()
            ==> canvas_decode(msf_bytes(meta, palette, entries, payload), decompressed) == Some(
            Seq::new(
                entries.len(),
                |i: int|
                    painted_frame(
                        meta.pixel_format,
                        table_of_palette(palette),
                        blob_of(msf_bytes(meta, palette, entries, payload), decompressed).unwrap(),
                        entries[i],
                        meta.canvas_width as int,
                        meta.canvas_height as int,
                    ),
            ),
        ),
{
    let f = msf_bytes(meta, palette, entries, payload);
    lemma_file_reads_back(meta, palette, entries, payload);
    assert(is_compressed(f) == (meta.flags % 2 == 1));
    assert(declared_frames(f) == entries.len());
    if blob_of(f, decompressed).is_some() {
        let blob = blob_of(f, decompressed).unwrap();
        let got = canvas_decode(f, decompressed).unwrap();
        let want = Seq::new(
            entries.len(),
            |i: int|
                painted_frame(
                    meta.pixel_format,
                    table_of_palette(palette),
                    blob,
                    entries[i],
                    meta.canvas_width as int,
                    meta.canvas_height as int,
                ),
        );
        assert forall|i: int| 0 <= i < got.len() implies got[i] == want[i] by {
            assert(file_entry(f, i) == entries[i]);
        }
        assert(got =~= want);
    }
}

/// True where the sprite has palette index and alpha per pixel, at least
/// one and fewer than 32768 pixels each way, a palette of at most 65535
/// entries, a canvas-sized buffer of clean pixels for each frame, and less
/// than 2^32 bytes of staged pixel data.
pub open spec fn encodes_exactly(input: MsfEncodeInput) -> bool {
    &&& input.pixel_format == PixelFormat::Indexed8Alpha8
    &&& 0 < input.canvas_width < 32768
    &&& 0 < input.canvas_height < 32768
    &&& input.palette@.len() <= 65535
    &&& input.frame_count <= input.frame_pixels@.len()
    &&& forall|i: int|
        0 <= i < input.frame_count ==> canvas_clean(
            #[trigger] buffers(input.frame_pixels@)[i],
            input.palette@,
        ) && buffers(input.frame_pixels@)[i].len() == input.canvas_width * input.canvas_height * 4
    &&& blob_of_frames(input.staged()).len() < 4294967296
}

/// Encoding canvases as palette index and alpha per pixel and decoding the
/// file gives the canvases back, where decompressing the payload gives back
/// the pixel data that was compressed: the file that the encoder writes
/// around any payload, composited with the staged pixel data, yields the
/// sprite's canvases. This holds where every canvas is clean for the
/// palette, each pixel all zero or with an alpha above zero and a colour of
/// the palette, under the bounds of `encodes_exactly`.
#[verifier::rlimit(40)]
pub proof fn lemma_encode_then_decode(input: MsfEncodeInput, payload: Seq<u8>)
    requires
        encodes_exactly(input),
    ensures
        input.encoded(Some(payload)).is_some(),
        canvas_decode(
            input.encoded(Some(payload)).unwrap(),
            Some(blob_of_frames(input.staged())),
        ) == Some(buffers(input.frame_pixels@).take(input.frame_count as int)),
{
    let meta = input.meta(1, 1);
    let palette = input.palette@;
    let canvases = buffers(input.frame_pixels@);
    let cw = input.canvas_width as int;
    let ch = input.canvas_height as int;
    let n = input.frame_count as int;
    let staged = input.staged();
    let entries = table_of(staged);
    let blob = blob_of_frames(staged);
    lemma_decode_by_parts(meta, palette, entries, payload, blob);
    let got = canvas_decode(msf_bytes(meta, palette, entries, payload), Some(blob)).unwrap();
    let want = canvases.take(n);
    assert forall|i: int| 0 <= i < got.len() implies got[i] == want[i] by {
        assert(canvas_clean(canvases[i], palette));
        lemma_staged_frame_in_blob(canvases[i], cw, ch, palette, staged, i);
        lemma_stage_then_composite(canvases[i], cw, ch, palette, blob, entries[i]);
    }
    assert(got =~= want);
}

/// Decoding a file, encoding the decoded canvases again with the same
/// palette and pixel format, and decoding that gives the canvases of the
/// first decoding, where decompressing the second payload gives back the
/// pixel data that was compressed. `input` is the decoded sprite: the
/// header fields, the pixel format and the palette of the file, and the
/// canvases of the first decoding. This is stated for files of palette
/// index and alpha per pixel in which every visible pixel names an entry of
/// the palette, with at least one and fewer than 32768 pixels each way, a
/// palette of at most 65535 entries and less than 2^32 bytes of pixel data
/// after the second encoding.
#[verifier::rlimit(40)]
pub proof fn lemma_decode_encode_decode(
    meta: MsfMeta,
    palette: Seq<[u8; 4]>,
    entries: Seq<MsfFrameEntry>,
    payload: Seq<u8>,
    decompressed: Option<Seq<u8>>,
    input: MsfEncodeInput,
    second_payload: Seq<u8>,
)
    requires
        meta.version == 1 || meta.version == 2,
        meta.pixel_format == PixelFormat::Indexed8Alpha8,
        0 < meta.canvas_width < 32768,
        0 < meta.canvas_height < 32768,
        palette.len() <= 65535,
        entries.len() == meta.frame_count,
        blob_of(msf_bytes(meta, palette, entries, payload), decompressed).is_some(),
        forall|i: int|
            0 <= i < entries.len() ==> indices_in_palette(
                blob_of(msf_bytes(meta, palette, entries, payload), decompressed).unwrap(),
                #[trigger] entries[i],
                palette,
            ),
        input.meta(meta.version, meta.flags) == meta,
        input.palette@ == palette,
        Some(buffers(input.frame_pixels@)) == canvas_decode(
            msf_bytes(meta, palette, entries, payload),
            decompressed,
        ),
        blob_of_frames(input.staged()).len() < 4294967296,
    ensures
        input.encoded(Some(second_payload)).is_some(),
        canvas_decode(
            input.encoded(Some(second_payload)).unwrap(),
            Some(blob_of_frames(input.staged())),
        ) == canvas_decode(msf_bytes(meta, palette, entries, payload), decompressed),
{
    let cw = meta.canvas_width as int;
    let ch = meta.canvas_height as int;
    let f = msf_bytes(meta, palette, entries, payload);
    lemma_decode_any(meta, palette, entries, payload, decompressed);
    let blob = blob_of(f, decompressed).unwrap();
    let first = canvas_decode(f, decompressed).unwrap();
    assert(first == buffers(input.frame_pixels@));
    assert(first.len() == meta.frame_count);
    assert(input.frame_pixels@.len() == meta.frame_count);
    assert forall|i: int| 0 <= i < input.frame_count implies canvas_clean(
        #[trigger] buffers(input.frame_pixels@)[i],
        input.palette@,
    ) && buffers(input.frame_pixels@)[i].len() == input.canvas_width * input.canvas_height
        * 4 by {
        lemma_composited_is_clean(palette, blob, entries[i], cw, ch);
    }
    assert(encodes_exactly(input));
    lemma_encode_then_decode(input, second_payload);
    assert(first.take(meta.frame_count as int) =~= first);
}

} // verus!
