//! Converting a MAP tile map into an MMF file: the sparse table of 255
//! sprite slots becomes a dense table of the named slots, every tile's slot
//! bytes are renumbered, and the tile layers are stored plane by plane.
//!
//! Names and paths are held as UTF-8 bytes.

use crate::asf::{field16, read_field16};
use crate::bytes::{le16, le32, push_u16, push_u32};
use crate::compression::{opt_bytes, zstd_compress, zstd_compressed, ZSTD_LEVEL};
use vstd::prelude::*;
use vstd::slice::slice_subrange;

verus! {

/// Number of sprite slots in a MAP file.
pub const SLOT_COUNT: usize = 255;

/// Offset of the first tile record in a MAP file.
pub const TILES_START: usize = 16512;

/// One tile of a MAP file: a frame and a sprite slot for each of three
/// layers, a barrier byte and a trap byte. Slot 0 means no sprite; slot `k`
/// refers to entry `k - 1` of the sprite table.
#[derive(Clone, Copy, Debug, PartialEq, Eq, Structural)]
pub struct MapTile {
    pub l1_frame: u8,
    pub l1_mpc: u8,
    pub l2_frame: u8,
    pub l2_mpc: u8,
    pub l3_frame: u8,
    pub l3_mpc: u8,
    pub barrier: u8,
    pub trap: u8,
}

/// A parsed MAP file.
pub struct OldMapData {
    pub columns: u16,
    pub rows: u16,
    /// One entry per sprite slot: the UTF-8 name, or `None` for a free slot.
    pub mpc_names: Vec<Option<Vec<u8>>>,
    pub mpc_looping: Vec<bool>,
    pub tiles: Vec<MapTile>,
}

/// A trap of a map: its index and the UTF-8 path of its script.
pub struct TrapEntry {
    pub trap_index: u8,
    pub script_path: Vec<u8>,
}

/// The UTF-8 bytes of the text that encoding_rs decodes from the bytes
/// `bytes` as GBK. The decoder first looks for a byte-order mark: bytes that
/// start with one are read as UTF-8 or UTF-16, not as GBK, and the mark is
/// left out of the text.
pub uninterp spec fn gbk_decoded(bytes: Seq<u8>) -> Seq<u8>;

/// Calls `encoding_rs::GBK.decode` and takes the decoded text as bytes.
/// Trusted: the text depends on the bytes alone and is named `gbk_decoded`.
/// The input is kept short, so that the size calculation which the crate
/// documents as a reason to panic cannot overflow.
#[verifier::external_body]
pub(crate) fn gbk_to_utf8(bytes: &[u8]) -> (r: Vec<u8>)
    requires
        bytes.len() <= 4096,
    ensures
        r@ == gbk_decoded(bytes@),
{
    encoding_rs::GBK.decode(bytes).0.into_owned().into_bytes()
}

/// Length of the zero-terminated text at `off`, at most `max`.
pub open spec fn text_len(s: Seq<u8>, off: int, max: int) -> int
    decreases max,
{
    if max <= 0 || s[off] == 0 {
        0
    } else {
        1 + text_len(s, off + 1, max - 1)
    }
}

/// The bytes of the zero-terminated text at `off`, at most `max` of them.
pub open spec fn raw_text(s: Seq<u8>, off: int, max: int) -> Seq<u8> {
    s.subrange(off, off + text_len(s, off, max))
}

/// The text of a zero-terminated GBK field as UTF-8; empty where the field
/// leaves the buffer or starts with a zero byte.
pub open spec fn gbk_text(s: Seq<u8>, off: int, max: int) -> Seq<u8> {
    if off + max > s.len() || text_len(s, off, max) == 0 {
        Seq::<u8>::empty()
    } else {
        gbk_decoded(raw_text(s, off, max))
    }
}

/// Reads a zero-terminated GBK text of at most `max_len` bytes at `offset`
/// and gives it as UTF-8.
pub fn read_gbk_string(data: &[u8], offset: usize, max_len: usize) -> (r: Vec<u8>)
    requires
        max_len <= 4096,
        offset + max_len <= usize::MAX,
    ensures
        r@ == gbk_text(data@, offset as int, max_len as int),
{
    if offset + max_len > data.len() {
        return Vec::new();
    }
    let mut len: usize = 0;
    while len < max_len && data[offset + len] != 0
        invariant
            len <= max_len,
            offset + max_len <= data.len(),
            text_len(data@, offset as int, max_len as int) == len + text_len(
                data@,
                offset + len,
                max_len - len,
            ),
        decreases max_len - len,
    {
        len = len + 1;
    }
    if len == 0 {
        return Vec::new();
    }
    gbk_to_utf8(slice_subrange(data, offset, offset + len))
}

/// True where `s` holds the fixed part of a MAP file and starts with the
/// ASCII signature `MAP File Ver`.
pub open spec fn has_map_signature(s: Seq<u8>) -> bool {
    s.len() >= 16512 && s[0] == 0x4d && s[1] == 0x41 && s[2] == 0x50 && s[3] == 0x20 && s[4]
        == 0x46 && s[5] == 0x69 && s[6] == 0x6c && s[7] == 0x65 && s[8] == 0x20 && s[9] == 0x56
        && s[10] == 0x65 && s[11] == 0x72
}

/// The name in sprite slot `k`, or `None` for a free slot.
pub open spec fn slot_name(s: Seq<u8>, k: int) -> Option<Seq<u8>> {
    let name = gbk_text(s, 192 + 64 * k, 32);
    if name.len() == 0 {
        None
    } else {
        Some(name)
    }
}

/// The looping flag of sprite slot `k`: set where the slot is named and the
/// flag byte is 1.
pub open spec fn slot_looping(s: Seq<u8>, k: int) -> bool {
    slot_name(s, k).is_some() && s[192 + 64 * k + 36] == 1
}

/// The tile record `i`: ten bytes, of which the first eight are read.
pub open spec fn tile_at(s: Seq<u8>, i: int) -> MapTile {
    let at = 16512 + 10 * i;
    MapTile {
        l1_frame: s[at],
        l1_mpc: s[at + 1],
        l2_frame: s[at + 2],
        l2_mpc: s[at + 3],
        l3_frame: s[at + 4],
        l3_mpc: s[at + 5],
        barrier: s[at + 6],
        trap: s[at + 7],
    }
}

/// Number of tile records that the file holds: columns times rows, cut
/// where the file ends.
pub open spec fn tiles_held(s: Seq<u8>) -> int {
    let declared = field16(s, 68) * field16(s, 72);
    let held = (s.len() - 16512) / 10;
    if declared < held {
        declared
    } else {
        held
    }
}

/// The name of an optional buffer.
pub open spec fn opt_name(n: Option<Vec<u8>>) -> Option<Seq<u8>> {
    match n {
        Some(v) => Some(v@),
        None => None,
    }
}

/// Parses a MAP file: its size, its 255 sprite slots and its tiles. Fails
/// exactly where the file is shorter than its fixed part or lacks the signature.
pub fn parse_old_map(data: &[u8]) -> (r: Option<OldMapData>)
    ensures
        r.is_some() == has_map_signature(data@),
        r matches Some(map) ==> {
            &&& map.columns as int == field16(data@, 68)
            &&& map.rows as int == field16(data@, 72)
            &&& map.mpc_names.len() == 255
            &&& map.mpc_looping.len() == 255
            &&& forall|k: int|
                0 <= k < 255 ==> opt_name(#[trigger] map.mpc_names[k]) == slot_name(data@, k)
            &&& forall|k: int| 0 <= k < 255 ==> #[trigger] map.mpc_looping[k] == slot_looping(data@, k)
            &&& map.tiles.len() == tiles_held(data@)
            &&& forall|i: int| 0 <= i < map.tiles.len() ==> #[trigger] map.tiles[i] == tile_at(data@, i)
        },
{
    if data.len() < TILES_START {
        return None;
    }
    if !(data[0] == 0x4d && data[1] == 0x41 && data[2] == 0x50 && data[3] == 0x20 && data[4] == 0x46
        && data[5] == 0x69 && data[6] == 0x6c && data[7] == 0x65 && data[8] == 0x20 && data[9]
        == 0x56 && data[10] == 0x65 && data[11] == 0x72) {
        return None;
    }
    let columns: u16 = read_field16(data, 68);
    let rows: u16 = read_field16(data, 72);
    let mut mpc_names: Vec<Option<Vec<u8>>> = Vec::new();
    let mut mpc_looping: Vec<bool> = Vec::new();
    let mut k: usize = 0;
    while k < SLOT_COUNT
        invariant
            k <= 255,
            data.len() >= 16512,
            mpc_names.len() == k,
            mpc_looping.len() == k,
            forall|j: int| 0 <= j < k ==> opt_name(#[trigger] mpc_names[j]) == slot_name(data@, j),
            forall|j: int| 0 <= j < k ==> #[trigger] mpc_looping[j] == slot_looping(data@, j),
        decreases 255 - k,
    {
        let offset: usize = 192 + 64 * k;
        let name = read_gbk_string(data, offset, 32);
        if name.len() == 0 {
            mpc_names.push(None);
            mpc_looping.push(false);
        } else {
            mpc_names.push(Some(name));
            mpc_looping.push(data[offset + 36] == 1);
        }
        k = k + 1;
    }
    assert(0 <= (columns as int) * (rows as int) <= 65535 * 65535) by (nonlinear_arith)
        requires
            0 <= columns as int <= 65535,
            0 <= rows as int <= 65535,
    ;
    let declared: u64 = (columns as u64) * (rows as u64);
    let held: usize = (data.len() - TILES_START) / 10;
    let count: usize = if declared < held as u64 {
        declared as usize
    } else {
        held
    };
    let mut tiles: Vec<MapTile> = Vec::new();
    let mut i: usize = 0;
    while i < count
        invariant
            i <= count,
            count as int == tiles_held(data@),
            16512 + 10 * count <= data.len(),
            tiles.len() == i,
            forall|j: int| 0 <= j < i ==> #[trigger] tiles[j] == tile_at(data@, j),
        decreases count - i,
    {
        let at: usize = TILES_START + 10 * i;
        tiles.push(
            MapTile {
                l1_frame: data[at],
                l1_mpc: data[at + 1],
                l2_frame: data[at + 2],
                l2_mpc: data[at + 3],
                l3_frame: data[at + 4],
                l3_mpc: data[at + 5],
                barrier: data[at + 6],
                trap: data[at + 7],
            },
        );
        i = i + 1;
    }
    Some(OldMapData { columns, rows, mpc_names, mpc_looping, tiles })
}

/// Number of named slots among the first `n`.
pub open spec fn named_before(names: Seq<Option<Seq<u8>>>, n: int) -> int
    decreases n,
{
    if n <= 0 {
        0
    } else {
        named_before(names, n - 1) + if names[n - 1].is_some() {
            1int
        } else {
            0int
        }
    }
}

/// The slot byte that a tile holds after the conversion: 0 stays 0, a
/// reference to a named slot becomes that slot's place among the named ones,
/// counted from 1, and a reference to a free slot becomes 0.
pub open spec fn remapped(names: Seq<Option<Seq<u8>>>, slot: u8) -> int {
    if slot == 0 || slot as int - 1 >= names.len() || names[slot as int - 1].is_none() {
        0
    } else {
        named_before(names, slot as int - 1) + 1
    }
}

/// True where `name` ends in `.mpc`, in either case.
pub open spec fn ends_with_mpc(name: Seq<u8>) -> bool {
    let n = name.len() as int;
    n >= 4 && name[n - 4] == 0x2e && (name[n - 3] == 0x6d || name[n - 3] == 0x4d) && (name[n - 2]
        == 0x70 || name[n - 2] == 0x50) && (name[n - 1] == 0x63 || name[n - 1] == 0x43)
}

/// The name of the sprite file after the conversion: a final `.mpc` is
/// replaced by `.msf`.
pub open spec fn msf_name(name: Seq<u8>) -> Seq<u8> {
    if ends_with_mpc(name) {
        name.subrange(0, name.len() - 4) + seq![0x2eu8, 0x6du8, 0x73u8, 0x66u8]
    } else {
        name
    }
}

/// Rewrites a sprite file name for the converted map.
pub fn rename_to_msf(name: &[u8]) -> (r: Vec<u8>)
    ensures
        r@ == msf_name(name@),
{
    let n: usize = name.len();
    let mut r: Vec<u8> = Vec::new();
    if n >= 4 && name[n - 4] == 0x2e && (name[n - 3] == 0x6d || name[n - 3] == 0x4d) && (name[n
        - 2] == 0x70 || name[n - 2] == 0x50) && (name[n - 1] == 0x63 || name[n - 1] == 0x43) {
        r.extend_from_slice(slice_subrange(name, 0, n - 4));
        r.push(0x2e);
        r.push(0x6d);
        r.push(0x73);
        r.push(0x66);
        assert(r@ =~= msf_name(name@));
    } else {
        r.extend_from_slice(name);
        assert(r@ =~= msf_name(name@));
    }
    r
}

/// The sprite table over the first `n` slots: for each named slot the
/// length of its name in one byte, the name, and the looping flag.
pub open spec fn sprite_table(names: Seq<Option<Seq<u8>>>, looping: Seq<bool>, n: int) -> Seq<u8>
    decreases n,
{
    if n <= 0 {
        Seq::<u8>::empty()
    } else {
        sprite_table(names, looping, n - 1) + (match names[n - 1] {
            Some(name) => seq![(msf_name(name).len() % 256) as u8] + msf_name(name) + seq![
                if looping[n - 1] {
                    1u8
                } else {
                    0u8
                },
            ],
            None => Seq::<u8>::empty(),
        })
    }
}

/// The trap table over the first `n` traps: for each the index, the length
/// of its path in two bytes, and the path.
pub open spec fn trap_table(traps: Seq<TrapEntry>, n: int) -> Seq<u8>
    decreases n,
{
    if n <= 0 {
        Seq::<u8>::empty()
    } else {
        trap_table(traps, n - 1) + seq![traps[n - 1].trap_index] + le16(
            (traps[n - 1].script_path@.len() % 65536) as int,
        ) + traps[n - 1].script_path@
    }
}

/// The slot byte of tile `t` in layer `layer` (1, 2 or 3).
pub open spec fn tile_slot(t: MapTile, layer: int) -> u8 {
    if layer == 1 {
        t.l1_mpc
    } else if layer == 2 {
        t.l2_mpc
    } else {
        t.l3_mpc
    }
}

/// The frame byte of tile `t` in layer `layer` (1, 2 or 3).
pub open spec fn tile_frame(t: MapTile, layer: int) -> u8 {
    if layer == 1 {
        t.l1_frame
    } else if layer == 2 {
        t.l2_frame
    } else {
        t.l3_frame
    }
}

/// One layer of the tile data: for each tile the renumbered slot and the frame.
pub open spec fn layer_plane(names: Seq<Option<Seq<u8>>>, tiles: Seq<MapTile>, layer: int) -> Seq<
    u8,
> {
    Seq::new(
        2 * tiles.len(),
        |k: int|
            if k % 2 == 0 {
                remapped(names, tile_slot(tiles[k / 2], layer)) as u8
            } else {
                tile_frame(tiles[k / 2], layer)
            },
    )
}

/// The barrier byte of every tile.
pub open spec fn barrier_plane(tiles: Seq<MapTile>) -> Seq<u8> {
    Seq::new(tiles.len(), |k: int| tiles[k].barrier)
}

/// The trap byte of every tile.
pub open spec fn trap_plane(tiles: Seq<MapTile>) -> Seq<u8> {
    Seq::new(tiles.len(), |k: int| tiles[k].trap)
}

/// The tile data before compression: three layers, the barriers, the traps.
pub open spec fn tile_blob(names: Seq<Option<Seq<u8>>>, tiles: Seq<MapTile>) -> Seq<u8> {
    layer_plane(names, tiles, 1) + layer_plane(names, tiles, 2) + layer_plane(names, tiles, 3)
        + barrier_plane(tiles) + trap_plane(tiles)
}

/// The names of a slot table as plain values.
pub open spec fn name_views(names: Seq<Option<Vec<u8>>>) -> Seq<Option<Seq<u8>>> {
    Seq::new(names.len(), |i: int| opt_name(names[i]))
}

/// The flags of the converted map: bit 0 for the compressed tile data,
/// bit 1 where the count of traps, as stored in 16 bits, is not zero.
pub open spec fn mmf_flags(traps: int) -> int {
    if traps % 65536 > 0 {
        3
    } else {
        1
    }
}

/// The bytes of an MMF file before its tile data: preamble, header, sprite
/// table, trap table and `END` sentinel.
pub open spec fn mmf_head(map: OldMapData, traps: Seq<TrapEntry>) -> Seq<u8> {
    let names = name_views(map.mpc_names@);
    seq![0x4du8, 0x4du8, 0x46u8, 0x31u8] + le16(1) + le16(mmf_flags(traps.len() as int)) + le16(
        map.columns as int,
    ) + le16(map.rows as int) + le16(named_before(names, names.len() as int)) + le16(
        (traps.len() % 65536) as int,
    ) + le32(0) + sprite_table(names, map.mpc_looping@, names.len() as int) + (if mmf_flags(
        traps.len() as int,
    ) == 3 {
        trap_table(traps, traps.len() as int)
    } else {
        Seq::<u8>::empty()
    }) + seq![0x45u8, 0x4eu8, 0x44u8, 0u8, 0u8, 0u8, 0u8, 0u8]
}

/// Builds the table that renumbers slot bytes: entry `b` is what a tile's
/// slot byte `b` becomes.
pub fn build_slot_map(names: &Vec<Option<Vec<u8>>>) -> (table: Vec<u8>)
    requires
        names.len() <= 255,
    ensures
        table.len() == 256,
        forall|b: int|
            0 <= b < 256 ==> (#[trigger] table[b]) as int == remapped(name_views(names@), b as u8),
{
    let ghost views = name_views(names@);
    let mut table: Vec<u8> = vec![0u8; 256];
    let mut next: u16 = 1;
    let mut k: usize = 0;
    while k < names.len()
        invariant
            k <= names.len() <= 255,
            views == name_views(names@),
            table.len() == 256,
            next as int == named_before(views, k as int) + 1,
            next <= k + 1,
            forall|b: int|
                0 <= b <= k ==> (#[trigger] table[b]) as int == remapped(views, b as u8),
            forall|b: int| k < b < 256 ==> #[trigger] table[b] == 0,
        decreases names.len() - k,
    {
        assert(views[k as int] == opt_name(names@[k as int]));
        if names[k].is_some() {
            table[k + 1] = next as u8;
            next = next + 1;
        }
        k = k + 1;
    }
    table
}

/// Converts a parsed MAP file and its traps into an MMF file. The tile
/// data is compressed with Zstandard; `None` where the compression fails.
pub fn convert_map_to_mmf(map_data: &OldMapData, trap_entries: &[TrapEntry]) -> (r: Option<Vec<u8>>)
    requires
        map_data.mpc_names.len() <= 255,
        map_data.mpc_looping.len() == map_data.mpc_names.len(),
    ensures
        opt_bytes(r) == match zstd_compressed(
            tile_blob(name_views(map_data.mpc_names@), map_data.tiles@),
            ZSTD_LEVEL as int,
        ) {
            Some(payload) => Some(mmf_head(*map_data, trap_entries@) + payload),
            None => None,
        },
{
    let ghost names = name_views(map_data.mpc_names@);
    let slot_map = build_slot_map(&map_data.mpc_names);
    let trap_count: u16 = (trap_entries.len() % 65536) as u16;
    let flags: u16 = if trap_count > 0 {
        3
    } else {
        1
    };
    let mut table: Vec<u8> = Vec::new();
    let mut count: u16 = 0;
    let mut k: usize = 0;
    while k < map_data.mpc_names.len()
        invariant
            k <= map_data.mpc_names.len() <= 255,
            map_data.mpc_looping.len() == map_data.mpc_names.len(),
            names == name_views(map_data.mpc_names@),
            count as int == named_before(names, k as int),
            count <= k,
            table@ == sprite_table(names, map_data.mpc_looping@, k as int),
        decreases map_data.mpc_names.len() - k,
    {
        assert(names[k as int] == opt_name(map_data.mpc_names@[k as int]));
        match &map_data.mpc_names[k] {
            Some(name) => {
                let renamed = rename_to_msf(name.as_slice());
                table.push((renamed.len() % 256) as u8);
                table.extend_from_slice(renamed.as_slice());
                table.push(
                    if map_data.mpc_looping[k] {
                        1
                    } else {
                        0
                    },
                );
                count = count + 1;
                assert(table@ =~= sprite_table(names, map_data.mpc_looping@, k as int + 1));
            },
            None => {
                assert(table@ =~= sprite_table(names, map_data.mpc_looping@, k as int + 1));
            },
        }
        k = k + 1;
    }
    let mut out: Vec<u8> = Vec::new();
    out.push(0x4d);
    out.push(0x4d);
    out.push(0x46);
    out.push(0x31);
    push_u16(&mut out, 1);
    push_u16(&mut out, flags);
    push_u16(&mut out, map_data.columns);
    push_u16(&mut out, map_data.rows);
    push_u16(&mut out, count);
    push_u16(&mut out, trap_count);
    push_u32(&mut out, 0);
    out.extend_from_slice(table.as_slice());
    let ghost with_sprites = out@;
    if flags == 3 {
        let mut j: usize = 0;
        while j < trap_entries.len()
            invariant
                j <= trap_entries.len(),
                out@ == with_sprites + trap_table(trap_entries@, j as int),
            decreases trap_entries.len() - j,
        {
            let trap = &trap_entries[j];
            out.push(trap.trap_index);
            push_u16(&mut out, (trap.script_path.len() % 65536) as u16);
            out.extend_from_slice(trap.script_path.as_slice());
            j = j + 1;
            assert(out@ =~= with_sprites + trap_table(trap_entries@, j as int));
        }
    }
    out.push(0x45);
    out.push(0x4e);
    out.push(0x44);
    out.push(0);
    out.push(0);
    out.push(0);
    out.push(0);
    out.push(0);
    assert(out@ =~= mmf_head(*map_data, trap_entries@));
    let blob = build_tile_blob(&map_data.tiles, slot_map.as_slice(), Ghost(names));
    match zstd_compress(blob.as_slice(), ZSTD_LEVEL) {
        Some(payload) => {
            out.extend_from_slice(payload.as_slice());
            Some(out)
        },
        None => None,
    }
}

/// Lays out the tile data plane by plane, slot bytes renumbered by `slot_map`.
fn build_tile_blob(tiles: &Vec<MapTile>, slot_map: &[u8], Ghost(names): Ghost<
    Seq<Option<Seq<u8>>>,
>) -> (blob: Vec<u8>)
    requires
        slot_map.len() == 256,
        forall|b: int| 0 <= b < 256 ==> (#[trigger] slot_map[b]) as int == remapped(names, b as u8),
    ensures
        blob@ == tile_blob(names, tiles@),
{
    let mut blob: Vec<u8> = Vec::new();
    let mut layer: u8 = 1;
    let ghost mut done: Seq<u8> = Seq::<u8>::empty();
    while layer <= 3
        invariant
            1 <= layer <= 4,
            slot_map.len() == 256,
            forall|b: int|
                0 <= b < 256 ==> (#[trigger] slot_map[b]) as int == remapped(names, b as u8),
            blob@ == done,
            layer == 1 ==> done == Seq::<u8>::empty(),
            layer == 2 ==> done == layer_plane(names, tiles@, 1),
            layer == 3 ==> done == layer_plane(names, tiles@, 1) + layer_plane(names, tiles@, 2),
            layer == 4 ==> done == layer_plane(names, tiles@, 1) + layer_plane(names, tiles@, 2)
                + layer_plane(names, tiles@, 3),
        decreases 4 - layer,
    {
        let ghost before = blob@;
        let mut i: usize = 0;
        while i < tiles.len()
            invariant
                i <= tiles.len(),
                1 <= layer <= 3,
                slot_map.len() == 256,
                forall|b: int|
                    0 <= b < 256 ==> (#[trigger] slot_map[b]) as int == remapped(names, b as u8),
                blob@ == before + layer_plane(names, tiles@, layer as int).take(2 * i as int),
            decreases tiles.len() - i,
        {
            let t = tiles[i];
            let (slot, frame) = if layer == 1 {
                (t.l1_mpc, t.l1_frame)
            } else if layer == 2 {
                (t.l2_mpc, t.l2_frame)
            } else {
                (t.l3_mpc, t.l3_frame)
            };
            blob.push(slot_map[slot as usize]);
            blob.push(frame);
            i = i + 1;
            assert(blob@ =~= before + layer_plane(names, tiles@, layer as int).take(2 * i as int));
        }
        proof {
            assert(layer_plane(names, tiles@, layer as int).take(2 * i as int) =~= layer_plane(
                names,
                tiles@,
                layer as int,
            ));
            done = blob@;
        }
        layer = layer + 1;
    }
    let ghost layers = blob@;
    let mut i: usize = 0;
    while i < tiles.len()
        invariant
            i <= tiles.len(),
            blob@ == layers + barrier_plane(tiles@).take(i as int),
        decreases tiles.len() - i,
    {
        blob.push(tiles[i].barrier);
        i = i + 1;
        assert(blob@ =~= layers + barrier_plane(tiles@).take(i as int));
    }
    assert(barrier_plane(tiles@).take(i as int) =~= barrier_plane(tiles@));
    let ghost with_barriers = blob@;
    let mut i: usize = 0;
    while i < tiles.len()
        invariant
            i <= tiles.len(),
            blob@ == with_barriers + trap_plane(tiles@).take(i as int),
        decreases tiles.len() - i,
    {
        blob.push(tiles[i].trap);
        i = i + 1;
        assert(blob@ =~= with_barriers + trap_plane(tiles@).take(i as int));
    }
    assert(trap_plane(tiles@).take(i as int) =~= trap_plane(tiles@));
    blob
}

} // verus!
