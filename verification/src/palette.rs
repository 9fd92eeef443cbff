//! Palettes and the nearest-colour lookup that turns RGBA pixels into
//! palette indices.

use vstd::prelude::*;

verus! {

/// Distance between two channel values.
pub open spec fn channel_gap(a: u8, b: u8) -> int {
    if a >= b {
        a - b
    } else {
        b - a
    }
}

/// Sum of the distances of the red, green and blue channels between a
/// colour and a palette entry. Alpha plays no part.
pub open spec fn color_distance(r: u8, g: u8, b: u8, entry: [u8; 4]) -> int {
    channel_gap(r, entry[0]) + channel_gap(g, entry[1]) + channel_gap(b, entry[2])
}

/// Number of palette entries that a one-byte index can reach.
pub open spec fn reachable(palette: Seq<[u8; 4]>) -> int {
    if palette.len() < 256 {
        palette.len() as int
    } else {
        256
    }
}

/// The index among the first `n` entries whose colour is nearest to
/// `(r, g, b)`, the lowest one where several are equally near; 0 for `n <= 1`.
pub open spec fn nearest_among(palette: Seq<[u8; 4]>, r: u8, g: u8, b: u8, n: int) -> int
    decreases n,
{
    if n <= 1 {
        0
    } else {
        let prev = nearest_among(palette, r, g, b, n - 1);
        if color_distance(r, g, b, palette[n - 1]) < color_distance(r, g, b, palette[prev]) {
            n - 1
        } else {
            prev
        }
    }
}

/// The palette index that stands for the colour `(r, g, b)`.
pub open spec fn nearest_index(palette: Seq<[u8; 4]>, r: u8, g: u8, b: u8) -> int {
    nearest_among(palette, r, g, b, reachable(palette))
}

/// `nearest_among` picks an entry at minimum distance, and the first of them.
pub proof fn lemma_nearest_among(palette: Seq<[u8; 4]>, r: u8, g: u8, b: u8, n: int)
    requires
        1 <= n <= palette.len(),
    ensures
        0 <= nearest_among(palette, r, g, b, n) < n,
        forall|j: int|
            0 <= j < n ==> color_distance(r, g, b, palette[nearest_among(palette, r, g, b, n)])
                <= color_distance(r, g, b, #[trigger] palette[j]),
        forall|j: int|
            0 <= j < nearest_among(palette, r, g, b, n) ==> color_distance(
                r,
                g,
                b,
                palette[nearest_among(palette, r, g, b, n)],
            ) < color_distance(r, g, b, #[trigger] palette[j]),
    decreases n,
{
    if n > 1 {
        lemma_nearest_among(palette, r, g, b, n - 1);
    }
}

/// The index chosen for a colour is that of an entry at the least distance
/// among those a byte can reach, and no entry before it is as near.
pub proof fn lemma_nearest_index_is_least(palette: Seq<[u8; 4]>, r: u8, g: u8, b: u8)
    requires
        palette.len() > 0,
    ensures
        0 <= nearest_index(palette, r, g, b) < reachable(palette),
        forall|j: int|
            0 <= j < reachable(palette) ==> color_distance(
                r,
                g,
                b,
                palette[nearest_index(palette, r, g, b)],
            ) <= color_distance(r, g, b, #[trigger] palette[j]),
        forall|j: int|
            0 <= j < nearest_index(palette, r, g, b) ==> color_distance(
                r,
                g,
                b,
                palette[nearest_index(palette, r, g, b)],
            ) < color_distance(r, g, b, #[trigger] palette[j]),
{
    lemma_nearest_among(palette, r, g, b, reachable(palette));
}

/// A colour that the palette holds at a reachable index is mapped to an
/// entry with the same red, green and blue.
pub proof fn lemma_nearest_exact(palette: Seq<[u8; 4]>, r: u8, g: u8, b: u8, at: int)
    requires
        0 <= at < reachable(palette),
        palette[at][0] == r,
        palette[at][1] == g,
        palette[at][2] == b,
    ensures
        0 <= nearest_index(palette, r, g, b) <= at,
        palette[nearest_index(palette, r, g, b)][0] == r,
        palette[nearest_index(palette, r, g, b)][1] == g,
        palette[nearest_index(palette, r, g, b)][2] == b,
{
    lemma_nearest_among(palette, r, g, b, reachable(palette));
    let k = nearest_index(palette, r, g, b);
    assert(color_distance(r, g, b, palette[at]) == 0);
    assert(color_distance(r, g, b, palette[k]) <= color_distance(r, g, b, palette[at]));
    if k > at {
        assert(color_distance(r, g, b, palette[k]) < color_distance(r, g, b, palette[at]));
    }
}

fn gap(a: u8, b: u8) -> (d: u32)
    ensures
        d as int == channel_gap(a, b),
{
    if a >= b {
        (a - b) as u32
    } else {
        (b - a) as u32
    }
}

/// Finds the palette entry nearest to `(r, g, b)` by the sum of channel
/// distances. Equally near entries resolve to the lowest index; an empty
/// palette gives 0. Only the first 256 entries can be chosen.
pub fn nearest_palette_index(palette: &[[u8; 4]], r: u8, g: u8, b: u8) -> (idx: u8)
    ensures
        idx as int == nearest_index(palette@, r, g, b),
{
    let n: usize = if palette.len() < 256 {
        palette.len()
    } else {
        256
    };
    if n == 0 {
        return 0;
    }
    let mut best: usize = 0;
    let mut best_dist: u32 = gap(r, palette[0][0]) + gap(g, palette[0][1]) + gap(b, palette[0][2]);
    let mut j: usize = 1;
    while j < n
        invariant
            1 <= j <= n,
            n as int == reachable(palette@),
            n <= palette.len(),
            best < j,
            best as int == nearest_among(palette@, r, g, b, j as int),
            best_dist as int == color_distance(r, g, b, palette@[best as int]),
        decreases n - j,
    {
        let dist: u32 = gap(r, palette[j][0]) + gap(g, palette[j][1]) + gap(b, palette[j][2]);
        if dist < best_dist {
            best = j;
            best_dist = dist;
        }
        j = j + 1;
    }
    best as u8
}

/// The index byte of pixel `i` of an RGBA buffer: 0 for a fully transparent
/// pixel, else the nearest palette index.
pub open spec fn index_of_pixel(pixels: Seq<u8>, palette: Seq<[u8; 4]>, i: int) -> u8 {
    if pixels[4 * i + 3] == 0 {
        0
    } else {
        nearest_index(palette, pixels[4 * i], pixels[4 * i + 1], pixels[4 * i + 2]) as u8
    }
}

/// An RGBA buffer as one palette index per pixel.
pub open spec fn indexed_plane(pixels: Seq<u8>, palette: Seq<[u8; 4]>) -> Seq<u8> {
    Seq::new((pixels.len() / 4) as nat, |i: int| index_of_pixel(pixels, palette, i))
}

/// An RGBA buffer as two bytes per pixel: the palette index and the pixel's own alpha.
pub open spec fn indexed_alpha_plane(pixels: Seq<u8>, palette: Seq<[u8; 4]>) -> Seq<u8> {
    Seq::new(
        (2 * (pixels.len() / 4)) as nat,
        |k: int|
            if k % 2 == 0 {
                index_of_pixel(pixels, palette, k / 2)
            } else {
                pixels[4 * (k / 2) + 3]
            },
    )
}

/// Turns RGBA pixels into palette indices, one byte per pixel. A fully
/// transparent pixel becomes index 0.
pub fn rgba_to_indexed(pixels: &[u8], palette: &[[u8; 4]]) -> (out: Vec<u8>)
    ensures
        out@ == indexed_plane(pixels@, palette@),
{
    let count: usize = pixels.len() / 4;
    let mut out: Vec<u8> = Vec::new();
    let mut i: usize = 0;
    while i < count
        invariant
            i <= count,
            count == pixels.len() / 4,
            out.len() == i,
            forall|k: int| 0 <= k < i ==> #[trigger] out[k] == index_of_pixel(pixels@, palette@, k),
        decreases count - i,
    {
        let a: u8 = pixels[4 * i + 3];
        if a == 0 {
            out.push(0);
        } else {
            out.push(nearest_palette_index(palette, pixels[4 * i], pixels[4 * i + 1], pixels[4 * i + 2]));
        }
        i = i + 1;
    }
    assert(out@ =~= indexed_plane(pixels@, palette@));
    out
}

/// Turns RGBA pixels into pairs of palette index and alpha. A fully
/// transparent pixel becomes `(0, 0)`; every other keeps its alpha.
pub fn rgba_to_indexed_alpha(pixels: &[u8], palette: &[[u8; 4]]) -> (out: Vec<u8>)
    ensures
        out@ == indexed_alpha_plane(pixels@, palette@),
{
    let count: usize = pixels.len() / 4;
    let mut out: Vec<u8> = Vec::new();
    let mut i: usize = 0;
    while i < count
        invariant
            i <= count,
            count == pixels.len() / 4,
            out.len() == 2 * i,
            forall|k: int|
                0 <= k < 2 * i ==> #[trigger] out[k] == indexed_alpha_plane(pixels@, palette@)[k],
        decreases count - i,
    {
        let a: u8 = pixels[4 * i + 3];
        if a == 0 {
            out.push(0);
            out.push(0);
        } else {
            out.push(nearest_palette_index(palette, pixels[4 * i], pixels[4 * i + 1], pixels[4 * i + 2]));
            out.push(a);
        }
        i = i + 1;
    }
    assert(out@ =~= indexed_alpha_plane(pixels@, palette@));
    out
}

} // verus!
