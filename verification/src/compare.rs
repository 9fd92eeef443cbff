//! Pixel-exact comparison of decoded frames.

use crate::encode::buffers;
use vstd::prelude::*;

verus! {

/// True where pixel `i` of the two RGBA buffers differs in some channel.
pub open spec fn differs_at(a: Seq<u8>, b: Seq<u8>, i: int) -> bool {
    a[4 * i] != b[4 * i] || a[4 * i + 1] != b[4 * i + 1] || a[4 * i + 2] != b[4 * i + 2] || a[4 * i
        + 3] != b[4 * i + 3]
}

/// Number of pixels that both buffers hold.
pub open spec fn shared_pixels(a: Seq<u8>, b: Seq<u8>) -> int {
    if a.len() <= b.len() {
        a.len() as int / 4
    } else {
        b.len() as int / 4
    }
}

/// Number of differing pixels among the first `n`.
pub open spec fn diff_count(a: Seq<u8>, b: Seq<u8>, n: int) -> int
    decreases n,
{
    if n <= 0 {
        0
    } else {
        diff_count(a, b, n - 1) + if differs_at(a, b, n - 1) {
            1int
        } else {
            0int
        }
    }
}

/// What comparing two frames found.
#[derive(Clone, Copy, Debug, PartialEq, Eq, Structural)]
pub struct FrameDiff {
    /// Pixels that both frames hold.
    pub compared: usize,
    /// How many of them differ.
    pub differing: usize,
    /// The first differing pixel, counted row by row.
    pub first: Option<usize>,
}

/// The count of differing pixels lies between 0 and the number of pixels,
/// and is 0 exactly where no pixel differs.
pub proof fn lemma_diff_count(a: Seq<u8>, b: Seq<u8>, n: int)
    requires
        n >= 0,
    ensures
        0 <= diff_count(a, b, n) <= n,
        diff_count(a, b, n) == 0 <==> forall|i: int| 0 <= i < n ==> !differs_at(a, b, i),
    decreases n,
{
    if n > 0 {
        lemma_diff_count(a, b, n - 1);
        if diff_count(a, b, n) == 0 {
            assert forall|i: int| 0 <= i < n implies !differs_at(a, b, i) by {
                if i < n - 1 {
                }
            }
        }
    }
}

/// Two frames of the same size, a whole number of pixels, are equal byte
/// for byte exactly where the count of differing pixels is zero.
pub proof fn lemma_no_diff_means_equal(a: Seq<u8>, b: Seq<u8>)
    requires
        a.len() == b.len(),
        a.len() % 4 == 0,
    ensures
        diff_count(a, b, shared_pixels(a, b)) == 0 <==> a == b,
{
    let n = shared_pixels(a, b);
    lemma_diff_count(a, b, n);
    if diff_count(a, b, n) == 0 {
        assert forall|k: int| 0 <= k < a.len() implies a[k] == b[k] by {
            let i = k / 4;
            assert(!differs_at(a, b, i));
        }
        assert(a =~= b);
    }
}

/// Compares two RGBA frames pixel by pixel over the pixels that both hold.
pub fn compare_frame(a: &[u8], b: &[u8]) -> (r: FrameDiff)
    ensures
        r.compared as int == shared_pixels(a@, b@),
        r.differing as int == diff_count(a@, b@, r.compared as int),
        match r.first {
            Some(i) => i < r.compared && differs_at(a@, b@, i as int) && forall|j: int|
                0 <= j < i ==> !differs_at(a@, b@, j),
            None => r.differing == 0,
        },
{
    let n: usize = if a.len() <= b.len() {
        a.len() / 4
    } else {
        b.len() / 4
    };
    let mut differing: usize = 0;
    let mut first: Option<usize> = None;
    let mut i: usize = 0;
    while i < n
        invariant
            i <= n,
            4 * n <= a.len(),
            4 * n <= b.len(),
            differing as int == diff_count(a@, b@, i as int),
            differing <= i,
            match first {
                Some(f) => f < i && differs_at(a@, b@, f as int) && forall|j: int|
                    0 <= j < f ==> !differs_at(a@, b@, j),
                None => differing == 0 && forall|j: int| 0 <= j < i ==> !differs_at(a@, b@, j),
            },
        decreases n - i,
    {
        if a[4 * i] != b[4 * i] || a[4 * i + 1] != b[4 * i + 1] || a[4 * i + 2] != b[4 * i + 2]
            || a[4 * i + 3] != b[4 * i + 3] {
            differing = differing + 1;
            if first.is_none() {
                first = Some(i);
            }
        }
        i = i + 1;
    }
    FrameDiff { compared: n, differing, first }
}

/// Pixels that both sprites hold in their first `n` frames.
pub open spec fn compared_total(a: Seq<Seq<u8>>, b: Seq<Seq<u8>>, n: int) -> int
    decreases n,
{
    if n <= 0 {
        0
    } else {
        compared_total(a, b, n - 1) + shared_pixels(a[n - 1], b[n - 1])
    }
}

/// Differing pixels in the first `n` frames of two sprites.
pub open spec fn differing_total(a: Seq<Seq<u8>>, b: Seq<Seq<u8>>, n: int) -> int
    decreases n,
{
    if n <= 0 {
        0
    } else {
        differing_total(a, b, n - 1) + diff_count(
            a[n - 1],
            b[n - 1],
            shared_pixels(a[n - 1], b[n - 1]),
        )
    }
}

/// True where frame `i` of the two sprites differs in some pixel that both hold.
pub open spec fn frame_differs(a: Seq<Seq<u8>>, b: Seq<Seq<u8>>, i: int) -> bool {
    diff_count(a[i], b[i], shared_pixels(a[i], b[i])) > 0
}

/// What comparing two sprites found.
#[derive(Clone, Copy, Debug)]
pub struct SpriteDiff {
    /// Frames that both sprites hold.
    pub frames: usize,
    /// Pixels compared over all of them.
    pub compared: u128,
    /// How many of them differ.
    pub differing: u128,
    /// The first frame with a difference and the first differing pixel in it.
    pub first: Option<(usize, usize)>,
}

/// True where `r` is what comparing the sprites `a` and `b` finds: the
/// frames that both hold, the pixels compared and differing over them, and
/// the first differing pixel of the first frame that differs, or none where
/// no frame does.
pub open spec fn diff_of(r: SpriteDiff, a: Seq<Seq<u8>>, b: Seq<Seq<u8>>) -> bool {
    &&& r.frames as int == (if a.len() <= b.len() {
        a.len() as int
    } else {
        b.len() as int
    })
    &&& r.compared as int == compared_total(a, b, r.frames as int)
    &&& r.differing as int == differing_total(a, b, r.frames as int)
    &&& match r.first {
        Some((frame, pixel)) => {
            &&& frame < r.frames
            &&& pixel < shared_pixels(a[frame as int], b[frame as int])
            &&& differs_at(a[frame as int], b[frame as int], pixel as int)
            &&& forall|j: int| 0 <= j < pixel ==> !differs_at(a[frame as int], b[frame as int], j)
            &&& forall|i: int| 0 <= i < frame ==> !frame_differs(a, b, i)
        },
        None => r.differing == 0 && forall|i: int| 0 <= i < r.frames ==> !frame_differs(a, b, i),
    }
}

/// Compares two sprites frame by frame over the frames that both hold.
/// Gives the number of compared and of differing pixels, and the place of
/// the first difference. The sprites decode alike exactly where no pixel differs.
pub fn compare_frames(a: &Vec<Vec<u8>>, b: &Vec<Vec<u8>>) -> (r: SpriteDiff)
    ensures
        diff_of(r, buffers(a@), buffers(b@)),
{
    let ghost sa = buffers(a@);
    let ghost sb = buffers(b@);
    let n: usize = if a.len() <= b.len() {
        a.len()
    } else {
        b.len()
    };
    let mut compared: u128 = 0;
    let mut differing: u128 = 0;
    let mut first: Option<(usize, usize)> = None;
    let mut i: usize = 0;
    while i < n
        invariant
            i <= n,
            n <= a.len(),
            n <= b.len(),
            sa == buffers(a@),
            sb == buffers(b@),
            compared as int == compared_total(sa, sb, i as int),
            differing as int == differing_total(sa, sb, i as int),
            differing <= compared <= i * (usize::MAX as int),
            match first {
                Some((frame, pixel)) => {
                    &&& frame < i
                    &&& pixel < shared_pixels(sa[frame as int], sb[frame as int])
                    &&& differs_at(sa[frame as int], sb[frame as int], pixel as int)
                    &&& forall|j: int|
                        0 <= j < pixel ==> !differs_at(sa[frame as int], sb[frame as int], j)
                    &&& forall|k: int| 0 <= k < frame ==> !frame_differs(sa, sb, k)
                },
                None => differing == 0 && forall|k: int| 0 <= k < i ==> !frame_differs(sa, sb, k),
            },
        decreases n - i,
    {
        let d = compare_frame(a[i].as_slice(), b[i].as_slice());
        proof {
            let m = usize::MAX as int;
            assert(sa[i as int] == a[i as int]@ && sb[i as int] == b[i as int]@);
            lemma_diff_count(sa[i as int], sb[i as int], d.compared as int);
            assert((i + 1) * m == i * m + m) by (nonlinear_arith);
            assert((i + 1) * m <= 0xffff_ffff_ffff_ffff * 0xffff_ffff_ffff_ffff) by (nonlinear_arith)
                requires
                    0 <= i + 1 <= 0xffff_ffff_ffff_ffff,
                    0 <= m <= 0xffff_ffff_ffff_ffff,
            ;
        }
        compared = compared + d.compared as u128;
        differing = differing + d.differing as u128;
        if first.is_none() {
            match d.first {
                Some(pixel) => {
                    first = Some((i, pixel));
                },
                None => {},
            }
        }
        i = i + 1;
    }
    SpriteDiff { frames: n, compared, differing, first }
}

/// The column and the row of pixel `pixel` in a frame `width` pixels wide.
pub fn pixel_position(pixel: usize, width: usize) -> (r: (usize, usize))
    requires
        width > 0,
    ensures
        r.0 == pixel % width,
        r.1 == pixel / width,
{
    (pixel % width, pixel / width)
}

} // verus!
