//! Counting the opaque and the partly transparent pixels that the runs of
//! an ASF file declare, and the alpha values that they use.

use crate::asf::check_asf_signature;
use crate::asf::has_asf_signature;
use crate::bytes::{read_u32, u32_le_at};
use vstd::prelude::*;

verus! {

/// What a scan has counted so far.
pub ghost struct Tally {
    /// Pixels of runs with alpha 255; the count stops at `u64::MAX`.
    pub opaque: int,
    /// Pixels of runs with an alpha between 1 and 254; the count stops at `u64::MAX`.
    pub semi: int,
    /// For each alpha value, whether a run used it.
    pub seen: Seq<bool>,
}

/// `a + b`, at most `u64::MAX`.
pub open spec fn capped_sum(a: int, b: int) -> int {
    if a + b > u64::MAX {
        u64::MAX as int
    } else {
        a + b
    }
}

/// A tally with nothing counted.
pub open spec fn empty_tally() -> Tally {
    Tally { opaque: 0, semi: 0, seen: Seq::new(256, |i: int| false) }
}

/// The tally after a run of `count` pixels with alpha `alpha`.
pub open spec fn tally_run(t: Tally, count: u8, alpha: u8) -> Tally {
    if alpha == 0 {
        t
    } else if alpha == 255 {
        Tally {
            opaque: capped_sum(t.opaque, count as int),
            semi: t.semi,
            seen: t.seen.update(255, true),
        }
    } else {
        Tally {
            opaque: t.opaque,
            semi: capped_sum(t.semi, count as int),
            seen: t.seen.update(alpha as int, true),
        }
    }
}

/// The tally after the run headers of the stream from `d` to `end` were
/// counted. A run with a non-zero alpha is followed by one colour byte per pixel.
pub open spec fn tally_stream(s: Seq<u8>, d: int, end: int, t: Tally) -> Tally
    decreases s.len() - d,
{
    if 0 <= d && d < end && d + 1 < s.len() {
        let step = if s[d + 1] == 0 {
            2
        } else {
            2 + s[d] as int
        };
        if d + step > s.len() {
            tally_run(t, s[d], s[d + 1])
        } else {
            tally_stream(s, d + step, end, tally_run(t, s[d], s[d + 1]))
        }
    } else {
        t
    }
}

/// Offset of the frame index as the scan takes it: behind the declared palette.
pub open spec fn scan_index_start(s: Seq<u8>) -> int {
    80 + 4 * (u32_le_at(s, 32) as int)
}

/// Number of frames that the scan visits: the declared count, cut where the
/// frame index leaves the file.
pub open spec fn scan_frames(s: Seq<u8>) -> int {
    let declared = u32_le_at(s, 24) as int;
    let held = (s.len() - scan_index_start(s)) / 8;
    if held < 0 {
        0
    } else if declared < held {
        declared
    } else {
        held
    }
}

/// The tally over the first `n` frames.
pub open spec fn tally_frames(s: Seq<u8>, n: int) -> Tally
    decreases n,
{
    if n <= 0 {
        empty_tally()
    } else {
        let at = scan_index_start(s) + 8 * (n - 1);
        tally_stream(
            s,
            u32_le_at(s, at) as int,
            u32_le_at(s, at) as int + u32_le_at(s, at + 4) as int,
            tally_frames(s, n - 1),
        )
    }
}

/// The alpha values from 1 to `v - 1`, without 255, that were seen, in
/// ascending order.
pub open spec fn seen_alphas(seen: Seq<bool>, v: int) -> Seq<u8>
    decreases v,
{
    if v <= 1 {
        Seq::<u8>::empty()
    } else if seen[v - 1] && v - 1 != 255 {
        seen_alphas(seen, v - 1).push((v - 1) as u8)
    } else {
        seen_alphas(seen, v - 1)
    }
}

/// The tally of a whole file; nothing for a file that is no ASF file.
pub open spec fn scan_tally(s: Seq<u8>) -> Tally {
    if has_asf_signature(s) {
        tally_frames(s, scan_frames(s))
    } else {
        empty_tally()
    }
}

fn add_capped(a: u64, b: u8) -> (r: u64)
    ensures
        r as int == capped_sum(a as int, b as int),
{
    if a > u64::MAX - b as u64 {
        u64::MAX
    } else {
        a + b as u64
    }
}

/// Scans the run headers of every frame of an ASF file. Gives the number
/// of pixels in runs with alpha 255, the number in runs with an alpha
/// between 1 and 254, and the alpha values between 1 and 254 that occur, in
/// ascending order. A file that is no ASF file gives zeros and no alphas.
pub fn scan_asf(asf_data: &[u8]) -> (r: (u64, u64, Vec<u8>))
    ensures
        r.0 as int == scan_tally(asf_data@).opaque,
        r.1 as int == scan_tally(asf_data@).semi,
        r.2@ == seen_alphas(scan_tally(asf_data@).seen, 256),
{
    let mut opaque: u64 = 0;
    let mut semi: u64 = 0;
    let mut seen: Vec<bool> = vec![false; 256];
    assert(seen@ =~= empty_tally().seen);
    if check_asf_signature(asf_data) {
        let index_start: u64 = 80 + 4 * (read_u32(asf_data, 32) as u64);
        let declared: u64 = read_u32(asf_data, 24) as u64;
        let held: u64 = if index_start > asf_data.len() as u64 {
            0
        } else {
            (asf_data.len() as u64 - index_start) / 8
        };
        let frames: u64 = if declared < held {
            declared
        } else {
            held
        };
        let mut i: u64 = 0;
        while i < frames
            invariant
                i <= frames,
                frames as int == scan_frames(asf_data@),
                index_start as int == scan_index_start(asf_data@),
                index_start + 8 * frames <= asf_data.len() || frames == 0,
                seen.len() == 256,
                tally_frames(asf_data@, i as int) == (Tally {
                    opaque: opaque as int,
                    semi: semi as int,
                    seen: seen@,
                }),
            decreases frames - i,
        {
            let at: usize = (index_start + 8 * i) as usize;
            let start: u64 = read_u32(asf_data, at) as u64;
            let end: u64 = start + read_u32(asf_data, at + 4) as u64;
            let ghost before = tally_frames(asf_data@, i as int);
            let mut d: u64 = start;
            while d < end && d + 1 < asf_data.len() as u64
                invariant
                    seen.len() == 256,
                    tally_stream(asf_data@, start as int, end as int, before) == tally_stream(
                        asf_data@,
                        d as int,
                        end as int,
                        Tally { opaque: opaque as int, semi: semi as int, seen: seen@ },
                    ),
                decreases asf_data.len() - d,
            {
                let count: u8 = asf_data[d as usize];
                let alpha: u8 = asf_data[d as usize + 1];
                let mut step: u64 = 2;
                if alpha != 0 {
                    seen[alpha as usize] = true;
                    if alpha == 255 {
                        opaque = add_capped(opaque, count);
                    } else {
                        semi = add_capped(semi, count);
                    }
                    step = 2 + count as u64;
                }
                if step > asf_data.len() as u64 - d {
                    d = asf_data.len() as u64;
                    assert(tally_stream(
                        asf_data@,
                        d as int,
                        end as int,
                        Tally { opaque: opaque as int, semi: semi as int, seen: seen@ },
                    ) == (Tally { opaque: opaque as int, semi: semi as int, seen: seen@ }));
                } else {
                    d = d + step;
                }
            }
            i = i + 1;
        }
    }
    let mut alphas: Vec<u8> = Vec::new();
    let mut v: usize = 1;
    while v < 256
        invariant
            1 <= v <= 256,
            seen.len() == 256,
            alphas@ == seen_alphas(seen@, v as int),
        decreases 256 - v,
    {
        if seen[v] && v != 255 {
            alphas.push(v as u8);
        }
        v = v + 1;
    }
    (opaque, semi, alphas)
}

} // verus!
