use sprite_codec::bbox::{compute_tight_bbox, extract_bbox_pixels};
use sprite_codec::bytes::{get_i32_le, get_u32_le, read_i16, read_i32, read_u16, read_u32};
use sprite_codec::compare::{compare_frame, compare_frames, pixel_position};
use sprite_codec::convert::fps_from_interval;
use sprite_codec::mpc::{wrap_to_i16, wrap_to_i32};
use sprite_codec::msf::PixelFormat;
use sprite_codec::palette::{nearest_palette_index, rgba_to_indexed, rgba_to_indexed_alpha};
use sprite_codec::scan::scan_asf;

#[test]
fn test_pixel_format() {
    assert_eq!(PixelFormat::from_u8(0), Some(PixelFormat::Rgba8));
    assert_eq!(PixelFormat::from_u8(1), Some(PixelFormat::Indexed8));
    assert_eq!(PixelFormat::from_u8(2), Some(PixelFormat::Indexed8Alpha8));
    assert_eq!(PixelFormat::from_u8(99), None);
}

#[test]
fn pixel_format_sizes_and_tags() {
    assert_eq!(PixelFormat::Rgba8.bytes_per_pixel(), 4);
    assert_eq!(PixelFormat::Indexed8.bytes_per_pixel(), 1);
    assert_eq!(PixelFormat::Indexed8Alpha8.bytes_per_pixel(), 2);
    assert_eq!(PixelFormat::Rgba8.tag(), 0);
    assert_eq!(PixelFormat::Indexed8.tag(), 1);
    assert_eq!(PixelFormat::Indexed8Alpha8.tag(), 2);
}

#[test]
fn test_tight_bbox_empty() {
    let pixels = vec![0u8; 4 * 4 * 4];
    let (ox, oy, w, h) = compute_tight_bbox(&pixels, 4, 4);
    assert_eq!((ox, oy, w, h), (0, 0, 0, 0));
}

#[test]
fn test_tight_bbox() {
    let mut pixels = vec![0u8; 4 * 4 * 4];
    let idx = (2 * 4 + 1) * 4;
    pixels[idx] = 255;
    pixels[idx + 1] = 0;
    pixels[idx + 2] = 0;
    pixels[idx + 3] = 255;
    let (ox, oy, w, h) = compute_tight_bbox(&pixels, 4, 4);
    assert_eq!((ox, oy, w, h), (1, 2, 1, 1));
}

#[test]
fn bbox_of_corner_pixel() {
    let (w, h) = (7usize, 5usize);
    let mut pixels = vec![0u8; w * h * 4];
    pixels[((h - 1) * w + (w - 1)) * 4 + 3] = 1;
    assert_eq!(compute_tight_bbox(&pixels, w, h), (6, 4, 1, 1));
}

#[test]
fn bbox_spans_all_visible_pixels_and_no_more() {
    let (w, h) = (6usize, 6usize);
    let mut pixels = vec![0u8; w * h * 4];
    pixels[(1 * w + 4) * 4 + 3] = 9;
    pixels[(3 * w + 2) * 4 + 3] = 200;
    pixels[(2 * w + 3) * 4 + 3] = 255;
    assert_eq!(compute_tight_bbox(&pixels, w, h), (2, 1, 3, 3));
    pixels[(1 * w + 4) * 4 + 3] = 0;
    assert_eq!(compute_tight_bbox(&pixels, w, h), (2, 2, 2, 2));
}

#[test]
fn bbox_ignores_pixels_beyond_the_buffer() {
    let pixels = vec![255u8; 4 * 3];
    assert_eq!(compute_tight_bbox(&pixels, 2, 4), (0, 0, 2, 2));
}

#[test]
fn extract_copies_rows_and_zero_fills_beyond() {
    let (w, h) = (3usize, 2usize);
    let mut pixels = Vec::new();
    for i in 0..(w * h * 4) {
        pixels.push(i as u8);
    }
    let out = extract_bbox_pixels(&pixels, w, 1, 0, 2, 2);
    assert_eq!(out, vec![4, 5, 6, 7, 8, 9, 10, 11, 16, 17, 18, 19, 20, 21, 22, 23]);
    let out = extract_bbox_pixels(&pixels, w, 1, 1, 2, 2);
    assert_eq!(out, vec![16, 17, 18, 19, 20, 21, 22, 23, 0, 0, 0, 0, 0, 0, 0, 0]);
    assert_eq!(extract_bbox_pixels(&pixels, w, 0, 0, 0, 0), Vec::<u8>::new());
}

#[test]
fn reads_are_little_endian() {
    let data = [0x34u8, 0x12, 0xff, 0xff, 0x78, 0x56, 0x34, 0x12, 0xfe, 0xff, 0xff, 0xff];
    assert_eq!(read_u16(&data, 0), 0x1234);
    assert_eq!(read_i16(&data, 2), -1);
    assert_eq!(read_u32(&data, 4), 0x12345678);
    assert_eq!(read_i32(&data, 8), -2);
    assert_eq!(get_i32_le(&data, 8), -2);
    assert_eq!(get_u32_le(&data, 8), 0xffff_fffe);
    assert_eq!(read_i16(&data, 0), 0x1234);
    assert_eq!(read_u16(&data, 2), 0xffff);
}

#[test]
fn reads_past_the_end_give_zero() {
    let data = [1u8, 2, 3, 4, 5];
    assert_eq!(read_u32(&data, 2), 0);
    assert_eq!(read_i32(&data, 2), 0);
    assert_eq!(read_u16(&data, 4), 0);
    assert_eq!(read_i16(&data, 4), 0);
    assert_eq!(read_u32(&data, 1), 0x05040302);
    assert_eq!(read_u16(&data, 3), 0x0504);
    assert_eq!(read_u32(&data, usize::MAX), 0);
    assert_eq!(read_u16(&data, usize::MAX), 0);
    assert_eq!(get_i32_le(&[], 0), 0);
    assert_eq!(get_u32_le(&data, 5), 0);
}

#[test]
fn nearest_index_minimises_channel_distance() {
    let palette = vec![[0u8, 0, 0, 255], [100, 100, 100, 255], [255, 255, 255, 255]];
    assert_eq!(nearest_palette_index(&palette, 10, 10, 10), 0);
    assert_eq!(nearest_palette_index(&palette, 60, 60, 60), 1);
    assert_eq!(nearest_palette_index(&palette, 200, 200, 200), 2);
    assert_eq!(nearest_palette_index(&palette, 100, 100, 100), 1);
}

#[test]
fn nearest_index_ties_go_to_the_lowest() {
    let palette = vec![[10u8, 0, 0, 255], [0, 10, 0, 255], [0, 0, 10, 255], [10, 0, 0, 0]];
    assert_eq!(nearest_palette_index(&palette, 0, 0, 0), 0);
    assert_eq!(nearest_palette_index(&palette, 5, 5, 0), 0);
    assert_eq!(nearest_palette_index(&palette, 0, 5, 5), 1);
    let palette = vec![[50u8, 50, 50, 255], [7, 8, 9, 255], [7, 8, 9, 255]];
    assert_eq!(nearest_palette_index(&palette, 7, 8, 9), 1);
}

#[test]
fn nearest_index_leaves_alpha_out() {
    let palette = vec![[9u8, 9, 9, 255], [1, 1, 1, 0]];
    assert_eq!(nearest_palette_index(&palette, 0, 0, 0), 1);
}

#[test]
fn nearest_index_of_empty_palette_is_zero() {
    let palette: Vec<[u8; 4]> = Vec::new();
    assert_eq!(nearest_palette_index(&palette, 1, 2, 3), 0);
}

#[test]
fn nearest_index_reaches_only_256_entries() {
    let mut palette = vec![[0u8, 0, 0, 255]; 300];
    palette[255] = [200, 0, 0, 255];
    palette[299] = [250, 0, 0, 255];
    assert_eq!(nearest_palette_index(&palette, 250, 0, 0), 255);
}

#[test]
fn indexed_planes_keep_transparency() {
    let palette = vec![[255u8, 0, 0, 255], [0, 255, 0, 255]];
    let pixels = vec![0u8, 255, 0, 0, 0, 250, 5, 128, 255, 0, 0, 255, 9, 9];
    assert_eq!(rgba_to_indexed(&pixels, &palette), vec![0, 1, 0]);
    assert_eq!(rgba_to_indexed_alpha(&pixels, &palette), vec![0, 0, 1, 128, 0, 255]);
    assert_eq!(rgba_to_indexed_alpha(&[], &palette), Vec::<u8>::new());
}

#[test]
fn fps_follows_the_interval() {
    assert_eq!(fps_from_interval(0), 15);
    assert_eq!(fps_from_interval(100), 10);
    assert_eq!(fps_from_interval(66), 15);
    assert_eq!(fps_from_interval(1), 255);
    assert_eq!(fps_from_interval(3), 255);
    assert_eq!(fps_from_interval(4), 250);
    assert_eq!(fps_from_interval(1001), 0);
}

#[test]
fn wrapping_keeps_the_low_bits() {
    assert_eq!(wrap_to_i16(5), 5);
    assert_eq!(wrap_to_i16(-5), -5);
    assert_eq!(wrap_to_i16(32768), -32768);
    assert_eq!(wrap_to_i16(65536 + 7), 7);
    assert_eq!(wrap_to_i32(-1), -1);
    assert_eq!(wrap_to_i32(2147483648), -2147483648);
    assert_eq!(wrap_to_i32(4294967296 + 9), 9);
}

#[test]
fn compare_counts_and_finds_the_first_difference() {
    let a = vec![1u8, 2, 3, 4, 5, 6, 7, 8, 9, 10, 11, 12];
    let mut b = a.clone();
    let same = compare_frame(&a, &b);
    assert_eq!((same.compared, same.differing, same.first), (3, 0, None));
    b[7] = 0;
    b[8] = 0;
    let d = compare_frame(&a, &b);
    assert_eq!((d.compared, d.differing, d.first), (3, 2, Some(1)));
    let short = compare_frame(&a, &b[..6]);
    assert_eq!((short.compared, short.differing, short.first), (1, 0, None));
}

#[test]
fn sprites_are_compared_frame_by_frame() {
    let a = vec![vec![1u8, 2, 3, 4, 5, 6, 7, 8], vec![0u8; 12], vec![9u8; 4]];
    let mut b = a.clone();
    let same = compare_frames(&a, &b);
    assert_eq!((same.frames, same.compared, same.differing, same.first), (3, 6, 0, None));
    b[1][11] = 1;
    b[1][4] = 1;
    b[2][0] = 0;
    let d = compare_frames(&a, &b);
    assert_eq!((d.frames, d.compared, d.differing, d.first), (3, 6, 3, Some((1, 1))));
    let fewer = compare_frames(&a, &b[..1].to_vec());
    assert_eq!((fewer.frames, fewer.compared, fewer.differing, fewer.first), (1, 2, 0, None));
    assert_eq!(pixel_position(7, 3), (1, 2));
    assert_eq!(pixel_position(0, 1), (0, 0));
}

fn asf_with_runs(runs: &[u8]) -> Vec<u8> {
    let mut data = vec![0u8; 80];
    data[..7].copy_from_slice(b"ASF 1.0");
    data[24] = 1;
    data[32] = 1;
    data.extend_from_slice(&[0, 0, 255, 0]);
    data.extend_from_slice(&92u32.to_le_bytes());
    data.extend_from_slice(&(runs.len() as u32).to_le_bytes());
    data.extend_from_slice(runs);
    data
}

#[test]
fn scan_counts_runs_by_alpha() {
    let data = asf_with_runs(&[3, 255, 0, 0, 0, 5, 0, 2, 128, 0, 0, 1, 7, 0, 4, 255, 0, 0, 0, 0]);
    let (opaque, semi, alphas) = scan_asf(&data);
    assert_eq!(opaque, 7);
    assert_eq!(semi, 3);
    assert_eq!(alphas, vec![7, 128]);
}

#[test]
fn scan_of_a_foreign_file_is_empty() {
    assert_eq!(scan_asf(b"ASF 1.0"), (0, 0, vec![]));
    let mut data = asf_with_runs(&[3, 255, 0, 0, 0]);
    data[0] = b'X';
    assert_eq!(scan_asf(&data), (0, 0, vec![]));
}
