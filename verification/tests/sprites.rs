use sprite_codec::asf::{decode_asf_frames, decode_asf_rle_frame, decode_asf_to_rgba};
use sprite_codec::asf::parse_asf_header;
use sprite_codec::compare::compare_frame;
use sprite_codec::convert::{asf_to_msf_input, convert_asf_to_msf, convert_mpc_to_msf};
use sprite_codec::convert::mark_transparent;
use sprite_codec::decode::{composite_msf, decode_msf_frames, decode_msf_individual_frames};
use sprite_codec::decode::{decode_msf_individual_to_rgba, decode_msf_to_rgba, individual_msf};
use sprite_codec::decode::locate_payload;
use sprite_codec::encode::{assemble_msf, build_frame_table, encode_msf, stage_frame};
use sprite_codec::encode::{MsfEncodeInput, MsfMeta, StagedFrame};
use sprite_codec::mpc::{decode_mpc_frames, decode_mpc_rle_to_indexed, decode_mpc_to_rgba};
use sprite_codec::mpc::{find_transparent_index_mpc, parse_mpc_header};
use sprite_codec::msf::{find_payload_start, parse_msf_header, read_frame_table, MsfFrameEntry};
use sprite_codec::msf::PixelFormat;
use sprite_codec::pairs::{compare_asf_pair, compare_mpc_pair, PairOutcome};

fn asf_file(
    width: u32,
    height: u32,
    frame_count: u32,
    directions: u32,
    interval: u32,
    left: i32,
    bottom: i32,
    palette_rgb: &[[u8; 3]],
    streams: &[Vec<u8>],
) -> Vec<u8> {
    let mut data = vec![0u8; 80];
    data[..7].copy_from_slice(b"ASF 1.0");
    data[16..20].copy_from_slice(&width.to_le_bytes());
    data[20..24].copy_from_slice(&height.to_le_bytes());
    data[24..28].copy_from_slice(&frame_count.to_le_bytes());
    data[28..32].copy_from_slice(&directions.to_le_bytes());
    data[32..36].copy_from_slice(&(palette_rgb.len() as u32).to_le_bytes());
    data[36..40].copy_from_slice(&interval.to_le_bytes());
    data[40..44].copy_from_slice(&left.to_le_bytes());
    data[44..48].copy_from_slice(&bottom.to_le_bytes());
    for c in palette_rgb {
        data.extend_from_slice(&[c[2], c[1], c[0], 0]);
    }
    let mut at = data.len() + 8 * streams.len();
    for s in streams {
        data.extend_from_slice(&(at as u32).to_le_bytes());
        data.extend_from_slice(&(s.len() as u32).to_le_bytes());
        at += s.len();
    }
    for s in streams {
        data.extend_from_slice(s);
    }
    data
}

fn mpc_file(
    global_width: u32,
    global_height: u32,
    frame_count: u32,
    raw_bottom: i32,
    palette_rgb: &[[u8; 3]],
    frames: &[(u32, u32, Vec<u8>)],
) -> Vec<u8> {
    let mut data = vec![0u8; 128];
    data[..12].copy_from_slice(b"MPC File Ver");
    data[68..72].copy_from_slice(&global_width.to_le_bytes());
    data[72..76].copy_from_slice(&global_height.to_le_bytes());
    data[76..80].copy_from_slice(&frame_count.to_le_bytes());
    data[80..84].copy_from_slice(&1u32.to_le_bytes());
    data[84..88].copy_from_slice(&(palette_rgb.len() as u32).to_le_bytes());
    data[88..92].copy_from_slice(&100u32.to_le_bytes());
    data[92..96].copy_from_slice(&raw_bottom.to_le_bytes());
    for c in palette_rgb {
        data.extend_from_slice(&[c[2], c[1], c[0], 0]);
    }
    let mut at = 0u32;
    for f in frames {
        data.extend_from_slice(&at.to_le_bytes());
        at += 20 + f.2.len() as u32;
    }
    for _ in frames.len()..frame_count as usize {
        data.extend_from_slice(&at.to_le_bytes());
    }
    for f in frames {
        data.extend_from_slice(&(20 + f.2.len() as u32).to_le_bytes());
        data.extend_from_slice(&f.0.to_le_bytes());
        data.extend_from_slice(&f.1.to_le_bytes());
        data.extend_from_slice(&[0u8; 8]);
        data.extend_from_slice(&f.2);
    }
    while data.len() < 160 {
        data.push(0);
    }
    data
}

fn minimal_asf() -> Vec<u8> {
    let mut stream = vec![16u8, 255];
    stream.extend_from_slice(&[0u8; 16]);
    asf_file(4, 4, 1, 1, 100, 2, 3, &[[255, 0, 0]], &[stream])
}

#[test]
fn test_invalid_signature() {
    let data = b"INVALID HEADER DATA PADDING TO 80 BYTES.................................";
    let result = parse_asf_header(data);
    assert!(result.is_none());
}

#[test]
fn asf_decoder_test_too_short_file() {
    let data = b"ASF 1.0";
    let result = parse_asf_header(data);
    assert!(result.is_none());
}

#[test]
fn test_invalid_header() {
    let data = b"INVALID HEADER DATA PADDING TO 200 BYTES................................................................................................................";
    let result = parse_mpc_header(data);
    assert!(result.is_none());
}

#[test]
fn mpc_decoder_test_too_short_file() {
    let data = b"MPC File Ver";
    let result = parse_mpc_header(data);
    assert!(result.is_none());
}

#[test]
fn test_roundtrip_empty() {
    let input = MsfEncodeInput {
        canvas_width: 10,
        canvas_height: 10,
        frame_count: 1,
        directions: 1,
        fps: 15,
        anchor_x: 0,
        anchor_y: 0,
        pixel_format: PixelFormat::Rgba8,
        palette: vec![],
        frame_pixels: vec![vec![0u8; 10 * 10 * 4]],
    };
    let encoded = encode_msf(&input).unwrap();
    let header = parse_msf_header(&encoded).unwrap();
    assert_eq!(header.canvas_width, 10);
    assert_eq!(header.canvas_height, 10);
    assert_eq!(header.frame_count, 1);
}

#[test]
fn asf_header_fields() {
    let data = asf_file(640, 480, 32, 8, 100, -7, 9, &[[1, 2, 3], [4, 5, 6]], &[]);
    let h = parse_asf_header(&data).unwrap();
    assert_eq!((h.width, h.height, h.frame_count, h.directions), (640, 480, 32, 8));
    assert_eq!((h.color_count, h.interval, h.left, h.bottom), (2, 100, -7, 9));
    assert_eq!(h.frames_per_direction, 4);
    let data = asf_file(1, 1, 5, 0, 0, 0, 0, &[], &[]);
    assert_eq!(parse_asf_header(&data).unwrap().frames_per_direction, 5);
}

#[test]
fn asf_signature_is_required_by_every_entry_point() {
    let mut data = minimal_asf();
    data[6] = b'1';
    assert!(parse_asf_header(&data).is_none());
    assert!(decode_asf_to_rgba(&data).is_none());
    assert!(decode_asf_frames(&data).is_none());
    assert!(asf_to_msf_input(&data).is_none());
    assert!(convert_asf_to_msf(&data).is_none());
    assert!(convert_asf_to_msf(&minimal_asf()[..79]).is_none());
}

#[test]
fn minimal_asf_converts_to_the_expected_container() {
    let msf = convert_asf_to_msf(&minimal_asf()).unwrap();
    assert_eq!(&msf[0..4], b"MSF1");
    assert_eq!(&msf[4..8], &[1, 0, 1, 0]);
    let header = parse_msf_header(&msf).unwrap();
    assert_eq!((header.canvas_width, header.canvas_height, header.frame_count), (4, 4, 1));
    assert_eq!((header.directions, header.fps), (1, 10));
    assert_eq!((header.anchor_x, header.anchor_y), (2, 3));
    assert_eq!((header.pixel_format, header.palette_size), (2, 1));
    assert_eq!(header.total_individual_pixel_bytes, 64);
    assert_eq!(&msf[28..32], &[255, 0, 0, 255]);
    let table = read_frame_table(&msf, 32, 1);
    assert_eq!(
        table[0],
        MsfFrameEntry { offset_x: 0, offset_y: 0, width: 4, height: 4, data_offset: 0, data_length: 32 }
    );
    assert_eq!(&msf[48..56], b"END\0\0\0\0\0");
    assert_eq!(locate_payload(&msf), Some(56));
    let blob = zstd::bulk::decompress(&msf[56..], 1 << 20).unwrap();
    let mut expect = Vec::new();
    for _ in 0..16 {
        expect.extend_from_slice(&[0, 255]);
    }
    assert_eq!(blob, expect);
}

#[test]
fn minimal_asf_round_trips_through_both_decompressors() {
    let asf = minimal_asf();
    let msf = convert_asf_to_msf(&asf).unwrap();
    let mut red = Vec::new();
    for _ in 0..16 {
        red.extend_from_slice(&[255, 0, 0, 255]);
    }
    let (w, h, n, frames) = decode_msf_to_rgba(&msf).unwrap();
    assert_eq!((w, h, n), (4, 4, 1));
    assert_eq!(frames, vec![red.clone()]);
    assert_eq!(decode_msf_frames(&msf).unwrap(), vec![red.clone()]);
    let (aw, ah, an, source) = decode_asf_to_rgba(&asf).unwrap();
    assert_eq!((aw, ah, an), (4, 4, 1));
    assert_eq!(source, frames);
    let d = compare_frame(&source[0], &frames[0]);
    assert_eq!((d.compared, d.differing, d.first), (16, 0, None));
}

#[test]
fn asf_round_trip_keeps_partial_alpha_and_offsets() {
    let palette = [[10, 20, 30], [200, 100, 50], [10, 20, 30]];
    let frame0 = vec![5u8, 0, 2, 128, 1, 2, 3, 0, 1, 255, 0];
    let frame1 = vec![15u8, 0, 1, 1, 1];
    let frame2: Vec<u8> = vec![];
    let asf = asf_file(4, 4, 3, 1, 50, 0, 0, &palette, &[frame0, frame1, frame2]);
    let (_, _, _, source) = decode_asf_to_rgba(&asf).unwrap();
    assert_eq!(&source[0][20..28], &[200, 100, 50, 128, 10, 20, 30, 128]);
    assert_eq!(&source[0][40..44], &[10, 20, 30, 255]);
    assert_eq!(&source[1][60..64], &[200, 100, 50, 1]);
    assert_eq!(source[2], vec![0u8; 64]);
    let msf = convert_asf_to_msf(&asf).unwrap();
    let table = read_frame_table(&msf, 28 + 12, 3);
    assert_eq!(
        table[0],
        MsfFrameEntry { offset_x: 1, offset_y: 1, width: 2, height: 2, data_offset: 0, data_length: 8 }
    );
    assert_eq!(
        table[1],
        MsfFrameEntry { offset_x: 3, offset_y: 3, width: 1, height: 1, data_offset: 8, data_length: 2 }
    );
    assert_eq!(
        table[2],
        MsfFrameEntry { offset_x: 0, offset_y: 0, width: 0, height: 0, data_offset: 10, data_length: 0 }
    );
    let blob = zstd::bulk::decompress(&msf[locate_payload(&msf).unwrap()..], 1 << 20).unwrap();
    assert_eq!(blob, vec![1, 128, 0, 128, 0, 0, 0, 255, 1, 1]);
    let (_, _, _, frames) = decode_msf_to_rgba(&msf).unwrap();
    assert_eq!(frames, source);
    assert_eq!(decode_msf_frames(&msf).unwrap(), source);
}

#[test]
fn asf_color_index_outside_the_palette() {
    let asf = asf_file(2, 1, 1, 1, 0, 0, 0, &[[9, 9, 9]], &[vec![2, 77, 5, 0]]);
    let input = asf_to_msf_input(&asf).unwrap();
    assert_eq!(input.frame_pixels, vec![vec![0, 0, 0, 0, 9, 9, 9, 77]]);
    assert_eq!(input.fps, 15);
    let (_, _, _, frames) = decode_asf_to_rgba(&asf).unwrap();
    assert_eq!(frames, vec![vec![0, 0, 0, 77, 9, 9, 9, 77]]);
}

#[test]
fn asf_stream_stops_at_its_length_and_at_a_full_buffer() {
    let palette = vec![[1u8, 2, 3, 255]];
    let data = vec![2u8, 9, 0, 0, 1, 9, 0, 1, 9, 0];
    let mut pixels = vec![0u8; 2 * 2 * 4];
    decode_asf_rle_frame(&data, &palette, 0, 4, 2, 2, &mut pixels);
    assert_eq!(pixels, vec![1, 2, 3, 9, 1, 2, 3, 9, 0, 0, 0, 0, 0, 0, 0, 0]);
    let mut pixels = vec![0u8; 2 * 2 * 4];
    decode_asf_rle_frame(&data, &palette, 0, 5, 2, 2, &mut pixels);
    assert_eq!(pixels, vec![1, 2, 3, 9, 1, 2, 3, 9, 1, 2, 3, 9, 0, 0, 0, 0]);
    let mut pixels = vec![0u8; 1 * 1 * 4];
    decode_asf_rle_frame(&data, &palette, 0, 10, 1, 1, &mut pixels);
    assert_eq!(pixels, vec![1, 2, 3, 9]);
    let mut pixels = vec![0u8; 4];
    decode_asf_rle_frame(&data, &palette, usize::MAX, usize::MAX, 1, 1, &mut pixels);
    assert_eq!(pixels, vec![0, 0, 0, 0]);
}

#[test]
fn truncated_asf_keeps_its_frame_count() {
    let stream = vec![1u8, 255, 0];
    let full = asf_file(1, 1, 3, 1, 100, 0, 0, &[[7, 8, 9]], &[stream.clone(), stream.clone(), stream]);
    let mut cut = full[..84 + 8].to_vec();
    cut[84..88].copy_from_slice(&84u32.to_le_bytes());
    cut[88..92].copy_from_slice(&0u32.to_le_bytes());
    let (_, _, n, frames) = decode_asf_to_rgba(&cut).unwrap();
    assert_eq!(n, 3);
    assert_eq!(frames, vec![vec![0u8; 4]; 3]);
    let msf = convert_asf_to_msf(&cut).unwrap();
    assert_eq!(parse_msf_header(&msf).unwrap().frame_count, 3);
    assert_eq!(decode_msf_frames(&msf).unwrap(), vec![vec![0u8; 4]; 3]);
    let (_, _, _, whole) = decode_asf_to_rgba(&full).unwrap();
    assert_eq!(whole, vec![vec![7, 8, 9, 255]; 3]);
}

#[test]
fn frames_before_the_cut_convert_as_in_the_whole_file() {
    let stream = vec![1u8, 255, 0];
    let full = asf_file(1, 1, 3, 1, 100, 0, 0, &[[7, 8, 9]], &[stream.clone(), stream.clone(), stream]);
    assert_eq!(full.len(), 117);
    let cut = &full[..112];
    let (_, _, n, frames) = decode_asf_to_rgba(cut).unwrap();
    assert_eq!(n, 3);
    assert_eq!(frames, vec![vec![7, 8, 9, 255], vec![0u8; 4], vec![0u8; 4]]);
    let whole = convert_asf_to_msf(&full).unwrap();
    let part = convert_asf_to_msf(cut).unwrap();
    let whole_table = read_frame_table(&whole, 32, 3);
    let part_table = read_frame_table(&part, 32, 3);
    assert_eq!(part_table[0], whole_table[0]);
    assert_eq!(
        part_table[0],
        MsfFrameEntry { offset_x: 0, offset_y: 0, width: 1, height: 1, data_offset: 0, data_length: 2 }
    );
    for i in 1..3 {
        assert_eq!(
            part_table[i],
            MsfFrameEntry { offset_x: 0, offset_y: 0, width: 0, height: 0, data_offset: 2, data_length: 0 }
        );
    }
    assert_eq!(&part[28 + 4 + 48..28 + 4 + 48 + 8], b"END\0\0\0\0\0");
    let blob = zstd::bulk::decompress(&part[locate_payload(&part).unwrap()..], 64).unwrap();
    assert_eq!(blob, vec![0, 255]);
    assert_eq!(decode_msf_frames(&part).unwrap(), frames);
}

#[test]
fn directions_partition_the_frames() {
    let asf = asf_file(1, 1, 32, 8, 100, 0, 0, &[[1, 1, 1]], &[]);
    let msf = convert_asf_to_msf(&asf).unwrap();
    let header = parse_msf_header(&msf).unwrap();
    assert_eq!((header.frame_count, header.directions), (32, 8));
    assert_eq!(header.frames_per_direction, 4);
}

fn rgba_input(w: u16, h: u16, frames: Vec<Vec<u8>>, fmt: PixelFormat, palette: Vec<[u8; 4]>) -> MsfEncodeInput {
    MsfEncodeInput {
        canvas_width: w,
        canvas_height: h,
        frame_count: frames.len() as u16,
        directions: 1,
        fps: 15,
        anchor_x: -3,
        anchor_y: 4,
        pixel_format: fmt,
        palette,
        frame_pixels: frames,
    }
}

#[test]
fn empty_frame_takes_no_data_and_decodes_transparent() {
    let input = rgba_input(3, 2, vec![vec![0u8; 24]], PixelFormat::Indexed8Alpha8, vec![[1, 2, 3, 255]]);
    let msf = encode_msf(&input).unwrap();
    assert_eq!(&msf[0..8], &[b'M', b'S', b'F', b'1', 1, 0, 1, 0]);
    assert_eq!(locate_payload(&msf), Some(28 + 4 + 16 + 8));
    assert_eq!(zstd::bulk::decompress(&msf[56..], 64).unwrap(), Vec::<u8>::new());
    let table = read_frame_table(&msf, 32, 1);
    assert_eq!(
        table[0],
        MsfFrameEntry { offset_x: 0, offset_y: 0, width: 0, height: 0, data_offset: 0, data_length: 0 }
    );
    assert_eq!(decode_msf_frames(&msf).unwrap(), vec![vec![0u8; 24]]);
    let tiles = decode_msf_individual_frames(&msf).unwrap();
    assert_eq!(tiles.len(), 1);
    assert_eq!((tiles[0].width, tiles[0].height), (1, 1));
    assert_eq!(tiles[0].pixels, vec![0u8; 4]);
    assert_eq!(parse_msf_header(&msf).unwrap().total_individual_pixel_bytes, 4);
}

#[test]
fn single_corner_pixel_is_placed_at_the_corner() {
    let (w, h) = (5usize, 4usize);
    let mut canvas = vec![0u8; w * h * 4];
    let at = ((h - 1) * w + (w - 1)) * 4;
    canvas[at..at + 4].copy_from_slice(&[9, 8, 7, 255]);
    for fmt in [PixelFormat::Rgba8, PixelFormat::Indexed8, PixelFormat::Indexed8Alpha8] {
        let input = rgba_input(5, 4, vec![canvas.clone()], fmt, vec![[0, 0, 0, 255], [9, 8, 7, 255]]);
        let msf = encode_msf(&input).unwrap();
        let table = read_frame_table(&msf, 28 + 8, 1);
        assert_eq!((table[0].offset_x, table[0].offset_y, table[0].width, table[0].height), (4, 3, 1, 1));
        assert_eq!(table[0].data_length as usize, fmt.bytes_per_pixel());
        assert_eq!(decode_msf_frames(&msf).unwrap(), vec![canvas.clone()]);
        let header = parse_msf_header(&msf).unwrap();
        assert_eq!((header.anchor_x, header.anchor_y), (-3, 4));
    }
}

#[test]
fn encode_then_decode_is_stable() {
    let palette = vec![[0u8, 0, 0, 255], [255, 0, 0, 255], [0, 255, 0, 255]];
    let mut f0 = vec![0u8; 3 * 3 * 4];
    f0[4..8].copy_from_slice(&[250, 3, 3, 200]);
    f0[16..20].copy_from_slice(&[0, 255, 0, 255]);
    f0[32..36].copy_from_slice(&[1, 1, 1, 7]);
    let f1 = vec![0u8; 36];
    let input = rgba_input(3, 3, vec![f0, f1], PixelFormat::Indexed8Alpha8, palette.clone());
    let first = decode_msf_frames(&encode_msf(&input).unwrap()).unwrap();
    assert_eq!(&first[0][4..8], &[255, 0, 0, 200]);
    assert_eq!(&first[0][32..36], &[0, 0, 0, 7]);
    let again = rgba_input(3, 3, first.clone(), PixelFormat::Indexed8Alpha8, palette);
    let second = decode_msf_frames(&encode_msf(&again).unwrap()).unwrap();
    assert_eq!(first, second);
}

#[test]
fn encoder_writes_a_compressed_version_one_file() {
    let mut canvas = vec![0u8; 2 * 2 * 4];
    canvas[4..8].copy_from_slice(&[9, 8, 7, 200]);
    canvas[12..16].copy_from_slice(&[1, 1, 1, 255]);
    let palette = vec![[9u8, 8, 7, 255], [1, 1, 1, 255]];
    let input = rgba_input(2, 2, vec![canvas.clone()], PixelFormat::Indexed8Alpha8, palette);
    let msf = encode_msf(&input).unwrap();
    let mut head: Vec<u8> = vec![b'M', b'S', b'F', b'1', 1, 0, 1, 0, 2, 0, 2, 0, 1, 0, 1, 15];
    head.extend_from_slice(&[0xfd, 0xff, 4, 0, 0, 0, 0, 0, 2, 2, 0, 0]);
    head.extend_from_slice(&[9, 8, 7, 255, 1, 1, 1, 255]);
    head.extend_from_slice(&[1, 0, 0, 0, 1, 0, 2, 0, 0, 0, 0, 0, 4, 0, 0, 0]);
    head.extend_from_slice(b"END\0\0\0\0\0");
    assert_eq!(&msf[..head.len()], &head[..]);
    assert_ne!(&msf[head.len()..], &[0u8, 200, 1, 255][..]);
    assert_eq!(zstd::bulk::decompress(&msf[head.len()..], 64).unwrap(), vec![0, 200, 1, 255]);
    assert_eq!(decode_msf_frames(&msf).unwrap(), vec![canvas.clone()]);
    let (w, h, n, frames) = decode_msf_to_rgba(&msf).unwrap();
    assert_eq!((w, h, n), (2, 2, 1));
    assert_eq!(frames, vec![canvas]);
}

#[test]
fn mpc_frames_report_their_sizes() {
    let palette = [[10u8, 20, 30]];
    let data = mpc_file(6, 40, 3, 2, &palette, &[(3, 2, vec![0x86]), (0, 4, vec![]), (1, 5, vec![5, 0, 0, 0, 0, 0])]);
    let frames = decode_mpc_frames(&data).unwrap();
    let sizes: Vec<(u16, u16, usize)> = frames.iter().map(|f| (f.width, f.height, f.pixels.len())).collect();
    assert_eq!(sizes, vec![(3, 2, 24), (1, 1, 4), (1, 5, 20)]);
}

#[test]
fn frame_table_offsets_run_through_the_blob() {
    let data = |n: usize| StagedFrame { offset_x: 1, offset_y: -2, width: 3, height: 4, data: vec![7u8; n] };
    let frames = vec![data(5), data(0), data(0), data(9), data(1), data(0)];
    let (table, blob) = build_frame_table(&frames);
    assert_eq!(blob.len(), 15);
    let offsets: Vec<u32> = table.iter().map(|e| e.data_offset).collect();
    let lengths: Vec<u32> = table.iter().map(|e| e.data_length).collect();
    assert_eq!(offsets, vec![0, 5, 5, 5, 14, 15]);
    assert_eq!(lengths, vec![5, 0, 0, 9, 1, 0]);
    assert_eq!((table[3].offset_x, table[3].offset_y, table[3].width, table[3].height), (1, -2, 3, 4));
    for i in 0..table.len() {
        let next = if i + 1 < table.len() { table[i + 1].data_offset } else { blob.len() as u32 };
        assert_eq!(table[i].data_offset + table[i].data_length, next);
    }
}

#[test]
fn staging_crops_to_the_visible_pixels() {
    let mut canvas = vec![0u8; 4 * 2 * 4];
    canvas[8..12].copy_from_slice(&[5, 5, 5, 1]);
    canvas[12..16].copy_from_slice(&[6, 6, 6, 2]);
    let f = stage_frame(&canvas, 4, 2, PixelFormat::Rgba8, &[]);
    assert_eq!((f.offset_x, f.offset_y, f.width, f.height), (2, 0, 2, 1));
    assert_eq!(f.data, vec![5, 5, 5, 1, 6, 6, 6, 2]);
    let f = stage_frame(&canvas, 4, 2, PixelFormat::Indexed8, &[[6, 6, 6, 255]]);
    assert_eq!(f.data, vec![0, 0]);
    let f = stage_frame(&vec![0u8; 32], 4, 2, PixelFormat::Indexed8, &[[6, 6, 6, 255]]);
    assert_eq!((f.offset_x, f.offset_y, f.width, f.height, f.data.len()), (0, 0, 0, 0, 0));
}

fn container(fmt: PixelFormat, flags: u16, palette: &[[u8; 4]], entries: &[MsfFrameEntry], payload: &[u8]) -> Vec<u8> {
    let meta = MsfMeta {
        version: 2,
        flags,
        canvas_width: 3,
        canvas_height: 2,
        frame_count: entries.len() as u16,
        directions: 0,
        fps: 12,
        anchor_x: -1,
        anchor_y: 258,
        pixel_format: fmt,
    };
    assemble_msf(&meta, palette, entries, payload)
}

#[test]
fn container_layout_is_byte_exact() {
    let e = MsfFrameEntry { offset_x: -2, offset_y: 1, width: 2, height: 1, data_offset: 0x01020304, data_length: 2 };
    let msf = container(PixelFormat::Indexed8, 0, &[[1, 2, 3, 4]], &[e], &[9, 8]);
    let expect: Vec<u8> = vec![
        b'M', b'S', b'F', b'2', 2, 0, 0, 0, 3, 0, 2, 0, 1, 0, 0, 12, 0xff, 0xff, 2, 1, 0, 0, 0, 0, 1, 1, 0, 0,
        1, 2, 3, 4, 0xfe, 0xff, 1, 0, 2, 0, 1, 0, 4, 3, 2, 1, 2, 0, 0, 0, b'E', b'N', b'D', 0, 0, 0, 0, 0, 9, 8,
    ];
    assert_eq!(msf, expect);
    let header = parse_msf_header(&msf).unwrap();
    assert_eq!((header.anchor_x, header.anchor_y, header.fps, header.directions), (-1, 258, 12, 0));
    assert_eq!(header.frames_per_direction, 1);
    assert_eq!(read_frame_table(&msf, 32, 1), vec![e]);
}

#[test]
fn either_magic_is_accepted_and_others_are_not() {
    let e = MsfFrameEntry { offset_x: 0, offset_y: 0, width: 1, height: 1, data_offset: 0, data_length: 4 };
    let mut msf = container(PixelFormat::Rgba8, 0, &[], &[e], &[1, 2, 3, 4]);
    let want = vec![vec![1u8, 2, 3, 4, 0, 0, 0, 0, 0, 0, 0, 0, 0, 0, 0, 0, 0, 0, 0, 0, 0, 0, 0, 0]];
    assert_eq!(decode_msf_frames(&msf).unwrap(), want);
    msf[3] = b'1';
    assert_eq!(decode_msf_frames(&msf).unwrap(), want);
    msf[3] = b'3';
    assert!(parse_msf_header(&msf).is_none());
    assert!(decode_msf_frames(&msf).is_none());
    assert!(decode_msf_to_rgba(&msf).is_none());
    assert!(decode_msf_individual_frames(&msf).is_none());
    assert!(decode_msf_individual_to_rgba(&msf).is_none());
    assert!(parse_msf_header(&msf[..27]).is_none());
}

#[test]
fn unknown_pixel_format_is_refused() {
    let mut msf = container(PixelFormat::Rgba8, 0, &[], &[], &[]);
    msf[24] = 3;
    assert!(decode_msf_frames(&msf).is_none());
    assert!(decode_msf_individual_frames(&msf).is_none());
    assert_eq!(locate_payload(&msf), None);
    assert!(parse_msf_header(&msf).is_some());
}

#[test]
fn extension_chunks_are_skipped() {
    let e = MsfFrameEntry { offset_x: 1, offset_y: 0, width: 1, height: 1, data_offset: 0, data_length: 2 };
    let plain = container(PixelFormat::Indexed8Alpha8, 0, &[[5, 6, 7, 255]], &[e], &[0, 200]);
    let table_end = 28 + 4 + 16;
    let mut with_chunk = plain[..table_end].to_vec();
    with_chunk.extend_from_slice(b"XTRA");
    with_chunk.extend_from_slice(&17u32.to_le_bytes());
    with_chunk.extend_from_slice(&[0xaa; 17]);
    with_chunk.extend_from_slice(&plain[table_end..]);
    assert_eq!(find_payload_start(&plain, table_end), Some(table_end + 8));
    assert_eq!(find_payload_start(&with_chunk, table_end), Some(table_end + 25 + 8));
    assert_eq!(locate_payload(&with_chunk), Some(table_end + 33));
    assert_eq!(&with_chunk[table_end + 33..], &[0, 200]);
    let want = decode_msf_frames(&plain).unwrap();
    assert_eq!(&want[0][4..8], &[5, 6, 7, 200]);
    assert_eq!(decode_msf_frames(&with_chunk).unwrap(), want);
}

#[test]
fn missing_sentinel_or_short_table_fails() {
    let e = MsfFrameEntry { offset_x: 0, offset_y: 0, width: 1, height: 1, data_offset: 0, data_length: 1 };
    let msf = container(PixelFormat::Indexed8, 0, &[[5, 6, 7, 255]], &[e], &[0]);
    assert!(decode_msf_frames(&msf[..28 + 4 + 16 + 7]).is_none());
    assert!(decode_msf_frames(&msf[..28 + 4 + 15]).is_none());
    let mut broken = msf.clone();
    broken[48] = b'e';
    broken[52] = 200;
    assert!(decode_msf_frames(&broken).is_none());
    assert_eq!(find_payload_start(&broken, 48), None);
}

#[test]
fn corrupt_compressed_payload_fails() {
    let e = MsfFrameEntry { offset_x: 0, offset_y: 0, width: 1, height: 1, data_offset: 0, data_length: 1 };
    let msf = container(PixelFormat::Indexed8, 1, &[[5, 6, 7, 255]], &[e], &[1, 2, 3, 4, 5]);
    assert!(decode_msf_frames(&msf).is_none());
    assert!(decode_msf_to_rgba(&msf).is_none());
    assert!(decode_msf_individual_frames(&msf).is_none());
    assert!(decode_msf_individual_to_rgba(&msf).is_none());
    assert!(composite_msf(&msf, None).is_none());
    assert_eq!(composite_msf(&msf, Some(vec![0])).unwrap(), vec![vec![5, 6, 7, 255, 0, 0, 0, 0, 0, 0, 0, 0, 0, 0, 0, 0, 0, 0, 0, 0, 0, 0, 0, 0]]);
    assert_eq!(individual_msf(&msf, Some(vec![0])).unwrap()[0].pixels, vec![5, 6, 7, 255]);
}

#[test]
fn frames_outside_the_payload_or_canvas_are_left_out() {
    let inside = MsfFrameEntry { offset_x: 2, offset_y: 1, width: 1, height: 1, data_offset: 0, data_length: 1 };
    let beyond = MsfFrameEntry { offset_x: 0, offset_y: 0, width: 1, height: 1, data_offset: 0, data_length: 9 };
    let outside = MsfFrameEntry { offset_x: 0, offset_y: 2, width: 1, height: 1, data_offset: 0, data_length: 1 };
    let negative = MsfFrameEntry { offset_x: -1, offset_y: 0, width: 2, height: 1, data_offset: 0, data_length: 1 };
    let msf = container(PixelFormat::Indexed8, 0, &[[5, 6, 7, 255]], &[inside, beyond, outside, negative], &[0, 0]);
    let frames = decode_msf_frames(&msf).unwrap();
    let mut first = vec![0u8; 24];
    first[20..24].copy_from_slice(&[5, 6, 7, 255]);
    let mut last = vec![0u8; 24];
    last[0..4].copy_from_slice(&[5, 6, 7, 255]);
    assert_eq!(frames, vec![first, vec![0u8; 24], vec![0u8; 24], last]);
}

#[test]
fn individual_frames_take_their_own_size() {
    let a = MsfFrameEntry { offset_x: 0, offset_y: 0, width: 2, height: 1, data_offset: 1, data_length: 2 };
    let b = MsfFrameEntry { offset_x: 0, offset_y: 0, width: 0, height: 5, data_offset: 0, data_length: 0 };
    let c = MsfFrameEntry { offset_x: 0, offset_y: 0, width: 1, height: 2, data_offset: 2, data_length: 2 };
    let msf = container(PixelFormat::Indexed8, 0, &[[5, 6, 7, 255], [0, 0, 0, 0]], &[a, b, c], &[1, 0, 1]);
    let tiles = decode_msf_individual_frames(&msf).unwrap();
    assert_eq!((tiles[0].width, tiles[0].height), (2, 1));
    assert_eq!(tiles[0].pixels, vec![5, 6, 7, 255, 0, 0, 0, 0]);
    assert_eq!((tiles[1].width, tiles[1].height), (1, 1));
    assert_eq!(tiles[1].pixels, vec![0, 0, 0, 0]);
    assert_eq!((tiles[2].width, tiles[2].height), (1, 2));
    assert_eq!(tiles[2].pixels, vec![0, 0, 0, 0, 0, 0, 0, 0]);
    assert_eq!(parse_msf_header(&msf).unwrap().total_individual_pixel_bytes, 8 + 4 + 8);
    let rgba = container(PixelFormat::Rgba8, 0, &[], &[a], &[0, 1, 2, 3, 4, 5, 6, 7, 8]);
    assert_eq!(decode_msf_individual_frames(&rgba).unwrap()[0].pixels, vec![1, 2, 3, 4, 5, 6, 7, 8]);
    let short = container(PixelFormat::Rgba8, 0, &[], &[a], &[0, 1, 2, 3, 4, 5, 6, 7]);
    assert_eq!(decode_msf_individual_frames(&short).unwrap()[0].pixels, vec![0u8; 8]);
    let pairs = container(PixelFormat::Indexed8Alpha8, 0, &[[5, 6, 7, 9]], &[a], &[9, 0, 77, 0, 0]);
    assert_eq!(decode_msf_individual_frames(&pairs).unwrap()[0].pixels, vec![5, 6, 7, 77, 0, 0, 0, 0]);
}

#[test]
fn mpc_header_fields_and_anchor() {
    let data = mpc_file(100, 40, 2, 5, &[[1, 2, 3]], &[(2, 3, vec![]), (0, 0, vec![])]);
    let h = parse_mpc_header(&data).unwrap();
    assert_eq!((h.global_width, h.global_height, h.frame_count, h.color_count), (100, 40, 2, 1));
    assert_eq!((h.direction, h.interval), (1, 100));
    assert_eq!((h.left, h.bottom), (50, 19));
    assert_eq!(h.total_pixel_bytes, 2 * 3 * 4 + 4);
    let data = mpc_file(9, 10, 0, -3, &[], &[]);
    let h = parse_mpc_header(&data).unwrap();
    assert_eq!((h.left, h.bottom), (4, 9));
}

#[test]
fn empty_mpc_frame_becomes_an_empty_entry() {
    let data = mpc_file(8, 8, 1, 0, &[[1, 2, 3]], &[(0, 0, vec![])]);
    let msf = convert_mpc_to_msf(&data).unwrap();
    assert_eq!(&msf[0..8], &[b'M', b'S', b'F', b'2', 2, 0, 1, 0]);
    let header = parse_msf_header(&msf).unwrap();
    assert_eq!((header.frame_count, header.pixel_format), (1, 1));
    let start = 28 + 4 * header.palette_size as usize;
    let table = read_frame_table(&msf, start, 1);
    assert_eq!(
        table[0],
        MsfFrameEntry { offset_x: 0, offset_y: 0, width: 0, height: 0, data_offset: 0, data_length: 0 }
    );
    let payload = &msf[locate_payload(&msf).unwrap()..];
    assert_eq!(zstd::bulk::decompress(payload, 1024).unwrap(), Vec::<u8>::new());
    for tiles in [decode_msf_individual_frames(&msf).unwrap(), decode_msf_individual_to_rgba(&msf).unwrap()] {
        assert_eq!(tiles.len(), 1);
        assert_eq!((tiles[0].width, tiles[0].height), (1, 1));
        assert_eq!(tiles[0].pixels, vec![0u8; 4]);
    }
}

#[test]
fn transparent_index_avoids_every_opaque_index() {
    let mut palette = Vec::new();
    for i in 0..256u32 {
        palette.push([i as u8, 1, 2]);
    }
    let mut stream = vec![0x80u8];
    for i in 0..128u8 {
        stream.push(i);
    }
    stream.push(0x83);
    stream.push(127);
    for i in 128..255u8 {
        stream.push(i);
    }
    stream.push(0x82);
    let data = mpc_file(20, 20, 1, 0, &palette, &[(20, 13, stream)]);
    assert_eq!(find_transparent_index_mpc(&data), 255);
    let msf = convert_mpc_to_msf(&data).unwrap();
    assert_eq!(parse_msf_header(&msf).unwrap().palette_size, 256);
    assert_eq!(&msf[28 + 4 * 255..28 + 4 * 256], &[0, 0, 0, 0]);
    assert_eq!(&msf[28 + 4 * 254..28 + 4 * 255], &[254, 1, 2, 255]);
    let blob = zstd::bulk::decompress(&msf[locate_payload(&msf).unwrap()..], 1 << 20).unwrap();
    assert_eq!(blob.len(), 260);
    assert_eq!(&blob[126..133], &[126, 127, 255, 255, 255, 128, 129]);
    assert_eq!(&blob[255..260], &[252, 253, 254, 255, 255]);
    let source = decode_mpc_to_rgba(&data).unwrap();
    let tiles = decode_msf_individual_to_rgba(&msf).unwrap();
    assert_eq!(tiles.len(), 1);
    assert_eq!((tiles[0].width, tiles[0].height), (20, 13));
    assert_eq!(tiles[0].pixels, source[0].pixels);
    assert_eq!(&tiles[0].pixels[4 * 128..4 * 129], &[0, 0, 0, 0]);
    assert_eq!(&tiles[0].pixels[4 * 131..4 * 132], &[128, 1, 2, 255]);
    for p in tiles[0].pixels.chunks(4) {
        assert!(p[3] == 0 || p[0] != 255);
    }
}

#[test]
fn transparent_index_is_the_smallest_unused() {
    let palette = [[1u8, 1, 1], [2, 2, 2], [3, 3, 3]];
    let data = mpc_file(2, 2, 2, 0, &palette, &[(2, 1, vec![2, 0, 1]), (1, 2, vec![1, 3, 0x81])]);
    assert_eq!(find_transparent_index_mpc(&data), 2);
    let data = mpc_file(2, 2, 1, 0, &palette, &[(2, 1, vec![0x82])]);
    assert_eq!(find_transparent_index_mpc(&data), 0);
    let mut all = vec![0x80u8];
    for i in 0..128u8 {
        all.push(i);
    }
    all.push(0x80);
    for i in 128..=255u8 {
        all.push(i);
    }
    let data = mpc_file(16, 16, 1, 0, &palette, &[(16, 16, all)]);
    assert_eq!(find_transparent_index_mpc(&data), 0);
}

#[test]
fn marking_the_transparent_entry() {
    let mut palette = vec![[1u8, 2, 3, 255], [4, 5, 6, 255]];
    mark_transparent(&mut palette, 1);
    assert_eq!(palette, vec![[1, 2, 3, 255], [0, 0, 0, 0]]);
    mark_transparent(&mut palette, 4);
    assert_eq!(palette, vec![[1, 2, 3, 255], [0, 0, 0, 0], [0, 0, 0, 255], [0, 0, 0, 255], [0, 0, 0, 0]]);
}

#[test]
fn mpc_round_trip_is_pixel_exact() {
    let palette = [[10u8, 20, 30], [40, 50, 60], [70, 80, 90]];
    let f0 = vec![0x81u8, 2, 0, 1, 0x00, 0x82, 1, 2];
    let f1 = vec![3u8, 2, 2, 2];
    let data = mpc_file(6, 40, 4, 2, &palette, &[(3, 2, f0), (2, 2, f1), (0, 4, vec![]), (4096, 1, vec![])]);
    let source = decode_mpc_frames(&data).unwrap();
    assert_eq!(source.len(), 4);
    assert_eq!(source[0].pixels, vec![0, 0, 0, 0, 10, 20, 30, 255, 40, 50, 60, 255, 0, 0, 0, 0, 0, 0, 0, 0, 70, 80, 90, 255]);
    assert_eq!(source[1].pixels, vec![70, 80, 90, 255, 70, 80, 90, 255, 70, 80, 90, 255, 0, 0, 0, 0]);
    assert_eq!((source[2].width, source[2].height), (1, 1));
    assert_eq!((source[3].width, source[3].height), (1, 1));
    assert_eq!(find_transparent_index_mpc(&data), 3);
    let msf = convert_mpc_to_msf(&data).unwrap();
    let header = parse_msf_header(&msf).unwrap();
    assert_eq!((header.canvas_width, header.canvas_height, header.frame_count), (6, 40, 4));
    assert_eq!((header.anchor_x, header.anchor_y, header.fps, header.palette_size), (3, 22, 10, 4));
    assert_eq!(header.total_individual_pixel_bytes, 24 + 16 + 4 + 4);
    let blob = zstd::bulk::decompress(&msf[locate_payload(&msf).unwrap()..], 1 << 20).unwrap();
    assert_eq!(blob, vec![3, 0, 1, 3, 3, 2, 2, 2, 2, 3]);
    for tiles in [decode_msf_individual_frames(&msf).unwrap(), decode_msf_individual_to_rgba(&msf).unwrap()] {
        assert_eq!(tiles.len(), source.len());
        for (t, s) in tiles.iter().zip(source.iter()) {
            assert_eq!((t.width, t.height), (s.width, s.height));
            assert_eq!(t.pixels, s.pixels);
            assert_eq!(compare_frame(&t.pixels, &s.pixels).differing, 0);
        }
    }
}

#[test]
fn mpc_stream_to_indices() {
    let data = vec![0x82u8, 2, 7, 8, 0x81, 1, 9, 3, 1, 2, 3];
    assert_eq!(decode_mpc_rle_to_indexed(&data, 0, 11, 3, 2, 200), vec![200, 200, 7, 8, 200, 9]);
    assert_eq!(decode_mpc_rle_to_indexed(&data, 0, 4, 3, 2, 200), vec![200, 200, 7, 8, 200, 200]);
    assert_eq!(decode_mpc_rle_to_indexed(&data, 1, 2, 3, 2, 5), vec![7, 8, 5, 5, 5, 5]);
    assert_eq!(decode_mpc_rle_to_indexed(&data, 50, 60, 2, 1, 5), vec![5, 5]);
    assert_eq!(decode_mpc_rle_to_indexed(&data, 7, 99, 2, 1, 5), vec![1, 2]);
}

#[test]
fn mpc_signature_is_required() {
    let mut data = mpc_file(2, 2, 0, 0, &[], &[]);
    assert!(convert_mpc_to_msf(&data).is_some());
    data[0] = b'S';
    data[1] = b'H';
    data[2] = b'D';
    assert!(parse_mpc_header(&data).is_none());
    assert!(decode_mpc_to_rgba(&data).is_none());
    assert!(decode_mpc_frames(&data).is_none());
    assert!(convert_mpc_to_msf(&data).is_none());
}

#[test]
fn a_converted_asf_checks_out_against_its_source() {
    let asf = minimal_asf();
    let msf = convert_asf_to_msf(&asf).unwrap();
    match compare_asf_pair(&asf, &msf) {
        PairOutcome::Compared(d) => {
            assert_eq!((d.frames, d.compared, d.differing, d.first), (1, 16, 0, None));
        }
        other => panic!("unexpected outcome {:?}", other),
    }
    assert!(matches!(compare_asf_pair(&asf[..79], &msf), PairOutcome::SourceUnreadable));
    assert!(matches!(compare_asf_pair(&asf, &msf[..40]), PairOutcome::ConvertedUnreadable));
    let mut other = msf.clone();
    other[12] = 2;
    assert!(matches!(compare_asf_pair(&asf, &other), PairOutcome::ConvertedUnreadable));
    let mut wider = asf.clone();
    wider[16] = 5;
    assert!(matches!(compare_asf_pair(&wider, &msf), PairOutcome::MetadataMismatch));
    let mut recoloured = asf.clone();
    recoloured[80] = 9;
    match compare_asf_pair(&recoloured, &msf) {
        PairOutcome::Compared(d) => {
            assert_eq!((d.frames, d.compared, d.differing, d.first), (1, 16, 16, Some((0, 0))));
        }
        other => panic!("unexpected outcome {:?}", other),
    }
}

#[test]
fn a_converted_mpc_checks_out_against_its_source() {
    let palette = [[10u8, 20, 30], [40, 50, 60], [70, 80, 90]];
    let f0 = vec![0x81u8, 2, 0, 1, 0x82, 1, 2];
    let data = mpc_file(6, 40, 3, 2, &palette, &[(3, 2, f0.clone()), (2, 2, vec![3, 2, 2, 2]), (0, 4, vec![])]);
    let msf = convert_mpc_to_msf(&data).unwrap();
    match compare_mpc_pair(&data, &msf) {
        PairOutcome::Compared(d) => {
            assert_eq!((d.frames, d.compared, d.differing, d.first), (3, 6 + 4 + 1, 0, None));
        }
        other => panic!("unexpected outcome {:?}", other),
    }
    let mut foreign = data.clone();
    foreign[0] = b'X';
    assert!(matches!(compare_mpc_pair(&foreign, &msf), PairOutcome::SourceUnreadable));
    assert!(matches!(compare_mpc_pair(&data, &msf[..30]), PairOutcome::ConvertedUnreadable));
    let taller = mpc_file(6, 40, 3, 2, &palette, &[(2, 3, f0), (2, 2, vec![3, 2, 2, 2]), (0, 4, vec![])]);
    assert!(matches!(compare_mpc_pair(&taller, &msf), PairOutcome::MetadataMismatch));
    let fewer = mpc_file(6, 40, 2, 2, &palette, &[(3, 2, vec![0x86]), (2, 2, vec![3, 2, 2, 2])]);
    assert!(matches!(compare_mpc_pair(&fewer, &msf), PairOutcome::MetadataMismatch));
    let other = mpc_file(6, 40, 3, 2, &palette, &[(3, 2, vec![0x84, 1, 1, 0x81]), (2, 2, vec![3, 2, 2, 2]), (0, 4, vec![])]);
    match compare_mpc_pair(&other, &msf) {
        PairOutcome::Compared(d) => {
            assert_eq!((d.frames, d.compared, d.differing, d.first), (3, 11, 4, Some((0, 1))));
        }
        other => panic!("unexpected outcome {:?}", other),
    }
}
