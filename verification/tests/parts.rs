use sprite_codec::asf::{check_asf_signature, decode_asf_canvases, pad_palette, read_asf_palette};
use sprite_codec::asf::read_field16;
use sprite_codec::bytes::{push_i16, push_u16, push_u32};
use sprite_codec::convert::{read_field_i16, stage_mpc_frames};
use sprite_codec::asf::asf_canvas_is_addressable;
use sprite_codec::decode::{canvas_is_addressable, composite_frame, decode_individual_frame};
use sprite_codec::decode::read_palette_table;
use sprite_codec::encode::stage_all;
use sprite_codec::mpc::{check_mpc_signature, decode_rle_frame, mark_used_indices, mpc_frame_info};
use sprite_codec::mpc::read_mpc_palette;
use sprite_codec::msf::{read_entry, MsfFrameEntry, PixelFormat};

#[test]
fn pushes_are_little_endian() {
    let mut out = vec![9u8];
    push_u16(&mut out, 0x1234);
    push_i16(&mut out, -2);
    push_i16(&mut out, 258);
    push_u32(&mut out, 0x89abcdef);
    assert_eq!(out, vec![9, 0x34, 0x12, 0xfe, 0xff, 2, 1, 0xef, 0xcd, 0xab, 0x89]);
}

#[test]
fn fields_keep_their_low_16_bits() {
    let data = [0x34u8, 0x12, 0x01, 0x00, 0xff, 0xff, 0x07, 0x00];
    assert_eq!(read_field16(&data, 0), 0x1234);
    assert_eq!(read_field16(&data, 4), 0xffff);
    assert_eq!(read_field_i16(&data, 4), -1);
    assert_eq!(read_field_i16(&data, 0), 0x1234);
    assert_eq!(read_field16(&data, 5), 0);
}

#[test]
fn entry_is_read_field_by_field() {
    let bytes = [0u8, 0xfe, 0xff, 3, 0, 4, 1, 5, 0, 1, 0, 0, 0, 2, 0, 0, 1];
    assert_eq!(
        read_entry(&bytes, 1),
        MsfFrameEntry { offset_x: -2, offset_y: 3, width: 260, height: 5, data_offset: 1, data_length: 0x01000002 }
    );
}

#[test]
fn palette_table_has_256_entries() {
    let mut file = vec![0u8; 28];
    file[25] = 3;
    file.extend_from_slice(&[1, 2, 3, 4, 5, 6, 7, 8, 9, 10]);
    let table = read_palette_table(&file);
    assert_eq!(table.len(), 1024);
    assert_eq!(&table[..12], &[1, 2, 3, 4, 5, 6, 7, 8, 0, 0, 0, 0]);
    assert!(table[12..].iter().all(|b| *b == 0));
}

#[test]
fn padded_palette_is_cut_or_filled() {
    let short = pad_palette(&[[1, 2, 3, 4]]);
    assert_eq!(short.len(), 256);
    assert_eq!((short[0], short[1], short[255]), ([1, 2, 3, 4], [0, 0, 0, 0], [0, 0, 0, 0]));
    let long = pad_palette(&vec![[7u8, 7, 7, 7]; 300]);
    assert_eq!(long.len(), 256);
    assert_eq!(long[255], [7, 7, 7, 7]);
}

#[test]
fn source_palettes_swap_red_and_blue() {
    let mut asf = vec![0u8; 80];
    asf[..7].copy_from_slice(b"ASF 1.0");
    asf[32] = 3;
    asf.extend_from_slice(&[1, 2, 3, 9, 4, 5, 6, 9, 7]);
    assert!(check_asf_signature(&asf));
    assert!(!check_asf_signature(&asf[..79]));
    assert_eq!(read_asf_palette(&asf), vec![[3, 2, 1, 255], [6, 5, 4, 255]]);
    let mut mpc = vec![0u8; 160];
    mpc[..12].copy_from_slice(b"MPC File Ver");
    mpc[84] = 2;
    mpc[128..136].copy_from_slice(&[1, 2, 3, 9, 4, 5, 6, 9]);
    assert!(check_mpc_signature(&mpc));
    assert!(!check_mpc_signature(&mpc[..159]));
    assert_eq!(read_mpc_palette(&mpc), vec![[3, 2, 1, 255], [6, 5, 4, 255]]);
}

#[test]
fn asf_canvases_follow_the_frame_index() {
    let mut asf = vec![0u8; 80];
    asf[..7].copy_from_slice(b"ASF 1.0");
    asf[16] = 2;
    asf[20] = 1;
    asf[24] = 2;
    asf.extend_from_slice(&88u32.to_le_bytes());
    asf.extend_from_slice(&3u32.to_le_bytes());
    asf.extend_from_slice(&[1, 9, 0]);
    let frames = decode_asf_canvases(&asf, &[[4, 5, 6, 255]]);
    assert_eq!(frames, vec![vec![4, 5, 6, 9, 0, 0, 0, 0], vec![0u8; 8]]);
}

#[test]
fn mpc_frames_are_found_by_their_offsets() {
    let mut mpc = vec![0u8; 128];
    mpc[..12].copy_from_slice(b"MPC File Ver");
    mpc[76] = 3;
    mpc.extend_from_slice(&0u32.to_le_bytes());
    mpc.extend_from_slice(&24u32.to_le_bytes());
    mpc.extend_from_slice(&24u32.to_le_bytes());
    mpc.extend_from_slice(&24u32.to_le_bytes());
    mpc.extend_from_slice(&2u32.to_le_bytes());
    mpc.extend_from_slice(&2048u32.to_le_bytes());
    mpc.extend_from_slice(&[0u8; 12]);
    mpc.extend_from_slice(&20u32.to_le_bytes());
    mpc.extend_from_slice(&2049u32.to_le_bytes());
    mpc.extend_from_slice(&1u32.to_le_bytes());
    let first = mpc_frame_info(&mpc, 0).unwrap();
    assert_eq!((first.rle_start, first.rle_end, first.width, first.height), (160, 164, 2, 2048));
    assert!(mpc_frame_info(&mpc, 1).is_none());
    assert!(mpc_frame_info(&mpc, 2).is_none());
    assert!(mpc_frame_info(&mpc, 3).is_none());
    let staged = stage_mpc_frames(&mpc, sprite_codec::mpc::find_transparent_index_mpc(&mpc));
    assert_eq!(staged.len(), 3);
    assert_eq!((staged[0].width, staged[0].height, staged[0].data.len()), (2, 2048, 4096));
    assert_eq!((staged[1].width, staged[1].height, staged[1].data.len()), (0, 0, 0));
}

#[test]
fn mpc_stream_to_colours_and_used_indices() {
    let mut table = vec![[0u8, 0, 0, 0]; 256];
    table[7] = [1, 2, 3, 255];
    table[200] = [4, 5, 6, 255];
    let data = [0x81u8, 2, 7, 200, 0x85, 1, 7];
    let pixels = decode_rle_frame(&data, &table, 0, 7, 2, 2);
    assert_eq!(pixels, vec![0, 0, 0, 0, 1, 2, 3, 255, 4, 5, 6, 255, 0, 0, 0, 0]);
    let mut used = vec![false; 256];
    used[3] = true;
    mark_used_indices(&data, 0, 7, 2, 2, &mut used);
    let marked: Vec<usize> = (0..256).filter(|i| used[*i]).collect();
    assert_eq!(marked, vec![3, 7, 200]);
}

#[test]
fn single_frames_composite_and_decode() {
    let mut file = vec![0u8; 28];
    file[8..14].copy_from_slice(&[0xff, 0x7f, 0xff, 0x7f, 1, 0]);
    assert!(canvas_is_addressable(&file));
    file[8..12].copy_from_slice(&[0xff, 0xff, 0xff, 0xff]);
    assert_eq!(canvas_is_addressable(&file), usize::MAX as u128 >= 65535 * 65535 * 4);
    file[12] = 0;
    assert!(canvas_is_addressable(&file));
    let mut asf = vec![0u8; 80];
    asf[16..18].copy_from_slice(&[0xff, 0x7f]);
    asf[20..22].copy_from_slice(&[0xff, 0x7f]);
    asf[24] = 2;
    assert!(asf_canvas_is_addressable(&asf));
    let mut table = vec![0u8; 1024];
    table[4..8].copy_from_slice(&[10, 20, 30, 255]);
    let e = MsfFrameEntry { offset_x: 1, offset_y: 0, width: 1, height: 2, data_offset: 1, data_length: 2 };
    let canvas = composite_frame(PixelFormat::Indexed8, &table, &[9, 1, 1], &e, 2, 2);
    assert_eq!(canvas, vec![0, 0, 0, 0, 10, 20, 30, 255, 0, 0, 0, 0, 10, 20, 30, 255]);
    let alone = decode_individual_frame(PixelFormat::Indexed8, &table, &[9, 1, 0], &e);
    assert_eq!((alone.width, alone.height), (1, 2));
    assert_eq!(alone.pixels, vec![10, 20, 30, 255, 0, 0, 0, 0]);
    let rows = composite_frame(PixelFormat::Rgba8, &table, &[0, 1, 2, 3, 4, 5, 6, 7], &e, 2, 2);
    assert_eq!(rows, vec![0, 0, 0, 0, 1, 2, 3, 4, 0, 0, 0, 0, 0, 0, 0, 0]);
}

#[test]
fn staging_takes_the_first_frames() {
    let canvases = vec![vec![0u8, 0, 0, 9], vec![0u8; 4], vec![1u8, 1, 1, 1]];
    let staged = stage_all(&canvases, 2, 1, 1, PixelFormat::Rgba8, &[]);
    assert_eq!(staged.len(), 2);
    assert_eq!((staged[0].width, staged[0].height), (1, 1));
    assert_eq!(staged[0].data, vec![0, 0, 0, 9]);
    assert_eq!((staged[1].width, staged[1].data.len()), (0, 0));
}
