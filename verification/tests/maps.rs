use sprite_codec::mmf::{convert_map_to_mmf, parse_old_map, read_gbk_string, rename_to_msf};
use sprite_codec::mmf::{build_slot_map, MapTile, OldMapData, TrapEntry};

fn map_file(columns: u32, rows: u32, slots: &[(usize, &[u8], u8)], tiles: &[[u8; 10]]) -> Vec<u8> {
    let mut data = vec![0u8; 16512];
    data[..12].copy_from_slice(b"MAP File Ver");
    data[68..72].copy_from_slice(&columns.to_le_bytes());
    data[72..76].copy_from_slice(&rows.to_le_bytes());
    for (k, name, looping) in slots {
        let at = 192 + 64 * k;
        data[at..at + name.len()].copy_from_slice(name);
        data[at + 36] = *looping;
    }
    for t in tiles {
        data.extend_from_slice(t);
    }
    data
}

#[test]
fn map_slots_are_renumbered_densely() {
    let slots: [(usize, &[u8], u8); 3] = [(3, b"tree.mpc", 0), (7, b"Wall.MPC", 1), (42, b"rock.dat", 2)];
    let tiles = [[5u8, 8, 6, 4, 7, 43, 1, 9, 0, 0], [0, 0, 1, 1, 2, 44, 3, 4, 0, 0]];
    let data = map_file(2, 1, &slots, &tiles);
    let map = parse_old_map(&data).unwrap();
    assert_eq!((map.columns, map.rows), (2, 1));
    assert_eq!(map.mpc_names.len(), 255);
    assert_eq!(map.mpc_names[3], Some(b"tree.mpc".to_vec()));
    assert_eq!(map.mpc_names[4], None);
    assert_eq!(map.mpc_looping[7], true);
    assert_eq!(map.mpc_looping[42], false);
    assert_eq!(map.tiles.len(), 2);
    assert_eq!(map.tiles[0].l1_mpc, 8);
    let table = build_slot_map(&map.mpc_names);
    assert_eq!((table[0], table[4], table[8], table[43], table[44], table[1]), (0, 1, 2, 3, 0, 0));
    let mmf = convert_map_to_mmf(&map, &[]).unwrap();
    let mut head: Vec<u8> = Vec::new();
    head.extend_from_slice(b"MMF1");
    head.extend_from_slice(&[1, 0, 1, 0, 2, 0, 1, 0, 3, 0, 0, 0, 0, 0, 0, 0]);
    head.push(8);
    head.extend_from_slice(b"tree.msf");
    head.push(0);
    head.push(8);
    head.extend_from_slice(b"Wall.msf");
    head.push(1);
    head.push(8);
    head.extend_from_slice(b"rock.dat");
    head.push(0);
    head.extend_from_slice(b"END\0\0\0\0\0");
    assert_eq!(&mmf[..head.len()], &head[..]);
    let blob = zstd::bulk::decompress(&mmf[head.len()..], 1 << 20).unwrap();
    assert_eq!(blob, vec![2, 5, 0, 0, 1, 6, 0, 1, 3, 7, 0, 2, 1, 3, 9, 4]);
}

#[test]
fn traps_are_embedded_and_flagged() {
    let map = OldMapData {
        columns: 1,
        rows: 1,
        mpc_names: vec![None; 255],
        mpc_looping: vec![false; 255],
        tiles: vec![MapTile { l1_frame: 1, l1_mpc: 200, l2_frame: 2, l2_mpc: 0, l3_frame: 3, l3_mpc: 255, barrier: 4, trap: 5 }],
    };
    let traps = vec![
        TrapEntry { trap_index: 5, script_path: b"a.txt".to_vec() },
        TrapEntry { trap_index: 9, script_path: Vec::new() },
    ];
    let mmf = convert_map_to_mmf(&map, &traps).unwrap();
    let mut head: Vec<u8> = Vec::new();
    head.extend_from_slice(b"MMF1");
    head.extend_from_slice(&[1, 0, 3, 0, 1, 0, 1, 0, 0, 0, 2, 0, 0, 0, 0, 0]);
    head.extend_from_slice(&[5, 5, 0]);
    head.extend_from_slice(b"a.txt");
    head.extend_from_slice(&[9, 0, 0]);
    head.extend_from_slice(b"END\0\0\0\0\0");
    assert_eq!(&mmf[..head.len()], &head[..]);
    let blob = zstd::bulk::decompress(&mmf[head.len()..], 1 << 20).unwrap();
    assert_eq!(blob, vec![0, 1, 0, 2, 0, 3, 4, 5]);
}

#[test]
fn map_needs_its_signature_and_fixed_part() {
    let data = map_file(1, 1, &[], &[[0u8; 10]]);
    assert!(parse_old_map(&data).is_some());
    assert!(parse_old_map(&data[..16511]).is_none());
    let mut other = data.clone();
    other[0] = b'N';
    assert!(parse_old_map(&other).is_none());
}

#[test]
fn map_tiles_stop_where_the_file_ends() {
    let tiles = [[1u8; 10], [2u8; 10]];
    let mut data = map_file(3, 2, &[], &tiles);
    data.extend_from_slice(&[3u8; 9]);
    let map = parse_old_map(&data).unwrap();
    assert_eq!(map.tiles.len(), 2);
    assert_eq!(map.tiles[1].trap, 2);
}

#[test]
fn gbk_names_become_utf8() {
    let mut data = vec![0u8; 40];
    data[4..8].copy_from_slice(&[0xd6, 0xd0, 0x2e, 0x6d]);
    assert_eq!(read_gbk_string(&data, 4, 32), "中.m".as_bytes().to_vec());
    assert_eq!(read_gbk_string(&data, 4, 2), "中".as_bytes().to_vec());
    assert_eq!(read_gbk_string(&data, 0, 32), Vec::<u8>::new());
    assert_eq!(read_gbk_string(&data, 4, 37), Vec::<u8>::new());
    let slots: [(usize, &[u8], u8); 1] = [(0, &[0xd6, 0xd0, b'.', b'm', b'p', b'c'], 1)];
    let map = parse_old_map(&map_file(0, 0, &slots, &[])).unwrap();
    assert_eq!(map.mpc_names[0], Some("中.mpc".as_bytes().to_vec()));
    let mmf = convert_map_to_mmf(&map, &[]).unwrap();
    assert_eq!(mmf[20], 7);
    assert_eq!(&mmf[21..28], "中.msf".as_bytes());
    assert_eq!(mmf[28], 1);
}

#[test]
fn only_a_final_mpc_suffix_is_renamed() {
    assert_eq!(rename_to_msf(b"a.mpc"), b"a.msf".to_vec());
    assert_eq!(rename_to_msf(b"a.MpC"), b"a.msf".to_vec());
    assert_eq!(rename_to_msf(b".mpc"), b".msf".to_vec());
    assert_eq!(rename_to_msf(b"a.mpc.bak"), b"a.mpc.bak".to_vec());
    assert_eq!(rename_to_msf(b"mpc"), b"mpc".to_vec());
    assert_eq!(rename_to_msf(b""), Vec::<u8>::new());
}
