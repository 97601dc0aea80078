use packmap::bsp::{check_external_textures, check_textures_addressable, parse_bsp};
use packmap::bsp::{read_entity_lump, read_i32, read_lump_directory, read_u32, scan_textures};
use packmap::bsp::{BspLump, TextureScan};

/// A map whose entity lump and texture lump hold the given bytes.
fn map(entities: &[u8], textures: &[u8]) -> Vec<u8> {
    let mut data = vec![0u8; 124];
    data[0] = 30;
    data.extend_from_slice(entities);
    data.extend_from_slice(textures);
    put(&mut data, 4, 124);
    put(&mut data, 8, entities.len() as u32);
    put(&mut data, 20, 124 + entities.len() as u32);
    put(&mut data, 24, textures.len() as u32);
    data
}

fn put(data: &mut [u8], at: usize, value: u32) {
    data[at..at + 4].copy_from_slice(&value.to_le_bytes());
}

/// A texture lump with the given offsets, and `size` bytes in all.
fn textures(offsets: &[i32], size: usize) -> Vec<u8> {
    let mut tex = vec![0u8; size];
    put(&mut tex, 0, offsets.len() as u32);
    for (i, offset) in offsets.iter().enumerate() {
        put(&mut tex, 4 + 4 * i, *offset as u32);
    }
    tex
}

fn whole(data: &[u8]) -> BspLump {
    BspLump { offset: 0, length: data.len() as u32 }
}

#[test]
fn numbers_are_little_endian() {
    let data = [0x78, 0x56, 0x34, 0x12, 0xff, 0xff, 0xff, 0xff, 0, 0, 0, 0x80];
    assert_eq!(read_u32(&data, 0), 0x1234_5678);
    assert_eq!(read_u32(&data, 4), u32::MAX);
    assert_eq!(read_i32(&data, 0), 0x1234_5678);
    assert_eq!(read_i32(&data, 4), -1);
    assert_eq!(read_i32(&data, 8), i32::MIN);
}

#[test]
fn a_short_file_is_refused() {
    assert_eq!(parse_bsp(&[30, 0, 0]).unwrap_err(), "Truncated BSP header");
    assert_eq!(parse_bsp(&[]).unwrap_err(), "Truncated BSP header");
}

#[test]
fn another_version_is_refused() {
    assert_eq!(
        parse_bsp(&[29, 0, 0, 0]).unwrap_err(),
        "Not a GoldSrc BSP (version=29, expected 30)"
    );
    assert_eq!(
        parse_bsp(&[0xff, 0xff, 0xff, 0xff]).unwrap_err(),
        "Not a GoldSrc BSP (version=4294967295, expected 30)"
    );
    assert_eq!(
        parse_bsp(&[0, 0, 0, 0]).unwrap_err(),
        "Not a GoldSrc BSP (version=0, expected 30)"
    );
}

#[test]
fn a_file_without_room_for_the_directory_is_refused() {
    let mut data = vec![0u8; 123];
    data[0] = 30;
    assert_eq!(parse_bsp(&data).unwrap_err(), "BSP too small for lump directory");
    assert_eq!(
        read_lump_directory(&data).unwrap_err(),
        "BSP too small for lump directory"
    );
}

#[test]
fn the_directory_names_fifteen_lumps() {
    let mut data = vec![0u8; 124];
    for i in 0..15u32 {
        put(&mut data, 4 + 8 * i as usize, 100 + i);
        put(&mut data, 8 + 8 * i as usize, 200 + i);
    }
    let lumps = read_lump_directory(&data).unwrap();
    assert_eq!(lumps.len(), 15);
    for i in 0..15u32 {
        assert_eq!(lumps[i as usize], BspLump { offset: 100 + i, length: 200 + i });
    }
}

#[test]
fn an_entity_lump_beyond_the_end_is_refused() {
    let mut data = map(b"{}", &[]);
    put(&mut data, 8, 3);
    assert_eq!(parse_bsp(&data).unwrap_err(), "Entity lump extends beyond BSP data");
    put(&mut data, 4, u32::MAX);
    put(&mut data, 8, u32::MAX);
    assert_eq!(parse_bsp(&data).unwrap_err(), "Entity lump extends beyond BSP data");
}

#[test]
fn the_entity_text_is_read_without_zeros() {
    let info = parse_bsp(&map(b"{\0\"a\" \"b\"}\0", &[])).unwrap();
    assert_eq!(info.entity_text, "{\"a\" \"b\"}");
    assert!(!info.has_external_tex);
}

#[test]
fn bytes_that_are_not_utf8_are_replaced() {
    let data = b"a\xffb\xc3\xa4";
    assert_eq!(read_entity_lump(data, &whole(data)).unwrap(), "a\u{fffd}bä");
}

#[test]
fn an_empty_texture_lump_has_no_external_texture() {
    assert!(!check_external_textures(&[], &BspLump { offset: 0, length: 0 }));
    assert!(!check_external_textures(&[1, 0, 0], &BspLump { offset: 0, length: 3 }));
}

#[test]
fn a_texture_lump_beyond_the_end_has_no_external_texture() {
    let tex = textures(&[-1], 8);
    assert!(!check_external_textures(&tex, &BspLump { offset: 1, length: 8 }));
    assert!(!check_external_textures(&tex, &BspLump { offset: u32::MAX, length: u32::MAX }));
}

#[test]
fn a_texture_without_an_offset_is_external() {
    let tex = textures(&[-1], 8);
    assert!(check_external_textures(&tex, &whole(&tex)));
    assert!(parse_bsp(&map(b"", &tex)).unwrap().has_external_tex);
}

#[test]
fn a_texture_without_a_first_mip_level_is_external() {
    let tex = textures(&[8], 48);
    assert!(check_external_textures(&tex, &whole(&tex)));
}

#[test]
fn a_texture_with_a_first_mip_level_is_embedded() {
    let mut tex = textures(&[8], 48);
    put(&mut tex, 32, 40);
    assert!(!check_external_textures(&tex, &whole(&tex)));
    assert_eq!(scan_textures(&tex, &whole(&tex)), TextureScan::Embedded);
}

#[test]
fn a_later_texture_can_be_external() {
    let mut tex = textures(&[12, -1], 52);
    put(&mut tex, 36, 40);
    assert!(check_external_textures(&tex, &whole(&tex)));
}

#[test]
fn the_walk_stops_at_an_offset_beyond_the_lump() {
    let tex = textures(&[13, -1], 52);
    assert!(!check_external_textures(&tex, &whole(&tex)));
    let tex = textures(&[-41, -1], 52);
    assert!(!check_external_textures(&tex, &whole(&tex)));
    let tex = textures(&[i32::MIN, -1], 52);
    assert!(!check_external_textures(&tex, &whole(&tex)));
}

#[test]
fn the_walk_stops_where_the_directory_ends() {
    let mut tex = textures(&[], 4);
    put(&mut tex, 0, u32::MAX);
    assert!(!check_external_textures(&tex, &whole(&tex)));
}

#[test]
fn offsets_just_below_zero_are_told_apart() {
    for offset in [-2, -24, -40] {
        let tex = textures(&[offset], 52);
        assert_eq!(scan_textures(&tex, &whole(&tex)), TextureScan::Overflow);
        assert!(!check_textures_addressable(&map(b"", &tex)));
    }
    let tex = textures(&[-1, -2], 52);
    assert_eq!(scan_textures(&tex, &whole(&tex)), TextureScan::External);
    assert!(check_textures_addressable(&map(b"", &tex)));
}

#[test]
fn textures_of_a_refused_file_are_not_walked() {
    let mut data = map(b"", &textures(&[-2], 52));
    data[0] = 29;
    assert!(check_textures_addressable(&data));
    assert!(check_textures_addressable(&data[..100]));
    assert!(check_textures_addressable(&[]));
}
