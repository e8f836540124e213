use doom_wad::wad::bytes::bytes_to_vec;
use doom_wad::wad::error::WadError;
use doom_wad::wad::types::{
    from_doom_angle, from_doom_coords, IVec2, LumpEntry, Linedef, RawLinedef, RawSector, Sector, Sidedef, Thing,
    UnalignedU32, Vertex, WadName,
};

fn le16(v: i32) -> [u8; 2] {
    (v as u16).to_le_bytes()
}

#[test]
fn angles_round_to_the_nearest_eighth_turn_from_north() {
    assert_eq!(from_doom_angle(90), 0);
    assert_eq!(from_doom_angle(0), -2);
    assert_eq!(from_doom_angle(180), 2);
    assert_eq!(from_doom_angle(270), 4);
    assert_eq!(from_doom_angle(135), 1);
    assert_eq!(from_doom_angle(112), 0);
    assert_eq!(from_doom_angle(113), 1);
    assert_eq!(from_doom_angle(-32768), -730);
}

#[test]
fn angles_match_the_float_rounding_for_every_value() {
    for a in i16::MIN..=i16::MAX {
        let realign = a as f32 - 90.0;
        let rounded = (realign / 45.0).round();
        assert_eq!(from_doom_angle(a) as f32, rounded, "angle {}", a);
    }
}

#[test]
fn coordinates_flip_y() {
    assert_eq!(from_doom_coords(3, 4), IVec2 { x: 3, y: -4 });
    assert_eq!(from_doom_coords(-7, -32767), IVec2 { x: -7, y: 32767 });
}

#[test]
fn things_decode_from_their_records() {
    let mut b = Vec::new();
    for v in [10, -20, 90, 1, 7] {
        b.extend_from_slice(&le16(v));
    }
    for v in [-1, 5, 270, 3001, 0x8000] {
        b.extend_from_slice(&le16(v));
    }
    let things = bytes_to_vec::<Thing>(&b).unwrap();
    assert_eq!(things.len(), 2);
    assert_eq!(things[0].position, IVec2 { x: 10, y: 20 });
    assert_eq!(things[0].angle, 0);
    assert_eq!(things[0].thing_type, 1);
    assert_eq!(things[0].flags, 7);
    assert_eq!(things[1].position, IVec2 { x: -1, y: -5 });
    assert_eq!(things[1].angle, 4);
    assert_eq!(things[1].thing_type, 3001);
    assert_eq!(things[1].flags, 0x8000);
}

#[test]
fn bytes_to_vec_refuses_bytes_left_over() {
    let b = vec![0u8; 15];
    assert!(matches!(bytes_to_vec::<Thing>(&b), Err(WadError::RecordSize)));
    assert_eq!(bytes_to_vec::<Vertex>(&b[..12]).unwrap().len(), 3);
    assert_eq!(bytes_to_vec::<Vertex>(&[]).unwrap().len(), 0);
}

#[test]
fn linedefs_without_a_back_side_have_none() {
    let raw = RawLinedef {
        start_vertex_i: 1,
        end_vertex_i: 2,
        flags: 3,
        special: 4,
        tag: 5,
        front_sidedef_i: 6,
        back_sidedef_i: 0xFFFF,
    };
    let l = Linedef::from_raw(raw);
    assert_eq!(l.back_sidedef_i, None);
    assert_eq!(l.front_sidedef_i, 6);
    let l2 = Linedef::from_raw(RawLinedef { back_sidedef_i: 0xFFFE, ..raw });
    assert_eq!(l2.back_sidedef_i, Some(0xFFFE));
}

#[test]
fn sectors_keep_the_low_byte_of_the_light_level() {
    let raw = RawSector {
        floor_height: -8,
        ceiling_height: 128,
        floor_texture: *b"flat1\0\0\0",
        ceiling_texture: *b"F_SKY1\0\0",
        light_level: 300,
        special: 9,
        tag: 2,
    };
    let s = Sector::from_raw(raw);
    assert_eq!(s.light_level, 44);
    assert_eq!(s.floor_height, -8);
    assert_eq!(s.floor_texture.as_str(), "FLAT1");
    assert_eq!(s.ceiling_texture.as_str(), "F_SKY1");
}

#[test]
fn sidedefs_decode_offsets_names_and_sector() {
    let mut b = Vec::new();
    b.extend_from_slice(&le16(-3));
    b.extend_from_slice(&le16(4));
    b.extend_from_slice(b"upper\0\0\0");
    b.extend_from_slice(b"-\0\0\0\0\0\0\0");
    b.extend_from_slice(b"STARTAN3");
    b.extend_from_slice(&le16(12));
    let s = bytes_to_vec::<Sidedef>(&b).unwrap();
    assert_eq!(s[0].offset, IVec2 { x: -3, y: 4 });
    assert_eq!(s[0].upper_texture.as_str(), "UPPER");
    assert_eq!(s[0].lower_texture.as_str(), "-");
    assert_eq!(s[0].middle_texture.as_str(), "STARTAN3");
    assert_eq!(s[0].sector_i, 12);
}

#[test]
fn lump_entries_and_offsets_decode() {
    let mut b = Vec::new();
    b.extend_from_slice(&100i32.to_le_bytes());
    b.extend_from_slice(&7i32.to_le_bytes());
    b.extend_from_slice(b"name\0\0\0\0");
    let e = bytes_to_vec::<LumpEntry>(&b).unwrap();
    assert_eq!(e[0].offset, 100);
    assert_eq!(e[0].size, 7);
    assert!(e[0].name == WadName::from_str("NAME"));
    let u = bytes_to_vec::<UnalignedU32>(&[1, 2, 3, 4]).unwrap();
    assert_eq!(u[0].0, 0x04030201);
}
