use doom_wad::map::{DoomMap, IVec3, WallKind};
use doom_wad::wad::types::{IVec2, WadName};
use doom_wad::wad::WadFile;

fn build_wad(lumps: &[(&str, Vec<u8>)]) -> Vec<u8> {
    let mut data: Vec<u8> = Vec::new();
    let mut entries: Vec<(i32, i32, [u8; 8])> = Vec::new();
    let mut offset = 12usize;
    for (name, bytes) in lumps {
        let mut n = [0u8; 8];
        for (i, b) in name.bytes().enumerate().take(8) {
            n[i] = b;
        }
        entries.push((offset as i32, bytes.len() as i32, n));
        data.extend_from_slice(bytes);
        offset += bytes.len();
    }
    let mut out = Vec::new();
    out.extend_from_slice(b"IWAD");
    out.extend_from_slice(&(lumps.len() as i32).to_le_bytes());
    out.extend_from_slice(&(offset as i32).to_le_bytes());
    out.extend_from_slice(&data);
    for (o, s, n) in entries {
        out.extend_from_slice(&o.to_le_bytes());
        out.extend_from_slice(&s.to_le_bytes());
        out.extend_from_slice(&n);
    }
    out
}

fn words(values: &[i32]) -> Vec<u8> {
    values.iter().flat_map(|v| (*v as u16).to_le_bytes()).collect()
}

fn sidedef(sector: i32) -> Vec<u8> {
    let mut b = words(&[0, 0]);
    b.extend_from_slice(b"-\0\0\0\0\0\0\0");
    b.extend_from_slice(b"-\0\0\0\0\0\0\0");
    b.extend_from_slice(b"WALL\0\0\0\0");
    b.extend_from_slice(&words(&[sector]));
    b
}

fn sector(floor: i32, ceiling: i32) -> Vec<u8> {
    let mut b = words(&[floor, ceiling]);
    b.extend_from_slice(b"FLOOR\0\0\0");
    b.extend_from_slice(b"CEIL\0\0\0\0");
    b.extend_from_slice(&words(&[160, 0, 0]));
    b
}

/// A map lump list: things, linedefs (start, end, front, back), sidedefs (sector),
/// vertices, sectors (floor, ceiling).
fn map_wad(
    things: &[(i32, i32, i32, i32)],
    linedefs: &[(i32, i32, i32, i32)],
    sidedefs: &[i32],
    vertices: &[(i32, i32)],
    sectors: &[(i32, i32)],
) -> WadFile {
    let thing_bytes: Vec<u8> = things.iter().flat_map(|&(x, y, a, t)| words(&[x, y, a, t, 0])).collect();
    let line_bytes: Vec<u8> = linedefs.iter().flat_map(|&(s, e, f, b)| words(&[s, e, 1, 0, 0, f, b])).collect();
    let side_bytes: Vec<u8> = sidedefs.iter().flat_map(|&s| sidedef(s)).collect();
    let vertex_bytes: Vec<u8> = vertices.iter().flat_map(|&(x, y)| words(&[x, y])).collect();
    let sector_bytes: Vec<u8> = sectors.iter().flat_map(|&(f, c)| sector(f, c)).collect();
    let lumps = vec![
        ("F_START", vec![]),
        ("FLOOR", vec![1u8; 4096]),
        ("CEIL", vec![2u8; 4096]),
        ("F_END", vec![]),
        ("S_START", vec![]),
        ("S_END", vec![]),
        ("P_START", vec![]),
        ("P_END", vec![]),
        ("E1M1", vec![]),
        ("THINGS", thing_bytes),
        ("LINEDEFS", line_bytes),
        ("SIDEDEFS", side_bytes),
        ("VERTEXES", vertex_bytes),
        ("SEGS", vec![]),
        ("SSECTORS", vec![]),
        ("NODES", vec![]),
        ("SECTORS", sector_bytes),
    ];
    WadFile::from_bytes(build_wad(&lumps)).unwrap()
}

fn square_room() -> WadFile {
    map_wad(
        &[(32, 32, 90, 1), (16, 16, 0, 3004)],
        &[(0, 1, 0, 0xFFFF), (1, 2, 1, 0xFFFF), (2, 3, 2, 0xFFFF), (3, 0, 3, 0xFFFF)],
        &[0, 0, 0, 0],
        &[(0, 0), (64, 0), (64, 64), (0, 64)],
        &[(0, 128)],
    )
}

#[test]
fn load_reads_the_lumps_after_the_marker() {
    let wad = square_room();
    let name = WadName::from_str("E1M1");
    assert!(DoomMap::can_load(&wad, name));
    let map = DoomMap::load(&wad, name).unwrap();
    assert_eq!(map.things.len(), 2);
    assert_eq!(map.linedefs.len(), 4);
    assert_eq!(map.sidedefs.len(), 4);
    assert_eq!(map.vertices.len(), 4);
    assert_eq!(map.sectors.len(), 1);
    assert_eq!(map.vertices[2].0, IVec2 { x: 64, y: -64 });
    assert_eq!(map.sectors[0].ceiling_height, 128);
    assert!(DoomMap::load(&wad, WadName::from_str("E9M9")).is_none());
}

#[test]
fn find_thing_gives_the_first_of_a_type() {
    let map = DoomMap::load(&square_room(), WadName::from_str("E1M1")).unwrap();
    let start = map.find_thing(1).unwrap();
    assert_eq!(start.position, IVec2 { x: 32, y: -32 });
    assert_eq!(start.angle, 0);
    assert!(map.find_thing(2).is_none());
}

#[test]
fn a_square_room_has_four_one_sided_walls() {
    let map = DoomMap::load(&square_room(), WadName::from_str("E1M1")).unwrap();
    assert!(map.references_valid());
    let mesh = map.build_walls_mesh();
    assert_eq!(mesh.positions.len(), 16);
    assert_eq!(mesh.indices.len(), 24);
    assert!(mesh.kinds.iter().all(|k| *k == WallKind::OneSided));
    assert_eq!(mesh.positions[0], IVec3 { x: 0, y: 128, z: 0 });
    assert_eq!(mesh.positions[1], IVec3 { x: 0, y: 0, z: 0 });
    assert_eq!(mesh.positions[2], IVec3 { x: 64, y: 0, z: 0 });
    assert_eq!(mesh.positions[3], IVec3 { x: 64, y: 128, z: 0 });
    assert_eq!(&mesh.indices[0..6], &[0, 1, 3, 1, 2, 3]);
    assert_eq!(&mesh.indices[18..24], &[12, 13, 15, 13, 14, 15]);
    assert!(mesh.indices.iter().all(|&i| (i as usize) < mesh.positions.len()));
}

fn two_rooms() -> WadFile {
    // Left room (sector 0: floor 0, ceiling 128), right room (sector 1: floor 16,
    // ceiling 96), joined by the two-sided line 1 -> 2.
    map_wad(
        &[],
        &[
            (0, 1, 0, 0xFFFF),
            (1, 2, 1, 2),
            (2, 3, 3, 0xFFFF),
            (3, 0, 4, 0xFFFF),
            (1, 4, 5, 0xFFFF),
            (4, 5, 6, 0xFFFF),
            (5, 2, 7, 0xFFFF),
        ],
        &[0, 0, 1, 0, 0, 1, 1, 1],
        &[(0, 0), (64, 0), (64, 64), (0, 64), (128, 0), (128, 64)],
        &[(0, 128), (16, 96)],
    )
}

#[test]
fn a_two_sided_line_has_an_upper_and_a_lower_wall() {
    let map = DoomMap::load(&two_rooms(), WadName::from_str("E1M1")).unwrap();
    let mesh = map.build_walls_mesh();
    assert_eq!(mesh.positions.len(), 4 * 8);
    assert_eq!(mesh.kinds[4], WallKind::Upper);
    assert_eq!(mesh.kinds[8], WallKind::Lower);
    // Upper wall: from vertex 1 to vertex 2, between the ceilings.
    assert_eq!(mesh.positions[4], IVec3 { x: 64, y: 128, z: 0 });
    assert_eq!(mesh.positions[5], IVec3 { x: 64, y: 96, z: 0 });
    assert_eq!(mesh.positions[6], IVec3 { x: 64, y: 96, z: -64 });
    // Lower wall: between the floors.
    assert_eq!(mesh.positions[8], IVec3 { x: 64, y: 16, z: 0 });
    assert_eq!(mesh.positions[9], IVec3 { x: 64, y: 0, z: 0 });
}

#[test]
fn sector_outlines_follow_the_edges() {
    let map = DoomMap::load(&two_rooms(), WadName::from_str("E1M1")).unwrap();
    assert!(map.every_sector_has_edges());
    let loops = map.sector_loops();
    assert_eq!(loops.len(), 2);
    assert_eq!(loops[0], vec![vec![0, 1, 2, 3]]);
    assert_eq!(loops[1], vec![vec![2, 1, 4, 5]]);
}

#[test]
fn the_outer_outline_comes_first() {
    // Sector 0 is a square with a square hole (sector 1); the hole's lines come first.
    let wad = map_wad(
        &[],
        &[
            (4, 5, 0, 1),
            (5, 6, 2, 3),
            (6, 7, 4, 5),
            (7, 4, 6, 7),
            (0, 1, 8, 0xFFFF),
            (1, 2, 9, 0xFFFF),
            (2, 3, 10, 0xFFFF),
            (3, 0, 11, 0xFFFF),
        ],
        &[1, 0, 1, 0, 1, 0, 1, 0, 0, 0, 0, 0],
        &[(0, 0), (256, 0), (256, 256), (0, 256), (64, 64), (192, 64), (192, 192), (64, 192)],
        &[(0, 128), (32, 96)],
    );
    let map = DoomMap::load(&wad, WadName::from_str("E1M1")).unwrap();
    let loops = map.sector_loops();
    assert_eq!(loops[0], vec![vec![0, 1, 2, 3], vec![5, 4, 7, 6]]);
    assert_eq!(loops[1], vec![vec![4, 5, 6, 7]]);
}

#[test]
fn bad_references_are_found() {
    let wad = map_wad(&[], &[(0, 9, 0, 0xFFFF)], &[0], &[(0, 0)], &[(0, 8)]);
    let map = DoomMap::load(&wad, WadName::from_str("E1M1")).unwrap();
    assert!(!map.references_valid());
}

#[test]
fn a_sector_without_edges_is_found() {
    let wad = map_wad(&[], &[(0, 1, 0, 0xFFFF)], &[0], &[(0, 0), (1, 1)], &[(0, 8), (0, 8)]);
    let map = DoomMap::load(&wad, WadName::from_str("E1M1")).unwrap();
    assert!(map.references_valid());
    assert!(!map.every_sector_has_edges());
}

#[test]
fn a_vertex_lump_with_a_record_left_over_gives_none() {
    let lumps = vec![
        ("F_START", vec![]),
        ("F_END", vec![]),
        ("S_START", vec![]),
        ("S_END", vec![]),
        ("P_START", vec![]),
        ("P_END", vec![]),
        ("MAP01", vec![]),
        ("THINGS", vec![]),
        ("LINEDEFS", vec![]),
        ("SIDEDEFS", vec![]),
        ("VERTEXES", vec![0, 0, 0]),
    ];
    let wad = WadFile::from_bytes(build_wad(&lumps)).unwrap();
    let name = WadName::from_str("MAP01");
    assert!(DoomMap::can_load(&wad, name));
    assert!(DoomMap::load(&wad, name).is_none());
}

#[test]
fn a_map_whose_lumps_are_missing_cannot_be_loaded() {
    let lumps = vec![
        ("F_START", vec![]),
        ("F_END", vec![]),
        ("S_START", vec![]),
        ("S_END", vec![]),
        ("P_START", vec![]),
        ("P_END", vec![]),
        ("MAP01", vec![]),
        ("THINGS", vec![]),
    ];
    let wad = WadFile::from_bytes(build_wad(&lumps)).unwrap();
    assert!(!DoomMap::can_load(&wad, WadName::from_str("MAP01")));
}
