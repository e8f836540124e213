use doom_wad::wad::error::WadError;
use doom_wad::wad::types::{WadName, WadType};
use doom_wad::wad::WadFile;

/// A WAD file with the given magic and lumps (name, bytes), lumps first, directory last.
fn build_wad(magic: &[u8; 4], lumps: &[(&str, Vec<u8>)]) -> Vec<u8> {
    let mut data: Vec<u8> = Vec::new();
    let mut entries: Vec<(i32, i32, [u8; 8])> = Vec::new();
    let mut offset = 12usize;
    for (name, bytes) in lumps {
        let mut n = [0u8; 8];
        for (i, b) in name.bytes().enumerate().take(8) {
            n[i] = b;
        }
        entries.push((offset as i32, bytes.len() as i32, n));
        data.extend_from_slice(bytes);
        offset += bytes.len();
    }
    let mut out = Vec::new();
    out.extend_from_slice(magic);
    out.extend_from_slice(&(lumps.len() as i32).to_le_bytes());
    out.extend_from_slice(&(offset as i32).to_le_bytes());
    out.extend_from_slice(&data);
    for (o, s, n) in entries {
        out.extend_from_slice(&o.to_le_bytes());
        out.extend_from_slice(&s.to_le_bytes());
        out.extend_from_slice(&n);
    }
    out
}

fn markers() -> Vec<(&'static str, Vec<u8>)> {
    vec![
        ("F_START", vec![]),
        ("F_END", vec![]),
        ("S_START", vec![]),
        ("S_END", vec![]),
        ("P_START", vec![]),
        ("P_END", vec![]),
    ]
}

#[test]
fn from_bytes_rejects_a_file_that_is_not_a_wad() {
    let mut bytes = build_wad(b"IWAD", &markers());
    bytes[0] = b'X';
    assert!(matches!(WadFile::from_bytes(bytes), Err(WadError::NotAWad)));
}

#[test]
fn from_bytes_names_the_first_missing_marker() {
    let bytes = build_wad(b"IWAD", &[("F_START", vec![]), ("S_START", vec![]), ("S_END", vec![])]);
    match WadFile::from_bytes(bytes) {
        Err(WadError::LumpNotFound(n)) => assert_eq!(n.as_str(), "F_END"),
        _ => panic!("expected a missing marker"),
    }
    let bytes = build_wad(b"PWAD", &[]);
    match WadFile::from_bytes(bytes) {
        Err(WadError::LumpNotFound(n)) => assert_eq!(n.as_str(), "F_START"),
        _ => panic!("expected a missing marker"),
    }
}

#[test]
fn from_bytes_reads_type_and_directory() {
    let mut lumps = markers();
    lumps.push(("PLAYPAL", vec![1, 2, 3]));
    let wad = WadFile::from_bytes(build_wad(b"IWAD", &lumps)).unwrap();
    assert!(matches!(wad.wad_type(), WadType::IWad));
    assert_eq!(wad.num_lumps(), 7);
    let e = wad.lump_entry(6);
    assert_eq!(e.name.as_str(), "PLAYPAL");
    assert_eq!(e.size, 3);
    let pwad = WadFile::from_bytes(build_wad(b"PWAD", &markers())).unwrap();
    assert!(matches!(pwad.wad_type(), WadType::PWad));
}

#[test]
fn find_lump_returns_the_last_lump_of_a_name() {
    let mut lumps = markers();
    lumps.push(("DUP", vec![1]));
    lumps.push(("OTHER", vec![2]));
    lumps.push(("dup", vec![3]));
    let wad = WadFile::from_bytes(build_wad(b"IWAD", &lumps)).unwrap();
    let i = wad.find_lump(WadName::from_str("DUP")).unwrap();
    assert_eq!(i, 8);
    assert_eq!(wad.load_lump(i), &[3u8][..]);
    match wad.find_lump(WadName::from_str("NOPE")) {
        Err(WadError::LumpNotFound(n)) => assert_eq!(n.as_str(), "NOPE"),
        _ => panic!("expected a missing lump"),
    }
}

#[test]
fn find_flat_searches_only_between_the_flat_markers() {
    let lumps = vec![
        ("FLOOR1", vec![9]),
        ("F_START", vec![]),
        ("FLOOR1", vec![1]),
        ("FLOOR2", vec![2]),
        ("F_END", vec![]),
        ("S_START", vec![]),
        ("FLOOR2", vec![7]),
        ("S_END", vec![]),
        ("P_START", vec![]),
        ("P_END", vec![]),
    ];
    let wad = WadFile::from_bytes(build_wad(b"IWAD", &lumps)).unwrap();
    assert_eq!(wad.find_flat(WadName::from_str("FLOOR1")).unwrap(), 2);
    assert_eq!(wad.find_flat(WadName::from_str("FLOOR2")).unwrap(), 3);
    assert_eq!(wad.find_sprite(WadName::from_str("FLOOR2")).unwrap(), 6);
    assert!(wad.find_patch(WadName::from_str("FLOOR2")).is_err());
    assert!(wad.find_sprite(WadName::from_str("FLOOR1")).is_err());
}

#[test]
fn lump_in_bounds_rejects_a_lump_past_the_end() {
    let mut lumps = markers();
    lumps.push(("DATA", vec![1, 2, 3, 4]));
    let mut bytes = build_wad(b"IWAD", &lumps);
    // Make the DATA lump claim a size far past the end of the file.
    let dir = i32::from_le_bytes([bytes[8], bytes[9], bytes[10], bytes[11]]) as usize;
    let entry = dir + 16 * 6;
    bytes[entry + 4..entry + 8].copy_from_slice(&1000i32.to_le_bytes());
    let wad = WadFile::from_bytes(bytes).unwrap();
    assert!(!wad.lump_in_bounds(6));
    assert!(!wad.lump_in_bounds(7));
    assert!(wad.lump_in_bounds(5));
}

#[test]
fn load_flat_needs_64_by_64_bytes() {
    let mut lumps = markers();
    lumps.push(("GOOD", (0..4096u32).map(|i| (i % 251) as u8).collect()));
    lumps.push(("BAD", vec![0; 4095]));
    let wad = WadFile::from_bytes(build_wad(b"IWAD", &lumps)).unwrap();
    let flat = wad.load_flat(6).unwrap();
    assert_eq!(flat.data[0], 0);
    assert_eq!(flat.data[300], (300 % 251) as u8);
    assert!(matches!(wad.load_flat(7), Err(WadError::FlatSize)));
}

#[test]
fn errors_describe_themselves() {
    assert_eq!(WadError::NotAWad.message(), "File is not a WAD!");
    assert_eq!(WadError::LumpNotFound(WadName::from_str("E1M1")).message(), "Failed to find lump E1M1.");
    assert_eq!(WadError::FlatSize.message(), "Flat is not 64 by 64.");
    assert_eq!(WadError::RecordSize.message(), "Lump is not a whole number of records.");
    let bad = WadName::from_slice(&[0xFF, 0x41]);
    assert_eq!(WadError::LumpNotFound(bad).message(), "Failed to find lump badname.");
}
