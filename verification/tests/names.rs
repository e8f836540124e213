use doom_wad::wad::types::WadName;

#[test]
fn from_slice_upper_cases_and_stops_at_zero_or_eight() {
    let n = WadName::from_slice(b"e1m2\0xyz");
    assert_eq!(n.0, [b'E', b'1', b'M', b'2', 0, 0, 0, 0]);
    let long = WadName::from_slice(b"abcdefghij");
    assert_eq!(long.as_slice(), b"ABCDEFGH");
    assert_eq!(WadName::from_slice(b"").0, [0u8; 8]);
}

#[test]
fn as_str_reads_back_the_name() {
    assert_eq!(WadName::from_str("sky1").as_str(), "SKY1");
    assert_eq!(WadName::from_str("TEXTURE1").as_str(), "TEXTURE1");
    let bad = WadName([0xff, 0xfe, 0, 0, 0, 0, 0, 0]);
    assert_eq!(bad.as_str(), "badname");
}

#[test]
fn a_name_read_back_from_its_own_bytes_is_the_same() {
    for s in ["f_start", "Door2_1", "a", "TOOLONGNAME", "x\0y"] {
        let n = WadName::from_slice(s.as_bytes());
        assert!(WadName::from_slice(n.as_slice()) == n);
    }
}

#[test]
fn names_compare_by_their_bytes() {
    assert!(WadName::from_str("playpal") == WadName::from_str("PLAYPAL"));
    assert!(WadName::from_str("PLAYPAL") != WadName::from_str("PLAYPAL2"));
}

#[test]
fn names_are_equal_exactly_when_spelled_alike_ignoring_case() {
    assert!(WadName::from_slice(b"e1m1") == WadName::from_slice(b"E1M1\0junk"));
    assert!(WadName::from_slice(b"StartAn1") == WadName::from_slice(b"STARTAN1xyz"));
    assert!(WadName::from_slice(b"door") != WadName::from_slice(b"doors"));
    assert!(WadName::from_slice(b"a\0b") != WadName::from_slice(b"ab"));
    assert!(WadName::from_slice(b"[x") != WadName::from_slice(b"{x"));
}
