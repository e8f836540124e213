use doom_wad::palette::{DoomColor, DoomPalette};
use doom_wad::wad::error::WadError;
use doom_wad::wad::types::{Flat, IVec2, Picture, WadName};
use doom_wad::wad::WadFile;

/// A picture 2 wide and 3 high: column 0 has pixels 5 and 6 at rows 1 and 2, column 1
/// has pixel 9 at row 0.
fn picture_bytes() -> Vec<u8> {
    let mut b = Vec::new();
    b.extend_from_slice(&2u16.to_le_bytes());
    b.extend_from_slice(&3u16.to_le_bytes());
    b.extend_from_slice(&(-1i16).to_le_bytes());
    b.extend_from_slice(&4i16.to_le_bytes());
    let col0 = 16u32;
    let col1 = col0 + 7;
    b.extend_from_slice(&col0.to_le_bytes());
    b.extend_from_slice(&col1.to_le_bytes());
    b.extend_from_slice(&[1, 2, 0, 5, 6, 0, 255]);
    b.extend_from_slice(&[0, 1, 0, 9, 0, 255]);
    b
}

#[test]
fn picture_columns_are_drawn_from_their_posts() {
    let p = Picture::from_bytes(&picture_bytes()).unwrap();
    assert_eq!(p.width, 2);
    assert_eq!(p.height, 3);
    assert_eq!(p.offset, IVec2 { x: -1, y: 4 });
    assert_eq!(p.data, vec![None, Some(9), Some(5), None, Some(6), None]);
}

#[test]
fn a_picture_has_width_times_height_pixels() {
    let mut b = Vec::new();
    b.extend_from_slice(&3u16.to_le_bytes());
    b.extend_from_slice(&5u16.to_le_bytes());
    b.extend_from_slice(&[0, 0, 0, 0]);
    for _ in 0..3 {
        b.extend_from_slice(&20u32.to_le_bytes());
    }
    b.push(255);
    let p = Picture::from_bytes(&b).unwrap();
    assert_eq!(p.data.len(), 15);
    assert!(p.data.iter().all(|x| x.is_none()));
}

#[test]
fn flats_need_exactly_4096_bytes() {
    assert!(matches!(Flat::from_bytes(&[0u8; 4097]), Err(WadError::FlatSize)));
    assert!(matches!(Flat::from_bytes(&[]), Err(WadError::FlatSize)));
    let f = Flat::from_bytes(&[7u8; 4096]).unwrap();
    assert!(f.data.iter().all(|&x| x == 7));
}

fn palette() -> DoomPalette {
    let mut playpal = Vec::new();
    for i in 0..256u32 {
        playpal.push(i as u8);
        playpal.push((255 - i) as u8);
        playpal.push((i / 2) as u8);
    }
    playpal.extend_from_slice(&[1, 2, 3]);
    DoomPalette::from_playpal(&playpal)
}

#[test]
fn the_palette_is_read_from_the_first_768_bytes() {
    let p = palette();
    let c = p.color(10);
    assert_eq!((c.r, c.g, c.b), (10, 245, 5));
    let c = p.color(255);
    assert_eq!((c.r, c.g, c.b), (255, 0, 127));
}

#[test]
fn images_have_four_bytes_per_pixel() {
    let p = palette();
    let pic = Picture::from_bytes(&picture_bytes()).unwrap();
    let img = pic.to_image(&p);
    assert_eq!((img.width, img.height), (2, 3));
    assert_eq!(img.data.len(), 24);
    assert_eq!(&img.data[0..4], &[0, 0, 0, 0]);
    assert_eq!(&img.data[4..8], &[9, 246, 4, 255]);
    let flat = Flat::from_bytes(&[3u8; 4096]).unwrap();
    let fimg = flat.to_image(&p);
    assert_eq!((fimg.width, fimg.height, fimg.data.len()), (64, 64, 4 * 4096));
    assert_eq!(&fimg.data[4092..4096], &[3, 252, 1, 255]);
    let mut lump = vec![0u8; 4096];
    lump[1] = 1;
    let lump_img = p.flat_lump_image(&lump);
    assert_eq!((lump_img.width, lump_img.height, lump_img.data.len()), (64, 64, 4 * 4096));
    assert_eq!(&lump_img.data[0..8], &[0, 255, 0, 255, 1, 254, 0, 255]);
    assert_eq!(&lump_img.data[8..12], &[0, 255, 0, 255]);
}

fn build_wad(lumps: &[(&str, Vec<u8>)]) -> Vec<u8> {
    let mut data: Vec<u8> = Vec::new();
    let mut entries: Vec<(i32, i32, [u8; 8])> = Vec::new();
    let mut offset = 12usize;
    for (name, bytes) in lumps {
        let mut n = [0u8; 8];
        for (i, b) in name.bytes().enumerate().take(8) {
            n[i] = b;
        }
        entries.push((offset as i32, bytes.len() as i32, n));
        data.extend_from_slice(bytes);
        offset += bytes.len();
    }
    let mut out = Vec::new();
    out.extend_from_slice(b"IWAD");
    out.extend_from_slice(&(lumps.len() as i32).to_le_bytes());
    out.extend_from_slice(&(offset as i32).to_le_bytes());
    out.extend_from_slice(&data);
    for (o, s, n) in entries {
        out.extend_from_slice(&o.to_le_bytes());
        out.extend_from_slice(&s.to_le_bytes());
        out.extend_from_slice(&n);
    }
    out
}

/// A texture lump with one texture per (name, width, height, patches of (ox, oy, pname)).
fn texture_lump(textures: &[(&str, u16, u16, Vec<(i16, i16, u16)>)]) -> Vec<u8> {
    let mut defs: Vec<Vec<u8>> = Vec::new();
    for (name, w, h, patches) in textures {
        let mut d = Vec::new();
        let mut n = [0u8; 8];
        for (i, b) in name.bytes().enumerate().take(8) {
            n[i] = b;
        }
        d.extend_from_slice(&n);
        d.extend_from_slice(&0u32.to_le_bytes());
        d.extend_from_slice(&w.to_le_bytes());
        d.extend_from_slice(&h.to_le_bytes());
        d.extend_from_slice(&0u32.to_le_bytes());
        d.extend_from_slice(&(patches.len() as u16).to_le_bytes());
        for (ox, oy, p) in patches {
            d.extend_from_slice(&ox.to_le_bytes());
            d.extend_from_slice(&oy.to_le_bytes());
            d.extend_from_slice(&p.to_le_bytes());
            d.extend_from_slice(&[0, 0, 0, 0]);
        }
        defs.push(d);
    }
    let mut out = Vec::new();
    out.extend_from_slice(&(defs.len() as u32).to_le_bytes());
    let mut off = 4 + 4 * defs.len();
    for d in &defs {
        out.extend_from_slice(&(off as u32).to_le_bytes());
        off += d.len();
    }
    for d in defs {
        out.extend_from_slice(&d);
    }
    out
}

fn pnames_lump(names: &[&str]) -> Vec<u8> {
    let mut out = Vec::new();
    out.extend_from_slice(&(names.len() as u32).to_le_bytes());
    for name in names {
        let mut n = [0u8; 8];
        for (i, b) in name.bytes().enumerate().take(8) {
            n[i] = b;
        }
        out.extend_from_slice(&n);
    }
    out
}

fn texture_wad(pnames: &[&str], texture1: Vec<u8>, texture2: Option<Vec<u8>>) -> WadFile {
    let mut lumps = vec![
        ("F_START", vec![]),
        ("F_END", vec![]),
        ("S_START", vec![]),
        ("S_END", vec![]),
        ("P_START", vec![]),
        ("PATCH1", picture_bytes()),
        ("P_END", vec![]),
        ("PNAMES", pnames_lump(pnames)),
        ("TEXTURE1", texture1),
    ];
    if let Some(t2) = texture2 {
        lumps.push(("TEXTURE2", t2));
    }
    WadFile::from_bytes(build_wad(&lumps)).unwrap()
}

#[test]
fn textures_are_composed_from_their_patches() {
    let wad = texture_wad(&["patch1"], texture_lump(&[("wall", 3, 2, vec![(1, 0, 0)])]), None);
    let textures = wad.load_textures().unwrap();
    assert_eq!(textures.len(), 1);
    let t = &textures[0];
    assert!(t.name == WadName::from_str("WALL"));
    assert_eq!((t.width, t.height), (3, 2));
    // (1,0) lands at 2; (0,1) at 4; (0,2) falls past the end.
    assert_eq!(t.data, vec![None, None, Some(9), None, Some(5), None]);
}

#[test]
fn a_patch_past_the_right_edge_lands_on_the_next_row() {
    let wad = texture_wad(&["PATCH1"], texture_lump(&[("W", 2, 3, vec![(1, -1, 0)])]), None);
    let t = &wad.load_textures().unwrap()[0];
    // (1,0): (0-1)*2+2 = 0; (0,1): 0*2+1 = 1; (0,2): 1*2+1 = 3.
    assert_eq!(t.data, vec![Some(9), Some(5), None, Some(6), None, None]);
}

#[test]
fn texture2_follows_texture1() {
    let wad = texture_wad(
        &["PATCH1"],
        texture_lump(&[("A", 1, 1, vec![]), ("B", 1, 1, vec![])]),
        Some(texture_lump(&[("C", 2, 1, vec![(0, 0, 0)])])),
    );
    let ts = wad.load_textures().unwrap();
    let names: Vec<&str> = ts.iter().map(|t| t.name.as_str()).collect();
    assert_eq!(names, vec!["A", "B", "C"]);
    assert_eq!(ts[2].data, vec![None, Some(9)]);
}

#[test]
fn a_missing_patch_is_an_error() {
    let wad = texture_wad(&["NOPATCH"], texture_lump(&[("W", 1, 1, vec![(0, 0, 0)])]), None);
    match wad.load_textures() {
        Err(WadError::LumpNotFound(n)) => assert_eq!(n.as_str(), "NOPATCH"),
        _ => panic!("expected a missing patch"),
    }
}

#[test]
fn load_picture_reads_a_patch_lump() {
    let wad = texture_wad(&["PATCH1"], texture_lump(&[]), None);
    let i = wad.find_patch(WadName::from_str("PATCH1")).unwrap();
    let p = wad.load_picture(i).unwrap();
    assert_eq!(p.data.len(), 6);
}

#[test]
fn picture_well_formedness_is_checked() {
    assert!(Picture::is_well_formed(&picture_bytes()));
    // The last column loses its end marker.
    let mut truncated = picture_bytes();
    truncated.pop();
    assert!(!Picture::is_well_formed(&truncated));
    // A header shorter than eight bytes.
    assert!(!Picture::is_well_formed(&[2, 0, 3, 0]));
    // A post that starts below the last row.
    let mut low = picture_bytes();
    low[23] = 5;
    assert!(!Picture::is_well_formed(&low));
    // A column table that runs past the end.
    let mut wide = picture_bytes();
    wide[0] = 200;
    assert!(!Picture::is_well_formed(&wide));
}

#[test]
fn textures_loadable_is_checked() {
    let good = texture_wad(&["PATCH1"], texture_lump(&[("W", 3, 2, vec![(1, 0, 0)])]), None);
    assert!(good.textures_loadable());
    // A missing patch is an error, which loading can report.
    let missing = texture_wad(&["NOPATCH"], texture_lump(&[("W", 1, 1, vec![(0, 0, 0)])]), None);
    assert!(missing.textures_loadable());
    // A patch index past the end of PNAMES.
    let bad_index = texture_wad(&["PATCH1"], texture_lump(&[("W", 1, 1, vec![(0, 0, 3)])]), None);
    assert!(!bad_index.textures_loadable());
    // A pixel whose position in the texture does not fit in 32 bits.
    let far = texture_wad(&["PATCH1"], texture_lump(&[("W", 0xFFFF, 1, vec![(0, 0x7FFF, 0)])]), None);
    assert!(!far.textures_loadable());
    // The same texture, one row higher, fits.
    let near = texture_wad(&["PATCH1"], texture_lump(&[("W", 0xFFFF, 1, vec![(0, 0x7FFC, 0)])]), None);
    assert!(near.textures_loadable());
}

#[test]
fn black_and_white_colours() {
    let b = DoomColor::black();
    assert_eq!((b.r, b.g, b.b), (0, 0, 0));
    let w = DoomColor::white();
    assert_eq!((w.r, w.g, w.b), (1, 1, 1));
}
