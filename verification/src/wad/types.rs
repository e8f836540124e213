use vstd::prelude::*;
use vstd::std_specs::cmp::PartialEqSpecImpl;
use vstd::std_specs::convert::FromSpecImpl;
use vstd::string::StringSliceAdditionalSpecFns;
use vstd::utf8::{decode_utf8, valid_utf8};
use crate::palette::{rgba_pixels, DoomPalette, RgbaImage};
use crate::wad::error::WadError;
use crate::wad::bytes::{
    le_i16, le_i32, le_u16, le_u32, read_array4, read_array8, read_i16, read_i32, read_u16,
    read_u32, Record,
};

verus! {

// ---------------------------------------------------------------- WAD TYPE

/// Whether a WAD is a complete game (`IWAD`) or a patch that adds to one (`PWAD`).
#[derive(Clone, Copy, Debug, PartialEq, Eq, Structural)]
pub enum WadType {
    IWad,
    PWad,
}

// ---------------------------------------------------------------- VECTORS

/// A point or offset on the integer grid of a map.
#[derive(Clone, Copy, Debug, PartialEq, Eq, Structural, Hash)]
pub struct IVec2 {
    pub x: i32,
    pub y: i32,
}

impl IVec2 {
    pub fn new(x: i32, y: i32) -> (r: IVec2)
        ensures
            r.x == x,
            r.y == y,
    {
        IVec2 { x, y }
    }
}

/// A point in map coordinates: Doom's y axis points north, the renderer's points south,
/// so y changes sign.
pub open spec fn spec_from_doom_coords(x: i16, y: i16) -> IVec2 {
    IVec2 { x: x as i32, y: -y as i32 }
}

pub fn from_doom_coords(x: i16, y: i16) -> (r: IVec2)
    requires
        y != i16::MIN,
    ensures
        r == spec_from_doom_coords(x, y),
{
    IVec2::new(x as i32, -y as i32)
}

/// A Doom angle in degrees (0 is east, counterclockwise) turned to face north at 0 and
/// rounded to the nearest multiple of 45 degrees, counted in eighths of a turn: the
/// renderer's angle is this many times a quarter of pi. No angle lies halfway between two
/// multiples, so the nearest one is unique.
pub fn from_doom_angle(angle: i16) -> (steps: i32)
    ensures
        -45 < 90 * steps - 2 * (angle - 90) <= 45,
{
    let n: i32 = 2 * (angle as i32 - 90) + 45;
    if n >= 0 {
        n / 90
    } else {
        -((-n + 89) / 90)
    }
}

/// The ASCII upper-case form of a byte: `a`..=`z` map to `A`..=`Z`, every other byte is kept.
pub open spec fn spec_ascii_upper(b: u8) -> u8 {
    if 97 <= b && b <= 122 {
        (b - 32) as u8
    } else {
        b
    }
}

/// Upper-casing leaves no lower-case ASCII letter: a letter `a`..=`z` becomes its capital,
/// 32 below it, and every other byte is kept.
pub proof fn lemma_ascii_upper(b: u8)
    ensures
        !(97 <= spec_ascii_upper(b) <= 122),
        spec_ascii_upper(b) == b || (97 <= b <= 122 && spec_ascii_upper(b) + 32 == b),
        spec_ascii_upper(b) == 0 <==> b == 0,
        spec_ascii_upper(spec_ascii_upper(b)) == spec_ascii_upper(b),
{
}

pub fn ascii_upper(b: u8) -> (r: u8)
    ensures
        r == spec_ascii_upper(b),
        !(97 <= r <= 122),
        r == b || (97 <= b <= 122 && r + 32 == b),
{
    if 97 <= b && b <= 122 {
        b - 32
    } else {
        b
    }
}

/// An eight-byte lump name, upper-cased and padded with zero bytes.
#[derive(Clone, Copy, Debug, Hash, PartialOrd, Ord)]
pub struct WadName(pub [u8; 8]);

/// The name that `bytes` denotes: its bytes up to the first zero byte and at most
/// eight of them, upper-cased, the rest of the eight bytes zero.
pub open spec fn spec_name_bytes(bytes: Seq<u8>) -> Seq<u8> {
    Seq::new(8, |i: int| if name_len(bytes) > i { spec_ascii_upper(bytes[i]) } else { 0u8 })
}

/// How many bytes of `bytes` a name takes: those before the first zero byte, at most eight.
pub open spec fn name_len(bytes: Seq<u8>) -> int {
    name_end_from(bytes, 0)
}

/// The first position at or after `i` that ends a name: eight, the end of `bytes`, or a zero byte.
pub open spec fn name_end_from(bytes: Seq<u8>, i: int) -> int
    decreases 8 - i,
{
    if i >= 8 || i >= bytes.len() || bytes[i] == 0 {
        i
    } else {
        name_end_from(bytes, i + 1)
    }
}

impl WadName {
    pub fn from_slice(slice: &[u8]) -> (r: Self)
        ensures
            r.0@ == spec_name_bytes(slice@),
    {
        let mut buffer: [u8; 8] = [0, 0, 0, 0, 0, 0, 0, 0];
        let mut i: usize = 0;
        while i < slice.len() && i < 8 && slice[i] != 0
            invariant
                i <= slice.len(),
                i <= 8,
                name_end_from(slice@, i as int) == name_len(slice@),
                forall|k: int| 0 <= k < i ==> buffer@[k] == spec_ascii_upper(slice@[k]),
                forall|k: int| i <= k < 8 ==> buffer@[k] == 0,
            decreases 8 - i,
        {
            buffer[i] = ascii_upper(slice[i]);
            i = i + 1;
        }
        assert(buffer@ =~= spec_name_bytes(slice@));
        WadName(buffer)
    }
}

impl View for WadName {
    type V = Seq<u8>;

    open spec fn view(&self) -> Seq<u8> {
        self.0@
    }
}

impl PartialEq for WadName {
    fn eq(&self, other: &Self) -> (r: bool) {
        let mut k: usize = 0;
        while k < 8
            invariant
                k <= 8,
                forall|j: int| 0 <= j < k ==> self.0@[j] == other.0@[j],
            decreases 8 - k,
        {
            if self.0[k] != other.0[k] {
                return false;
            }
            k = k + 1;
        }
        assert(self.0@ =~= other.0@);
        true
    }
}

impl PartialEqSpecImpl for WadName {
    open spec fn obeys_eq_spec() -> bool {
        true
    }

    open spec fn eq_spec(&self, other: &Self) -> bool {
        self.0@ == other.0@
    }
}

impl Eq for WadName {
}

/// `std::str::from_utf8`. std documents that it returns the bytes as a string slice when
/// they are valid UTF-8 and an error otherwise; this states the same, with validity as
/// vstd's `valid_utf8` defines it.
#[verifier::external_body]
fn str_from_utf8(v: &[u8]) -> (r: Option<&str>)
    ensures
        r is Some <==> valid_utf8(v@),
        r matches Some(s) ==> s.spec_bytes() == v@,
{
    std::str::from_utf8(v).ok()
}

/// The text of a name: its bytes before the first zero decoded as UTF-8, or `badname` where
/// they are not UTF-8.
pub open spec fn name_text(n: Seq<u8>) -> Seq<char> {
    let b = n.subrange(0, name_len(n));
    if valid_utf8(b) {
        decode_utf8(b)
    } else {
        "badname"@
    }
}

impl WadName {
    /// The bytes of the name before its first zero byte.
    pub fn as_slice(&self) -> (r: &[u8])
        ensures
            r@ == self@.subrange(0, name_len(self@)),
    {
        let mut end: usize = 0;
        while end < 8 && self.0[end] != 0
            invariant
                end <= 8,
                name_end_from(self@, end as int) == name_len(self@),
            decreases 8 - end,
        {
            end = end + 1;
        }
        vstd::slice::slice_subrange(vstd::array::array_as_slice(&self.0), 0, end)
    }

    pub fn from_str(s: &str) -> (r: Self)
        ensures
            r@ == spec_name_bytes(s.spec_bytes()),
    {
        Self::from_slice(s.as_bytes())
    }

    /// The name as text, or `badname` where its bytes are not UTF-8.
    pub fn as_str(&self) -> (r: &str)
        ensures
            r@ == name_text(self@),
            valid_utf8(self@.subrange(0, name_len(self@))) ==> r.spec_bytes() == self@.subrange(
                0,
                name_len(self@),
            ),
            !valid_utf8(self@.subrange(0, name_len(self@))) ==> r@ == "badname"@,
    {
        match str_from_utf8(self.as_slice()) {
            Some(s) => {
                proof {
                    vstd::utf8::encode_utf8_decode_utf8(s@);
                }
                s
            },
            None => {
                proof {
                    reveal_strlit("badname");
                }
                "badname"
            },
        }
    }
}

// ---------------------------------------------------------------- HEADER

/// The twelve bytes at the start of a WAD file.
#[derive(Clone, Copy, Debug)]
pub struct RawWadHeader {
    pub magic: [u8; 4],
    pub num_lumps: i32,
    pub directory_offset: i32,
}

impl RawWadHeader {
    pub fn read(b: &[u8], at: usize) -> (r: Self)
        requires
            at + 12 <= b.len(),
        ensures
            r.magic@ == b@.subrange(at as int, at + 4),
            r.num_lumps == le_i32(b@, at + 4),
            r.directory_offset == le_i32(b@, at + 8),
    {
        RawWadHeader {
            magic: read_array4(b, at),
            num_lumps: read_i32(b, at + 4),
            directory_offset: read_i32(b, at + 8),
        }
    }
}

// ---------------------------------------------------------------- LUMP ENTRY

/// One entry of the lump directory: a name and where the lump's bytes lie in the file.
#[derive(Clone, Copy, Debug)]
pub struct LumpEntry {
    pub name: WadName,
    pub offset: usize,
    pub size: usize,
}

/// A directory entry as the file stores it (sixteen bytes).
#[derive(Clone, Copy, Debug)]
pub struct RawLumpEntry {
    pub offset: i32,
    pub size: i32,
    pub name: [u8; 8],
}

impl RawLumpEntry {
    pub fn read(b: &[u8], at: usize) -> (r: Self)
        requires
            at + 16 <= b.len(),
        ensures
            r.offset == le_i32(b@, at as int),
            r.size == le_i32(b@, at + 4),
            r.name@ == b@.subrange(at + 8, at + 16),
    {
        RawLumpEntry { offset: read_i32(b, at), size: read_i32(b, at + 4), name: read_array8(b, at + 8) }
    }
}

impl LumpEntry {
    /// The entry that a stored entry stands for. The file's signed offset and size are
    /// taken as `usize` as they are (a negative one wraps around).
    pub fn from_raw(r: RawLumpEntry) -> (e: Self)
        ensures
            e.offset == r.offset as usize,
            e.size == r.size as usize,
            e.name@ == spec_name_bytes(r.name@),
    {
        LumpEntry {
            offset: r.offset as usize,
            size: r.size as usize,
            name: WadName::from_slice(vstd::array::array_as_slice(&r.name)),
        }
    }
}

impl Record for LumpEntry {
    open spec fn spec_size() -> nat {
        16
    }

    fn size() -> (n: usize) {
        16
    }

    fn is_decodable(b: &[u8], at: usize) -> (r: bool) {
        true
    }

    open spec fn spec_decodable(rec: Seq<u8>) -> bool {
        true
    }

    open spec fn spec_decodes_to(rec: Seq<u8>, v: Self) -> bool {
        &&& v.offset == le_i32(rec, 0) as i32 as usize
        &&& v.size == le_i32(rec, 4) as i32 as usize
        &&& v.name@ == spec_name_bytes(rec.subrange(8, 16))
    }

    fn decode(b: &[u8], at: usize) -> (r: Self) {
        let r = LumpEntry::from_raw(RawLumpEntry::read(b, at));
        proof {
            let rec = b@.subrange(at as int, at + 16);
            assert(rec.subrange(8, 16) =~= b@.subrange(at + 8, at + 16));
        }
        r
    }
}

/// A name stored as eight bytes, as in the list of patch names.
impl Record for WadName {
    open spec fn spec_size() -> nat {
        8
    }

    fn size() -> (n: usize) {
        8
    }

    fn is_decodable(b: &[u8], at: usize) -> (r: bool) {
        true
    }

    open spec fn spec_decodable(rec: Seq<u8>) -> bool {
        true
    }

    open spec fn spec_decodes_to(rec: Seq<u8>, v: Self) -> bool {
        v@ == spec_name_bytes(rec.subrange(0, 8))
    }

    fn decode(b: &[u8], at: usize) -> (r: Self) {
        let a = read_array8(b, at);
        let r = WadName::from_slice(vstd::array::array_as_slice(&a));
        proof {
            let rec = b@.subrange(at as int, at + 8);
            assert(rec.subrange(0, 8) =~= a@);
        }
        r
    }
}

// ---------------------------------------------------------------- THING

/// A thing placed in a map: a monster, an item, a player start.
#[derive(Clone, Copy, Debug)]
pub struct Thing {
    pub position: IVec2,
    /// The facing in eighths of a turn from north (see `from_doom_angle`).
    pub angle: i32,
    pub thing_type: u32,
    pub flags: u32,
}

/// A thing as the THINGS lump stores it (ten bytes).
#[derive(Clone, Copy, Debug)]
pub struct RawThing {
    pub x: i16,
    pub y: i16,
    pub angle: i16,
    pub thing_type: u16,
    pub flags: u16,
}

impl RawThing {
    pub fn read(b: &[u8], at: usize) -> (r: Self)
        requires
            at + 10 <= b.len(),
        ensures
            r.x == le_i16(b@, at as int),
            r.y == le_i16(b@, at + 2),
            r.angle == le_i16(b@, at + 4),
            r.thing_type == le_u16(b@, at + 6),
            r.flags == le_u16(b@, at + 8),
    {
        RawThing {
            x: read_i16(b, at),
            y: read_i16(b, at + 2),
            angle: read_i16(b, at + 4),
            thing_type: read_u16(b, at + 6),
            flags: read_u16(b, at + 8),
        }
    }
}

impl Thing {
    pub fn from_raw(r: RawThing) -> (t: Self)
        requires
            r.y != i16::MIN,
        ensures
            t.position == spec_from_doom_coords(r.x, r.y),
            -45 < 90 * t.angle - 2 * (r.angle - 90) <= 45,
            t.thing_type == r.thing_type,
            t.flags == r.flags,
    {
        Thing {
            position: from_doom_coords(r.x, r.y),
            angle: from_doom_angle(r.angle),
            thing_type: r.thing_type as u32,
            flags: r.flags as u32,
        }
    }
}

impl Record for Thing {
    open spec fn spec_size() -> nat {
        10
    }

    fn size() -> (n: usize) {
        10
    }

    fn is_decodable(b: &[u8], at: usize) -> (r: bool) {
        read_i16(b, at + 2) != i16::MIN
    }

    open spec fn spec_decodable(rec: Seq<u8>) -> bool {
        le_i16(rec, 2) != i16::MIN
    }

    open spec fn spec_decodes_to(rec: Seq<u8>, v: Self) -> bool {
        &&& v.position == spec_from_doom_coords(le_i16(rec, 0) as i16, le_i16(rec, 2) as i16)
        &&& -45 < 90 * v.angle - 2 * (le_i16(rec, 4) - 90) <= 45
        &&& v.thing_type == le_u16(rec, 6)
        &&& v.flags == le_u16(rec, 8)
    }

    fn decode(b: &[u8], at: usize) -> (r: Self) {
        Thing::from_raw(RawThing::read(b, at))
    }
}

// ---------------------------------------------------------------- LINEDEF

/// A line of a map between two vertices, with the sidedef on its right and, for a
/// two-sided line, the one on its left.
#[derive(Clone, Copy, Debug)]
pub struct Linedef {
    pub start_vertex_i: u32,
    pub end_vertex_i: u32,
    pub flags: u32,
    pub special: u32,
    pub tag: u32,
    pub front_sidedef_i: u32,
    pub back_sidedef_i: Option<u32>,
}

/// A linedef as the LINEDEFS lump stores it (fourteen bytes); `0xFFFF` as the back
/// sidedef means there is none.
#[derive(Clone, Copy, Debug)]
pub struct RawLinedef {
    pub start_vertex_i: u16,
    pub end_vertex_i: u16,
    pub flags: u16,
    pub special: u16,
    pub tag: u16,
    pub front_sidedef_i: u16,
    pub back_sidedef_i: u16,
}

impl RawLinedef {
    pub fn read(b: &[u8], at: usize) -> (r: Self)
        requires
            at + 14 <= b.len(),
        ensures
            r.start_vertex_i == le_u16(b@, at as int),
            r.end_vertex_i == le_u16(b@, at + 2),
            r.flags == le_u16(b@, at + 4),
            r.special == le_u16(b@, at + 6),
            r.tag == le_u16(b@, at + 8),
            r.front_sidedef_i == le_u16(b@, at + 10),
            r.back_sidedef_i == le_u16(b@, at + 12),
    {
        RawLinedef {
            start_vertex_i: read_u16(b, at),
            end_vertex_i: read_u16(b, at + 2),
            flags: read_u16(b, at + 4),
            special: read_u16(b, at + 6),
            tag: read_u16(b, at + 8),
            front_sidedef_i: read_u16(b, at + 10),
            back_sidedef_i: read_u16(b, at + 12),
        }
    }
}

impl Linedef {
    pub open spec fn spec_from_raw(r: RawLinedef) -> Linedef {
        Linedef {
            start_vertex_i: r.start_vertex_i as u32,
            end_vertex_i: r.end_vertex_i as u32,
            flags: r.flags as u32,
            special: r.special as u32,
            tag: r.tag as u32,
            front_sidedef_i: r.front_sidedef_i as u32,
            back_sidedef_i: if r.back_sidedef_i != 0xFFFF {
                Some(r.back_sidedef_i as u32)
            } else {
                None
            },
        }
    }

    pub fn from_raw(r: RawLinedef) -> (l: Self)
        ensures
            l == Self::spec_from_raw(r),
    {
        Linedef {
            start_vertex_i: r.start_vertex_i as u32,
            end_vertex_i: r.end_vertex_i as u32,
            flags: r.flags as u32,
            special: r.special as u32,
            tag: r.tag as u32,
            front_sidedef_i: r.front_sidedef_i as u32,
            back_sidedef_i: if r.back_sidedef_i != 0xFFFF {
                Some(r.back_sidedef_i as u32)
            } else {
                None
            },
        }
    }
}

impl Record for Linedef {
    open spec fn spec_size() -> nat {
        14
    }

    fn size() -> (n: usize) {
        14
    }

    fn is_decodable(b: &[u8], at: usize) -> (r: bool) {
        true
    }

    open spec fn spec_decodable(rec: Seq<u8>) -> bool {
        true
    }

    open spec fn spec_decodes_to(rec: Seq<u8>, v: Self) -> bool {
        &&& v.start_vertex_i == le_u16(rec, 0)
        &&& v.end_vertex_i == le_u16(rec, 2)
        &&& v.flags == le_u16(rec, 4)
        &&& v.special == le_u16(rec, 6)
        &&& v.tag == le_u16(rec, 8)
        &&& v.front_sidedef_i == le_u16(rec, 10)
        &&& v.back_sidedef_i == if le_u16(rec, 12) != 0xFFFF {
            Some(le_u16(rec, 12) as u32)
        } else {
            None
        }
    }

    fn decode(b: &[u8], at: usize) -> (r: Self) {
        Linedef::from_raw(RawLinedef::read(b, at))
    }
}

// ---------------------------------------------------------------- SIDEDEF

/// One side of a linedef: its texture offset, its three textures and its sector.
#[derive(Clone, Copy, Debug)]
pub struct Sidedef {
    pub offset: IVec2,
    pub upper_texture: WadName,
    pub lower_texture: WadName,
    pub middle_texture: WadName,
    pub sector_i: u32,
}

/// A sidedef as the SIDEDEFS lump stores it (thirty bytes).
#[derive(Clone, Copy, Debug)]
pub struct RawSidedef {
    pub x_offset: i16,
    pub y_offset: i16,
    pub upper_texture: [u8; 8],
    pub lower_texture: [u8; 8],
    pub middle_texture: [u8; 8],
    pub sector_i: u16,
}

impl RawSidedef {
    pub fn read(b: &[u8], at: usize) -> (r: Self)
        requires
            at + 30 <= b.len(),
        ensures
            r.x_offset == le_i16(b@, at as int),
            r.y_offset == le_i16(b@, at + 2),
            r.upper_texture@ == b@.subrange(at + 4, at + 12),
            r.lower_texture@ == b@.subrange(at + 12, at + 20),
            r.middle_texture@ == b@.subrange(at + 20, at + 28),
            r.sector_i == le_u16(b@, at + 28),
    {
        RawSidedef {
            x_offset: read_i16(b, at),
            y_offset: read_i16(b, at + 2),
            upper_texture: read_array8(b, at + 4),
            lower_texture: read_array8(b, at + 12),
            middle_texture: read_array8(b, at + 20),
            sector_i: read_u16(b, at + 28),
        }
    }
}

impl Sidedef {
    pub fn from_raw(r: RawSidedef) -> (s: Self)
        ensures
            s.offset == (IVec2 { x: r.x_offset as i32, y: r.y_offset as i32 }),
            s.upper_texture@ == spec_name_bytes(r.upper_texture@),
            s.lower_texture@ == spec_name_bytes(r.lower_texture@),
            s.middle_texture@ == spec_name_bytes(r.middle_texture@),
            s.sector_i == r.sector_i,
    {
        Sidedef {
            offset: IVec2::new(r.x_offset as i32, r.y_offset as i32),
            upper_texture: WadName::from_slice(vstd::array::array_as_slice(&r.upper_texture)),
            lower_texture: WadName::from_slice(vstd::array::array_as_slice(&r.lower_texture)),
            middle_texture: WadName::from_slice(vstd::array::array_as_slice(&r.middle_texture)),
            sector_i: r.sector_i as u32,
        }
    }
}

impl Record for Sidedef {
    open spec fn spec_size() -> nat {
        30
    }

    fn size() -> (n: usize) {
        30
    }

    fn is_decodable(b: &[u8], at: usize) -> (r: bool) {
        true
    }

    open spec fn spec_decodable(rec: Seq<u8>) -> bool {
        true
    }

    open spec fn spec_decodes_to(rec: Seq<u8>, v: Self) -> bool {
        &&& v.offset == (IVec2 { x: le_i16(rec, 0) as i32, y: le_i16(rec, 2) as i32 })
        &&& v.upper_texture@ == spec_name_bytes(rec.subrange(4, 12))
        &&& v.lower_texture@ == spec_name_bytes(rec.subrange(12, 20))
        &&& v.middle_texture@ == spec_name_bytes(rec.subrange(20, 28))
        &&& v.sector_i == le_u16(rec, 28)
    }

    fn decode(b: &[u8], at: usize) -> (r: Self) {
        let r = Sidedef::from_raw(RawSidedef::read(b, at));
        proof {
            let rec = b@.subrange(at as int, at + 30);
            assert(rec.subrange(4, 12) =~= b@.subrange(at + 4, at + 12));
            assert(rec.subrange(12, 20) =~= b@.subrange(at + 12, at + 20));
            assert(rec.subrange(20, 28) =~= b@.subrange(at + 20, at + 28));
        }
        r
    }
}

// ---------------------------------------------------------------- VERTEX

/// A corner of a map's lines.
#[derive(Clone, Copy, Debug)]
pub struct Vertex(pub IVec2);

/// A vertex as the VERTEXES lump stores it (four bytes).
#[derive(Clone, Copy, Debug)]
pub struct RawVertex {
    pub x: i16,
    pub y: i16,
}

impl RawVertex {
    pub fn read(b: &[u8], at: usize) -> (r: Self)
        requires
            at + 4 <= b.len(),
        ensures
            r.x == le_i16(b@, at as int),
            r.y == le_i16(b@, at + 2),
    {
        RawVertex { x: read_i16(b, at), y: read_i16(b, at + 2) }
    }
}

impl Vertex {
    pub fn from_raw(r: RawVertex) -> (v: Self)
        requires
            r.y != i16::MIN,
        ensures
            v.0 == spec_from_doom_coords(r.x, r.y),
    {
        Vertex(from_doom_coords(r.x, r.y))
    }
}

impl Record for Vertex {
    open spec fn spec_size() -> nat {
        4
    }

    fn size() -> (n: usize) {
        4
    }

    fn is_decodable(b: &[u8], at: usize) -> (r: bool) {
        read_i16(b, at + 2) != i16::MIN
    }

    open spec fn spec_decodable(rec: Seq<u8>) -> bool {
        le_i16(rec, 2) != i16::MIN
    }

    open spec fn spec_decodes_to(rec: Seq<u8>, v: Self) -> bool {
        v.0 == spec_from_doom_coords(le_i16(rec, 0) as i16, le_i16(rec, 2) as i16)
    }

    fn decode(b: &[u8], at: usize) -> (r: Self) {
        Vertex::from_raw(RawVertex::read(b, at))
    }
}

// ---------------------------------------------------------------- SECTOR

/// A region of a map with one floor height and one ceiling height.
#[derive(Clone, Copy, Debug)]
pub struct Sector {
    pub floor_height: i32,
    pub ceiling_height: i32,
    pub floor_texture: WadName,
    pub ceiling_texture: WadName,
    pub light_level: u8,
    pub special: u32,
    pub tag: u32,
}

/// A sector as the SECTORS lump stores it (twenty-six bytes).
#[derive(Clone, Copy, Debug)]
pub struct RawSector {
    pub floor_height: i16,
    pub ceiling_height: i16,
    pub floor_texture: [u8; 8],
    pub ceiling_texture: [u8; 8],
    pub light_level: u16,
    pub special: u16,
    pub tag: u16,
}

impl RawSector {
    pub fn read(b: &[u8], at: usize) -> (r: Self)
        requires
            at + 26 <= b.len(),
        ensures
            r.floor_height == le_i16(b@, at as int),
            r.ceiling_height == le_i16(b@, at + 2),
            r.floor_texture@ == b@.subrange(at + 4, at + 12),
            r.ceiling_texture@ == b@.subrange(at + 12, at + 20),
            r.light_level == le_u16(b@, at + 20),
            r.special == le_u16(b@, at + 22),
            r.tag == le_u16(b@, at + 24),
    {
        RawSector {
            floor_height: read_i16(b, at),
            ceiling_height: read_i16(b, at + 2),
            floor_texture: read_array8(b, at + 4),
            ceiling_texture: read_array8(b, at + 12),
            light_level: read_u16(b, at + 20),
            special: read_u16(b, at + 22),
            tag: read_u16(b, at + 24),
        }
    }
}

impl Sector {
    /// The sector that a stored sector stands for; the light level keeps the low byte.
    pub fn from_raw(r: RawSector) -> (s: Self)
        ensures
            s.floor_height == r.floor_height,
            s.ceiling_height == r.ceiling_height,
            s.floor_texture@ == spec_name_bytes(r.floor_texture@),
            s.ceiling_texture@ == spec_name_bytes(r.ceiling_texture@),
            s.light_level == r.light_level % 256,
            s.special == r.special,
            s.tag == r.tag,
    {
        let light = r.light_level % 256;
        Sector {
            floor_height: r.floor_height as i32,
            ceiling_height: r.ceiling_height as i32,
            floor_texture: WadName::from_slice(vstd::array::array_as_slice(&r.floor_texture)),
            ceiling_texture: WadName::from_slice(vstd::array::array_as_slice(&r.ceiling_texture)),
            light_level: light as u8,
            special: r.special as u32,
            tag: r.tag as u32,
        }
    }
}

impl Record for Sector {
    open spec fn spec_size() -> nat {
        26
    }

    fn size() -> (n: usize) {
        26
    }

    fn is_decodable(b: &[u8], at: usize) -> (r: bool) {
        true
    }

    open spec fn spec_decodable(rec: Seq<u8>) -> bool {
        true
    }

    open spec fn spec_decodes_to(rec: Seq<u8>, v: Self) -> bool {
        &&& v.floor_height == le_i16(rec, 0)
        &&& v.ceiling_height == le_i16(rec, 2)
        &&& v.floor_texture@ == spec_name_bytes(rec.subrange(4, 12))
        &&& v.ceiling_texture@ == spec_name_bytes(rec.subrange(12, 20))
        &&& v.light_level == le_u16(rec, 20) % 256
        &&& v.special == le_u16(rec, 22)
        &&& v.tag == le_u16(rec, 24)
    }

    fn decode(b: &[u8], at: usize) -> (r: Self) {
        let r = Sector::from_raw(RawSector::read(b, at));
        proof {
            let rec = b@.subrange(at as int, at + 26);
            assert(rec.subrange(4, 12) =~= b@.subrange(at + 4, at + 12));
            assert(rec.subrange(12, 20) =~= b@.subrange(at + 12, at + 20));
        }
        r
    }
}

// ---------------------------------------------------------------- PATCH

/// One patch of a composed texture: which picture (an index into the patch names) and
/// where its top-left corner goes.
#[derive(Clone, Copy, Debug)]
pub struct Patch {
    pub offset: IVec2,
    pub pname_i: u32,
}

/// A patch as a texture definition stores it (ten bytes).
#[derive(Clone, Copy, Debug)]
pub struct RawPatch {
    pub offset_x: i16,
    pub offset_y: i16,
    pub patch: u16,
    pub _step_dir: i16,
    pub _colormap: u16,
}

impl RawPatch {
    pub fn read(b: &[u8], at: usize) -> (r: Self)
        requires
            at + 10 <= b.len(),
        ensures
            r.offset_x == le_i16(b@, at as int),
            r.offset_y == le_i16(b@, at + 2),
            r.patch == le_u16(b@, at + 4),
            r._step_dir == le_i16(b@, at + 6),
            r._colormap == le_u16(b@, at + 8),
    {
        RawPatch {
            offset_x: read_i16(b, at),
            offset_y: read_i16(b, at + 2),
            patch: read_u16(b, at + 4),
            _step_dir: read_i16(b, at + 6),
            _colormap: read_u16(b, at + 8),
        }
    }
}

impl Patch {
    pub fn from_raw(r: RawPatch) -> (p: Self)
        ensures
            p.offset == (IVec2 { x: r.offset_x as i32, y: r.offset_y as i32 }),
            p.pname_i == r.patch,
    {
        Patch { offset: IVec2::new(r.offset_x as i32, r.offset_y as i32), pname_i: r.patch as u32 }
    }
}

impl Record for Patch {
    open spec fn spec_size() -> nat {
        10
    }

    fn size() -> (n: usize) {
        10
    }

    fn is_decodable(b: &[u8], at: usize) -> (r: bool) {
        true
    }

    open spec fn spec_decodable(rec: Seq<u8>) -> bool {
        true
    }

    open spec fn spec_decodes_to(rec: Seq<u8>, v: Self) -> bool {
        &&& v.offset == (IVec2 { x: le_i16(rec, 0) as i32, y: le_i16(rec, 2) as i32 })
        &&& v.pname_i == le_u16(rec, 4)
    }

    fn decode(b: &[u8], at: usize) -> (r: Self) {
        Patch::from_raw(RawPatch::read(b, at))
    }
}

// ---------------------------------------------------------------- HEADERS OF PICTURES AND TEXTURES

/// The eight bytes at the start of a picture lump.
#[derive(Clone, Copy, Debug)]
pub struct RawPictureHeader {
    pub width: u16,
    pub height: u16,
    pub left_offset: i16,
    pub top_offset: i16,
}

impl RawPictureHeader {
    pub fn read(b: &[u8], at: usize) -> (r: Self)
        requires
            at + 8 <= b.len(),
        ensures
            r.width == le_u16(b@, at as int),
            r.height == le_u16(b@, at + 2),
            r.left_offset == le_i16(b@, at + 4),
            r.top_offset == le_i16(b@, at + 6),
    {
        RawPictureHeader {
            width: read_u16(b, at),
            height: read_u16(b, at + 2),
            left_offset: read_i16(b, at + 4),
            top_offset: read_i16(b, at + 6),
        }
    }
}

/// The twenty-two bytes that start a texture definition in a TEXTURE1 or TEXTURE2 lump.
#[derive(Clone, Copy, Debug)]
pub struct RawTextureHeader {
    pub name: [u8; 8],
    pub _masked: u32,
    pub width: u16,
    pub height: u16,
    pub _column_directory: u32,
    pub num_patches: u16,
}

impl RawTextureHeader {
    pub fn read(b: &[u8], at: usize) -> (r: Self)
        requires
            at + 22 <= b.len(),
        ensures
            r.name@ == b@.subrange(at as int, at + 8),
            r._masked == le_u32(b@, at + 8),
            r.width == le_u16(b@, at + 12),
            r.height == le_u16(b@, at + 14),
            r._column_directory == le_u32(b@, at + 16),
            r.num_patches == le_u16(b@, at + 20),
    {
        RawTextureHeader {
            name: read_array8(b, at),
            _masked: read_u32(b, at + 8),
            width: read_u16(b, at + 12),
            height: read_u16(b, at + 14),
            _column_directory: read_u32(b, at + 16),
            num_patches: read_u16(b, at + 20),
        }
    }
}

/// A 32-bit little-endian integer at any byte position, as in offset tables.
#[derive(Clone, Copy, Debug)]
pub struct UnalignedU32(pub u32);

impl Record for UnalignedU32 {
    open spec fn spec_size() -> nat {
        4
    }

    fn size() -> (n: usize) {
        4
    }

    fn is_decodable(b: &[u8], at: usize) -> (r: bool) {
        true
    }

    open spec fn spec_decodable(rec: Seq<u8>) -> bool {
        true
    }

    open spec fn spec_decodes_to(rec: Seq<u8>, v: Self) -> bool {
        v.0 == le_u32(rec, 0)
    }

    fn decode(b: &[u8], at: usize) -> (r: Self) {
        UnalignedU32(read_u32(b, at))
    }
}

// ---------------------------------------------------------------- FLAT

/// A floor or ceiling texture: 64 by 64 palette indices, row by row.
#[derive(Clone, Debug)]
pub struct Flat {
    pub data: [u8; 4096],
}

impl Flat {
    /// A flat from the bytes of its lump, which must be exactly 64 by 64 of them.
    pub fn from_bytes(bytes: &[u8]) -> (r: Result<Self, WadError>)
        ensures
            r is Ok <==> bytes@.len() == 4096,
            r matches Ok(f) ==> f.data@ == bytes@,
            r matches Err(e) ==> e == WadError::FlatSize,
    {
        if bytes.len() != 4096 {
            return Err(WadError::FlatSize);
        }
        let mut data = [0u8; 4096];
        let mut k: usize = 0;
        while k < 4096
            invariant
                k <= 4096,
                bytes@.len() == 4096,
                forall|j: int| 0 <= j < k ==> data@[j] == bytes@[j],
            decreases 4096 - k,
        {
            data[k] = bytes[k];
            k = k + 1;
        }
        assert(data@ =~= bytes@);
        Ok(Flat { data })
    }
}

// ---------------------------------------------------------------- PICTURE

/// A picture as plain values.
pub struct PictureModel {
    pub width: u32,
    pub height: u32,
    pub offset: IVec2,
    pub data: Seq<Option<u8>>,
}

/// A picture in Doom's column format: width times height optional palette indices, row
/// by row; `None` is a transparent pixel.
#[derive(Clone, Debug)]
pub struct Picture {
    pub width: u32,
    pub height: u32,
    pub offset: IVec2,
    pub data: Vec<Option<u8>>,
}

impl View for Picture {
    type V = PictureModel;

    open spec fn view(&self) -> PictureModel {
        PictureModel { width: self.width, height: self.height, offset: self.offset, data: self.data@ }
    }
}

/// `n` transparent pixels.
pub open spec fn transparent(n: int) -> Seq<Option<u8>> {
    Seq::new(n as nat, |i: int| None::<u8>)
}

pub fn transparent_pixels(n: usize) -> (r: Vec<Option<u8>>)
    ensures
        r@ == transparent(n as int),
{
    let mut r: Vec<Option<u8>> = Vec::with_capacity(n);
    let mut k: usize = 0;
    while k < n
        invariant
            k <= n,
            r@ == transparent(k as int),
        decreases n - k,
    {
        r.push(None);
        k = k + 1;
        assert(r@ =~= transparent(k as int));
    }
    r
}

/// `data` after the pixels of one post are drawn: row `top + i` of column `column` takes
/// `pixels[i]`, in order of `i`. `None` where a pixel falls past the end of `data`.
pub open spec fn paint_post(data: Seq<Option<u8>>, width: int, column: int, top: int, pixels: Seq<u8>) -> Option<Seq<Option<u8>>>
    decreases pixels.len(),
{
    if pixels.len() == 0 {
        Some(data)
    } else {
        match paint_post(data, width, column, top, pixels.drop_last()) {
            Some(d) => {
                let idx = (top + pixels.len() - 1) * width + column;
                if 0 <= idx < d.len() {
                    Some(d.update(idx, Some(pixels.last())))
                } else {
                    None
                }
            },
            None => None,
        }
    }
}

/// `data` after the posts of column `column` that start at byte `at` of the lump `b` are
/// drawn. A post is a top row, a length `n`, an unused byte, `n` pixels and another unused
/// byte; a top row of 255 ends the column. `None` where a post runs past the end of the
/// lump or a pixel past the end of the picture.
pub open spec fn draw_posts(b: Seq<u8>, width: int, column: int, at: int, data: Seq<Option<u8>>) -> Option<Seq<Option<u8>>>
    decreases b.len() + 1 - at,
{
    if at < 0 || at + 1 >= b.len() {
        if 0 <= at < b.len() && b[at] == 255 {
            Some(data)
        } else {
            None
        }
    } else if b[at] == 255 {
        Some(data)
    } else if at + 3 + b[at + 1] > b.len() {
        None
    } else {
        match paint_post(data, width, column, b[at] as int, b.subrange(at + 3, at + 3 + b[at + 1])) {
            Some(d) => draw_posts(b, width, column, at + 4 + b[at + 1], d),
            None => None,
        }
    }
}

/// The picture's pixels after its first `n` columns are drawn, each from the offset that
/// the column table gives it.
pub open spec fn draw_columns(b: Seq<u8>, width: int, height: int, n: int) -> Option<Seq<Option<u8>>>
    decreases n,
{
    if n <= 0 {
        Some(transparent(width * height))
    } else {
        match draw_columns(b, width, height, n - 1) {
            Some(d) => draw_posts(b, width, n - 1, le_u32(b, 8 + 4 * (n - 1)), d),
            None => None,
        }
    }
}

/// The picture that the lump `b` holds: an eight-byte header (width, height, left and
/// top offset), a table of one 32-bit offset per column, and the columns' posts. `None`
/// where a read falls outside the lump or a pixel outside the picture.
pub open spec fn spec_picture(b: Seq<u8>) -> Option<PictureModel> {
    if b.len() < 8 || 8 + 4 * le_u16(b, 0) > b.len() {
        None
    } else {
        match draw_columns(b, le_u16(b, 0), le_u16(b, 2), le_u16(b, 0)) {
            Some(data) => Some(
                PictureModel {
                    width: le_u16(b, 0) as u32,
                    height: le_u16(b, 2) as u32,
                    offset: IVec2 { x: le_i16(b, 4) as i32, y: le_i16(b, 6) as i32 },
                    data,
                },
            ),
            None => None,
        }
    }
}

proof fn lemma_paint_post_prefix(data: Seq<Option<u8>>, width: int, column: int, top: int, pixels: Seq<u8>, i: int)
    requires
        0 <= i <= pixels.len(),
        paint_post(data, width, column, top, pixels) is Some,
    ensures
        paint_post(data, width, column, top, pixels.take(i)) is Some,
    decreases pixels.len(),
{
    if i < pixels.len() {
        assert(pixels.drop_last().take(i) =~= pixels.take(i));
        lemma_paint_post_prefix(data, width, column, top, pixels.drop_last(), i);
    } else {
        assert(pixels.take(i) =~= pixels);
    }
}

proof fn lemma_draw_columns_prefix(b: Seq<u8>, width: int, height: int, n: int, i: int)
    requires
        0 <= i <= n,
        draw_columns(b, width, height, n) is Some,
    ensures
        draw_columns(b, width, height, i) is Some,
    decreases n,
{
    if i < n {
        lemma_draw_columns_prefix(b, width, height, n - 1, i);
    }
}

impl Picture {
    /// Draws one post at byte `at` (not the end marker) into `data`; false where a pixel
    /// falls past the end of `data`, which may then hold part of the post.
    fn draw_post(bytes: &[u8], width: usize, column: usize, at: usize, data: &mut Vec<Option<u8>>) -> (ok: bool)
        requires
            at + 3 + bytes@[at + 1] <= bytes.len(),
            width <= 0xFFFF,
            column < width,
        ensures
            ok ==> Some(final(data)@) == paint_post(old(data)@, width as int, column as int,
                bytes@[at as int] as int, bytes@.subrange(at + 3, at + 3 + bytes@[at + 1])),
            !ok ==> paint_post(old(data)@, width as int, column as int, bytes@[at as int] as int,
                bytes@.subrange(at + 3, at + 3 + bytes@[at + 1])) is None,
    {
        let top = bytes[at] as usize;
        let n = bytes[at + 1] as usize;
        let ghost pixels = bytes@.subrange(at + 3, at + 3 + n);
        let ghost start = data@;
        let mut i: usize = 0;
        assert(pixels.take(0) =~= Seq::<u8>::empty());
        while i < n
            invariant
                i <= n,
                n == bytes@[at + 1],
                top == bytes@[at as int],
                at + 3 + n <= bytes.len(),
                width <= 0xFFFF,
                column < width,
                pixels == bytes@.subrange(at + 3, at + 3 + n),
                start == old(data)@,
                paint_post(start, width as int, column as int, top as int, pixels.take(i as int)) == Some(data@),
            decreases n - i,
        {
            proof {
                assert(pixels.take(i + 1).drop_last() =~= pixels.take(i as int));
                assert(top * width <= 255 * 0xFFFF) by (nonlinear_arith)
                    requires top <= 255, width <= 0xFFFF;
                assert(i * width <= 255 * 0xFFFF) by (nonlinear_arith)
                    requires i <= 255, width <= 0xFFFF;
                assert((top + i) * width == top * width + i * width) by (nonlinear_arith);
            }
            let idx = (top + i) * width + column;
            if idx >= data.len() {
                proof {
                    assert(paint_post(start, width as int, column as int, top as int, pixels.take(i + 1)) is None);
                    if paint_post(start, width as int, column as int, top as int, pixels) is Some {
                        lemma_paint_post_prefix(start, width as int, column as int, top as int, pixels, i + 1);
                    }
                }
                return false;
            }
            data.set(idx, Some(bytes[at + 3 + i]));
            i = i + 1;
        }
        assert(pixels.take(n as int) =~= pixels);
        true
    }

    /// The picture that the lump holds, or `None` where `spec_picture` has none.
    pub(crate) fn decode(bytes: &[u8]) -> (r: Option<Self>)
        ensures
            r is Some <==> spec_picture(bytes@) is Some,
            r matches Some(p) ==> p@ == spec_picture(bytes@).unwrap(),
    {
        let len = bytes.len();
        if len < 8 {
            return None;
        }
        let header = RawPictureHeader::read(bytes, 0);
        let width = header.width as usize;
        let height = header.height as usize;
        if 8 + 4 * width > len {
            return None;
        }
        assert(width * height <= 0xFFFF * 0xFFFF) by (nonlinear_arith)
            requires width <= 0xFFFF, height <= 0xFFFF;
        let mut data = transparent_pixels(width * height);
        let mut column: usize = 0;
        while column < width
            invariant
                column <= width,
                len == bytes@.len(),
                width == le_u16(bytes@, 0),
                height == le_u16(bytes@, 2),
                8 + 4 * width <= len,
                draw_columns(bytes@, width as int, height as int, column as int) == Some(data@),
            decreases width - column,
        {
            let ghost before = data@;
            let ghost target = draw_columns(bytes@, width as int, height as int, column + 1);
            assert(target == draw_posts(bytes@, width as int, column as int, le_u32(bytes@, 8 + 4 * column), before));
            let mut at = read_u32(bytes, 8 + 4 * column) as usize;
            let ghost failed = draw_columns(bytes@, width as int, height as int, width as int) is None;
            proof {
                if target is None && !failed {
                    lemma_draw_columns_prefix(bytes@, width as int, height as int, width as int, column + 1);
                }
            }
            loop
                invariant
                    column < width,
                    width <= 0xFFFF,
                    len == bytes@.len(),
                    draw_posts(bytes@, width as int, column as int, at as int, data@) == target,
                    target is None ==> failed,
                    failed == (draw_columns(bytes@, width as int, height as int, width as int) is None),
                    8 + 4 * width <= len,
                    width == le_u16(bytes@, 0),
                    height == le_u16(bytes@, 2),
                ensures
                    target == Some(data@),
                decreases len + 1 - at,
            {
                if at >= len - 1 {
                    if at < len && bytes[at] == 255 {
                        break;
                    }
                    return None;
                }
                if bytes[at] == 255 {
                    break;
                }
                let n = bytes[at + 1] as usize;
                if n + 3 >= len - at {
                    proof {
                        let painted = paint_post(data@, width as int, column as int, bytes@[at as int] as int,
                            bytes@.subrange(at + 3, at + 3 + n));
                        if at + 3 + n <= len && painted is Some {
                            assert(draw_posts(bytes@, width as int, column as int, at + 4 + n, painted.unwrap()) is None);
                        }
                    }
                    return None;
                }
                if !Self::draw_post(bytes, width, column, at, &mut data) {
                    return None;
                }
                at = at + 4 + n;
            }
            column = column + 1;
        }
        Some(
            Picture {
                width: header.width as u32,
                height: header.height as u32,
                offset: IVec2::new(header.left_offset as i32, header.top_offset as i32),
                data,
            },
        )
    }

    /// Whether the bytes hold a picture that `from_bytes` can draw: every read within the
    /// lump and every pixel within the picture.
    pub fn is_well_formed(bytes: &[u8]) -> (r: bool)
        ensures
            r == (spec_picture(bytes@) is Some),
    {
        Self::decode(bytes).is_some()
    }

    /// A picture from the bytes of its lump.
    pub fn from_bytes(bytes: &[u8]) -> (r: Result<Self, WadError>)
        requires
            spec_picture(bytes@) is Some,
        ensures
            r matches Ok(p) && p@ == spec_picture(bytes@).unwrap(),
    {
        match Self::decode(bytes) {
            Some(p) => Ok(p),
            None => vstd::pervasive::unreached(),
        }
    }
}

// ---------------------------------------------------------------- TEXTURE

/// A texture as plain values.
pub struct TextureModel {
    pub name: Seq<u8>,
    pub width: u32,
    pub height: u32,
    pub data: Seq<Option<u8>>,
}

/// A wall texture composed of patches: width times height optional palette indices, row
/// by row; `None` is a pixel that no patch covers.
#[derive(Clone, Debug)]
pub struct Texture {
    pub name: WadName,
    pub width: u32,
    pub height: u32,
    pub data: Vec<Option<u8>>,
}

impl View for Texture {
    type V = TextureModel;

    open spec fn view(&self) -> TextureModel {
        TextureModel { name: self.name@, width: self.width, height: self.height, data: self.data@ }
    }
}

/// `data`, a texture `tex_width` wide, after pixel (`x`, `y`) of `pic` is drawn with the
/// picture's top-left corner at (`ox`, `oy`): an opaque pixel lands at position
/// `(y + oy) * tex_width + x + ox` when that lies within `data` (a pixel past the right
/// edge thus lands on a later row), a transparent one draws nothing.
pub open spec fn blit_pixel(data: Seq<Option<u8>>, tex_width: int, pic: PictureModel, ox: int, oy: int, x: int, y: int) -> Seq<Option<u8>> {
    match pic.data[y * pic.width + x] {
        Some(p) => {
            let ti = (y + oy) * tex_width + (x + ox);
            if 0 <= ti < data.len() {
                data.update(ti, Some(p))
            } else {
                data
            }
        },
        None => data,
    }
}

/// `data` after the first `n` pixels of row `y` of `pic` are drawn, left to right.
pub open spec fn blit_row(data: Seq<Option<u8>>, tex_width: int, pic: PictureModel, ox: int, oy: int, y: int, n: int) -> Seq<Option<u8>>
    decreases n,
{
    if n <= 0 {
        data
    } else {
        blit_pixel(blit_row(data, tex_width, pic, ox, oy, y, n - 1), tex_width, pic, ox, oy, n - 1, y)
    }
}

/// `data` after the first `n` rows of `pic` are drawn, top to bottom.
pub open spec fn blit_rows(data: Seq<Option<u8>>, tex_width: int, pic: PictureModel, ox: int, oy: int, n: int) -> Seq<Option<u8>>
    decreases n,
{
    if n <= 0 {
        data
    } else {
        blit_row(blit_rows(data, tex_width, pic, ox, oy, n - 1), tex_width, pic, ox, oy, n - 1, pic.width as int)
    }
}

/// Whether the position of every opaque pixel of `pic` drawn at (`ox`, `oy`) into a texture
/// `tex_width` wide, and the row start on the way to it, are 32-bit integers.
pub open spec fn blit_in_i32(tex_width: int, pic: PictureModel, ox: int, oy: int) -> bool {
    forall|x: int, y: int|
        0 <= x < pic.width && 0 <= y < pic.height && (#[trigger] pic.data[y * pic.width + x]) is Some
            ==> pixel_in_i32(tex_width, pic, ox, oy, x, y)
}

/// `data`, a texture `tex_width` wide, after all of `pic` is drawn at (`ox`, `oy`).
pub open spec fn blit(data: Seq<Option<u8>>, tex_width: int, pic: PictureModel, ox: int, oy: int) -> Seq<Option<u8>> {
    blit_rows(data, tex_width, pic, ox, oy, pic.height as int)
}

pub proof fn lemma_blit_row_len(data: Seq<Option<u8>>, tex_width: int, pic: PictureModel, ox: int, oy: int, y: int, n: int)
    ensures
        blit_row(data, tex_width, pic, ox, oy, y, n).len() == data.len(),
    decreases n,
{
    if n > 0 {
        lemma_blit_row_len(data, tex_width, pic, ox, oy, y, n - 1);
    }
}

pub proof fn lemma_blit_rows_len(data: Seq<Option<u8>>, tex_width: int, pic: PictureModel, ox: int, oy: int, n: int)
    ensures
        blit_rows(data, tex_width, pic, ox, oy, n).len() == data.len(),
    decreases n,
{
    if n > 0 {
        lemma_blit_rows_len(data, tex_width, pic, ox, oy, n - 1);
        lemma_blit_row_len(blit_rows(data, tex_width, pic, ox, oy, n - 1), tex_width, pic, ox, oy, n - 1, pic.width as int);
    }
}

/// Whether opaque pixel (`x`, `y`) of `pic`, drawn with its top-left corner at (`ox`, `oy`)
/// into a texture `tex_width` wide, lands on position `t` of the texture's data.
pub open spec fn lands_at(tex_width: int, pic: PictureModel, ox: int, oy: int, x: int, y: int, t: int) -> bool {
    &&& 0 <= x < pic.width
    &&& 0 <= y < pic.height
    &&& pic.data[y * pic.width + x] is Some
    &&& (y + oy) * tex_width + (x + ox) == t
}

/// Whether pixel (`x1`, `y1`) comes after pixel (`x0`, `y0`) in drawing order: row by row,
/// left to right.
pub open spec fn drawn_after(x0: int, y0: int, x1: int, y1: int) -> bool {
    y1 > y0 || (y1 == y0 && x1 > x0)
}

proof fn lemma_blit_row_cell(data: Seq<Option<u8>>, tw: int, pic: PictureModel, ox: int, oy: int, y: int, n: int, t: int, x: int)
    requires
        0 <= n <= pic.width,
        0 <= y < pic.height,
        0 <= t < data.len(),
    ensures
        (forall|x1: int| 0 <= x1 < n ==> !#[trigger] lands_at(tw, pic, ox, oy, x1, y, t))
            ==> blit_row(data, tw, pic, ox, oy, y, n)[t] == data[t],
        (0 <= x < n && lands_at(tw, pic, ox, oy, x, y, t)
            && forall|x1: int| x < x1 < n ==> !#[trigger] lands_at(tw, pic, ox, oy, x1, y, t))
            ==> blit_row(data, tw, pic, ox, oy, y, n)[t] == pic.data[y * pic.width + x],
    decreases n,
{
    if n > 0 {
        lemma_blit_row_cell(data, tw, pic, ox, oy, y, n - 1, t, x);
        lemma_blit_row_len(data, tw, pic, ox, oy, y, n - 1);
        let prev = blit_row(data, tw, pic, ox, oy, y, n - 1);
        if !lands_at(tw, pic, ox, oy, n - 1, y, t) {
            assert(blit_row(data, tw, pic, ox, oy, y, n)[t] == prev[t]);
        }
    }
}

proof fn lemma_blit_rows_cell(data: Seq<Option<u8>>, tw: int, pic: PictureModel, ox: int, oy: int, n: int, t: int, x: int, y: int)
    requires
        0 <= n <= pic.height,
        0 <= t < data.len(),
    ensures
        (forall|x1: int, y1: int| 0 <= y1 < n ==> !#[trigger] lands_at(tw, pic, ox, oy, x1, y1, t))
            ==> blit_rows(data, tw, pic, ox, oy, n)[t] == data[t],
        (0 <= y < n && lands_at(tw, pic, ox, oy, x, y, t)
            && forall|x1: int, y1: int| y1 < n && drawn_after(x, y, x1, y1) ==> !#[trigger] lands_at(tw, pic, ox, oy, x1, y1, t))
            ==> blit_rows(data, tw, pic, ox, oy, n)[t] == pic.data[y * pic.width + x],
    decreases n,
{
    if n > 0 {
        lemma_blit_rows_cell(data, tw, pic, ox, oy, n - 1, t, x, y);
        lemma_blit_rows_len(data, tw, pic, ox, oy, n - 1);
        let prev = blit_rows(data, tw, pic, ox, oy, n - 1);
        let r = n - 1;
        lemma_blit_row_cell(prev, tw, pic, ox, oy, r, pic.width as int, t, x);
        if forall|x1: int, y1: int| 0 <= y1 < n ==> !#[trigger] lands_at(tw, pic, ox, oy, x1, y1, t) {
            assert forall|x1: int| 0 <= x1 < pic.width implies !#[trigger] lands_at(tw, pic, ox, oy, x1, r, t) by {
                assert(!lands_at(tw, pic, ox, oy, x1, r, t));
            }
            assert forall|x1: int, y1: int| 0 <= y1 < n - 1 implies !#[trigger] lands_at(tw, pic, ox, oy, x1, y1, t) by {
                assert(!lands_at(tw, pic, ox, oy, x1, y1, t));
            }
        }
        if 0 <= y < n && lands_at(tw, pic, ox, oy, x, y, t)
            && forall|x1: int, y1: int| y1 < n && drawn_after(x, y, x1, y1) ==> !#[trigger] lands_at(tw, pic, ox, oy, x1, y1, t) {
            if y == r {
                assert forall|x1: int| x < x1 < pic.width implies !#[trigger] lands_at(tw, pic, ox, oy, x1, r, t) by {
                    assert(drawn_after(x, y, x1, r));
                }
            } else {
                assert forall|x1: int| 0 <= x1 < pic.width implies !#[trigger] lands_at(tw, pic, ox, oy, x1, r, t) by {
                    assert(drawn_after(x, y, x1, r));
                }
                assert forall|x1: int, y1: int| y1 < n - 1 && drawn_after(x, y, x1, y1) implies !#[trigger] lands_at(tw, pic, ox, oy, x1, y1, t) by {
                    assert(drawn_after(x, y, x1, y1));
                }
            }
        }
    }
}

/// Drawing a picture into a texture: a position that no opaque pixel lands on keeps what
/// it held, and one that some do holds the pixel of the last of them in drawing order (row
/// by row, left to right), whatever the texture held there before.
pub proof fn lemma_blit_last_wins(data: Seq<Option<u8>>, tex_width: int, pic: PictureModel, ox: int, oy: int, t: int, x: int, y: int)
    requires
        0 <= t < data.len(),
    ensures
        blit(data, tex_width, pic, ox, oy).len() == data.len(),
        (forall|x1: int, y1: int| !#[trigger] lands_at(tex_width, pic, ox, oy, x1, y1, t))
            ==> blit(data, tex_width, pic, ox, oy)[t] == data[t],
        (lands_at(tex_width, pic, ox, oy, x, y, t)
            && forall|x1: int, y1: int| drawn_after(x, y, x1, y1) ==> !#[trigger] lands_at(tex_width, pic, ox, oy, x1, y1, t))
            ==> blit(data, tex_width, pic, ox, oy)[t] == pic.data[y * pic.width + x],
{
    lemma_blit_rows_len(data, tex_width, pic, ox, oy, pic.height as int);
    lemma_blit_rows_cell(data, tex_width, pic, ox, oy, pic.height as int, t, x, y);
}

/// Whether the position of opaque pixel (`x`, `y`) of `pic` drawn at (`ox`, `oy`) into a
/// texture `tex_width` wide, and the row start on the way to it, are 32-bit integers.
pub open spec fn pixel_in_i32(tex_width: int, pic: PictureModel, ox: int, oy: int, x: int, y: int) -> bool {
    &&& i32::MIN <= (y + oy) * tex_width <= i32::MAX
    &&& i32::MIN <= (y + oy) * tex_width + (x + ox) <= i32::MAX
}

/// Whether every position that drawing `pic` at (`ox`, `oy`) computes is a 32-bit integer
/// (see `blit_in_i32`).
pub fn blit_fits_i32(tex_width: u32, pic: &Picture, ox: i32, oy: i32) -> (r: bool)
    requires
        pic.width <= 0xFFFF,
        pic.height <= 0xFFFF,
        pic.data@.len() == pic.width * pic.height,
        tex_width <= 0xFFFF,
        -0x8000 <= ox < 0x8000,
        -0x8000 <= oy < 0x8000,
    ensures
        r == blit_in_i32(tex_width as int, pic@, ox as int, oy as int),
{
    let width = pic.width;
    let height = pic.height;
    let mut y: u32 = 0;
    while y < height
        invariant
            y <= height,
            width == pic.width,
            height == pic.height,
            pic.width <= 0xFFFF,
            pic.height <= 0xFFFF,
            pic.data@.len() == pic.width * pic.height,
            tex_width <= 0xFFFF,
            -0x8000 <= ox < 0x8000,
            -0x8000 <= oy < 0x8000,
            forall|xx: int, yy: int|
                0 <= xx < width && 0 <= yy < y && (#[trigger] pic@.data[yy * pic@.width + xx]) is Some
                    ==> pixel_in_i32(tex_width as int, pic@, ox as int, oy as int, xx, yy),
        decreases height - y,
    {
        let mut x: u32 = 0;
        while x < width
            invariant
                x <= width,
                y < height,
                width == pic.width,
                height == pic.height,
                pic.width <= 0xFFFF,
                pic.height <= 0xFFFF,
                pic.data@.len() == pic.width * pic.height,
                tex_width <= 0xFFFF,
                -0x8000 <= ox < 0x8000,
                -0x8000 <= oy < 0x8000,
                forall|xx: int, yy: int|
                    0 <= xx < width && 0 <= yy < y && (#[trigger] pic@.data[yy * pic@.width + xx]) is Some
                        ==> pixel_in_i32(tex_width as int, pic@, ox as int, oy as int, xx, yy),
                forall|xx: int|
                    0 <= xx < x && (#[trigger] pic@.data[y * pic@.width + xx]) is Some
                        ==> pixel_in_i32(tex_width as int, pic@, ox as int, oy as int, xx, y as int),
            decreases width - x,
        {
            proof {
                assert(y * width + x < width * height) by (nonlinear_arith)
                    requires y < height, x < width;
                assert(y * width <= 0xFFFF * 0xFFFF) by (nonlinear_arith)
                    requires y < height, height <= 0xFFFF, width <= 0xFFFF;
            }
            let picture_i = (y as usize) * (width as usize) + x as usize;
            if pic.data[picture_i].is_some() {
                proof {
                    let a = y as int + oy as int;
                    assert(-0x8000 <= a < 0x18000);
                    assert(-0x8000 * 0xFFFF <= a * tex_width <= 0x18000 * 0xFFFF) by (nonlinear_arith)
                        requires -0x8000 <= a < 0x18000, 0 <= tex_width <= 0xFFFF;
                }
                let row: i64 = (y as i64 + oy as i64) * tex_width as i64;
                let at: i64 = row + (x as i64 + ox as i64);
                if row < -0x8000_0000 || row > 0x7FFF_FFFF || at < -0x8000_0000 || at > 0x7FFF_FFFF {
                    assert(pic@.data[y * pic@.width + x] is Some);
                    assert(!pixel_in_i32(tex_width as int, pic@, ox as int, oy as int, x as int, y as int));
                    return false;
                }
            }
            x = x + 1;
        }
        y = y + 1;
    }
    true
}

/// Draws `pic` into `data`, a texture `tex_width` wide, with its top-left corner at (`ox`, `oy`).
pub fn blit_picture(data: &mut Vec<Option<u8>>, tex_width: u32, pic: &Picture, ox: i32, oy: i32)
    requires
        pic.width <= 0xFFFF,
        pic.height <= 0xFFFF,
        pic.data@.len() == pic.width * pic.height,
        tex_width <= 0xFFFF,
        old(data)@.len() <= 0xFFFF * 0xFFFF,
        -0x8000 <= ox < 0x8000,
        -0x8000 <= oy < 0x8000,
    ensures
        final(data)@ == blit(old(data)@, tex_width as int, pic@, ox as int, oy as int),
{
    let ghost start = data@;
    let width = pic.width;
    let height = pic.height;
    let mut y: u32 = 0;
    while y < height
        invariant
            y <= height,
            width == pic.width,
            height == pic.height,
            pic.width <= 0xFFFF,
            pic.height <= 0xFFFF,
            pic.data@.len() == pic.width * pic.height,
            tex_width <= 0xFFFF,
            start.len() <= 0xFFFF * 0xFFFF,
            -0x8000 <= ox < 0x8000,
            -0x8000 <= oy < 0x8000,
            data@ == blit_rows(start, tex_width as int, pic@, ox as int, oy as int, y as int),
            data@.len() == start.len(),
        decreases height - y,
    {
        let ghost row_start = data@;
        let mut x: u32 = 0;
        while x < width
            invariant
                x <= width,
                y < height,
                width == pic.width,
                height == pic.height,
                pic.width <= 0xFFFF,
                pic.height <= 0xFFFF,
                pic.data@.len() == pic.width * pic.height,
                tex_width <= 0xFFFF,
                start.len() <= 0xFFFF * 0xFFFF,
                -0x8000 <= ox < 0x8000,
                -0x8000 <= oy < 0x8000,
                row_start == blit_rows(start, tex_width as int, pic@, ox as int, oy as int, y as int),
                data@ == blit_row(row_start, tex_width as int, pic@, ox as int, oy as int, y as int, x as int),
                data@.len() == start.len(),
            decreases width - x,
        {
            proof {
                assert(y * width + x < width * height) by (nonlinear_arith)
                    requires y < height, x < width;
                assert(y * width <= 0xFFFF * 0xFFFF) by (nonlinear_arith)
                    requires y < height, height <= 0xFFFF, width <= 0xFFFF;
            }
            let picture_i = (y as usize) * (width as usize) + x as usize;
            if let Some(pixel) = pic.data[picture_i] {
                proof {
                    let a = y as int + oy as int;
                    assert(-0x8000 <= a < 0x18000);
                    assert(-0x8000 * 0xFFFF <= a * tex_width <= 0x18000 * 0xFFFF) by (nonlinear_arith)
                        requires -0x8000 <= a < 0x18000, 0 <= tex_width <= 0xFFFF;
                }
                let texture_i: i64 = (y as i64 + oy as i64) * tex_width as i64 + (x as i64 + ox as i64);
                if texture_i >= 0 && texture_i < data.len() as i64 {
                    data.set(texture_i as usize, Some(pixel));
                }
            }
            x = x + 1;
        }
        y = y + 1;
    }
}

proof fn lemma_paint_post_len(data: Seq<Option<u8>>, width: int, column: int, top: int, pixels: Seq<u8>)
    ensures
        paint_post(data, width, column, top, pixels) matches Some(d) ==> d.len() == data.len(),
    decreases pixels.len(),
{
    if pixels.len() > 0 {
        lemma_paint_post_len(data, width, column, top, pixels.drop_last());
        if let Some(d) = paint_post(data, width, column, top, pixels.drop_last()) {
            let idx = (top + pixels.len() - 1) * width + column;
            if 0 <= idx < d.len() {
                assert(d.update(idx, Some(pixels.last())).len() == d.len());
            }
        }
    }
}

proof fn lemma_draw_posts_len(b: Seq<u8>, width: int, column: int, at: int, data: Seq<Option<u8>>)
    ensures
        draw_posts(b, width, column, at, data) matches Some(d) ==> d.len() == data.len(),
    decreases b.len() + 1 - at,
{
    if !(at < 0 || at + 1 >= b.len()) && b[at] != 255 && at + 3 + b[at + 1] <= b.len() {
        let pixels = b.subrange(at + 3, at + 3 + b[at + 1]);
        lemma_paint_post_len(data, width, column, b[at] as int, pixels);
        if let Some(d) = paint_post(data, width, column, b[at] as int, pixels) {
            lemma_draw_posts_len(b, width, column, at + 4 + b[at + 1], d);
        }
    }
}

proof fn lemma_draw_columns_len(b: Seq<u8>, width: int, height: int, n: int)
    requires
        width >= 0,
        height >= 0,
    ensures
        draw_columns(b, width, height, n) matches Some(d) ==> d.len() == width * height,
    decreases n,
{
    if n > 0 {
        lemma_draw_columns_len(b, width, height, n - 1);
        if let Some(d) = draw_columns(b, width, height, n - 1) {
            lemma_draw_posts_len(b, width, n - 1, le_u32(b, 8 + 4 * (n - 1)), d);
        }
    } else {
        assert(width * height >= 0) by (nonlinear_arith)
            requires width >= 0, height >= 0;
    }
}

/// The offset of post `k` of a column whose posts start at byte `at` of the lump `b`: a
/// post takes four bytes more than its pixels.
pub open spec fn post_offset(b: Seq<u8>, at: int, k: int) -> int
    decreases k,
{
    if k <= 0 {
        at
    } else {
        let p = post_offset(b, at, k - 1);
        p + 4 + b[p + 1]
    }
}

/// The top row of post `k`.
pub open spec fn post_top(b: Seq<u8>, at: int, k: int) -> int {
    b[post_offset(b, at, k)] as int
}

/// The number of pixels of post `k`.
pub open spec fn post_len(b: Seq<u8>, at: int, k: int) -> int {
    b[post_offset(b, at, k) + 1] as int
}

/// Pixel `i` of post `k`.
pub open spec fn post_pixel(b: Seq<u8>, at: int, k: int, i: int) -> u8 {
    b[post_offset(b, at, k) + 3 + i]
}

/// Whether post `k` paints row `row`.
pub open spec fn post_covers(b: Seq<u8>, at: int, k: int, row: int) -> bool {
    post_top(b, at, k) <= row < post_top(b, at, k) + post_len(b, at, k)
}

/// Whether walking the posts from byte `at` meets `count` posts and then the end marker 255.
pub open spec fn column_posts(b: Seq<u8>, at: int, count: int) -> bool {
    &&& 0 <= count
    &&& forall|j: int| 0 <= j < count ==> {
        &&& 0 <= #[trigger] post_offset(b, at, j)
        &&& post_offset(b, at, j) + 1 < b.len()
        &&& b[post_offset(b, at, j)] != 255
    }
    &&& 0 <= post_offset(b, at, count) < b.len()
    &&& b[post_offset(b, at, count)] == 255
}

proof fn lemma_cell_unique(r1: int, c1: int, r2: int, c2: int, w: int)
    requires
        0 <= c1 < w,
        0 <= c2 < w,
        r1 * w + c1 == r2 * w + c2,
    ensures
        r1 == r2,
        c1 == c2,
{
    assert(r1 == r2) by (nonlinear_arith)
        requires 0 <= c1 < w, 0 <= c2 < w, r1 * w + c1 == r2 * w + c2;
}

proof fn lemma_post_offset_shift(b: Seq<u8>, at: int, j: int)
    requires
        0 <= j,
    ensures
        post_offset(b, at, j + 1) == post_offset(b, post_offset(b, at, 1), j),
    decreases j,
{
    if j > 0 {
        lemma_post_offset_shift(b, at, j - 1);
    }
}

proof fn lemma_paint_post_cells(d: Seq<Option<u8>>, w: int, c: int, top: int, px: Seq<u8>, row: int, col: int)
    requires
        0 <= c < w,
        0 <= col < w,
        paint_post(d, w, c, top, px) is Some,
    ensures
        paint_post(d, w, c, top, px).unwrap().len() == d.len(),
        (col == c && top <= row < top + px.len()) ==> 0 <= row * w + col < d.len()
            && paint_post(d, w, c, top, px).unwrap()[row * w + col] == Some(px[row - top]),
        (!(col == c && top <= row < top + px.len()) && 0 <= row * w + col < d.len())
            ==> paint_post(d, w, c, top, px).unwrap()[row * w + col] == d[row * w + col],
    decreases px.len(),
{
    lemma_paint_post_len(d, w, c, top, px);
    if px.len() > 0 {
        let prev = paint_post(d, w, c, top, px.drop_last()).unwrap();
        lemma_paint_post_cells(d, w, c, top, px.drop_last(), row, col);
        lemma_paint_post_len(d, w, c, top, px.drop_last());
        let idx = (top + px.len() - 1) * w + c;
        let x = row * w + col;
        if x == idx {
            lemma_cell_unique(row, col, top + px.len() - 1, c, w);
        } else if col == c && top <= row < top + px.len() - 1 {
            assert(px.drop_last()[row - top] == px[row - top]);
        }
    }
}

proof fn lemma_draw_posts_other_column(b: Seq<u8>, w: int, c: int, at: int, d: Seq<Option<u8>>, row: int, col: int)
    requires
        0 <= c < w,
        0 <= col < w,
        col != c,
        draw_posts(b, w, c, at, d) is Some,
        0 <= row * w + col < d.len(),
    ensures
        draw_posts(b, w, c, at, d).unwrap()[row * w + col] == d[row * w + col],
    decreases b.len() + 1 - at,
{
    if !(at < 0 || at + 1 >= b.len()) && b[at] != 255 && at + 3 + b[at + 1] <= b.len() {
        let pixels = b.subrange(at + 3, at + 3 + b[at + 1]);
        lemma_paint_post_cells(d, w, c, b[at] as int, pixels, row, col);
        let d1 = paint_post(d, w, c, b[at] as int, pixels).unwrap();
        lemma_draw_posts_other_column(b, w, c, at + 4 + b[at + 1], d1, row, col);
    }
}

proof fn lemma_draw_posts_walk(b: Seq<u8>, w: int, c: int, at: int, d: Seq<Option<u8>>, count: int, k: int, i: int, row: int)
    requires
        0 <= c < w,
        draw_posts(b, w, c, at, d) is Some,
        column_posts(b, at, count),
    ensures
        (0 <= k < count && 0 <= i < post_len(b, at, k)
            && forall|k2: int| k < k2 < count ==> !#[trigger] post_covers(b, at, k2, post_top(b, at, k) + i))
            ==> draw_posts(b, w, c, at, d).unwrap()[(post_top(b, at, k) + i) * w + c] == Some(post_pixel(b, at, k, i)),
        ((forall|k2: int| 0 <= k2 < count ==> !#[trigger] post_covers(b, at, k2, row)) && 0 <= row * w + c < d.len())
            ==> draw_posts(b, w, c, at, d).unwrap()[row * w + c] == d[row * w + c],
    decreases count,
{
    if count == 0 {
        assert(post_offset(b, at, 0) == at);
    } else {
        assert(post_offset(b, at, 0) == at);
        assert(0 <= post_offset(b, at, 0));
        let n = b[at + 1] as int;
        let top = b[at] as int;
        let pixels = b.subrange(at + 3, at + 3 + n);
        let d1 = paint_post(d, w, c, top, pixels).unwrap();
        let at1 = at + 4 + n;
        assert(post_offset(b, at, 1) == at1);
        lemma_draw_posts_len(b, w, c, at, d);
        lemma_paint_post_len(d, w, c, top, pixels);
        assert forall|j: int| 0 <= j <= count - 1 implies post_offset(b, at, j + 1) == #[trigger] post_offset(b, at1, j) by {
            lemma_post_offset_shift(b, at, j);
        }
        assert(column_posts(b, at1, count - 1)) by {
            assert forall|j: int| 0 <= j < count - 1 implies {
                &&& 0 <= #[trigger] post_offset(b, at1, j)
                &&& post_offset(b, at1, j) + 1 < b.len()
                &&& b[post_offset(b, at1, j)] != 255
            } by {
                assert(post_offset(b, at, j + 1) == post_offset(b, at1, j));
                assert(0 <= post_offset(b, at, j + 1));
            }
            assert(post_offset(b, at, count) == post_offset(b, at1, count - 1));
        }
        // a later post of the walk from `at` is a post of the walk from `at1`
        assert forall|k2: int, r: int| 1 <= k2 <= count implies #[trigger] post_covers(b, at, k2, r) == post_covers(b, at1, k2 - 1, r) by {
            assert(post_offset(b, at, (k2 - 1) + 1) == post_offset(b, at1, k2 - 1));
        }
        if 0 <= k < count && 0 <= i < post_len(b, at, k)
            && forall|k2: int| k < k2 < count ==> !#[trigger] post_covers(b, at, k2, post_top(b, at, k) + i) {
            if k == 0 {
                let r0 = top + i;
                assert(post_top(b, at, k) + i == r0);
                lemma_paint_post_cells(d, w, c, top, pixels, r0, c);
                assert(pixels[r0 - top] == post_pixel(b, at, 0, i));
                assert forall|k2: int| 0 <= k2 < count - 1 implies !#[trigger] post_covers(b, at1, k2, r0) by {
                    assert(!post_covers(b, at, k2 + 1, post_top(b, at, k) + i));
                    assert(post_covers(b, at, k2 + 1, r0) == post_covers(b, at1, k2, r0));
                }
                lemma_draw_posts_walk(b, w, c, at1, d1, count - 1, 0, 0, r0);
            } else {
                assert(post_top(b, at, k) == post_top(b, at1, k - 1));
                assert(post_len(b, at, k) == post_len(b, at1, k - 1));
                assert(post_pixel(b, at, k, i) == post_pixel(b, at1, k - 1, i));
                assert forall|k2: int| k - 1 < k2 < count - 1 implies !#[trigger] post_covers(b, at1, k2, post_top(b, at1, k - 1) + i) by {
                    assert(post_covers(b, at, k2 + 1, post_top(b, at, k) + i) == post_covers(b, at1, k2, post_top(b, at1, k - 1) + i));
                }
                lemma_draw_posts_walk(b, w, c, at1, d1, count - 1, k - 1, i, row);
            }
        }
        if (forall|k2: int| 0 <= k2 < count ==> !#[trigger] post_covers(b, at, k2, row)) && 0 <= row * w + c < d.len() {
            assert(!post_covers(b, at, 0, row));
            lemma_paint_post_cells(d, w, c, top, pixels, row, c);
            assert forall|k2: int| 0 <= k2 < count - 1 implies !#[trigger] post_covers(b, at1, k2, row) by {
                assert(post_covers(b, at, k2 + 1, row) == post_covers(b, at1, k2, row));
            }
            lemma_draw_posts_walk(b, w, c, at1, d1, count - 1, 0, 0, row);
        }
    }
}

proof fn lemma_cell_in_range(row: int, col: int, w: int, h: int)
    requires
        0 <= row < h,
        0 <= col < w,
    ensures
        0 <= row * w + col < w * h,
{
    assert(0 <= row * w + col < w * h) by (nonlinear_arith)
        requires 0 <= row < h, 0 <= col < w;
}

proof fn lemma_draw_columns_undrawn(b: Seq<u8>, w: int, h: int, n: int, row: int, col: int)
    requires
        0 <= n <= w,
        0 <= h,
        draw_columns(b, w, h, n) is Some,
        n <= col < w,
        0 <= row < h,
    ensures
        draw_columns(b, w, h, n).unwrap()[row * w + col] == None::<u8>,
    decreases n,
{
    lemma_draw_columns_len(b, w, h, n);
    lemma_cell_in_range(row, col, w, h);
    if n > 0 {
        let prev = draw_columns(b, w, h, n - 1).unwrap();
        lemma_draw_columns_len(b, w, h, n - 1);
        lemma_draw_columns_undrawn(b, w, h, n - 1, row, col);
        lemma_draw_posts_other_column(b, w, n - 1, le_u32(b, 8 + 4 * (n - 1)), prev, row, col);
    }
}

#[verifier::spinoff_prover]
proof fn lemma_draw_columns_post(b: Seq<u8>, w: int, h: int, n: int, c: int, count: int, k: int, i: int)
    requires
        0 <= n <= w,
        0 <= h,
        draw_columns(b, w, h, n) is Some,
        0 <= c < n,
        column_posts(b, le_u32(b, 8 + 4 * c), count),
        0 <= k < count,
        0 <= i < post_len(b, le_u32(b, 8 + 4 * c), k),
        forall|k2: int| k < k2 < count ==> !#[trigger] post_covers(b, le_u32(b, 8 + 4 * c), k2, post_top(b, le_u32(b, 8 + 4 * c), k) + i),
    ensures
        draw_columns(b, w, h, n).unwrap()[(post_top(b, le_u32(b, 8 + 4 * c), k) + i) * w + c]
            == Some(post_pixel(b, le_u32(b, 8 + 4 * c), k, i)),
    decreases n,
{
    let at = le_u32(b, 8 + 4 * c);
    let r0 = post_top(b, at, k) + i;
    let prev = draw_columns(b, w, h, n - 1).unwrap();
    lemma_draw_columns_len(b, w, h, n - 1);
    if c == n - 1 {
        lemma_draw_posts_walk(b, w, c, at, prev, count, k, i, r0);
    } else {
        lemma_draw_columns_post(b, w, h, n - 1, c, count, k, i);
        lemma_draw_columns_prefix(b, w, h, n - 1, c + 1);
        let before_c = draw_columns(b, w, h, c).unwrap();
        lemma_draw_columns_len(b, w, h, c);
        lemma_draw_posts_walk_range(b, w, c, at, before_c, count, k, i);
        lemma_draw_posts_other_column(b, w, n - 1, le_u32(b, 8 + 4 * (n - 1)), prev, r0, c);
    }
}

#[verifier::spinoff_prover]
proof fn lemma_draw_columns_empty_row(b: Seq<u8>, w: int, h: int, n: int, c: int, count: int, row: int)
    requires
        0 <= n <= w,
        0 <= h,
        draw_columns(b, w, h, n) is Some,
        0 <= c < n,
        column_posts(b, le_u32(b, 8 + 4 * c), count),
        0 <= row < h,
        forall|k2: int| 0 <= k2 < count ==> !#[trigger] post_covers(b, le_u32(b, 8 + 4 * c), k2, row),
    ensures
        draw_columns(b, w, h, n).unwrap()[row * w + c] == None::<u8>,
    decreases n,
{
    let at = le_u32(b, 8 + 4 * c);
    let prev = draw_columns(b, w, h, n - 1).unwrap();
    lemma_draw_columns_len(b, w, h, n - 1);
    lemma_cell_in_range(row, c, w, h);
    if c == n - 1 {
        lemma_draw_columns_undrawn(b, w, h, n - 1, row, c);
        lemma_draw_posts_walk(b, w, c, at, prev, count, 0, 0, row);
    } else {
        lemma_draw_columns_empty_row(b, w, h, n - 1, c, count, row);
        lemma_draw_posts_other_column(b, w, n - 1, le_u32(b, 8 + 4 * (n - 1)), prev, row, c);
    }
}

proof fn lemma_draw_posts_walk_range(b: Seq<u8>, w: int, c: int, at: int, d: Seq<Option<u8>>, count: int, k: int, i: int)
    requires
        0 <= c < w,
        draw_posts(b, w, c, at, d) is Some,
        column_posts(b, at, count),
        0 <= k < count,
        0 <= i < post_len(b, at, k),
    ensures
        0 <= (post_top(b, at, k) + i) * w + c < d.len(),
    decreases count,
{
    assert(post_offset(b, at, 0) == at);
    assert(0 <= post_offset(b, at, 0));
    let n = b[at + 1] as int;
    let top = b[at] as int;
    let pixels = b.subrange(at + 3, at + 3 + n);
    let at1 = at + 4 + n;
    assert(post_offset(b, at, 1) == at1);
    if k == 0 {
        lemma_paint_post_cells(d, w, c, top, pixels, top + i, c);
    } else {
        let d1 = paint_post(d, w, c, top, pixels).unwrap();
        lemma_paint_post_len(d, w, c, top, pixels);
        assert forall|j: int| 0 <= j <= count - 1 implies post_offset(b, at, j + 1) == #[trigger] post_offset(b, at1, j) by {
            lemma_post_offset_shift(b, at, j);
        }
        assert(column_posts(b, at1, count - 1)) by {
            assert forall|j: int| 0 <= j < count - 1 implies {
                &&& 0 <= #[trigger] post_offset(b, at1, j)
                &&& post_offset(b, at1, j) + 1 < b.len()
                &&& b[post_offset(b, at1, j)] != 255
            } by {
                assert(post_offset(b, at, j + 1) == post_offset(b, at1, j));
                assert(0 <= post_offset(b, at, j + 1));
            }
            assert(post_offset(b, at, count) == post_offset(b, at1, count - 1));
        }
        assert(post_offset(b, at, (k - 1) + 1) == post_offset(b, at1, k - 1));
        lemma_draw_posts_walk_range(b, w, c, at1, d1, count - 1, k - 1, i);
    }
}

/// Every post of a picture's column is drawn: walking a column's posts from its table
/// offset to the end marker, pixel `i` of each post stands at row `top + i` of the column,
/// unless a later post of the column paints that row; a row that no post paints is
/// transparent.
pub proof fn lemma_picture_posts(b: Seq<u8>, c: int, count: int, k: int, i: int, row: int)
    requires
        spec_picture(b) is Some,
        0 <= c < le_u16(b, 0),
        column_posts(b, le_u32(b, 8 + 4 * c), count),
    ensures
        ({
            let p = spec_picture(b).unwrap();
            let at = le_u32(b, 8 + 4 * c);
            (0 <= k < count && 0 <= i < post_len(b, at, k)
                && forall|k2: int| k < k2 < count ==> !#[trigger] post_covers(b, at, k2, post_top(b, at, k) + i))
                ==> p.data[(post_top(b, at, k) + i) * p.width + c] == Some(post_pixel(b, at, k, i))
        }),
        ({
            let p = spec_picture(b).unwrap();
            let at = le_u32(b, 8 + 4 * c);
            (0 <= row < p.height && forall|k2: int| 0 <= k2 < count ==> !#[trigger] post_covers(b, at, k2, row))
                ==> p.data[row * p.width + c] == None::<u8>
        }),
{
    let w = le_u16(b, 0);
    let h = le_u16(b, 2);
    let at = le_u32(b, 8 + 4 * c);
    if 0 <= k < count && 0 <= i < post_len(b, at, k)
        && forall|k2: int| k < k2 < count ==> !#[trigger] post_covers(b, at, k2, post_top(b, at, k) + i) {
        lemma_draw_columns_post(b, w, h, w, c, count, k, i);
    }
    if 0 <= row < h && forall|k2: int| 0 <= k2 < count ==> !#[trigger] post_covers(b, at, k2, row) {
        lemma_draw_columns_empty_row(b, w, h, w, c, count, row);
    }
}

/// A picture read from a lump has one pixel for each of its width times height places,
/// and its sides are at most 65535.
pub proof fn lemma_picture_size(b: Seq<u8>)
    requires
        spec_picture(b) is Some,
    ensures
        spec_picture(b).unwrap().data.len() == spec_picture(b).unwrap().width * spec_picture(b).unwrap().height,
        spec_picture(b).unwrap().width <= 0xFFFF,
        spec_picture(b).unwrap().height <= 0xFFFF,
{
    lemma_draw_columns_len(b, le_u16(b, 0), le_u16(b, 2), le_u16(b, 0));
}

// ---------------------------------------------------------------- IMAGES

impl Flat {
    /// The flat as a true-colour image, 64 by 64.
    pub fn to_image(&self, palette: &DoomPalette) -> (r: RgbaImage)
        ensures
            r.width == 64,
            r.height == 64,
            r.data@ == rgba_pixels(palette.colors(), self.data@.map_values(|i: u8| Some(i))),
    {
        RgbaImage { width: 64, height: 64, data: palette.rgba_opaque(vstd::array::array_as_slice(&self.data)) }
    }
}

impl Picture {
    /// The picture as a true-colour image; transparent pixels are transparent black.
    pub fn to_image(&self, palette: &DoomPalette) -> (r: RgbaImage)
        requires
            4 * self.data@.len() <= isize::MAX,
        ensures
            r.width == self.width,
            r.height == self.height,
            r.data@ == rgba_pixels(palette.colors(), self.data@),
    {
        RgbaImage { width: self.width, height: self.height, data: palette.rgba_optional(self.data.as_slice()) }
    }
}

impl Texture {
    /// The texture as a true-colour image; pixels that no patch covers are transparent black.
    pub fn to_image(&self, palette: &DoomPalette) -> (r: RgbaImage)
        requires
            4 * self.data@.len() <= isize::MAX,
        ensures
            r.width == self.width,
            r.height == self.height,
            r.data@ == rgba_pixels(palette.colors(), self.data@),
    {
        RgbaImage { width: self.width, height: self.height, data: palette.rgba_optional(self.data.as_slice()) }
    }
}

// ---------------------------------------------------------------- LAWS OF NAMES

proof fn lemma_name_end_upper(bytes: Seq<u8>, i: int)
    requires
        0 <= i <= name_len(bytes),
    ensures
        name_end_from(spec_name_bytes(bytes), i) == name_len(bytes),
    decreases 8 - i,
{
    let n = spec_name_bytes(bytes);
    lemma_name_end_from_bounds(bytes, 0);
    lemma_name_end_from_mono(bytes, i);
    if i < name_len(bytes) {
        assert(n[i] == spec_ascii_upper(bytes[i]));
        lemma_name_end_upper(bytes, i + 1);
    } else if i < 8 {
        assert(n[i] == 0);
    }
}

proof fn lemma_name_end_from_bounds(bytes: Seq<u8>, i: int)
    requires
        0 <= i,
    ensures
        i <= name_end_from(bytes, i),
        name_end_from(bytes, i) <= if i > 8 { i } else { 8 },
    decreases 8 - i,
{
    if !(i >= 8 || i >= bytes.len() || bytes[i] == 0) {
        lemma_name_end_from_bounds(bytes, i + 1);
    }
}

/// Positions before a name's end hold non-zero bytes: `name_end_from(bytes, i)` is the end
/// reached from `i` as well as from 0 when `i` lies before the end.
proof fn lemma_name_end_from_mono(bytes: Seq<u8>, i: int)
    requires
        0 <= i,
    ensures
        i <= name_len(bytes) ==> name_end_from(bytes, i) == name_len(bytes),
        i < name_len(bytes) ==> i < bytes.len() && bytes[i] != 0 && i < 8,
{
    lemma_name_end_chain(bytes, 0, i);
}

proof fn lemma_name_end_chain(bytes: Seq<u8>, j: int, i: int)
    requires
        0 <= j <= i,
    ensures
        i <= name_end_from(bytes, j) ==> name_end_from(bytes, i) == name_end_from(bytes, j),
        i < name_end_from(bytes, j) ==> i < bytes.len() && bytes[i] != 0 && i < 8,
    decreases i - j,
{
    lemma_name_end_from_bounds(bytes, j);
    if j < i {
        if !(j >= 8 || j >= bytes.len() || bytes[j] == 0) {
            lemma_name_end_chain(bytes, j + 1, i);
        }
    } else {
        if i < name_end_from(bytes, j) {
            assert(!(i >= 8 || i >= bytes.len() || bytes[i] == 0));
        }
    }
}

/// Reading a name back from its own bytes gives the same name: `from_slice` applied to
/// what `as_slice` gives of a name made by `from_slice` changes nothing.
pub proof fn lemma_name_round_trip(bytes: Seq<u8>)
    ensures
        spec_name_bytes(spec_name_bytes(bytes).subrange(0, name_len(spec_name_bytes(bytes)))) == spec_name_bytes(bytes),
{
    let n = spec_name_bytes(bytes);
    lemma_name_end_from_bounds(bytes, 0);
    lemma_name_end_upper(bytes, 0);
    let len = name_len(bytes);
    let prefix = n.subrange(0, len);
    // the prefix ends where the name does
    assert forall|i: int| 0 <= i < len implies prefix[i] != 0 && #[trigger] spec_ascii_upper(prefix[i]) == prefix[i] by {
        lemma_name_end_from_mono(bytes, i);
        assert(prefix[i] == spec_ascii_upper(bytes[i]));
    }
    lemma_prefix_name_len(prefix, 0);
    assert(spec_name_bytes(prefix) =~= n);
}

/// Whether two byte strings spell the same name: as many bytes before the first zero byte
/// (at most eight), and those bytes alike once upper-cased.
pub open spec fn same_name(a: Seq<u8>, b: Seq<u8>) -> bool {
    &&& name_len(a) == name_len(b)
    &&& forall|i: int| 0 <= i < name_len(a) ==> spec_ascii_upper(#[trigger] a[i]) == spec_ascii_upper(b[i])
}

/// Two byte strings give the same name exactly when they spell it alike: the bytes before
/// the first zero byte, at most eight, match ignoring ASCII case.
pub proof fn lemma_name_equality(a: Seq<u8>, b: Seq<u8>)
    ensures
        (spec_name_bytes(a) == spec_name_bytes(b)) <==> same_name(a, b),
{
    lemma_name_end_from_bounds(a, 0);
    lemma_name_end_from_bounds(b, 0);
    let la = name_len(a);
    let lb = name_len(b);
    if spec_name_bytes(a) == spec_name_bytes(b) {
        if la < lb {
            lemma_name_end_from_mono(b, la);
            assert(spec_name_bytes(a)[la] == 0);
            assert(spec_name_bytes(b)[la] == spec_ascii_upper(b[la]));
        }
        if lb < la {
            lemma_name_end_from_mono(a, lb);
            assert(spec_name_bytes(b)[lb] == 0);
            assert(spec_name_bytes(a)[lb] == spec_ascii_upper(a[lb]));
        }
        assert forall|i: int| 0 <= i < la implies spec_ascii_upper(#[trigger] a[i]) == spec_ascii_upper(b[i]) by {
            assert(spec_name_bytes(a)[i] == spec_name_bytes(b)[i]);
        }
    }
    if same_name(a, b) {
        assert(spec_name_bytes(a) =~= spec_name_bytes(b));
    }
}

proof fn lemma_prefix_name_len(prefix: Seq<u8>, i: int)
    requires
        prefix.len() <= 8,
        0 <= i <= prefix.len(),
        forall|k: int| 0 <= k < prefix.len() ==> prefix[k] != 0,
    ensures
        name_end_from(prefix, i) == prefix.len(),
    decreases prefix.len() - i,
{
    if i < prefix.len() {
        lemma_prefix_name_len(prefix, i + 1);
    }
}

// ---------------------------------------------------------------- CONVERSIONS

impl From<[u8; 8]> for WadName {
    fn from(r: [u8; 8]) -> (n: Self) {
        let n = Self::from_slice(vstd::array::array_as_slice(&r));
        proof {
            assert(n@ == spec_name_bytes(r@));
            assert(exists|m: WadName| m@ == spec_name_bytes(r@));
            let c = choose|m: WadName| m@ == spec_name_bytes(r@);
            assert(c.0 =~= n.0);
        }
        n
    }
}

impl FromSpecImpl<[u8; 8]> for WadName {
    open spec fn obeys_from_spec() -> bool {
        true
    }

    /// The name whose bytes are `spec_name_bytes` of the array.
    open spec fn from_spec(r: [u8; 8]) -> WadName {
        choose|m: WadName| m@ == spec_name_bytes(r@)
    }
}

impl From<RawLumpEntry> for LumpEntry {
    fn from(r: RawLumpEntry) -> (e: Self) {
        let e = Self::from_raw(r);
        proof {
            assert(exists|m: LumpEntry| m.offset == r.offset as usize && m.size == r.size as usize && m.name@ == spec_name_bytes(r.name@));
            let c = choose|m: LumpEntry| m.offset == r.offset as usize && m.size == r.size as usize && m.name@ == spec_name_bytes(r.name@);
            assert(c.name.0 =~= e.name.0);
        }
        e
    }
}

impl FromSpecImpl<RawLumpEntry> for LumpEntry {
    open spec fn obeys_from_spec() -> bool {
        true
    }

    open spec fn from_spec(r: RawLumpEntry) -> LumpEntry {
        choose|m: LumpEntry| m.offset == r.offset as usize && m.size == r.size as usize && m.name@ == spec_name_bytes(r.name@)
    }
}

impl From<RawLinedef> for Linedef {
    fn from(r: RawLinedef) -> (l: Self) {
        Self::from_raw(r)
    }
}

impl FromSpecImpl<RawLinedef> for Linedef {
    open spec fn obeys_from_spec() -> bool {
        true
    }

    open spec fn from_spec(r: RawLinedef) -> Linedef {
        Linedef::spec_from_raw(r)
    }
}

impl From<RawPatch> for Patch {
    fn from(r: RawPatch) -> (p: Self) {
        Self::from_raw(r)
    }
}

impl FromSpecImpl<RawPatch> for Patch {
    open spec fn obeys_from_spec() -> bool {
        true
    }

    open spec fn from_spec(r: RawPatch) -> Patch {
        Patch { offset: IVec2 { x: r.offset_x as i32, y: r.offset_y as i32 }, pname_i: r.patch as u32 }
    }
}

/// Whether `s` is the sidedef that `r` stands for.
pub open spec fn sidedef_of(r: RawSidedef, s: Sidedef) -> bool {
    &&& s.offset == (IVec2 { x: r.x_offset as i32, y: r.y_offset as i32 })
    &&& s.upper_texture@ == spec_name_bytes(r.upper_texture@)
    &&& s.lower_texture@ == spec_name_bytes(r.lower_texture@)
    &&& s.middle_texture@ == spec_name_bytes(r.middle_texture@)
    &&& s.sector_i == r.sector_i
}

impl From<RawSidedef> for Sidedef {
    fn from(r: RawSidedef) -> (s: Self) {
        let s = Self::from_raw(r);
        proof {
            assert(sidedef_of(r, s));
            assert(exists|m: Sidedef| sidedef_of(r, m));
            let c = choose|m: Sidedef| sidedef_of(r, m);
            assert(c.upper_texture.0 =~= s.upper_texture.0);
            assert(c.lower_texture.0 =~= s.lower_texture.0);
            assert(c.middle_texture.0 =~= s.middle_texture.0);
        }
        s
    }
}

impl FromSpecImpl<RawSidedef> for Sidedef {
    open spec fn obeys_from_spec() -> bool {
        true
    }

    open spec fn from_spec(r: RawSidedef) -> Sidedef {
        choose|m: Sidedef| sidedef_of(r, m)
    }
}

/// Whether `s` is the sector that `r` stands for.
pub open spec fn sector_of(r: RawSector, s: Sector) -> bool {
    &&& s.floor_height == r.floor_height
    &&& s.ceiling_height == r.ceiling_height
    &&& s.floor_texture@ == spec_name_bytes(r.floor_texture@)
    &&& s.ceiling_texture@ == spec_name_bytes(r.ceiling_texture@)
    &&& s.light_level == r.light_level % 256
    &&& s.special == r.special
    &&& s.tag == r.tag
}

impl From<RawSector> for Sector {
    fn from(r: RawSector) -> (s: Self) {
        let s = Self::from_raw(r);
        proof {
            assert(sector_of(r, s));
            assert(exists|m: Sector| sector_of(r, m));
            let c = choose|m: Sector| sector_of(r, m);
            assert(c.floor_texture.0 =~= s.floor_texture.0);
            assert(c.ceiling_texture.0 =~= s.ceiling_texture.0);
        }
        s
    }
}

impl FromSpecImpl<RawSector> for Sector {
    open spec fn obeys_from_spec() -> bool {
        true
    }

    open spec fn from_spec(r: RawSector) -> Sector {
        choose|m: Sector| sector_of(r, m)
    }
}

} // verus!
