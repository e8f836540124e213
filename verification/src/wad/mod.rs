//! A WAD archive: a header, the lumps' bytes and a directory that names them.
pub mod bytes;
pub mod error;
pub mod texture;
pub mod types;

use vstd::prelude::*;
use crate::wad::bytes::{bytes_to_vec, decodes_records, le_i32, record_bytes, Record};
use crate::wad::error::WadError;
use crate::wad::types::{spec_name_bytes, spec_picture, Flat, LumpEntry, Picture, PictureModel, RawWadHeader, WadName, WadType};

verus! {

/// A WAD file as plain values.
pub struct WadModel {
    pub bytes: Seq<u8>,
    pub wad_type: WadType,
    pub directory: Seq<LumpEntry>,
    pub f_start: int,
    pub f_end: int,
    pub s_start: int,
    pub s_end: int,
    pub p_start: int,
    pub p_end: int,
}

/// A WAD file held in memory, with its directory read and the flat, sprite and patch
/// marker lumps found.
pub struct WadFile {
    bytes: Vec<u8>,
    wad_type: WadType,
    directory: Vec<LumpEntry>,
    f_start: usize,
    f_end: usize,
    s_start: usize,
    s_end: usize,
    // Unused according to doomwiki.org?
    p_start: usize,
    p_end: usize,
}

impl View for WadFile {
    type V = WadModel;

    closed spec fn view(&self) -> WadModel {
        WadModel {
            bytes: self.bytes@,
            wad_type: self.wad_type,
            directory: self.directory@,
            f_start: self.f_start as int,
            f_end: self.f_end as int,
            s_start: self.s_start as int,
            s_end: self.s_end as int,
            p_start: self.p_start as int,
            p_end: self.p_end as int,
        }
    }
}

// ---------------------------------------------------------------- THE FILE'S LAYOUT

/// Whether `b` starts with `IWAD` or `PWAD`.
pub open spec fn is_wad_magic(b: Seq<u8>) -> bool {
    &&& b.len() >= 4
    &&& (b[0] == 73 || b[0] == 80)
    &&& b[1] == 87
    &&& b[2] == 65
    &&& b[3] == 68
}

/// The number of lumps that the header declares.
pub open spec fn header_num_lumps(b: Seq<u8>) -> int {
    le_i32(b, 4)
}

/// Where the header says the directory starts.
pub open spec fn header_directory_offset(b: Seq<u8>) -> int {
    le_i32(b, 8)
}

/// Whether `b` holds a whole header and, if it starts like a WAD, a whole directory where
/// the header puts it (reading a file that does not panics).
pub open spec fn directory_fits(b: Seq<u8>) -> bool {
    &&& b.len() >= 12
    &&& is_wad_magic(b) ==> {
        &&& 0 <= header_num_lumps(b)
        &&& 0 <= header_directory_offset(b)
        &&& header_directory_offset(b) + 16 * header_num_lumps(b) <= b.len()
    }
}

/// The bytes of the directory: sixteen per lump.
pub open spec fn directory_bytes(b: Seq<u8>) -> Seq<u8> {
    b.subrange(header_directory_offset(b), header_directory_offset(b) + 16 * header_num_lumps(b))
}

/// The name of lump `i` as the directory in `b` stores it.
pub open spec fn stored_lump_name(b: Seq<u8>, i: int) -> Seq<u8> {
    spec_name_bytes(record_bytes::<LumpEntry>(directory_bytes(b), i).subrange(8, 16))
}

/// The names of all lumps, as the directory in `b` stores them.
pub open spec fn stored_lump_names(b: Seq<u8>) -> Seq<Seq<u8>> {
    Seq::new(header_num_lumps(b) as nat, |i: int| stored_lump_name(b, i))
}

/// The names of the entries of a directory.
pub open spec fn lump_names(directory: Seq<LumpEntry>) -> Seq<Seq<u8>> {
    directory.map_values(|e: LumpEntry| e.name@)
}

/// The last position in `start .. min(end, names.len())` whose name is `name`.
pub open spec fn find_last(names: Seq<Seq<u8>>, name: Seq<u8>, start: int, end: int) -> Option<int> {
    find_last_below(names, name, start, if end > names.len() { names.len() as int } else { end })
}

/// The last position in `start .. end` whose name is `name`.
pub open spec fn find_last_below(names: Seq<Seq<u8>>, name: Seq<u8>, start: int, end: int) -> Option<int>
    decreases end - start,
{
    if end <= start || end <= 0 {
        None
    } else if names[end - 1] == name {
        Some(end - 1)
    } else {
        find_last_below(names, name, start, end - 1)
    }
}

/// The eight bytes of a marker or table name of up to eight letters.
pub open spec fn padded(s: Seq<u8>) -> Seq<u8> {
    s + Seq::new((8 - s.len()) as nat, |i: int| 0u8)
}

pub open spec fn f_start_name() -> Seq<u8> {
    padded(seq![70u8, 95, 83, 84, 65, 82, 84])
}

pub open spec fn f_end_name() -> Seq<u8> {
    padded(seq![70u8, 95, 69, 78, 68])
}

pub open spec fn s_start_name() -> Seq<u8> {
    padded(seq![83u8, 95, 83, 84, 65, 82, 84])
}

pub open spec fn s_end_name() -> Seq<u8> {
    padded(seq![83u8, 95, 69, 78, 68])
}

pub open spec fn p_start_name() -> Seq<u8> {
    padded(seq![80u8, 95, 83, 84, 65, 82, 84])
}

pub open spec fn p_end_name() -> Seq<u8> {
    padded(seq![80u8, 95, 69, 78, 68])
}

/// The six marker names that a WAD must hold, in the order they are looked up.
pub open spec fn marker_names() -> Seq<Seq<u8>> {
    seq![f_start_name(), f_end_name(), s_start_name(), s_end_name(), p_start_name(), p_end_name()]
}

/// The first marker name (in lookup order) that `names` lacks.
pub open spec fn first_missing_marker(names: Seq<Seq<u8>>) -> Option<Seq<u8>> {
    first_missing_marker_from(names, 0)
}

/// The first marker name from the `k`th on (in lookup order) that `names` lacks.
pub open spec fn first_missing_marker_from(names: Seq<Seq<u8>>, k: int) -> Option<Seq<u8>>
    decreases 6 - k,
{
    if k >= 6 || k < 0 {
        None
    } else if find_last(names, marker_names()[k], 0, names.len() as int) is None {
        Some(marker_names()[k])
    } else {
        first_missing_marker_from(names, k + 1)
    }
}

/// Whether lump `i` of the directory lies within the file's bytes.
pub open spec fn lump_fits(w: WadModel, i: int) -> bool {
    &&& 0 <= i < w.directory.len()
    &&& w.directory[i].offset + w.directory[i].size <= w.bytes.len()
}

/// The bytes of lump `i`.
pub open spec fn lump_bytes(w: WadModel, i: int) -> Seq<u8> {
    w.bytes.subrange(w.directory[i].offset as int, w.directory[i].offset + w.directory[i].size)
}

/// A lookup gives the last position in the searched range that holds the name, and fails
/// only where no position in the range holds it.
pub proof fn lemma_find_last(names: Seq<Seq<u8>>, name: Seq<u8>, start: int, end: int)
    ensures
        ({
            let e = if end > names.len() { names.len() as int } else { end };
            &&& find_last(names, name, start, end) matches Some(i) ==> {
                &&& start <= i < e
                &&& 0 <= i
                &&& names[i] == name
                &&& forall|j: int| i < j < e ==> names[j] != name
            }
            &&& find_last(names, name, start, end) is None ==> forall|j: int| start <= j < e && 0 <= j ==> names[j] != name
        }),
{
    let e = if end > names.len() { names.len() as int } else { end };
    lemma_find_last_below(names, name, start, e);
}

proof fn lemma_find_last_below(names: Seq<Seq<u8>>, name: Seq<u8>, start: int, end: int)
    requires
        end <= names.len(),
    ensures
        find_last_below(names, name, start, end) matches Some(i) ==> {
            &&& start <= i < end
            &&& 0 <= i
            &&& names[i] == name
            &&& forall|j: int| i < j < end ==> names[j] != name
        },
        find_last_below(names, name, start, end) is None ==> forall|j: int| start <= j < end && 0 <= j ==> names[j] != name,
    decreases end - start,
{
    if !(end <= start || end <= 0) && names[end - 1] != name {
        lemma_find_last_below(names, name, start, end - 1);
    }
}

// ---------------------------------------------------------------- NAMES

/// The `k`th marker name, in lookup order.
fn marker_name(k: usize) -> (r: WadName)
    requires
        k < 6,
    ensures
        r@ == marker_names()[k as int],
{
    let r = if k == 0 {
        WadName([70, 95, 83, 84, 65, 82, 84, 0])
    } else if k == 1 {
        WadName([70, 95, 69, 78, 68, 0, 0, 0])
    } else if k == 2 {
        WadName([83, 95, 83, 84, 65, 82, 84, 0])
    } else if k == 3 {
        WadName([83, 95, 69, 78, 68, 0, 0, 0])
    } else if k == 4 {
        WadName([80, 95, 83, 84, 65, 82, 84, 0])
    } else {
        WadName([80, 95, 69, 78, 68, 0, 0, 0])
    };
    assert(r@ =~= marker_names()[k as int]);
    r
}

/// Searches `directory` from position `min(end, len)` down to `start` for `name`.
fn find_last_in(directory: &Vec<LumpEntry>, name: WadName, start: usize, end: usize) -> (r: Option<usize>)
    ensures
        r is None <==> find_last(lump_names(directory@), name@, start as int, end as int) is None,
        r matches Some(i) ==> find_last(lump_names(directory@), name@, start as int, end as int) == Some(i as int),
        r matches Some(i) ==> i < directory@.len(),
{
    let ghost names = lump_names(directory@);
    let e = if end < directory.len() { end } else { directory.len() };
    let mut i = e;
    while i > start
        invariant
            i <= e <= directory@.len(),
            names == lump_names(directory@),
            find_last(names, name@, start as int, end as int) == find_last_below(names, name@, start as int, i as int),
        decreases i,
    {
        if directory[i - 1].name == name {
            return Some(i - 1);
        }
        i = i - 1;
    }
    None
}

impl WadFile {
    #[verifier::type_invariant]
    spec fn inv(self) -> bool {
        self.bytes@.len() <= isize::MAX
    }

    /// Whether `bytes` holds a whole header and, where it starts like a WAD, a whole
    /// directory where the header puts it, so that `from_bytes` may be called on it.
    pub fn directory_fits(bytes: &[u8]) -> (r: bool)
        ensures
            r == directory_fits(bytes@),
    {
        if bytes.len() < 12 {
            return false;
        }
        let header = RawWadHeader::read(bytes, 0);
        if !((header.magic[0] == 73 || header.magic[0] == 80) && header.magic[1] == 87 && header.magic[2] == 65
            && header.magic[3] == 68) {
            return true;
        }
        if header.num_lumps < 0 || header.directory_offset < 0 {
            return false;
        }
        let directory_offset = header.directory_offset as u64;
        let directory_size = header.num_lumps as u64 * 16;
        directory_offset + directory_size <= bytes.len() as u64
    }

    /// Reads a WAD from its bytes. It fails where the magic is neither `IWAD` nor `PWAD`,
    /// or where one of the markers `F_START`, `F_END`, `S_START`, `S_END`, `P_START`,
    /// `P_END` is missing (the first missing one, in that order, is named).
    pub fn from_bytes(bytes: Vec<u8>) -> (r: Result<Self, WadError>)
        requires
            directory_fits(bytes@),
            bytes@.len() <= isize::MAX,
        ensures
            !is_wad_magic(bytes@) ==> (r matches Err(e) && e == WadError::NotAWad),
            is_wad_magic(bytes@) && first_missing_marker(stored_lump_names(bytes@)) is Some ==> (r matches Err(
                WadError::LumpNotFound(n),
            ) && n@ == first_missing_marker(stored_lump_names(bytes@)).unwrap()),
            r is Ok <==> is_wad_magic(bytes@) && first_missing_marker(stored_lump_names(bytes@)) is None,
            r matches Ok(w) ==> {
                let names = stored_lump_names(bytes@);
                &&& w@.bytes == bytes@
                &&& w@.wad_type == if bytes@[0] == 73 { WadType::IWad } else { WadType::PWad }
                &&& decodes_records::<LumpEntry>(directory_bytes(bytes@), w@.directory)
                &&& lump_names(w@.directory) == names
                &&& Some(w@.f_start) == find_last(names, f_start_name(), 0, names.len() as int)
                &&& Some(w@.f_end) == find_last(names, f_end_name(), 0, names.len() as int)
                &&& Some(w@.s_start) == find_last(names, s_start_name(), 0, names.len() as int)
                &&& Some(w@.s_end) == find_last(names, s_end_name(), 0, names.len() as int)
                &&& Some(w@.p_start) == find_last(names, p_start_name(), 0, names.len() as int)
                &&& Some(w@.p_end) == find_last(names, p_end_name(), 0, names.len() as int)
            },
    {
        let header = RawWadHeader::read(bytes.as_slice(), 0);
        if !((header.magic[0] == 73 || header.magic[0] == 80) && header.magic[1] == 87 && header.magic[2] == 65
            && header.magic[3] == 68) {
            return Err(WadError::NotAWad);
        }
        let wad_type = if header.magic[0] == 73 { WadType::IWad } else { WadType::PWad };
        let directory_offset = header.directory_offset as usize;
        let directory_size = header.num_lumps as usize * 16;
        let directory_slice = vstd::slice::slice_subrange(bytes.as_slice(), directory_offset, directory_offset + directory_size);
        proof {
            assert(directory_slice@ == directory_bytes(bytes@));
            assert((16 * header.num_lumps) % 16 == 0);
        }
        let directory = match bytes_to_vec::<LumpEntry>(directory_slice) {
            Ok(d) => d,
            Err(e) => return Err(e),
        };
        proof {
            assert(lump_names(directory@) =~= stored_lump_names(bytes@)) by {
                assert forall|i: int| 0 <= i < directory@.len() implies lump_names(directory@)[i] == stored_lump_names(bytes@)[i] by {
                    assert(LumpEntry::spec_decodes_to(record_bytes::<LumpEntry>(directory_bytes(bytes@), i), directory@[i]));
                }
            }
        }
        let ghost names = lump_names(directory@);
        let mut found: [usize; 6] = [0, 0, 0, 0, 0, 0];
        let mut k: usize = 0;
        while k < 6
            invariant
                k <= 6,
                is_wad_magic(bytes@),
                names == lump_names(directory@),
                names == stored_lump_names(bytes@),
                forall|j: int| 0 <= j < k ==> Some(found@[j] as int) == #[trigger] find_last(names, marker_names()[j], 0, names.len() as int),
                first_missing_marker(names) == first_missing_marker_from(names, k as int),
            decreases 6 - k,
        {
            match find_last_in(&directory, marker_name(k), 0, directory.len()) {
                Some(i) => {
                    let ghost before = found@;
                    found[k] = i;
                    assert(found@ == before.update(k as int, i));
                },
                None => {
                    return Err(WadError::LumpNotFound(marker_name(k)));
                },
            }
            k = k + 1;
        }
        proof {
            assert(Some(found@[0] as int) == find_last(names, marker_names()[0], 0, names.len() as int));
            assert(Some(found@[1] as int) == find_last(names, marker_names()[1], 0, names.len() as int));
            assert(Some(found@[2] as int) == find_last(names, marker_names()[2], 0, names.len() as int));
            assert(Some(found@[3] as int) == find_last(names, marker_names()[3], 0, names.len() as int));
            assert(Some(found@[4] as int) == find_last(names, marker_names()[4], 0, names.len() as int));
            assert(Some(found@[5] as int) == find_last(names, marker_names()[5], 0, names.len() as int));
        }
        let f_start = found[0];
        let f_end = found[1];
        let s_start = found[2];
        let s_end = found[3];
        let p_start = found[4];
        let p_end = found[5];
        Ok(WadFile { bytes, wad_type, directory, f_start, f_end, s_start, s_end, p_start, p_end })
    }
}

impl WadFile {    /// The last lump named `name` among positions `start .. min(end, number of lumps)`.
    fn find_lump_range(&self, name: WadName, start: usize, end: usize) -> (r: Result<usize, WadError>)
        ensures
            r is Err <==> find_last(lump_names(self@.directory), name@, start as int, end as int) is None,
            r matches Ok(i) ==> find_last(lump_names(self@.directory), name@, start as int, end as int) == Some(
                i as int,
            ),
            r matches Ok(i) ==> i < self@.directory.len(),
            r matches Err(e) ==> e == WadError::LumpNotFound(name),
    {
        match find_last_in(&self.directory, name, start, end) {
            Some(i) => Ok(i),
            None => Err(WadError::LumpNotFound(name)),
        }
    }

    /// The last lump named `name` in the whole directory.
    pub fn find_lump(&self, name: WadName) -> (r: Result<usize, WadError>)
        ensures
            r is Err <==> find_last(lump_names(self@.directory), name@, 0, self@.directory.len() as int) is None,
            r matches Ok(i) ==> find_last(lump_names(self@.directory), name@, 0, self@.directory.len() as int)
                == Some(i as int),
            r matches Ok(i) ==> i < self@.directory.len(),
            r matches Err(e) ==> e == WadError::LumpNotFound(name),
    {
        self.find_lump_range(name, 0, self.directory.len())
    }

    /// The last flat named `name` between the `F_START` and `F_END` markers.
    pub fn find_flat(&self, name: WadName) -> (r: Result<usize, WadError>)
        ensures
            r is Err <==> find_last(lump_names(self@.directory), name@, self@.f_start, self@.f_end) is None,
            r matches Ok(i) ==> find_last(lump_names(self@.directory), name@, self@.f_start, self@.f_end) == Some(
                i as int,
            ),
            r matches Ok(i) ==> i < self@.directory.len(),
            r matches Err(e) ==> e == WadError::LumpNotFound(name),
    {
        self.find_lump_range(name, self.f_start, self.f_end)
    }

    /// The last sprite named `name` between the `S_START` and `S_END` markers.
    pub fn find_sprite(&self, name: WadName) -> (r: Result<usize, WadError>)
        ensures
            r is Err <==> find_last(lump_names(self@.directory), name@, self@.s_start, self@.s_end) is None,
            r matches Ok(i) ==> find_last(lump_names(self@.directory), name@, self@.s_start, self@.s_end) == Some(
                i as int,
            ),
            r matches Ok(i) ==> i < self@.directory.len(),
            r matches Err(e) ==> e == WadError::LumpNotFound(name),
    {
        self.find_lump_range(name, self.s_start, self.s_end)
    }

    /// The last patch named `name` between the `P_START` and `P_END` markers.
    pub fn find_patch(&self, name: WadName) -> (r: Result<usize, WadError>)
        ensures
            r is Err <==> find_last(lump_names(self@.directory), name@, self@.p_start, self@.p_end) is None,
            r matches Ok(i) ==> find_last(lump_names(self@.directory), name@, self@.p_start, self@.p_end) == Some(
                i as int,
            ),
            r matches Ok(i) ==> i < self@.directory.len(),
            r matches Err(e) ==> e == WadError::LumpNotFound(name),
    {
        self.find_lump_range(name, self.p_start, self.p_end)
    }

    /// Whether lump `index` exists and lies within the file's bytes, so that it can be loaded.
    pub fn lump_in_bounds(&self, index: usize) -> (b: bool)
        ensures
            b == lump_fits(self@, index as int),
    {
        proof {
            use_type_invariant(self);
        }
        if index >= self.directory.len() {
            return false;
        }
        let entry = self.directory[index];
        match entry.offset.checked_add(entry.size) {
            Some(end) => end <= self.bytes.len(),
            None => false,
        }
    }

    /// The bytes of lump `index`.
    pub fn load_lump(&self, index: usize) -> (r: &[u8])
        requires
            lump_fits(self@, index as int),
        ensures
            r@ == lump_bytes(self@, index as int),
    {
        proof {
            use_type_invariant(self);
        }
        let lump_entry = self.directory[index];
        vstd::slice::slice_subrange(self.bytes.as_slice(), lump_entry.offset, lump_entry.offset + lump_entry.size)
    }

    /// The flat that lump `index` holds.
    pub fn load_flat(&self, index: usize) -> (r: Result<Flat, WadError>)
        requires
            lump_fits(self@, index as int),
        ensures
            r is Ok <==> lump_bytes(self@, index as int).len() == 4096,
            r matches Ok(f) ==> f.data@ == lump_bytes(self@, index as int),
            r matches Err(e) ==> e == WadError::FlatSize,
    {
        Flat::from_bytes(self.load_lump(index))
    }

    /// The picture that lump `index` holds.
    pub fn load_picture(&self, index: usize) -> (r: Result<Picture, WadError>)
        requires
            lump_fits(self@, index as int),
            spec_picture(lump_bytes(self@, index as int)) is Some,
        ensures
            r matches Ok(p) && p@ == spec_picture(lump_bytes(self@, index as int)).unwrap(),
    {
        proof {
            use_type_invariant(self);
        }
        Picture::from_bytes(self.load_lump(index))
    }

    /// Whether the file is a complete game or a patch.
    pub fn wad_type(&self) -> (t: WadType)
        ensures
            t == self@.wad_type,
    {
        self.wad_type
    }

    /// The directory has no more entries than a `usize` counts.
    pub proof fn lemma_directory_len(&self)
        ensures
            self@.directory.len() <= usize::MAX,
    {
        assert(self.directory.len() == self.directory@.len());
    }

    /// The number of lumps in the directory.
    pub fn num_lumps(&self) -> (n: usize)
        ensures
            n == self@.directory.len(),
    {
        self.directory.len()
    }

    /// The directory entry of lump `index`.
    pub fn lump_entry(&self, index: usize) -> (e: LumpEntry)
        requires
            index < self@.directory.len(),
        ensures
            e == self@.directory[index as int],
    {
        self.directory[index]
    }
}

} // verus!
