//! Wall textures: each is composed of patch pictures, as the TEXTURE1 and TEXTURE2 lumps
//! define it, with the patches named through the PNAMES lump.
use vstd::prelude::*;
use crate::wad::bytes::{bytes_to_vec, decodes_records, le_i16, le_u16, le_u32, read_u32, record_bytes, Record};
use crate::wad::error::WadError;
use crate::wad::types::{
    blit, blit_fits_i32, blit_in_i32, blit_picture, drawn_after, lands_at, lemma_blit_last_wins, PictureModel, spec_name_bytes, spec_picture, transparent, transparent_pixels, Patch, Picture,
    RawPatch, RawTextureHeader, Texture, TextureModel, WadName,
};
use crate::wad::{find_last, lump_bytes, lump_fits, lump_names, WadFile, WadModel};

verus! {

/// What reading textures comes to: `None` where the reading runs outside a lump, a
/// list, or a picture (it would panic), `Err(name)` where the lump `name` is missing.
pub type TextureOutcome<T> = Option<Result<T, Seq<u8>>>;

/// The texture data after drawing the patch whose record starts at byte `at` of the texture
/// lump `t` into `data` (a texture `tex_width` wide): the record holds the x and y offset,
/// the index into `pnames` of the patch's name, and two unused fields; the patch is the last
/// lump of that name between `P_START` and `P_END`. `None` also where a pixel's position
/// in the texture is not a 32-bit integer.
pub open spec fn spec_patch(w: WadModel, t: Seq<u8>, at: int, pnames: Seq<Seq<u8>>, tex_width: int, data: Seq<Option<u8>>) -> TextureOutcome<Seq<Option<u8>>> {
    let pname_i = le_u16(t, at + 4);
    if pname_i >= pnames.len() {
        None
    } else {
        match find_last(lump_names(w.directory), pnames[pname_i], w.p_start, w.p_end) {
            None => Some(Err(pnames[pname_i])),
            Some(k) => if !lump_fits(w, k) {
                None
            } else {
                match spec_picture(lump_bytes(w, k)) {
                    None => None,
                    Some(pic) => if blit_in_i32(tex_width, pic, le_i16(t, at), le_i16(t, at + 2)) {
                        Some(Ok(blit(data, tex_width, pic, le_i16(t, at), le_i16(t, at + 2))))
                    } else {
                        None
                    },
                }
            },
        }
    }
}

/// The texture data after the first `n` patches, whose records start at byte `at`, are drawn.
pub open spec fn spec_patches(w: WadModel, t: Seq<u8>, at: int, pnames: Seq<Seq<u8>>, tex_width: int, data: Seq<Option<u8>>, n: int) -> TextureOutcome<Seq<Option<u8>>>
    decreases n,
{
    if n <= 0 {
        Some(Ok(data))
    } else {
        match spec_patches(w, t, at, pnames, tex_width, data, n - 1) {
            Some(Ok(d)) => spec_patch(w, t, at + 10 * (n - 1), pnames, tex_width, d),
            other => other,
        }
    }
}

/// The texture whose definition starts at byte `off` of the texture lump `t`: a name, an
/// unused field, the width and height, another unused field, the number of patches and
/// the patches' records; the texture starts transparent.
pub open spec fn spec_texture(w: WadModel, t: Seq<u8>, off: int, pnames: Seq<Seq<u8>>) -> TextureOutcome<TextureModel> {
    if off + 22 > t.len() || off + 22 + 10 * le_u16(t, off + 20) > t.len() {
        None
    } else {
        let width = le_u16(t, off + 12);
        let height = le_u16(t, off + 14);
        match spec_patches(w, t, off + 22, pnames, width, transparent(width * height), le_u16(t, off + 20)) {
            None => None,
            Some(Err(e)) => Some(Err(e)),
            Some(Ok(data)) => Some(
                Ok(TextureModel { name: spec_name_bytes(t.subrange(off, off + 8)), width: width as u32, height: height as u32, data }),
            ),
        }
    }
}

/// The first `n` textures of the texture lump `t`, each at the offset that the lump's
/// offset table gives it; reading stops at the first missing patch.
pub open spec fn spec_textures_upto(w: WadModel, t: Seq<u8>, pnames: Seq<Seq<u8>>, n: int) -> TextureOutcome<Seq<TextureModel>>
    decreases n,
{
    if n <= 0 {
        Some(Ok(Seq::empty()))
    } else {
        match spec_textures_upto(w, t, pnames, n - 1) {
            Some(Ok(ts)) => match spec_texture(w, t, le_u32(t, 4 + 4 * (n - 1)), pnames) {
                Some(Ok(x)) => Some(Ok(ts.push(x))),
                Some(Err(e)) => Some(Err(e)),
                None => None,
            },
            other => other,
        }
    }
}

/// The textures that the texture lump `t` defines: a count, a table of that many offsets,
/// and the definitions.
pub open spec fn spec_texture_lump(w: WadModel, t: Seq<u8>, pnames: Seq<Seq<u8>>) -> TextureOutcome<Seq<TextureModel>> {
    if t.len() < 4 || 4 + 4 * le_u32(t, 0) > t.len() {
        None
    } else {
        spec_textures_upto(w, t, pnames, le_u32(t, 0))
    }
}

pub open spec fn pnames_name() -> Seq<u8> {
    seq![80u8, 78, 65, 77, 69, 83, 0, 0]
}

pub open spec fn texture1_name() -> Seq<u8> {
    seq![84u8, 69, 88, 84, 85, 82, 69, 49]
}

pub open spec fn texture2_name() -> Seq<u8> {
    seq![84u8, 69, 88, 84, 85, 82, 69, 50]
}

/// The patch names that the PNAMES lump `p` lists: a count and that many eight-byte names.
pub open spec fn spec_pnames(p: Seq<u8>) -> Seq<Seq<u8>> {
    Seq::new(le_u32(p, 0) as nat, |i: int| spec_name_bytes(p.subrange(4 + 8 * i, 12 + 8 * i)))
}

/// The textures of TEXTURE1 with those of TEXTURE2 (where there is one) after them.
pub open spec fn spec_load_textures(w: WadModel) -> TextureOutcome<Seq<TextureModel>> {
    let names = lump_names(w.directory);
    match find_last(names, pnames_name(), 0, names.len() as int) {
        None => Some(Err(pnames_name())),
        Some(pi) => if !lump_fits(w, pi) || lump_bytes(w, pi).len() < 4 || 4 + 8 * le_u32(lump_bytes(w, pi), 0)
            > lump_bytes(w, pi).len() {
            None
        } else {
            let pnames = spec_pnames(lump_bytes(w, pi));
            match find_last(names, texture1_name(), 0, names.len() as int) {
                None => Some(Err(texture1_name())),
                Some(t1) => if !lump_fits(w, t1) {
                    None
                } else {
                    match spec_texture_lump(w, lump_bytes(w, t1), pnames) {
                        Some(Ok(ts1)) => match find_last(names, texture2_name(), 0, names.len() as int) {
                            None => Some(Ok(ts1)),
                            Some(t2) => if !lump_fits(w, t2) {
                                None
                            } else {
                                match spec_texture_lump(w, lump_bytes(w, t2), pnames) {
                                    Some(Ok(ts2)) => Some(Ok(ts1 + ts2)),
                                    other => other,
                                }
                            },
                        },
                        other => other,
                    }
                },
            }
        },
    }
}

proof fn lemma_patches_prefix(w: WadModel, t: Seq<u8>, at: int, pnames: Seq<Seq<u8>>, tex_width: int, data: Seq<Option<u8>>, n: int, i: int)
    requires
        0 <= i <= n,
        spec_patches(w, t, at, pnames, tex_width, data, n) is Some,
    ensures
        spec_patches(w, t, at, pnames, tex_width, data, i) is Some,
        spec_patches(w, t, at, pnames, tex_width, data, i) matches Some(Err(e)) ==> spec_patches(w, t, at, pnames, tex_width, data, n) == Some(Err::<Seq<Option<u8>>, Seq<u8>>(e)),
    decreases n,
{
    if i < n {
        lemma_patches_prefix(w, t, at, pnames, tex_width, data, n - 1, i);
    }
}

proof fn lemma_textures_prefix(w: WadModel, t: Seq<u8>, pnames: Seq<Seq<u8>>, n: int, i: int)
    requires
        0 <= i <= n,
        spec_textures_upto(w, t, pnames, n) is Some,
    ensures
        spec_textures_upto(w, t, pnames, i) is Some,
        spec_textures_upto(w, t, pnames, i) matches Some(Err(e)) ==> spec_textures_upto(w, t, pnames, n) == Some(Err::<Seq<TextureModel>, Seq<u8>>(e)),
    decreases n,
{
    if i < n {
        lemma_textures_prefix(w, t, pnames, n - 1, i);
    }
}

proof fn lemma_patches_stop(w: WadModel, t: Seq<u8>, at: int, pnames: Seq<Seq<u8>>, tex_width: int, data: Seq<Option<u8>>, n: int, i: int)
    requires
        0 <= i <= n,
        !(spec_patches(w, t, at, pnames, tex_width, data, i) is Some && spec_patches(w, t, at, pnames, tex_width, data, i).unwrap() is Ok),
    ensures
        spec_patches(w, t, at, pnames, tex_width, data, n) == spec_patches(w, t, at, pnames, tex_width, data, i),
    decreases n,
{
    if i < n {
        lemma_patches_stop(w, t, at, pnames, tex_width, data, n - 1, i);
    }
}

proof fn lemma_textures_stop(w: WadModel, t: Seq<u8>, pnames: Seq<Seq<u8>>, n: int, i: int)
    requires
        0 <= i <= n,
        !(spec_textures_upto(w, t, pnames, i) is Some && spec_textures_upto(w, t, pnames, i).unwrap() is Ok),
    ensures
        spec_textures_upto(w, t, pnames, n) == spec_textures_upto(w, t, pnames, i),
    decreases n,
{
    if i < n {
        lemma_textures_stop(w, t, pnames, n - 1, i);
    }
}

proof fn lemma_patches_len(w: WadModel, t: Seq<u8>, at: int, pnames: Seq<Seq<u8>>, tex_width: int, data: Seq<Option<u8>>, n: int)
    ensures
        spec_patches(w, t, at, pnames, tex_width, data, n) matches Some(Ok(d)) ==> d.len() == data.len(),
    decreases n,
{
    if n > 0 {
        lemma_patches_len(w, t, at, pnames, tex_width, data, n - 1);
        if let Some(Ok(d)) = spec_patches(w, t, at, pnames, tex_width, data, n - 1) {
            let at2 = at + 10 * (n - 1);
            let pname_i = le_u16(t, at2 + 4);
            if pname_i < pnames.len() {
                if let Some(k) = find_last(lump_names(w.directory), pnames[pname_i], w.p_start, w.p_end) {
                    if lump_fits(w, k) {
                        if let Some(pic) = spec_picture(lump_bytes(w, k)) {
                            crate::wad::types::lemma_blit_rows_len(d, tex_width, pic, le_i16(t, at2), le_i16(t, at2 + 2), pic.height as int);
                        }
                    }
                }
            }
        }
    }
}

/// The picture of patch `j` of a texture whose patch records start at byte `at` of the
/// texture lump `t`: the last patch lump of the name that the record's index picks from
/// `pnames`.
pub open spec fn patch_picture(w: WadModel, t: Seq<u8>, at: int, pnames: Seq<Seq<u8>>, j: int) -> PictureModel {
    let k = find_last(lump_names(w.directory), pnames[le_u16(t, at + 10 * j + 4)], w.p_start, w.p_end).unwrap();
    spec_picture(lump_bytes(w, k)).unwrap()
}

/// Whether opaque pixel (`x`, `y`) of patch `j`, placed at the record's offsets, lands on
/// position `p` of a texture `tex_width` wide.
pub open spec fn patch_lands(w: WadModel, t: Seq<u8>, at: int, pnames: Seq<Seq<u8>>, tex_width: int, j: int, x: int, y: int, p: int) -> bool {
    lands_at(tex_width, patch_picture(w, t, at, pnames, j), le_i16(t, at + 10 * j) as int, le_i16(t, at + 10 * j + 2) as int, x, y, p)
}

/// Patches are drawn in order and the last one wins: after the first `n` patches are drawn,
/// a position that no patch lands on keeps what it held, and one that some do holds the
/// pixel of the last patch that lands there (its last such pixel, row by row, left to
/// right), whatever earlier patches put there.
pub proof fn lemma_patches_last_wins(w: WadModel, t: Seq<u8>, at: int, pnames: Seq<Seq<u8>>, tex_width: int, data: Seq<Option<u8>>, n: int, p: int, j: int, x: int, y: int)
    requires
        spec_patches(w, t, at, pnames, tex_width, data, n) is Some,
        spec_patches(w, t, at, pnames, tex_width, data, n).unwrap() is Ok,
        0 <= p < data.len(),
    ensures
        ({
            let r = spec_patches(w, t, at, pnames, tex_width, data, n).unwrap()->Ok_0;
            &&& (forall|j2: int, x2: int, y2: int| 0 <= j2 < n ==> !#[trigger] patch_lands(w, t, at, pnames, tex_width, j2, x2, y2, p))
                ==> r[p] == data[p]
            &&& (0 <= j < n && patch_lands(w, t, at, pnames, tex_width, j, x, y, p)
                && (forall|x2: int, y2: int| drawn_after(x, y, x2, y2) ==> !#[trigger] patch_lands(w, t, at, pnames, tex_width, j, x2, y2, p))
                && (forall|j2: int, x2: int, y2: int| j < j2 < n ==> !#[trigger] patch_lands(w, t, at, pnames, tex_width, j2, x2, y2, p)))
                ==> r[p] == patch_picture(w, t, at, pnames, j).data[y * patch_picture(w, t, at, pnames, j).width + x]
        }),
    decreases n,
{
    if n > 0 {
        let prev = spec_patches(w, t, at, pnames, tex_width, data, n - 1);
        assert(prev is Some && prev.unwrap() is Ok);
        let d = prev.unwrap()->Ok_0;
        lemma_patches_last_wins(w, t, at, pnames, tex_width, data, n - 1, p, j, x, y);
        lemma_patches_len(w, t, at, pnames, tex_width, data, n - 1);
        let rec = at + 10 * (n - 1);
        let pic = patch_picture(w, t, at, pnames, n - 1);
        let ox = le_i16(t, rec) as int;
        let oy = le_i16(t, rec + 2) as int;
        assert(spec_patches(w, t, at, pnames, tex_width, data, n).unwrap()->Ok_0 == blit(d, tex_width, pic, ox, oy));
        lemma_blit_last_wins(d, tex_width, pic, ox, oy, p, x, y);
        if forall|j2: int, x2: int, y2: int| 0 <= j2 < n ==> !#[trigger] patch_lands(w, t, at, pnames, tex_width, j2, x2, y2, p) {
            assert forall|x1: int, y1: int| !#[trigger] lands_at(tex_width, pic, ox, oy, x1, y1, p) by {
                assert(!patch_lands(w, t, at, pnames, tex_width, n - 1, x1, y1, p));
            }
        }
        if 0 <= j < n && patch_lands(w, t, at, pnames, tex_width, j, x, y, p)
            && (forall|x2: int, y2: int| drawn_after(x, y, x2, y2) ==> !#[trigger] patch_lands(w, t, at, pnames, tex_width, j, x2, y2, p))
            && (forall|j2: int, x2: int, y2: int| j < j2 < n ==> !#[trigger] patch_lands(w, t, at, pnames, tex_width, j2, x2, y2, p)) {
            if j == n - 1 {
                assert forall|x1: int, y1: int| drawn_after(x, y, x1, y1) implies !#[trigger] lands_at(tex_width, pic, ox, oy, x1, y1, p) by {
                    assert(!patch_lands(w, t, at, pnames, tex_width, n - 1, x1, y1, p));
                }
                assert(patch_lands(w, t, at, pnames, tex_width, n - 1, x, y, p));
            } else {
                assert forall|x1: int, y1: int| !#[trigger] lands_at(tex_width, pic, ox, oy, x1, y1, p) by {
                    assert(!patch_lands(w, t, at, pnames, tex_width, n - 1, x1, y1, p));
                }
            }
        }
    }
}

/// A composed texture has one pixel for each of its width times height places.
pub proof fn lemma_texture_size(w: WadModel, t: Seq<u8>, off: int, pnames: Seq<Seq<u8>>)
    ensures
        spec_texture(w, t, off, pnames) matches Some(Ok(x)) ==> x.data.len() == x.width * x.height,
{
    if !(off + 22 > t.len() || off + 22 + 10 * le_u16(t, off + 20) > t.len()) {
        let width = le_u16(t, off + 12);
        let height = le_u16(t, off + 14);
        assert(width * height >= 0) by (nonlinear_arith)
            requires width >= 0, height >= 0;
        lemma_patches_len(w, t, off + 22, pnames, width, transparent(width * height), le_u16(t, off + 20));
    }
}

/// The table names, in exec form.
fn pnames_lump_name() -> (r: WadName)
    ensures
        r@ == pnames_name(),
{
    let r = WadName([80, 78, 65, 77, 69, 83, 0, 0]);
    assert(r@ =~= pnames_name());
    r
}

fn texture1_lump_name() -> (r: WadName)
    ensures
        r@ == texture1_name(),
{
    let r = WadName([84, 69, 88, 84, 85, 82, 69, 49]);
    assert(r@ =~= texture1_name());
    r
}

fn texture2_lump_name() -> (r: WadName)
    ensures
        r@ == texture2_name(),
{
    let r = WadName([84, 69, 88, 84, 85, 82, 69, 50]);
    assert(r@ =~= texture2_name());
    r
}

/// The views of a list of names.
pub open spec fn name_views(names: Seq<WadName>) -> Seq<Seq<u8>> {
    names.map_values(|n: WadName| n@)
}

impl WadFile {
    /// Composes the texture whose definition starts at byte `off` of `lump`; `None` where
    /// `spec_texture` has none.
    fn compose_texture(&self, lump: &[u8], off: usize, pnames: &[WadName]) -> (r: Option<Result<Texture, WadError>>)
        ensures
            spec_texture(self@, lump@, off as int, name_views(pnames@)) is None ==> r is None,
            spec_texture(self@, lump@, off as int, name_views(pnames@)) matches Some(Ok(m)) ==> (r matches Some(Ok(x)) && x@ == m),
            spec_texture(self@, lump@, off as int, name_views(pnames@)) matches Some(Err(e)) ==> (r matches Some(
                Err(WadError::LumpNotFound(n)),
            ) && n@ == e),
    {
        let ghost pv = name_views(pnames@);
        let len = lump.len();
        if off > len || len - off < 22 {
            return None;
        }
        let header = RawTextureHeader::read(lump, off);
        let num_patches = header.num_patches as usize;
        if 10 * num_patches > len - off - 22 {
            return None;
        }
        let width = header.width as u32;
        let height = header.height as u32;
        assert(width * height <= 0xFFFF * 0xFFFF) by (nonlinear_arith)
            requires width <= 0xFFFF, height <= 0xFFFF;
        let mut data = transparent_pixels(header.width as usize * header.height as usize);
        let ghost start = data@;
        let ghost all = spec_patches(self@, lump@, off + 22, pv, width as int, start, num_patches as int);
        let mut j: usize = 0;
        while j < num_patches
            invariant
                j <= num_patches,
                pv == name_views(pnames@),
                num_patches == le_u16(lump@, off + 20),
                width == le_u16(lump@, off + 12),
                width <= 0xFFFF,
                off + 22 + 10 * num_patches <= lump.len(),
                start == transparent(width * le_u16(lump@, off + 14)),
                height == le_u16(lump@, off + 14),
                start.len() <= 0xFFFF * 0xFFFF,
                data@.len() == start.len(),
                all == spec_patches(self@, lump@, off + 22, pv, width as int, start, num_patches as int),
                spec_patches(self@, lump@, off + 22, pv, width as int, start, j as int) == Some(Ok::<Seq<Option<u8>>, Seq<u8>>(data@)),
            decreases num_patches - j,
        {
            let ghost at = off + 22 + 10 * j;
            let patch = Patch::from_raw(RawPatch::read(lump, off + 22 + 10 * j));
            let pname_i = patch.pname_i as usize;
            if pname_i >= pnames.len() {
                proof {
                    lemma_patches_stop(self@, lump@, off + 22, pv, width as int, start, num_patches as int, j + 1);
                }
                return None;
            }
            let patch_name = pnames[pname_i];
            assert(patch_name@ == pv[pname_i as int]);
            let k = match self.find_patch(patch_name) {
                Ok(k) => k,
                Err(e) => {
                    proof {
                        lemma_patches_stop(self@, lump@, off + 22, pv, width as int, start, num_patches as int, j + 1);
                    }
                    return Some(Err(e));
                },
            };
            if !self.lump_in_bounds(k) {
                proof {
                    lemma_patches_stop(self@, lump@, off + 22, pv, width as int, start, num_patches as int, j + 1);
                }
                return None;
            }
            let picture = match Picture::decode(self.load_lump(k)) {
                Some(p) => p,
                None => {
                    proof {
                        lemma_patches_stop(self@, lump@, off + 22, pv, width as int, start, num_patches as int, j + 1);
                    }
                    return None;
                },
            };
            proof {
                crate::wad::types::lemma_picture_size(lump_bytes(self@, k as int));
            }
            if !blit_fits_i32(width, &picture, patch.offset.x, patch.offset.y) {
                proof {
                    lemma_patches_stop(self@, lump@, off + 22, pv, width as int, start, num_patches as int, j + 1);
                }
                return None;
            }
            proof {
                crate::wad::types::lemma_blit_rows_len(data@, width as int, picture@, patch.offset.x as int, patch.offset.y as int, picture.height as int);
            }
            blit_picture(&mut data, width, &picture, patch.offset.x, patch.offset.y);
            j = j + 1;
        }
        Some(Ok(Texture { name: WadName::from_slice(vstd::array::array_as_slice(&header.name)), width, height, data }))
    }
}

/// The views of a list of textures.
pub open spec fn texture_views(ts: Seq<Texture>) -> Seq<TextureModel> {
    ts.map_values(|t: Texture| t@)
}

impl WadFile {
    /// The textures that lump `index` (a TEXTURE1 or TEXTURE2 lump) defines, with patch
    /// names looked up in `pnames`; `None` where `spec_texture_lump` has none.
    fn load_texturex(&self, index: usize, pnames: &[WadName]) -> (r: Option<Result<Vec<Texture>, WadError>>)
        requires
            lump_fits(self@, index as int),
        ensures
            spec_texture_lump(self@, lump_bytes(self@, index as int), name_views(pnames@)) is None ==> r is None,
            spec_texture_lump(self@, lump_bytes(self@, index as int), name_views(pnames@)) matches Some(Ok(ts)) ==> (r matches Some(Ok(v)) && texture_views(v@) == ts),
            spec_texture_lump(self@, lump_bytes(self@, index as int), name_views(pnames@)) matches Some(Err(e)) ==> (r matches Some(
                Err(WadError::LumpNotFound(n)),
            ) && n@ == e),
    {
        let ghost pv = name_views(pnames@);
        let lump = self.load_lump(index);
        let len = lump.len();
        if len < 4 {
            return None;
        }
        let num_textures = read_u32(lump, 0) as usize;
        if num_textures > (len - 4) / 4 {
            return None;
        }
        let mut textures: Vec<Texture> = Vec::new();
        let mut i: usize = 0;
        proof {
            assert(texture_views(textures@) =~= Seq::<TextureModel>::empty());
        }
        while i < num_textures
            invariant
                i <= num_textures,
                pv == name_views(pnames@),
                lump@ == lump_bytes(self@, index as int),
                num_textures == le_u32(lump@, 0),
                4 + 4 * num_textures <= lump.len(),
                spec_textures_upto(self@, lump@, pv, i as int) == Some(Ok::<Seq<TextureModel>, Seq<u8>>(texture_views(textures@))),
            decreases num_textures - i,
        {
            let offset = read_u32(lump, 4 + 4 * i) as usize;
            let texture = match self.compose_texture(lump, offset, pnames) {
                Some(Ok(t)) => t,
                Some(Err(e)) => {
                    proof {
                        lemma_textures_stop(self@, lump@, pv, num_textures as int, i + 1);
                    }
                    return Some(Err(e));
                },
                None => {
                    proof {
                        lemma_textures_stop(self@, lump@, pv, num_textures as int, i + 1);
                    }
                    return None;
                },
            };
            let ghost before = textures@;
            textures.push(texture);
            assert(texture_views(textures@) =~= texture_views(before).push(texture@));
            i = i + 1;
        }
        Some(Ok(textures))
    }

    /// All wall textures, or `None` where `spec_load_textures` has none.
    #[verifier::spinoff_prover]
    fn read_textures(&self) -> (r: Option<Result<Vec<Texture>, WadError>>)
        ensures
            spec_load_textures(self@) is None ==> r is None,
            spec_load_textures(self@) matches Some(Ok(ts)) ==> (r matches Some(Ok(v)) && texture_views(v@) == ts),
            spec_load_textures(self@) matches Some(Err(e)) ==> (r matches Some(Err(WadError::LumpNotFound(n))) && n@ == e),
    {
        let pnames_i = match self.find_lump(pnames_lump_name()) {
            Ok(i) => i,
            Err(e) => {
                return Some(Err(e));
            },
        };
        if !self.lump_in_bounds(pnames_i) {
            return None;
        }
        let pnames_lump = self.load_lump(pnames_i);
        let len = pnames_lump.len();
        if len < 4 {
            return None;
        }
        let num_names = read_u32(pnames_lump, 0) as usize;
        if num_names > (len - 4) / 8 {
            return None;
        }
        let names_slice = vstd::slice::slice_subrange(pnames_lump, 4, 4 + num_names * 8);
        proof {
            assert((num_names * 8) % 8 == 0);
        }
        let pnames = match bytes_to_vec::<WadName>(names_slice) {
            Ok(v) => v,
            Err(e) => {
                return Some(Err(e));
            },
        };
        proof {
            let p = pnames_lump@;
            assert forall|i: int| 0 <= i < num_names implies name_views(pnames@)[i] == spec_pnames(p)[i] by {
                let rec = record_bytes::<WadName>(names_slice@, i);
                assert(WadName::spec_decodes_to(rec, pnames@[i]));
                assert(rec.subrange(0, 8) =~= p.subrange(4 + 8 * i, 12 + 8 * i));
            }
            assert(name_views(pnames@) =~= spec_pnames(p));
        }
        let texture1_i = match self.find_lump(texture1_lump_name()) {
            Ok(i) => i,
            Err(e) => {
                return Some(Err(e));
            },
        };
        if !self.lump_in_bounds(texture1_i) {
            return None;
        }
        let mut textures = match self.load_texturex(texture1_i, pnames.as_slice()) {
            Some(Ok(t)) => t,
            other => {
                return other;
            },
        };
        if let Ok(texture2_i) = self.find_lump(texture2_lump_name()) {
            if !self.lump_in_bounds(texture2_i) {
                return None;
            }
            let mut more = match self.load_texturex(texture2_i, pnames.as_slice()) {
                Some(Ok(t)) => t,
                other => {
                    return other;
                },
            };
            let ghost first = textures@;
            let ghost second = more@;
            textures.append(&mut more);
            assert(texture_views(textures@) =~= texture_views(first) + texture_views(second));
        }
        Some(Ok(textures))
    }

    /// Whether `load_textures` can read the textures: every read within its lump, list or
    /// picture, and every drawn position a 32-bit integer.
    pub fn textures_loadable(&self) -> (r: bool)
        ensures
            r == (spec_load_textures(self@) is Some),
    {
        self.read_textures().is_some()
    }

    /// All wall textures: those of TEXTURE1, then those of TEXTURE2 where the file has one.
    /// It fails where PNAMES or TEXTURE1 is missing, or a patch that a texture names is not
    /// among the patch lumps.
    pub fn load_textures(&self) -> (r: Result<Vec<Texture>, WadError>)
        requires
            spec_load_textures(self@) is Some,
        ensures
            spec_load_textures(self@) matches Some(Ok(ts)) ==> (r matches Ok(v) && texture_views(v@) == ts),
            spec_load_textures(self@) matches Some(Err(e)) ==> (r matches Err(WadError::LumpNotFound(n)) && n@ == e),
    {
        match self.read_textures() {
            Some(r) => r,
            None => vstd::pervasive::unreached(),
        }
    }
}

} // verus!
