//! Colours: the game palette and true-colour images made from palette indices.
use vstd::prelude::*;

verus! {

/// A colour of the game palette.
#[derive(Clone, Copy, PartialEq, Eq, Debug, Structural)]
pub struct DoomColor {
    pub r: u8,
    pub g: u8,
    pub b: u8,
}

impl DoomColor {
    pub fn new(r: u8, g: u8, b: u8) -> (c: Self)
        ensures
            c.r == r,
            c.g == g,
            c.b == b,
    {
        Self { r, g, b }
    }

    /// Black, the colour a palette starts from.
    pub fn black() -> (c: Self)
        ensures
            c == (DoomColor { r: 0, g: 0, b: 0 }),
    {
        Self::new(0, 0, 0)
    }

    /// The colour whose three channels are 1.
    pub fn white() -> (c: Self)
        ensures
            c == (DoomColor { r: 1, g: 1, b: 1 }),
    {
        Self::new(1, 1, 1)
    }
}

/// The 256 colours that palette indices stand for.
pub struct DoomPalette([DoomColor; 256]);

/// A true-colour image: width times height pixels, row by row, four bytes (red, green,
/// blue, alpha) each.
#[derive(Clone, Debug)]
pub struct RgbaImage {
    pub width: u32,
    pub height: u32,
    pub data: Vec<u8>,
}

impl DoomPalette {
    /// The palette's colours, index by index.
    pub closed spec fn colors(&self) -> Seq<DoomColor> {
        self.0@
    }

    /// The first palette of a PLAYPAL lump: 256 colours of three bytes (red, green, blue).
    pub fn from_playpal(playpal: &[u8]) -> (p: Self)
        requires
            playpal@.len() >= 768,
        ensures
            p.colors().len() == 256,
            forall|i: int| 0 <= i < 256 ==> #[trigger] p.colors()[i] == (DoomColor {
                r: playpal@[3 * i],
                g: playpal@[3 * i + 1],
                b: playpal@[3 * i + 2],
            }),
    {
        let first_palette = vstd::slice::slice_subrange(playpal, 0, 768);
        let mut palette_array = [DoomColor::black(); 256];
        let mut i: usize = 0;
        while i < first_palette.len() / 3
            invariant
                first_palette@ == playpal@.subrange(0, 768),
                playpal@.len() >= 768,
                i <= 256,
                forall|k: int| 0 <= k < i ==> #[trigger] palette_array@[k] == (DoomColor {
                    r: playpal@[3 * k],
                    g: playpal@[3 * k + 1],
                    b: playpal@[3 * k + 2],
                }),
            decreases 256 - i,
        {
            assert(palette_array@.len() == 256);
            let r = first_palette[i * 3];
            let g = first_palette[i * 3 + 1];
            let b = first_palette[i * 3 + 2];
            palette_array[i] = DoomColor::new(r, g, b);
            i = i + 1;
        }
        DoomPalette(palette_array)
    }

    /// The colour of palette index `i`.
    pub fn color(&self, i: u8) -> (c: DoomColor)
        ensures
            c == self.colors()[i as int],
    {
        self.0[i as usize]
    }

    /// The true-colour bytes of a list of palette indices, every pixel opaque.
    pub fn rgba_opaque(&self, indices: &[u8]) -> (r: Vec<u8>)
        requires
            4 * indices@.len() <= isize::MAX,
        ensures
            r@ == rgba_pixels(self.colors(), indices@.map_values(|i: u8| Some(i))),
    {
        let ghost pixels = indices@.map_values(|i: u8| Some(i));
        let mut image_data: Vec<u8> = Vec::with_capacity(indices.len() * 4);
        let mut k: usize = 0;
        while k < indices.len()
            invariant
                k <= indices@.len(),
                4 * indices@.len() <= isize::MAX,
                pixels == indices@.map_values(|i: u8| Some(i)),
                image_data@ == rgba_pixels(self.colors(), pixels.take(k as int)),
            decreases indices@.len() - k,
        {
            let color = self.color(indices[k]);
            let ghost before = image_data@;
            image_data.push(color.r);
            image_data.push(color.g);
            image_data.push(color.b);
            image_data.push(255);
            proof {
                lemma_rgba_pixels_push(self.colors(), pixels.take(k as int), Some(indices@[k as int]));
                assert(pixels.take(k + 1) =~= pixels.take(k as int).push(Some(indices@[k as int])));
                assert(image_data@ =~= before + rgba_of(self.colors(), Some(indices@[k as int])));
            }
            k = k + 1;
        }
        assert(pixels.take(indices@.len() as int) =~= pixels);
        image_data
    }

    /// The true-colour bytes of a list of optional palette indices; `None` is a transparent
    /// black pixel.
    pub fn rgba_optional(&self, pixels: &[Option<u8>]) -> (r: Vec<u8>)
        requires
            4 * pixels@.len() <= isize::MAX,
        ensures
            r@ == rgba_pixels(self.colors(), pixels@),
    {
        let mut image_data: Vec<u8> = Vec::with_capacity(pixels.len() * 4);
        let mut k: usize = 0;
        while k < pixels.len()
            invariant
                k <= pixels@.len(),
                4 * pixels@.len() <= isize::MAX,
                image_data@ == rgba_pixels(self.colors(), pixels@.take(k as int)),
            decreases pixels@.len() - k,
        {
            let ghost before = image_data@;
            if let Some(pixel) = pixels[k] {
                // Not transparent
                let color = self.color(pixel);
                image_data.push(color.r);
                image_data.push(color.g);
                image_data.push(color.b);
                image_data.push(255);
            } else {
                image_data.push(0);
                image_data.push(0);
                image_data.push(0);
                image_data.push(0);
            }
            proof {
                lemma_rgba_pixels_push(self.colors(), pixels@.take(k as int), pixels@[k as int]);
                assert(pixels@.take(k + 1) =~= pixels@.take(k as int).push(pixels@[k as int]));
                assert(image_data@ =~= before + rgba_of(self.colors(), pixels@[k as int]));
            }
            k = k + 1;
        }
        assert(pixels@.take(pixels@.len() as int) =~= pixels@);
        image_data
    }

    /// The 64 by 64 image of a flat's lump, as the renderer draws floors and ceilings.
    pub fn flat_lump_image(&self, lump: &[u8]) -> (r: RgbaImage)
        requires
            lump@.len() == 4096,
        ensures
            r.width == 64,
            r.height == 64,
            r.data@ == rgba_pixels(self.colors(), lump@.map_values(|i: u8| Some(i))),
    {
        RgbaImage { width: 64, height: 64, data: self.rgba_opaque(lump) }
    }
}

/// The four bytes of one pixel: its colour and full alpha, or transparent black.
pub open spec fn rgba_of(colors: Seq<DoomColor>, pixel: Option<u8>) -> Seq<u8> {
    match pixel {
        Some(i) => seq![colors[i as int].r, colors[i as int].g, colors[i as int].b, 255u8],
        None => seq![0u8, 0u8, 0u8, 0u8],
    }
}

/// The bytes of a row of pixels, four per pixel.
pub open spec fn rgba_pixels(colors: Seq<DoomColor>, pixels: Seq<Option<u8>>) -> Seq<u8>
    decreases pixels.len(),
{
    if pixels.len() == 0 {
        Seq::empty()
    } else {
        rgba_pixels(colors, pixels.drop_last()) + rgba_of(colors, pixels.last())
    }
}

proof fn lemma_rgba_pixels_push(colors: Seq<DoomColor>, pixels: Seq<Option<u8>>, p: Option<u8>)
    ensures
        rgba_pixels(colors, pixels.push(p)) == rgba_pixels(colors, pixels) + rgba_of(colors, p),
{
    assert(pixels.push(p).drop_last() =~= pixels);
}

/// An image has four bytes per pixel, and pixel `i` is `rgba_of` the `i`th palette index.
pub proof fn lemma_rgba_pixels(colors: Seq<DoomColor>, pixels: Seq<Option<u8>>)
    ensures
        rgba_pixels(colors, pixels).len() == 4 * pixels.len(),
        forall|i: int| 0 <= i < 4 * pixels.len() ==> #[trigger] rgba_pixels(colors, pixels)[i] == rgba_of(colors, pixels[i / 4])[i % 4],
    decreases pixels.len(),
{
    if pixels.len() > 0 {
        lemma_rgba_pixels(colors, pixels.drop_last());
        let prev = rgba_pixels(colors, pixels.drop_last());
        let all = rgba_pixels(colors, pixels);
        assert forall|i: int| 0 <= i < 4 * pixels.len() implies #[trigger] all[i] == rgba_of(colors, pixels[i / 4])[i % 4] by {
            if i < 4 * (pixels.len() - 1) {
                assert(all[i] == prev[i]);
                assert(pixels.drop_last()[i / 4] == pixels[i / 4]);
            } else {
                assert(all[i] == rgba_of(colors, pixels.last())[i - 4 * (pixels.len() - 1)]);
            }
        }
    }
}

} // verus!
