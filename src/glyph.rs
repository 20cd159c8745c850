use vstd::prelude::*;

verus! {

/// Metadata of one glyph as carried in its file name: everything but the
/// bitmap's size and its place in the atlas.
#[derive(Clone, Copy, Debug, PartialEq, Eq, Structural)]
pub struct GlyphMetrics {
    pub char_code: u16,
    pub x_bearing: i16,
    pub y_bearing: i16,
    pub advance: u16,
    pub reserved4: u16,
    pub reserved5: u16,
}

/// Errors raised while reading glyph names, ordering glyphs, packing or
/// slicing an atlas. Each carries the character code concerned, where one
/// is known.
#[derive(Clone, Copy, Debug, PartialEq, Eq, Structural)]
pub enum AtlasError {
    /// A file name does not follow the six-field schema, or a field is out of range.
    MalformedName,
    /// Two glyphs claim the same character code.
    DuplicateGlyphId(u16),
    /// A stored rectangle does not fit inside the atlas.
    PlacementOutOfBounds(u16),
    /// A glyph would be placed at a coordinate that does not fit in 16 bits.
    GlyphTooWide(u16),
    /// The atlas would hold more pixels than this machine can address.
    AtlasTooLarge,
    /// Rasterizer metrics that cannot be represented in a glyph record.
    RasterOutOfRange(u16),
}

/// The row-major index of `(x, y)` in an image `w` pixels wide lies inside
/// an image of `h` rows.
pub proof fn lemma_index_bound(w: int, h: int, x: int, y: int)
    requires
        0 <= x < w,
        0 <= y < h,
    ensures
        0 <= y * w + x < w * h,
{
    assert(0 <= y * w) by (nonlinear_arith)
        requires
            0 <= y,
            0 <= w,
    ;
    assert(y * w + w <= h * w) by (nonlinear_arith)
        requires
            y + 1 <= h,
            0 <= w,
    ;
    assert(h * w == w * h) by (nonlinear_arith);
}

/// Distinct pixels of a row-major image have distinct indices.
pub proof fn lemma_index_unique(w: int, x1: int, y1: int, x2: int, y2: int)
    requires
        0 <= x1 < w,
        0 <= x2 < w,
        0 <= y1,
        0 <= y2,
        y1 * w + x1 == y2 * w + x2,
    ensures
        x1 == x2,
        y1 == y2,
{
    if y1 < y2 {
        assert(y1 * w + w <= y2 * w) by (nonlinear_arith)
            requires
                y1 + 1 <= y2,
                0 <= w,
        ;
    } else if y2 < y1 {
        assert(y2 * w + w <= y1 * w) by (nonlinear_arith)
            requires
                y2 + 1 <= y1,
                0 <= w,
        ;
    }
}

/// Every index below `w * h` is the row-major index of a pixel.
pub proof fn lemma_index_split(w: int, h: int, k: int)
    requires
        0 < w,
        0 <= k < w * h,
    ensures
        0 <= k % w < w,
        0 <= k / w < h,
        (k / w) * w + k % w == k,
{
    vstd::arithmetic::div_mod::lemma_fundamental_div_mod(k, w);
    vstd::arithmetic::div_mod::lemma_div_pos_is_pos(k, w);
    assert(0 <= k % w < w);
    assert(w * (k / w) == (k / w) * w) by (nonlinear_arith);
    if k / w >= h {
        assert((k / w) * w >= h * w) by (nonlinear_arith)
            requires
                k / w >= h,
                0 < w,
        ;
        assert(h * w == w * h) by (nonlinear_arith);
    }
}

/// A glyph's own pixels, row-major, one RGBA pixel per element (red in the
/// low byte, alpha in the high byte).
#[derive(Clone, Debug)]
pub struct GlyphBitmap {
    pub width: u16,
    pub height: u16,
    pub pixels: Vec<u32>,
}

/// The pixel of `b` at column `x`, row `y`.
pub open spec fn bitmap_pixel(b: GlyphBitmap, x: int, y: int) -> u32 {
    b.pixels@[y * b.width + x]
}

impl GlyphBitmap {
    pub open spec fn wf(&self) -> bool {
        self.pixels@.len() == self.width as int * self.height as int
    }

    /// A bitmap of the given size, if `pixels` holds exactly one value per pixel.
    pub fn new(width: u16, height: u16, pixels: Vec<u32>) -> (r: Option<GlyphBitmap>)
        ensures
            r is Some <==> pixels@.len() == width as int * height as int,
            r is Some ==> r->0.width == width && r->0.height == height && r->0.pixels@
                == pixels@ && r->0.wf(),
    {
        assert(width as int * height as int <= 0xffff * 0xffff) by (nonlinear_arith)
            requires
                width <= 0xffff,
                height <= 0xffff,
        ;
        if pixels.len() as u64 == width as u64 * height as u64 {
            Some(GlyphBitmap { width, height, pixels })
        } else {
            None
        }
    }
}

/// One glyph waiting to be packed: its metadata, its size and its bitmap.
#[derive(Clone, Debug)]
pub struct CharData {
    pub char: u16,
    pub glyth_width: u16,
    pub glyth_height: u16,
    pub unk1: i16,
    pub unk2: i16,
    pub distance: u16,
    pub unk4: u16,
    pub unk5: u16,
    pub image: GlyphBitmap,
}

impl CharData {
    pub open spec fn wf(&self) -> bool {
        &&& self.image.wf()
        &&& self.glyth_width == self.image.width
        &&& self.glyth_height == self.image.height
    }

    pub open spec fn metrics_spec(&self) -> GlyphMetrics {
        GlyphMetrics {
            char_code: self.char,
            x_bearing: self.unk1,
            y_bearing: self.unk2,
            advance: self.distance,
            reserved4: self.unk4,
            reserved5: self.unk5,
        }
    }

    /// A glyph of the given metadata, sized after its bitmap.
    pub fn new(metrics: GlyphMetrics, image: GlyphBitmap) -> (r: CharData)
        requires
            image.wf(),
        ensures
            r.wf(),
            r.metrics_spec() == metrics,
            r.image == image,
    {
        CharData {
            char: metrics.char_code,
            glyth_width: image.width,
            glyth_height: image.height,
            unk1: metrics.x_bearing,
            unk2: metrics.y_bearing,
            distance: metrics.advance,
            unk4: metrics.reserved4,
            unk5: metrics.reserved5,
            image,
        }
    }

    /// The metadata a file name carries for this glyph.
    pub fn metrics(&self) -> (r: GlyphMetrics)
        ensures
            r == self.metrics_spec(),
    {
        GlyphMetrics {
            char_code: self.char,
            x_bearing: self.unk1,
            y_bearing: self.unk2,
            advance: self.distance,
            reserved4: self.unk4,
            reserved5: self.unk5,
        }
    }
}

/// One entry of a glyph dictionary: identity, placement in the atlas and
/// rendering metadata.
#[derive(Clone, Copy, Debug, PartialEq, Eq, Structural)]
pub struct GlyphRecord {
    pub char_code: u16,
    pub origin_x: u16,
    pub origin_y: u16,
    pub width: u16,
    pub height: u16,
    pub x_bearing: i16,
    pub y_bearing: i16,
    pub advance: u16,
    pub reserved4: u16,
    pub reserved5: u16,
}

impl GlyphRecord {
    pub open spec fn metrics_spec(&self) -> GlyphMetrics {
        GlyphMetrics {
            char_code: self.char_code,
            x_bearing: self.x_bearing,
            y_bearing: self.y_bearing,
            advance: self.advance,
            reserved4: self.reserved4,
            reserved5: self.reserved5,
        }
    }

    /// The metadata a file name carries for this glyph.
    pub fn metrics(&self) -> (r: GlyphMetrics)
        ensures
            r == self.metrics_spec(),
    {
        GlyphMetrics {
            char_code: self.char_code,
            x_bearing: self.x_bearing,
            y_bearing: self.y_bearing,
            advance: self.advance,
            reserved4: self.reserved4,
            reserved5: self.reserved5,
        }
    }
}

/// The rectangle of `r` lies inside `a`.
pub open spec fn record_fits(r: GlyphRecord, a: AtlasImage) -> bool {
    r.origin_x as int + r.width as int <= a.width && r.origin_y as int + r.height as int <= a.height
}

/// The rectangles of two records share no pixel.
pub open spec fn records_disjoint(a: GlyphRecord, b: GlyphRecord) -> bool {
    ||| a.origin_x as int + a.width as int <= b.origin_x as int
    ||| b.origin_x as int + b.width as int <= a.origin_x as int
    ||| a.origin_y as int + a.height as int <= b.origin_y as int
    ||| b.origin_y as int + b.height as int <= a.origin_y as int
}

/// A texture holding every glyph of a dictionary, row-major, one RGBA pixel
/// per element.
#[derive(Clone, Debug)]
pub struct AtlasImage {
    pub width: u32,
    pub height: u32,
    pub pixels: Vec<u32>,
}

/// The pixel of `a` at column `x`, row `y`.
pub open spec fn atlas_pixel(a: AtlasImage, x: int, y: int) -> u32 {
    a.pixels@[y * a.width + x]
}

impl AtlasImage {
    pub open spec fn wf(&self) -> bool {
        self.pixels@.len() == self.width as int * self.height as int
    }

    /// An atlas of the given size, if `pixels` holds exactly one value per pixel.
    pub fn new(width: u32, height: u32, pixels: Vec<u32>) -> (r: Option<AtlasImage>)
        ensures
            r is Some <==> pixels@.len() == width as int * height as int,
            r is Some ==> r->0.width == width && r->0.height == height && r->0.pixels@
                == pixels@ && r->0.wf(),
    {
        assert(width as int * height as int <= 0xffff_ffff * 0xffff_ffff) by (nonlinear_arith)
            requires
                width <= 0xffff_ffff,
                height <= 0xffff_ffff,
        ;
        if pixels.len() as u128 == width as u128 * height as u128 {
            Some(AtlasImage { width, height, pixels })
        } else {
            None
        }
    }
}

/// A packed atlas and the dictionary that says where each glyph lies in it.
#[derive(Clone, Debug)]
pub struct PackedAtlas {
    pub atlas: AtlasImage,
    pub records: Vec<GlyphRecord>,
}

} // verus!
