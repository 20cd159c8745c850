use vstd::prelude::*;
use crate::glyph::{AtlasError, CharData, GlyphBitmap};

verus! {

/// Value given to both reserved fields of an imported glyph.
pub const DEFAULT_RESERVED: u16 = 10;

/// Pixel for a coverage sample: black, with the sample as alpha.
pub open spec fn coverage_pixel(c: u8) -> u32 {
    (c as u32 * 0x100_0000) as u32
}

/// The y bearing of a rasterized glyph: its top measured down from the
/// line `scale` pixels above the baseline.
pub open spec fn y_bearing_of(scale: int, height: int, ymin: int) -> int {
    scale - height - ymin
}

/// The rasterizer's output can be represented as a glyph.
pub open spec fn raster_fits(
    xmin: i32,
    ymin: i32,
    width: usize,
    height: usize,
    scale: u16,
    coverage: Seq<u8>,
) -> bool {
    &&& width <= 0xffff
    &&& height <= 0xffff
    &&& coverage.len() == width as int * height as int
    &&& -0x8000 <= xmin <= 0x7fff
    &&& -0x8000 <= y_bearing_of(scale as int, height as int, ymin as int) <= 0x7fff
}

/// Turns one rasterized glyph (its metrics and a row-major coverage map)
/// into a glyph ready for packing. A glyph with no pixels (a space) gets a
/// single transparent pixel, so that no glyph is empty.
pub fn glyph_from_raster(
    code: u16,
    xmin: i32,
    ymin: i32,
    width: usize,
    height: usize,
    advance: u16,
    scale: u16,
    coverage: &Vec<u8>,
) -> (r: Result<CharData, AtlasError>)
    ensures
        r is Ok <==> raster_fits(xmin, ymin, width, height, scale, coverage@),
        r is Err ==> r == Err::<CharData, AtlasError>(AtlasError::RasterOutOfRange(code)),
        r is Ok ==> {
            let d = r->Ok_0;
            &&& d.wf()
            &&& d.char == code
            &&& d.unk1 == xmin
            &&& d.unk2 == y_bearing_of(scale as int, height as int, ymin as int)
            &&& d.distance == advance
            &&& d.unk4 == DEFAULT_RESERVED
            &&& d.unk5 == DEFAULT_RESERVED
            &&& (width == 0 || height == 0) ==> d.image.width == 1 && d.image.height == 1
                && d.image.pixels@ == seq![0u32]
            &&& (width > 0 && height > 0) ==> d.image.width == width && d.image.height == height
                && forall|k: int| 0 <= k < coverage@.len() ==> #[trigger] d.image.pixels@[k]
                    == coverage_pixel(coverage@[k])
        },
{
    if width > 0xffff || height > 0xffff {
        return Err(AtlasError::RasterOutOfRange(code));
    }
    assert(width as int * height as int <= 0xffff * 0xffff) by (nonlinear_arith)
        requires
            width <= 0xffff,
            height <= 0xffff,
    ;
    if coverage.len() != width * height {
        return Err(AtlasError::RasterOutOfRange(code));
    }
    if xmin < -0x8000 || xmin > 0x7fff {
        return Err(AtlasError::RasterOutOfRange(code));
    }
    let yb: i64 = scale as i64 - height as i64 - ymin as i64;
    if yb < -0x8000 || yb > 0x7fff {
        return Err(AtlasError::RasterOutOfRange(code));
    }
    let image = if width == 0 || height == 0 {
        let mut px: Vec<u32> = Vec::new();
        px.push(0);
        assert(px@ =~= seq![0u32]);
        GlyphBitmap { width: 1, height: 1, pixels: px }
    } else {
        let mut px: Vec<u32> = Vec::new();
        let mut k: usize = 0;
        while k < coverage.len()
            invariant
                k <= coverage@.len(),
                px@.len() == k,
                forall|j: int| 0 <= j < k ==> #[trigger] px@[j] == coverage_pixel(coverage@[j]),
            decreases coverage@.len() - k,
        {
            px.push(coverage[k] as u32 * 0x100_0000);
            k = k + 1;
        }
        GlyphBitmap { width: width as u16, height: height as u16, pixels: px }
    };
    Ok(
        CharData {
            char: code,
            glyth_width: image.width,
            glyth_height: image.height,
            unk1: xmin as i16,
            unk2: yb as i16,
            distance: advance,
            unk4: DEFAULT_RESERVED,
            unk5: DEFAULT_RESERVED,
            image,
        },
    )
}

} // verus!
