use glyph_atlas::assemble::{build_atlas, order_glyphs};
use glyph_atlas::glyph::{AtlasError, AtlasImage, CharData, GlyphBitmap, GlyphMetrics, GlyphRecord};
use glyph_atlas::outline::glyph_from_raster;
use glyph_atlas::packer::pack;
use glyph_atlas::slicer::slice;

fn glyph(code: u16, w: u16, h: u16) -> CharData {
    let n = w as u32 * h as u32;
    let pixels: Vec<u32> = (0..n).map(|k| (code as u32) << 16 | (k + 1)).collect();
    let image = GlyphBitmap::new(w, h, pixels).unwrap();
    let m = GlyphMetrics { char_code: code, x_bearing: -1, y_bearing: 2, advance: w, reserved4: 10, reserved5: 11 };
    CharData::new(m, image)
}

fn origins(records: &[GlyphRecord]) -> Vec<(u16, u16)> {
    records.iter().map(|r| (r.origin_x, r.origin_y)).collect()
}

#[test]
fn three_glyphs_example_layout() {
    let gs = vec![glyph(1, 10, 20), glyph(2, 500, 20), glyph(3, 5, 5)];
    let p = pack(&gs).unwrap();
    assert_eq!(origins(&p.records), vec![(0, 0), (10, 0), (0, 20)]);
    assert_eq!((p.atlas.width, p.atlas.height), (512, 32));
}

#[test]
fn reaching_nominal_width_starts_new_row() {
    let gs = vec![glyph(1, 10, 20), glyph(2, 502, 3)];
    let p = pack(&gs).unwrap();
    assert_eq!(origins(&p.records), vec![(0, 0), (0, 20)]);
    assert_eq!((p.atlas.width, p.atlas.height), (512, 24));
}

#[test]
fn empty_set_gives_512_by_0() {
    let p = pack(&Vec::new()).unwrap();
    assert_eq!((p.atlas.width, p.atlas.height), (512, 0));
    assert!(p.records.is_empty());
    assert!(p.atlas.pixels.is_empty());
    let b = build_atlas(Vec::new()).unwrap();
    assert_eq!((b.atlas.width, b.atlas.height), (512, 0));
}

#[test]
fn wide_glyph_widens_atlas_to_multiple_of_8() {
    let p = pack(&vec![glyph(1, 601, 1)]).unwrap();
    assert_eq!((p.atlas.width, p.atlas.height), (608, 8));
    let q = pack(&vec![glyph(1, 600, 9)]).unwrap();
    assert_eq!((q.atlas.width, q.atlas.height), (600, 16));
}

#[test]
fn records_carry_metadata_and_placement() {
    let p = pack(&vec![glyph(7, 3, 4)]).unwrap();
    let r = p.records[0];
    assert_eq!(r, GlyphRecord {
        char_code: 7, origin_x: 0, origin_y: 0, width: 3, height: 4,
        x_bearing: -1, y_bearing: 2, advance: 3, reserved4: 10, reserved5: 11,
    });
}

#[test]
fn bitmaps_copied_and_rest_is_zero() {
    let gs = vec![glyph(1, 2, 2), glyph(2, 3, 1)];
    let p = pack(&gs).unwrap();
    let w = p.atlas.width as usize;
    assert_eq!(p.atlas.pixels.len(), w * p.atlas.height as usize);
    assert_eq!(p.atlas.pixels[0], (1 << 16) | 1);
    assert_eq!(p.atlas.pixels[1], (1 << 16) | 2);
    assert_eq!(p.atlas.pixels[w], (1 << 16) | 3);
    assert_eq!(p.atlas.pixels[w + 1], (1 << 16) | 4);
    assert_eq!(p.atlas.pixels[2], (2 << 16) | 1);
    assert_eq!(p.atlas.pixels[4], (2 << 16) | 3);
    assert_eq!(p.atlas.pixels[5], 0);
    assert_eq!(p.atlas.pixels[w + 2], 0);
    let covered = 4 + 3;
    assert_eq!(p.atlas.pixels.iter().filter(|&&v| v != 0).count(), covered);
}

#[test]
fn packing_twice_is_identical() {
    let gs = vec![glyph(1, 100, 7), glyph(2, 300, 9), glyph(3, 200, 4), glyph(4, 50, 50)];
    let a = pack(&gs).unwrap();
    let b = pack(&gs).unwrap();
    assert_eq!(a.records, b.records);
    assert_eq!((a.atlas.width, a.atlas.height), (b.atlas.width, b.atlas.height));
    assert_eq!(a.atlas.pixels, b.atlas.pixels);
}

#[test]
fn placements_do_not_overlap_and_fit() {
    let gs: Vec<CharData> = (0..40u16).map(|i| glyph(i, 20 + (i * 37) % 90, 5 + (i * 11) % 30)).collect();
    let p = pack(&gs).unwrap();
    assert_eq!(p.atlas.width % 8, 0);
    assert_eq!(p.atlas.height % 8, 0);
    for (i, a) in p.records.iter().enumerate() {
        assert!(a.origin_x as u32 + a.width as u32 <= p.atlas.width);
        assert!(a.origin_y as u32 + a.height as u32 <= p.atlas.height);
        for b in p.records.iter().skip(i + 1) {
            let apart = a.origin_x + a.width <= b.origin_x
                || b.origin_x + b.width <= a.origin_x
                || a.origin_y + a.height <= b.origin_y
                || b.origin_y + b.height <= a.origin_y;
            assert!(apart);
        }
    }
}

#[test]
fn slice_after_pack_gives_glyphs_back() {
    let gs = vec![glyph(1, 10, 20), glyph(2, 500, 20), glyph(3, 5, 5), glyph(4, 0, 3)];
    let p = pack(&gs).unwrap();
    let out = slice(&p.atlas, &p.records).unwrap();
    assert_eq!(out.len(), gs.len());
    for (a, b) in out.iter().zip(gs.iter()) {
        assert_eq!(a.metrics(), b.metrics());
        assert_eq!((a.glyth_width, a.glyth_height), (b.glyth_width, b.glyth_height));
        assert_eq!(a.image.pixels, b.image.pixels);
    }
}

#[test]
fn slice_rejects_rectangle_outside_atlas() {
    let atlas = AtlasImage::new(8, 8, vec![0; 64]).unwrap();
    let ok = GlyphRecord {
        char_code: 5, origin_x: 4, origin_y: 4, width: 4, height: 4,
        x_bearing: 0, y_bearing: 0, advance: 0, reserved4: 0, reserved5: 0,
    };
    let bad = GlyphRecord { char_code: 6, origin_x: 5, ..ok };
    assert!(slice(&atlas, &vec![ok]).is_ok());
    assert_eq!(slice(&atlas, &vec![ok, bad]).unwrap_err(), AtlasError::PlacementOutOfBounds(6));
}

#[test]
fn slice_crops_exact_pixels() {
    let pixels: Vec<u32> = (0..64).collect();
    let atlas = AtlasImage::new(8, 8, pixels).unwrap();
    let r = GlyphRecord {
        char_code: 9, origin_x: 2, origin_y: 3, width: 2, height: 2,
        x_bearing: 1, y_bearing: -1, advance: 4, reserved4: 10, reserved5: 10,
    };
    let out = slice(&atlas, &vec![r]).unwrap();
    assert_eq!(out[0].image.pixels, vec![26, 27, 34, 35]);
    assert_eq!(out[0].char, 9);
    assert_eq!(out[0].unk2, -1);
}

#[test]
fn too_low_placement_is_refused() {
    let gs = vec![glyph(1, 511, 1), glyph(2, 1, 65535), glyph(3, 511, 1)];
    assert_eq!(pack(&gs).unwrap_err(), AtlasError::GlyphTooWide(3));
}

#[test]
fn duplicate_code_is_refused_before_packing() {
    let gs = vec![glyph(5, 2, 2), glyph(3, 2, 2), glyph(5, 4, 4)];
    assert_eq!(build_atlas(gs).unwrap_err(), AtlasError::DuplicateGlyphId(5));
}

#[test]
fn order_sorts_by_code() {
    let gs = vec![glyph(30, 1, 1), glyph(10, 2, 1), glyph(20, 3, 1)];
    let s = order_glyphs(gs).unwrap();
    let codes: Vec<u16> = s.iter().map(|d| d.char).collect();
    assert_eq!(codes, vec![10, 20, 30]);
}

#[test]
fn build_packs_in_code_order() {
    let gs = vec![glyph(3, 5, 5), glyph(1, 10, 20), glyph(2, 500, 20)];
    let p = build_atlas(gs).unwrap();
    let codes: Vec<u16> = p.records.iter().map(|r| r.char_code).collect();
    assert_eq!(codes, vec![1, 2, 3]);
    assert_eq!(origins(&p.records), vec![(0, 0), (10, 0), (0, 20)]);
}

#[test]
fn bitmap_new_checks_length() {
    assert!(GlyphBitmap::new(2, 2, vec![0; 3]).is_none());
    assert!(GlyphBitmap::new(2, 2, vec![0; 4]).is_some());
    assert!(AtlasImage::new(2, 3, vec![0; 5]).is_none());
}

#[test]
fn raster_glyph_takes_coverage_as_alpha() {
    let d = glyph_from_raster(65, -1, -3, 2, 1, 9, 14, &vec![0, 255]).unwrap();
    assert_eq!(d.char, 65);
    assert_eq!(d.unk1, -1);
    assert_eq!(d.unk2, 14 - 1 + 3);
    assert_eq!(d.distance, 9);
    assert_eq!((d.unk4, d.unk5), (10, 10));
    assert_eq!((d.glyth_width, d.glyth_height), (2, 1));
    assert_eq!(d.image.pixels, vec![0, 0xff00_0000]);
}

#[test]
fn raster_empty_glyph_gets_one_pixel() {
    let d = glyph_from_raster(32, 0, 0, 0, 0, 4, 14, &vec![]).unwrap();
    assert_eq!((d.glyth_width, d.glyth_height), (1, 1));
    assert_eq!(d.image.pixels, vec![0]);
    assert_eq!(d.unk2, 14);
}

#[test]
fn raster_size_mismatch_is_refused() {
    assert_eq!(
        glyph_from_raster(66, 0, 0, 2, 2, 4, 14, &vec![1, 2, 3]).unwrap_err(),
        AtlasError::RasterOutOfRange(66)
    );
    assert_eq!(
        glyph_from_raster(67, 40000, 0, 1, 1, 4, 14, &vec![1]).unwrap_err(),
        AtlasError::RasterOutOfRange(67)
    );
}
