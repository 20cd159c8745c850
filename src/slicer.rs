use vstd::prelude::*;
use crate::glyph::{
    lemma_index_bound, lemma_index_split, record_fits, atlas_pixel, bitmap_pixel, AtlasError, AtlasImage,
    CharData, GlyphBitmap, GlyphRecord, PackedAtlas,
};
use crate::packer::{lemma_pack_layout, lemma_records_are_places, packed_as, place_at};

verus! {

/// `d` is what slicing the rectangle of `r` out of `a` gives.
pub open spec fn sliced_from(a: AtlasImage, r: GlyphRecord, d: CharData) -> bool {
    &&& d.wf()
    &&& d.metrics_spec() == r.metrics_spec()
    &&& d.glyth_width == r.width
    &&& d.glyth_height == r.height
    &&& forall|x: int, y: int|
        0 <= x < r.width && 0 <= y < r.height ==> #[trigger] bitmap_pixel(d.image, x, y)
            == atlas_pixel(a, r.origin_x + x, r.origin_y + y)
}

/// `out` is what slicing every record of `records` out of `a` gives.
pub open spec fn sliced_as(a: AtlasImage, records: Seq<GlyphRecord>, out: Seq<CharData>) -> bool {
    &&& out.len() == records.len()
    &&& forall|i: int| 0 <= i < records.len() ==> sliced_from(a, records[i], #[trigger] out[i])
}

/// Copies the rectangle of `r` out of `a` into a bitmap of its own.
fn crop(a: &AtlasImage, r: &GlyphRecord) -> (b: GlyphBitmap)
    requires
        a.wf(),
        record_fits(*r, *a),
    ensures
        b.wf(),
        b.width == r.width,
        b.height == r.height,
        forall|x: int, y: int|
            0 <= x < r.width && 0 <= y < r.height ==> #[trigger] bitmap_pixel(b, x, y)
                == atlas_pixel(*a, r.origin_x + x, r.origin_y + y),
{
    let w = r.width as usize;
    let h = r.height as usize;
    let ox = r.origin_x as usize;
    let oy = r.origin_y as usize;
    let aw = a.width as usize;
    let alen = a.pixels.len();
    let mut pixels: Vec<u32> = Vec::new();
    let mut dy: usize = 0;
    while dy < h
        invariant
            a.wf(),
            alen == a.pixels@.len(),
            aw == a.width,
            w == r.width,
            h == r.height,
            ox == r.origin_x,
            oy == r.origin_y,
            record_fits(*r, *a),
            dy <= h,
            pixels@.len() == dy * w,
            forall|x: int, y: int|
                0 <= x < w && 0 <= y < dy ==> #[trigger] pixels@[y * w + x] == atlas_pixel(
                    *a,
                    ox + x,
                    oy + y,
                ),
        decreases h - dy,
    {
        let mut dx: usize = 0;
        while dx < w
            invariant
                a.wf(),
                alen == a.pixels@.len(),
                aw == a.width,
                w == r.width,
                h == r.height,
                ox == r.origin_x,
                oy == r.origin_y,
                record_fits(*r, *a),
                dy < h,
                dx <= w,
                pixels@.len() == dy * w + dx,
                forall|x: int, y: int|
                    0 <= x < w && 0 <= y <= dy && (y < dy || x < dx) ==> #[trigger] pixels@[y * w
                        + x] == atlas_pixel(*a, ox + x, oy + y),
            decreases w - dx,
        {
            proof {
                lemma_index_bound(aw as int, a.height as int, ox + dx, oy + dy);
            }
            let v = a.pixels[(oy + dy) * aw + (ox + dx)];
            let ghost before = pixels@;
            pixels.push(v);
            proof {
                assert forall|x: int, y: int|
                    0 <= x < w && 0 <= y <= dy && (y < dy || x < dx + 1) implies #[trigger] pixels@[y
                        * w + x] == atlas_pixel(*a, ox + x, oy + y) by {
                    if y < dy || x < dx {
                        lemma_index_bound(w as int, dy + 1, x, y);
                        if y < dy {
                            assert(y * w + x < dy * w) by (nonlinear_arith)
                                requires
                                    y + 1 <= dy,
                                    x < w,
                                    0 <= x,
                            ;
                        }
                        assert(pixels@[y * w + x] == before[y * w + x]);
                    } else {
                        assert(x == dx && y == dy);
                    }
                }
            }
            dx = dx + 1;
        }
        assert((dy + 1) * w == dy * w + w) by (nonlinear_arith);
        dy = dy + 1;
    }
    assert(dy * w == w * h) by (nonlinear_arith)
        requires
            dy == h,
    ;
    GlyphBitmap { width: r.width, height: r.height, pixels }
}

/// Cuts each record's rectangle out of the atlas, in record order, and pairs
/// it with the record's metadata. Fails on the first record whose rectangle
/// does not fit inside the atlas.
pub fn slice(atlas: &AtlasImage, records: &Vec<GlyphRecord>) -> (r: Result<Vec<CharData>, AtlasError>)
    requires
        atlas.wf(),
    ensures
        r is Err <==> exists|i: int| 0 <= i < records@.len() && !record_fits(#[trigger] records@[i], *atlas),
        r is Err ==> exists|i: int|
            0 <= i < records@.len() && !record_fits(#[trigger] records@[i], *atlas) && r
                == Err::<Vec<CharData>, AtlasError>(AtlasError::PlacementOutOfBounds(records@[i].char_code)),
        r is Ok ==> sliced_as(*atlas, records@, r->Ok_0@),
{
    let mut out: Vec<CharData> = Vec::new();
    let mut i: usize = 0;
    while i < records.len()
        invariant
            atlas.wf(),
            i <= records@.len(),
            out@.len() == i,
            forall|j: int| 0 <= j < i ==> record_fits(#[trigger] records@[j], *atlas),
            forall|j: int| 0 <= j < i ==> sliced_from(*atlas, records@[j], #[trigger] out@[j]),
        decreases records@.len() - i,
    {
        let rec = records[i];
        if rec.origin_x as u64 + rec.width as u64 > atlas.width as u64 || rec.origin_y as u64
            + rec.height as u64 > atlas.height as u64 {
            return Err(AtlasError::PlacementOutOfBounds(rec.char_code));
        }
        let image = crop(atlas, &rec);
        let d = CharData::new(rec.metrics(), image);
        out.push(d);
        i = i + 1;
    }
    Ok(out)
}

/// Slicing a packed atlas with its own dictionary never fails, and gives
/// back every glyph in order: its metadata, its size and its pixels.
pub proof fn lemma_slice_pack_round_trip(g: Seq<CharData>, p: PackedAtlas, out: Seq<CharData>)
    requires
        forall|i: int| 0 <= i < g.len() ==> #[trigger] g[i].wf(),
        packed_as(g, p),
        sliced_as(p.atlas, p.records@, out),
    ensures
        forall|i: int| 0 <= i < g.len() ==> record_fits(#[trigger] p.records@[i], p.atlas),
        out.len() == g.len(),
        forall|i: int|
            0 <= i < g.len() ==> {
                &&& (#[trigger] out[i]).metrics_spec() == g[i].metrics_spec()
                &&& out[i].glyth_width == g[i].glyth_width
                &&& out[i].glyth_height == g[i].glyth_height
                &&& out[i].image.width == g[i].image.width
                &&& out[i].image.height == g[i].image.height
                &&& out[i].image.pixels@ == g[i].image.pixels@
            },
{
    lemma_pack_layout(g, p);
    assert forall|i: int| 0 <= i < g.len() implies {
        &&& (#[trigger] out[i]).metrics_spec() == g[i].metrics_spec()
        &&& out[i].glyth_width == g[i].glyth_width
        &&& out[i].glyth_height == g[i].glyth_height
        &&& out[i].image.width == g[i].image.width
        &&& out[i].image.height == g[i].image.height
        &&& out[i].image.pixels@ == g[i].image.pixels@
    } by {
        lemma_records_are_places(g, p, i);
        let r = p.records@[i];
        let a = out[i].image;
        let b = g[i].image;
        assert(sliced_from(p.atlas, r, out[i]));
        assert(g[i].wf());
        assert(out[i].wf());
        let w = b.width as int;
        let h = b.height as int;
        assert(a.width == b.width && a.height == b.height);
        assert(a.pixels@.len() == w * h);
        assert forall|k: int| 0 <= k < a.pixels@.len() implies a.pixels@[k] == b.pixels@[k] by {
            assert(w > 0) by (nonlinear_arith)
                requires
                    0 <= k < w * h,
                    w >= 0,
                    h >= 0,
            ;
            lemma_index_split(w, h, k);
            let x = k % w;
            let y = k / w;
            assert(bitmap_pixel(a, x, y) == atlas_pixel(p.atlas, r.origin_x + x, r.origin_y + y));
            let q = place_at(g, i);
            assert(bitmap_pixel(b, x, y) == atlas_pixel(p.atlas, q.0 + x, q.1 + y));
        }
        assert(a.pixels@ =~= b.pixels@);
    }
}

} // verus!
