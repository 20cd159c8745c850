use vstd::prelude::*;
use crate::glyph::{
    lemma_index_bound, lemma_index_split, lemma_index_unique, record_fits, records_disjoint, atlas_pixel, bitmap_pixel, AtlasError, AtlasImage, CharData, GlyphBitmap, GlyphRecord,
    PackedAtlas,
};

verus! {

/// Width a row may reach before the packer starts a new one.
pub const NOMINAL_WIDTH: u32 = 512;

/// Largest value a placement coordinate may take in a glyph record.
pub const MAX_COORD: u32 = 0xffff;

pub open spec fn max(a: int, b: int) -> int {
    if a >= b { a } else { b }
}

/// Smallest multiple of 8 that is at least `v`; 0 stays 0.
pub open spec fn round_up8(v: int) -> int {
    if v <= 0 { 0 } else { ((v - 1) / 8 + 1) * 8 }
}

pub open spec fn gw(g: Seq<CharData>, i: int) -> int {
    g[i].glyth_width as int
}

pub open spec fn gh(g: Seq<CharData>, i: int) -> int {
    g[i].glyth_height as int
}

/// Where the `i`-th glyph goes, given the cursor before it: a new row starts
/// when the glyph would reach the nominal width.
pub open spec fn next_place(c: (int, int, int, int), w: int) -> (int, int) {
    if c.0 + w >= NOMINAL_WIDTH { (0, c.2) } else { (c.0, c.1) }
}

/// The packer's state after placing the first `n` glyphs of `g`:
/// `(pos_x, pos_y, row_bottom, max_width)`.
pub open spec fn cursor_after(g: Seq<CharData>, n: int) -> (int, int, int, int)
    decreases n,
{
    if n <= 0 {
        (0, 0, 0, 0)
    } else {
        let c = cursor_after(g, n - 1);
        let p = next_place(c, gw(g, n - 1));
        (p.0 + gw(g, n - 1), p.1, max(c.2, p.1 + gh(g, n - 1)), max(c.3, gw(g, n - 1)))
    }
}

/// Top-left corner assigned to the `i`-th glyph of `g`.
pub open spec fn place_at(g: Seq<CharData>, i: int) -> (int, int) {
    next_place(cursor_after(g, i), gw(g, i))
}

pub open spec fn atlas_width_of(g: Seq<CharData>) -> int {
    round_up8(max(NOMINAL_WIDTH as int, cursor_after(g, g.len() as int).3))
}

pub open spec fn atlas_height_of(g: Seq<CharData>) -> int {
    round_up8(cursor_after(g, g.len() as int).2)
}

/// The rectangles of glyphs `i` and `j` share no pixel.
pub open spec fn rects_disjoint(g: Seq<CharData>, i: int, j: int) -> bool {
    let a = place_at(g, i);
    let b = place_at(g, j);
    a.0 + gw(g, i) <= b.0 || b.0 + gw(g, j) <= a.0 || a.1 + gh(g, i) <= b.1 || b.1 + gh(g, j) <= a.1
}

/// Pixel `(x, y)` lies in the rectangle of glyph `i`.
pub open spec fn in_rect(g: Seq<CharData>, i: int, x: int, y: int) -> bool {
    let p = place_at(g, i);
    p.0 <= x < p.0 + gw(g, i) && p.1 <= y < p.1 + gh(g, i)
}

/// The dictionary entry of glyph `d` placed at `(x, y)`.
pub open spec fn record_of(d: CharData, x: int, y: int) -> GlyphRecord {
    GlyphRecord {
        char_code: d.char,
        origin_x: x as u16,
        origin_y: y as u16,
        width: d.glyth_width,
        height: d.glyth_height,
        x_bearing: d.unk1,
        y_bearing: d.unk2,
        advance: d.distance,
        reserved4: d.unk4,
        reserved5: d.unk5,
    }
}

/// Some glyph would be placed at a row that a record cannot hold.
pub open spec fn too_tall(g: Seq<CharData>) -> bool {
    exists|i: int| 0 <= i < g.len() && #[trigger] place_at(g, i).1 > MAX_COORD
}

/// `p` is the atlas and dictionary that packing `g` gives.
pub open spec fn packed_as(g: Seq<CharData>, p: PackedAtlas) -> bool {
    &&& !too_tall(g)
    &&& p.atlas.wf()
    &&& p.atlas.width == atlas_width_of(g)
    &&& p.atlas.height == atlas_height_of(g)
    &&& p.records@.len() == g.len()
    &&& forall|i: int|
        0 <= i < g.len() ==> #[trigger] p.records@[i] == record_of(
            g[i],
            place_at(g, i).0,
            place_at(g, i).1,
        )
    &&& forall|i: int, x: int, y: int|
        0 <= i < g.len() && 0 <= x < gw(g, i) && 0 <= y < gh(g, i) ==> atlas_pixel(
            p.atlas,
            place_at(g, i).0 + x,
            place_at(g, i).1 + y,
        ) == #[trigger] bitmap_pixel(g[i].image, x, y)
    &&& forall|x: int, y: int|
        0 <= x < p.atlas.width && 0 <= y < p.atlas.height && (forall|i: int|
            0 <= i < g.len() ==> !#[trigger] in_rect(g, i, x, y)) ==> #[trigger] atlas_pixel(
            p.atlas,
            x,
            y,
        ) == 0
}

/// `r` is what packing `g` gives: the packed atlas, or the error that says
/// why there is none.
pub open spec fn pack_result(g: Seq<CharData>, r: Result<PackedAtlas, AtlasError>) -> bool {
    &&& r is Err <==> too_tall(g) || atlas_width_of(g) * atlas_height_of(g) > usize::MAX
    &&& r == Err::<PackedAtlas, AtlasError>(AtlasError::AtlasTooLarge) ==> !too_tall(g)
        && atlas_width_of(g) * atlas_height_of(g) > usize::MAX
    &&& r is Err && r != Err::<PackedAtlas, AtlasError>(AtlasError::AtlasTooLarge) ==> exists|i: int|
        0 <= i < g.len() && #[trigger] place_at(g, i).1 > MAX_COORD && r == Err::<
            PackedAtlas,
            AtlasError,
        >(AtlasError::GlyphTooWide(g[i].char))
    &&& r is Ok ==> packed_as(g, r->Ok_0)
}

/// Facts about the layout of the first `n` glyphs.
proof fn lemma_layout(g: Seq<CharData>, n: int)
    requires
        0 <= n <= g.len(),
    ensures
        ({
            let c = cursor_after(g, n);
            &&& 0 <= c.0 <= NOMINAL_WIDTH + 0xffff
            &&& 0 <= c.1 <= c.2 <= c.1 + 0xffff
            &&& 0 <= c.3 <= 0xffff
            &&& forall|i: int|
                0 <= i < n ==> {
                    let p = #[trigger] place_at(g, i);
                    &&& 0 <= p.0
                    &&& 0 <= p.1 <= c.1
                    &&& p.0 + gw(g, i) <= max(NOMINAL_WIDTH as int, c.3)
                    &&& p.1 + gh(g, i) <= c.2
                    &&& (p.1 + gh(g, i) <= c.1 || p.0 + gw(g, i) <= c.0)
                    &&& gw(g, i) <= c.3
                }
            &&& forall|i: int, j: int| 0 <= i < j < n ==> #[trigger] rects_disjoint(g, i, j)
        }),
    decreases n,
{
    if n > 0 {
        lemma_layout(g, n - 1);
        let c0 = cursor_after(g, n - 1);
        let c = cursor_after(g, n);
        let j = n - 1;
        let pj = place_at(g, j);
        assert(pj == next_place(c0, gw(g, j)));
        assert forall|i: int, k: int| 0 <= i < k < n implies #[trigger] rects_disjoint(g, i, k) by {
            if k < n - 1 {
            } else {
                let p = place_at(g, i);
                assert(p.1 + gh(g, i) <= c0.2);
            }
        }
    }
}

/// Copies `bm` verbatim into `atlas` with its top-left corner at `(ox, oy)`.
fn blit(atlas: &mut AtlasImage, bm: &GlyphBitmap, ox: u32, oy: u32)
    requires
        old(atlas).wf(),
        bm.wf(),
        ox + bm.width <= old(atlas).width,
        oy + bm.height <= old(atlas).height,
    ensures
        final(atlas).width == old(atlas).width,
        final(atlas).height == old(atlas).height,
        final(atlas).wf(),
        forall|x: int, y: int|
            0 <= x < old(atlas).width && 0 <= y < old(atlas).height ==> #[trigger] atlas_pixel(
                *final(atlas),
                x,
                y,
            ) == if ox <= x < ox + bm.width && oy <= y < oy + bm.height {
                bitmap_pixel(*bm, x - ox, y - oy)
            } else {
                atlas_pixel(*old(atlas), x, y)
            },
{
    let ghost a0 = *atlas;
    let w = bm.width as usize;
    let h = bm.height as usize;
    let aw = atlas.width as usize;
    let ghost ah = atlas.height as int;
    let blen = bm.pixels.len();
    let alen = atlas.pixels.len();
    let mut dy: usize = 0;
    while dy < h
        invariant
            a0 == *old(atlas),
            atlas.width == a0.width,
            atlas.height == a0.height,
            atlas.wf(),
            w == bm.width,
            h == bm.height,
            aw == a0.width,
            ah == a0.height,
            bm.wf(),
            blen == bm.pixels@.len(),
            alen == atlas.pixels@.len(),
            ox + w <= aw,
            oy + h <= ah,
            dy <= h,
            forall|x: int, y: int|
                0 <= x < aw && 0 <= y < ah ==> #[trigger] atlas_pixel(*atlas, x, y) == if ox
                    <= x < ox + w && oy <= y < oy + dy {
                    bitmap_pixel(*bm, x - ox, y - oy)
                } else {
                    atlas_pixel(a0, x, y)
                },
        decreases h - dy,
    {
        let mut dx: usize = 0;
        while dx < w
            invariant
                a0 == *old(atlas),
                atlas.width == a0.width,
                atlas.height == a0.height,
                atlas.wf(),
                w == bm.width,
                h == bm.height,
                aw == a0.width,
                ah == a0.height,
                bm.wf(),
                blen == bm.pixels@.len(),
                alen == atlas.pixels@.len(),
                ox + w <= aw,
                oy + h <= ah,
                dy < h,
                dx <= w,
                forall|x: int, y: int|
                    0 <= x < aw && 0 <= y < ah ==> #[trigger] atlas_pixel(*atlas, x, y) == if ox
                        <= x < ox + w && (oy <= y < oy + dy || (y == oy + dy && x < ox + dx)) {
                        bitmap_pixel(*bm, x - ox, y - oy)
                    } else {
                        atlas_pixel(a0, x, y)
                    },
            decreases w - dx,
        {
            proof {
                lemma_index_bound(w as int, h as int, dx as int, dy as int);
                lemma_index_bound(aw as int, ah, ox + dx, oy + dy);
            }
            let v = bm.pixels[dy * w + dx];
            let idx = (oy as usize + dy) * aw + (ox as usize + dx);
            let ghost before = *atlas;
            atlas.pixels.set(idx, v);
            proof {
                assert forall|x: int, y: int| 0 <= x < aw && 0 <= y < ah implies #[trigger] atlas_pixel(
                    *atlas,
                    x,
                    y,
                ) == if ox <= x < ox + w && (oy <= y < oy + dy || (y == oy + dy && x < ox + dx
                    + 1)) {
                    bitmap_pixel(*bm, x - ox, y - oy)
                } else {
                    atlas_pixel(a0, x, y)
                } by {
                    lemma_index_bound(aw as int, ah, x, y);
                    if y * aw + x == idx {
                        lemma_index_unique(aw as int, x, y, ox + dx, oy + dy);
                    } else {
                        assert(atlas_pixel(*atlas, x, y) == atlas_pixel(before, x, y));
                    }
                }
            }
            dx = dx + 1;
        }
        dy = dy + 1;
    }
}

fn round_up8_exec(v: u32) -> (r: u32)
    requires
        v <= 0xffff_0000,
    ensures
        r == round_up8(v as int),
{
    if v == 0 {
        0
    } else {
        ((v - 1) / 8 + 1) * 8
    }
}

/// Lays the glyphs out in the given order, row by row against a nominal
/// width of 512 pixels, and copies each bitmap into the atlas at its place.
///
/// A glyph starts a new row when it would reach the nominal width; the new
/// row starts below the lowest glyph placed so far. The atlas is as wide as
/// the nominal width or the widest glyph, and as tall as the lowest glyph,
/// each rounded up to a multiple of 8. Pixels no glyph covers are 0.
/// Packing fails when a glyph would be placed below row 65535, or when the
/// atlas would hold more pixels than a `usize` can count.
pub fn pack(glyphs: &Vec<CharData>) -> (r: Result<PackedAtlas, AtlasError>)
    requires
        forall|i: int| 0 <= i < glyphs@.len() ==> #[trigger] glyphs@[i].wf(),
    ensures
        pack_result(glyphs@, r),
{
    let ghost g = glyphs@;
    let n = glyphs.len();
    let mut records: Vec<GlyphRecord> = Vec::new();
    let mut pos_x: u32 = 0;
    let mut pos_y: u32 = 0;
    let mut row_bottom: u32 = 0;
    let mut max_w: u32 = 0;
    let mut i: usize = 0;
    while i < n
        invariant
            g == glyphs@,
            n == g.len(),
            i <= n,
            cursor_after(g, i as int) == (pos_x as int, pos_y as int, row_bottom as int, max_w as int),
            records@.len() == i,
            forall|j: int|
                0 <= j < i ==> #[trigger] records@[j] == record_of(
                    g[j],
                    place_at(g, j).0,
                    place_at(g, j).1,
                ),
            forall|j: int| 0 <= j < i ==> #[trigger] place_at(g, j).1 <= MAX_COORD,
            i > 0 ==> pos_y == place_at(g, i - 1).1,
        decreases n - i,
    {
        proof {
            lemma_layout(g, i as int);
        }
        let d = &glyphs[i];
        let w = d.glyth_width as u32;
        let h = d.glyth_height as u32;
        let (x, y) = if pos_x + w >= NOMINAL_WIDTH {
            (0u32, row_bottom)
        } else {
            (pos_x, pos_y)
        };
        assert((x as int, y as int) == place_at(g, i as int));
        if y > MAX_COORD {
            return Err(AtlasError::GlyphTooWide(d.char));
        }
        records.push(
            GlyphRecord {
                char_code: d.char,
                origin_x: x as u16,
                origin_y: y as u16,
                width: d.glyth_width,
                height: d.glyth_height,
                x_bearing: d.unk1,
                y_bearing: d.unk2,
                advance: d.distance,
                reserved4: d.unk4,
                reserved5: d.unk5,
            },
        );
        if y + h > row_bottom {
            row_bottom = y + h;
        }
        pos_x = x + w;
        pos_y = y;
        if w > max_w {
            max_w = w;
        }
        i = i + 1;
    }
    proof {
        lemma_layout(g, n as int);
        if n > 0 {
            assert(place_at(g, n - 1).1 <= MAX_COORD);
        }
    }
    let width = round_up8_exec(if max_w > NOMINAL_WIDTH { max_w } else { NOMINAL_WIDTH });
    let height = round_up8_exec(row_bottom);
    assert(width as int * height as int <= 0x1_0000 * 0x2_0000) by (nonlinear_arith)
        requires
            width <= 0x1_0000,
            height <= 0x2_0000,
    ;
    if width as u64 * height as u64 > usize::MAX as u64 {
        return Err(AtlasError::AtlasTooLarge);
    }
    let pixels: Vec<u32> = vec![0u32; width as usize * height as usize];
    let mut atlas = AtlasImage { width, height, pixels };
    assert forall|x: int, y: int| 0 <= x < width && 0 <= y < height implies #[trigger] atlas_pixel(
        atlas,
        x,
        y,
    ) == 0 by {
        lemma_index_bound(width as int, height as int, x, y);
    }
    let mut k: usize = 0;
    while k < n
        invariant
            g == glyphs@,
            n == g.len(),
            k <= n,
            forall|j: int| 0 <= j < g.len() ==> #[trigger] g[j].wf(),
            atlas.wf(),
            atlas.width == width,
            atlas.height == height,
            width == atlas_width_of(g),
            height == atlas_height_of(g),
            records@.len() == n,
            forall|j: int|
                0 <= j < n ==> #[trigger] records@[j] == record_of(
                    g[j],
                    place_at(g, j).0,
                    place_at(g, j).1,
                ),
            forall|j: int| 0 <= j < n ==> #[trigger] place_at(g, j).1 <= MAX_COORD,
            forall|j: int, x: int, y: int|
                0 <= j < k && 0 <= x < gw(g, j) && 0 <= y < gh(g, j) ==> atlas_pixel(
                    atlas,
                    place_at(g, j).0 + x,
                    place_at(g, j).1 + y,
                ) == #[trigger] bitmap_pixel(g[j].image, x, y),
            forall|x: int, y: int|
                0 <= x < width && 0 <= y < height && (forall|j: int|
                    0 <= j < k ==> !#[trigger] in_rect(g, j, x, y)) ==> #[trigger] atlas_pixel(
                    atlas,
                    x,
                    y,
                ) == 0,
        decreases n - k,
    {
        proof {
            lemma_layout(g, n as int);
            lemma_layout(g, k as int);
        }
        let ghost before = atlas;
        let ghost p = place_at(g, k as int);
        let ox = records[k].origin_x as u32;
        let oy = records[k].origin_y as u32;
        assert(ox == p.0 && oy == p.1);
        assert(g[k as int].wf());
        let ghost cn = cursor_after(g, n as int);
        assert(round_up8(max(NOMINAL_WIDTH as int, cn.3)) >= max(NOMINAL_WIDTH as int, cn.3));
        assert(round_up8(cn.2) >= cn.2);
        blit(&mut atlas, &glyphs[k].image, ox, oy);
        proof {
            assert forall|j: int, x: int, y: int|
                0 <= j < k + 1 && 0 <= x < gw(g, j) && 0 <= y < gh(g, j) implies atlas_pixel(
                atlas,
                place_at(g, j).0 + x,
                place_at(g, j).1 + y,
            ) == #[trigger] bitmap_pixel(g[j].image, x, y) by {
                let q = place_at(g, j);
                assert(q.0 + x < width && q.1 + y < height);
                if j < k {
                    assert(rects_disjoint(g, j, k as int));
                    assert(atlas_pixel(before, q.0 + x, q.1 + y) == bitmap_pixel(g[j].image, x, y));
                }
            }
            assert forall|x: int, y: int|
                0 <= x < width && 0 <= y < height && (forall|j: int|
                    0 <= j < k + 1 ==> !#[trigger] in_rect(g, j, x, y)) implies #[trigger] atlas_pixel(
                atlas,
                x,
                y,
            ) == 0 by {
                assert(!in_rect(g, k as int, x, y));
                assert(atlas_pixel(atlas, x, y) == atlas_pixel(before, x, y));
                assert forall|j: int| 0 <= j < k implies !#[trigger] in_rect(g, j, x, y) by {
                    assert(!in_rect(g, j, x, y));
                }
            }
        }
        k = k + 1;
    }
    proof {
        assert(!too_tall(g));
    }
    Ok(PackedAtlas { atlas, records })
}

proof fn lemma_round_up8(a: int, b: int)
    requires
        a <= b,
    ensures
        round_up8(a) <= round_up8(b),
        round_up8(b) >= b,
        round_up8(b) % 8 == 0,
{
}

pub proof fn lemma_records_are_places(g: Seq<CharData>, p: PackedAtlas, i: int)
    requires
        packed_as(g, p),
        0 <= i < g.len(),
    ensures
        p.records@[i].origin_x as int == place_at(g, i).0,
        p.records@[i].origin_y as int == place_at(g, i).1,
        p.records@[i].width as int == gw(g, i),
        p.records@[i].height as int == gh(g, i),
        p.records@[i].metrics_spec() == g[i].metrics_spec(),
{
    lemma_layout(g, g.len() as int);
    let q = place_at(g, i);
    assert(q.1 <= MAX_COORD);
    assert(0 <= q.0 <= 0xffff);
}

/// In a packed atlas no two glyph rectangles share a pixel, and every
/// rectangle lies inside the atlas.
pub proof fn lemma_pack_layout(g: Seq<CharData>, p: PackedAtlas)
    requires
        packed_as(g, p),
    ensures
        forall|i: int, j: int|
            0 <= i < j < g.len() ==> records_disjoint(
                #[trigger] p.records@[i],
                #[trigger] p.records@[j],
            ),
        forall|i: int| 0 <= i < g.len() ==> record_fits(#[trigger] p.records@[i], p.atlas),
{
    let n = g.len() as int;
    lemma_layout(g, n);
    let c = cursor_after(g, n);
    lemma_round_up8(max(NOMINAL_WIDTH as int, c.3), max(NOMINAL_WIDTH as int, c.3));
    lemma_round_up8(c.2, c.2);
    assert forall|i: int, j: int| 0 <= i < j < g.len() implies records_disjoint(
        #[trigger] p.records@[i],
        #[trigger] p.records@[j],
    ) by {
        lemma_records_are_places(g, p, i);
        lemma_records_are_places(g, p, j);
        assert(rects_disjoint(g, i, j));
    }
    assert forall|i: int| 0 <= i < g.len() implies record_fits(#[trigger] p.records@[i], p.atlas) by {
        lemma_records_are_places(g, p, i);
    }
}

/// The atlas's sides are multiples of 8; it is at least as wide as the
/// nominal width and as every glyph's width rounded up to a multiple of 8.
pub proof fn lemma_atlas_dimensions(g: Seq<CharData>, p: PackedAtlas)
    requires
        packed_as(g, p),
    ensures
        p.atlas.width % 8 == 0,
        p.atlas.height % 8 == 0,
        p.atlas.width >= NOMINAL_WIDTH,
        forall|i: int| 0 <= i < g.len() ==> p.atlas.width >= round_up8(#[trigger] gw(g, i)),
{
    let n = g.len() as int;
    lemma_layout(g, n);
    let c = cursor_after(g, n);
    let m = max(NOMINAL_WIDTH as int, c.3);
    lemma_round_up8(m, m);
    lemma_round_up8(c.2, c.2);
    assert forall|i: int| 0 <= i < g.len() implies p.atlas.width >= round_up8(#[trigger] gw(g, i)) by {
        assert(place_at(g, i).0 >= 0 && gw(g, i) <= c.3);
        lemma_round_up8(gw(g, i), m);
    }
}

/// Packing is deterministic: two packings of the same ordered glyphs have
/// the same dictionary, the same atlas size and the same pixels.
pub proof fn lemma_pack_deterministic(g: Seq<CharData>, p1: PackedAtlas, p2: PackedAtlas)
    requires
        packed_as(g, p1),
        packed_as(g, p2),
    ensures
        p1.records@ == p2.records@,
        p1.atlas.width == p2.atlas.width,
        p1.atlas.height == p2.atlas.height,
        p1.atlas.pixels@ == p2.atlas.pixels@,
{
    assert(p1.records@ =~= p2.records@);
    lemma_atlas_dimensions(g, p1);
    let w = p1.atlas.width as int;
    let h = p1.atlas.height as int;
    assert forall|k: int| 0 <= k < p1.atlas.pixels@.len() implies p1.atlas.pixels@[k]
        == p2.atlas.pixels@[k] by {
        lemma_index_split(w, h, k);
        let x = k % w;
        let y = k / w;
        assert(atlas_pixel(p1.atlas, x, y) == p1.atlas.pixels@[k]);
        assert(atlas_pixel(p2.atlas, x, y) == p2.atlas.pixels@[k]);
        if exists|i: int| 0 <= i < g.len() && #[trigger] in_rect(g, i, x, y) {
            let i = choose|i: int| 0 <= i < g.len() && #[trigger] in_rect(g, i, x, y);
            let q = place_at(g, i);
            assert(q.0 + (x - q.0) == x && q.1 + (y - q.1) == y);
            assert(atlas_pixel(p1.atlas, x, y) == bitmap_pixel(g[i].image, x - q.0, y - q.1));
            assert(atlas_pixel(p2.atlas, x, y) == bitmap_pixel(g[i].image, x - q.0, y - q.1));
        } else {
            assert(forall|i: int| 0 <= i < g.len() ==> !#[trigger] in_rect(g, i, x, y));
            assert(0 <= x < p1.atlas.width && 0 <= y < p1.atlas.height);
            assert(atlas_pixel(p1.atlas, x, y) == 0);
            assert(atlas_pixel(p2.atlas, x, y) == 0);
        }
    }
    assert(p1.atlas.pixels@ =~= p2.atlas.pixels@);
}

} // verus!
