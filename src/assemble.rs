use vstd::prelude::*;
use crate::glyph::{AtlasError, CharData, PackedAtlas};
use crate::packer::{pack, pack_result};

verus! {

/// No two glyphs of `g` share a character code.
pub open spec fn codes_distinct(g: Seq<CharData>) -> bool {
    forall|i: int, j: int| 0 <= i < j < g.len() ==> g[i].char != g[j].char
}

/// Character codes strictly ascend along `g`.
pub open spec fn sorted_by_code(g: Seq<CharData>) -> bool {
    forall|i: int, j: int| 0 <= i < j < g.len() ==> g[i].char < g[j].char
}

/// `s` holds the glyphs of `g`, each once, in ascending code order.
pub open spec fn is_code_order(s: Seq<CharData>, g: Seq<CharData>) -> bool {
    &&& s.len() == g.len()
    &&& sorted_by_code(s)
    &&& forall|i: int| 0 <= i < g.len() ==> #[trigger] s.contains(g[i])
    &&& forall|j: int| 0 <= j < s.len() ==> #[trigger] g.contains(s[j])
}

/// Position `t` of the input appears in `idx`.
spec fn covered(idx: Seq<int>, t: int) -> bool {
    exists|i: int| 0 <= i < idx.len() && idx[i] == t
}

/// First position of `out` whose code is not below `code`.
fn find_slot(out: &Vec<CharData>, code: u16) -> (pos: usize)
    ensures
        pos <= out@.len(),
        forall|i: int| 0 <= i < pos ==> #[trigger] out@[i].char < code,
        pos < out@.len() ==> out@[pos as int].char >= code,
{
    let mut pos: usize = 0;
    while pos < out.len() && out[pos].char < code
        invariant
            pos <= out@.len(),
            forall|i: int| 0 <= i < pos ==> #[trigger] out@[i].char < code,
        decreases out@.len() - pos,
    {
        pos = pos + 1;
    }
    pos
}

/// Inserting the glyph at input position `t` at a position that keeps the
/// codes ascending keeps what the ordering loop maintains.
proof fn lemma_insert_step(
    g: Seq<CharData>,
    old_out: Seq<CharData>,
    old_oidx: Seq<int>,
    out: Seq<CharData>,
    oidx: Seq<int>,
    pos: int,
    t: int,
)
    requires
        0 <= t < g.len(),
        0 <= pos <= old_out.len(),
        old_out.len() == g.len() - (t + 1),
        old_oidx.len() == old_out.len(),
        sorted_by_code(old_out),
        forall|i: int| 0 <= i < old_out.len() ==> t + 1 <= #[trigger] old_oidx[i] < g.len(),
        forall|i: int| 0 <= i < old_out.len() ==> #[trigger] old_out[i] == g[old_oidx[i]],
        forall|tt: int| t + 1 <= tt < g.len() ==> #[trigger] covered(old_oidx, tt),
        codes_distinct(g.subrange(t + 1, g.len() as int)),
        forall|i: int| 0 <= i < pos ==> #[trigger] old_out[i].char < g[t].char,
        pos < old_out.len() ==> old_out[pos].char > g[t].char,
        out == old_out.insert(pos, g[t]),
        oidx == old_oidx.insert(pos, t),
    ensures
        sorted_by_code(out),
        forall|i: int| 0 <= i < out.len() ==> t <= #[trigger] oidx[i] < g.len(),
        forall|i: int| 0 <= i < out.len() ==> #[trigger] out[i] == g[oidx[i]],
        forall|tt: int| t <= tt < g.len() ==> #[trigger] covered(oidx, tt),
        codes_distinct(g.subrange(t, g.len() as int)),
{
    let e = g[t];
    assert forall|i: int, j: int| 0 <= i < j < out.len() implies out[i].char < out[j].char by {
        if j < pos {
        } else if j == pos {
        } else if i < pos {
            assert(out[j] == old_out[j - 1]);
        } else if i == pos {
            assert(out[j] == old_out[j - 1]);
            if j - 1 > pos {
                assert(old_out[pos].char < old_out[j - 1].char);
            }
        } else {
            assert(out[j] == old_out[j - 1]);
            assert(out[i] == old_out[i - 1]);
        }
    }
    assert forall|i: int| 0 <= i < out.len() implies #[trigger] out[i] == g[oidx[i]] by {
        if i > pos {
            assert(out[i] == old_out[i - 1]);
        }
    }
    assert forall|tt: int| t <= tt < g.len() implies #[trigger] covered(oidx, tt) by {
        if tt == t {
            assert(oidx[pos] == tt);
        } else {
            assert(covered(old_oidx, tt));
            let i0 = choose|i: int| 0 <= i < old_oidx.len() && old_oidx[i] == tt;
            if i0 < pos {
                assert(oidx[i0] == tt);
            } else {
                assert(oidx[i0 + 1] == tt);
            }
        }
    }
    let gs = g.subrange(t, g.len() as int);
    let gs1 = g.subrange(t + 1, g.len() as int);
    assert forall|a: int, b: int| 0 <= a < b < gs.len() implies gs[a].char != gs[b].char by {
        if a == 0 {
            let tt = t + b;
            assert(covered(old_oidx, tt));
            let i0 = choose|i: int| 0 <= i < old_oidx.len() && old_oidx[i] == tt;
            assert(old_out[i0] == g[tt]);
            if i0 >= pos {
                if i0 > pos {
                    assert(old_out[pos].char < old_out[i0].char);
                }
            }
        } else {
            assert(gs1[a - 1] == gs[a]);
            assert(gs1[b - 1] == gs[b]);
        }
    }
}

proof fn lemma_order_complete(g: Seq<CharData>, out: Seq<CharData>, oidx: Seq<int>)
    requires
        out.len() == g.len(),
        oidx.len() == out.len(),
        sorted_by_code(out),
        forall|i: int| 0 <= i < out.len() ==> 0 <= #[trigger] oidx[i] < g.len(),
        forall|i: int| 0 <= i < out.len() ==> #[trigger] out[i] == g[oidx[i]],
        forall|t: int| 0 <= t < g.len() ==> #[trigger] covered(oidx, t),
    ensures
        is_code_order(out, g),
{
    assert forall|i: int| 0 <= i < g.len() implies #[trigger] out.contains(g[i]) by {
        assert(covered(oidx, i));
        let j = choose|j: int| 0 <= j < oidx.len() && oidx[j] == i;
        assert(out[j] == g[i]);
    }
    assert forall|j: int| 0 <= j < out.len() implies #[trigger] g.contains(out[j]) by {
        assert(out[j] == g[oidx[j]]);
    }
}

/// Puts glyphs in ascending character-code order, or reports a code that
/// two of them share.
pub fn order_glyphs(glyphs: Vec<CharData>) -> (r: Result<Vec<CharData>, AtlasError>)
    ensures
        r is Ok <==> codes_distinct(glyphs@),
        r is Err ==> exists|i: int, j: int|
            0 <= i < j < glyphs@.len() && glyphs@[i].char == glyphs@[j].char && r == Err::<
                Vec<CharData>,
                AtlasError,
            >(AtlasError::DuplicateGlyphId(glyphs@[i].char)),
        r is Ok ==> is_code_order(r->Ok_0@, glyphs@),
{
    let ghost g = glyphs@;
    let mut rest = glyphs;
    let mut out: Vec<CharData> = Vec::new();
    let ghost mut oidx: Seq<int> = Seq::empty();
    while rest.len() > 0
        invariant
            g == glyphs@,
            rest@ == g.subrange(0, rest@.len() as int),
            rest@.len() <= g.len(),
            out@.len() == g.len() - rest@.len(),
            oidx.len() == out@.len(),
            sorted_by_code(out@),
            forall|i: int| 0 <= i < out@.len() ==> rest@.len() <= #[trigger] oidx[i] < g.len(),
            forall|i: int| 0 <= i < out@.len() ==> #[trigger] out@[i] == g[oidx[i]],
            forall|t: int| rest@.len() <= t < g.len() ==> #[trigger] covered(oidx, t),
            codes_distinct(g.subrange(rest@.len() as int, g.len() as int)),
        decreases rest@.len(),
    {
        let e = rest.pop().unwrap();
        let ghost t = rest@.len() as int;
        assert(e == g[t]);
        assert(rest@ =~= g.subrange(0, t));
        let pos = find_slot(&out, e.char);
        if pos < out.len() && out[pos].char == e.char {
            let ghost u = oidx[pos as int];
            assert(0 <= t < u < glyphs@.len() && glyphs@[t].char == glyphs@[u].char);
            assert(!codes_distinct(glyphs@));
            return Err(AtlasError::DuplicateGlyphId(e.char));
        }
        let ghost old_out = out@;
        let ghost old_oidx = oidx;
        out.insert(pos, e);
        proof {
            oidx = oidx.insert(pos as int, t);
            lemma_insert_step(g, old_out, old_oidx, out@, oidx, pos as int, t);
        }
    }
    proof {
        assert(g.subrange(0, g.len() as int) =~= g);
        lemma_order_complete(g, out@, oidx);
    }
    Ok(out)
}

/// Orders the glyphs by character code and packs them. A character code
/// that two glyphs share is reported before anything is packed.
pub fn build_atlas(glyphs: Vec<CharData>) -> (r: Result<PackedAtlas, AtlasError>)
    requires
        forall|i: int| 0 <= i < glyphs@.len() ==> #[trigger] glyphs@[i].wf(),
    ensures
        !codes_distinct(glyphs@) <==> r is Err && r->Err_0 is DuplicateGlyphId,
        r is Err && r->Err_0 is DuplicateGlyphId ==> exists|i: int, j: int|
            0 <= i < j < glyphs@.len() && glyphs@[i].char == glyphs@[j].char
                && r->Err_0->DuplicateGlyphId_0 == glyphs@[i].char,
        codes_distinct(glyphs@) ==> exists|s: Seq<CharData>|
            is_code_order(s, glyphs@) && #[trigger] pack_result(s, r),
{
    let ghost g = glyphs@;
    match order_glyphs(glyphs) {
        Err(e) => Err(e),
        Ok(sorted) => {
            assert forall|j: int| 0 <= j < sorted@.len() implies #[trigger] sorted@[j].wf() by {
                assert(g.contains(sorted@[j]));
            }
            let r = pack(&sorted);
            proof {
                if r is Err {
                    assert(!(r->Err_0 is DuplicateGlyphId));
                }
            }
            r
        },
    }
}

} // verus!
