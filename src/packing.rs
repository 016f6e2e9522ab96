//! The mathematics of atlas packing: the order in which glyphs are placed,
//! the shelf each lands on, and the texture bytes that result.
use vstd::prelude::*;

use crate::atlas::{GlyphMetrics, ATLAS_DIM};
use crate::geometry::{Area, Vec2};
use vstd::arithmetic::div_mod::{lemma_fundamental_div_mod, lemma_fundamental_div_mod_converse};

verus! {

/// The first index from `i` on at which `order` holds a glyph lower than `h`,
/// or the length of `order` when there is none.
pub open spec fn insert_pos(order: Seq<usize>, ms: Seq<GlyphMetrics>, h: usize, i: int) -> int
    decreases order.len() - i,
{
    if i < 0 || i >= order.len() {
        order.len() as int
    } else if ms[order[i] as int].height < h {
        i
    } else {
        insert_pos(order, ms, h, i + 1)
    }
}

/// The order in which the first `n` glyphs are packed: tallest first, glyphs of
/// equal height in the order they were added (a stable sort by height, descending).
pub open spec fn pack_order(ms: Seq<GlyphMetrics>, n: nat) -> Seq<usize>
    decreases n,
{
    if n == 0 {
        Seq::empty()
    } else {
        let o = pack_order(ms, (n - 1) as nat);
        o.insert(insert_pos(o, ms, ms[n - 1].height, 0), (n - 1) as usize)
    }
}

/// Whether glyph `a` is packed before glyph `b`.
pub open spec fn packs_before(ms: Seq<GlyphMetrics>, a: usize, b: usize) -> bool {
    ms[a as int].height > ms[b as int].height || (ms[a as int].height == ms[b as int].height
        && a < b)
}

/// The shelf cursor after the first `k` glyphs of `order`: the x where the
/// next glyph would go, the shelf's top, and the tallest glyph on the shelf.
pub open spec fn shelf_after(order: Seq<usize>, ms: Seq<GlyphMetrics>, k: nat) -> (int, int, int)
    decreases k,
{
    if k == 0 {
        (0, 0, 0)
    } else {
        let (x, y, mh) = shelf_after(order, ms, (k - 1) as nat);
        let g = ms[order[k - 1] as int];
        if x + g.width > ATLAS_DIM {
            (g.width as int, y + mh, g.height as int)
        } else {
            (x + g.width, y, if mh >= g.height { mh } else { g.height as int })
        }
    }
}

/// The top-left corner given to the `k`-th glyph of `order`: the shelf
/// cursor, or the start of a new shelf when the glyph would overflow the width.
pub open spec fn slot(order: Seq<usize>, ms: Seq<GlyphMetrics>, k: nat) -> (int, int) {
    let (x, y, mh) = shelf_after(order, ms, k);
    if x + ms[order[k as int] as int].width > ATLAS_DIM {
        (0, y + mh)
    } else {
        (x, y)
    }
}

/// The rectangle of the `k`-th glyph of `order`.
pub open spec fn slot_area(order: Seq<usize>, ms: Seq<GlyphMetrics>, k: nat) -> Area {
    let (x, y) = slot(order, ms, k);
    let g = ms[order[k as int] as int];
    Area(Vec2 { x: x as i64, y: y as i64 }, Vec2 { x: (x + g.width) as i64, y: (y + g.height) as i64 })
}

/// Whether the `k`-th glyph of `order` lies within the texture.
pub open spec fn slot_fits(order: Seq<usize>, ms: Seq<GlyphMetrics>, k: nat) -> bool {
    let (x, y) = slot(order, ms, k);
    let g = ms[order[k as int] as int];
    x + g.width <= ATLAS_DIM && y + g.height <= ATLAS_DIM
}

/// Whether all `n` glyphs fit into the texture.
pub open spec fn all_fit(ms: Seq<GlyphMetrics>, n: nat) -> bool {
    forall|k: nat| k < n ==> #[trigger] slot_fits(pack_order(ms, n), ms, k)
}

/// Number of bytes of the texture: four per pixel.
pub open spec fn texture_len() -> int {
    ATLAS_DIM * ATLAS_DIM * 4
}

/// `buf` with the alpha bytes of the pixels covered by the first `n` bytes of
/// bitmap `bm` (rows of `w` pixels, top-left corner at `at`) set from `bm`.
pub open spec fn blit(buf: Seq<u8>, at: Area, w: int, bm: Seq<u8>, n: int) -> Seq<u8> {
    Seq::new(
        buf.len(),
        |k: int|
            {
                let p = k / 4;
                let px = p % (ATLAS_DIM as int);
                let py = p / (ATLAS_DIM as int);
                if k % 4 == 3 && at.0.x <= px < at.0.x + w && at.0.y <= py && (py - at.0.y) * w + (
                px - at.0.x) < n {
                    bm[(py - at.0.y) * w + (px - at.0.x)]
                } else {
                    buf[k]
                }
            },
    )
}

/// The texture after the first `n` glyphs are copied in, by id, onto white:
/// colour bytes stay 0xFF, alpha bytes take the coverage.
pub open spec fn atlas_pixels(
    places: Seq<Area>,
    ms: Seq<GlyphMetrics>,
    bitmaps: Seq<Seq<u8>>,
    n: nat,
) -> Seq<u8>
    decreases n,
{
    if n == 0 {
        Seq::new(texture_len() as nat, |k: int| 0xffu8)
    } else {
        let g = n - 1;
        blit(
            atlas_pixels(places, ms, bitmaps, (n - 1) as nat),
            places[g],
            ms[g].width as int,
            bitmaps[g],
            bitmaps[g].len() as int,
        )
    }
}

/// The packing order holds each of the first `n` ids exactly once, and
/// orders them by [`packs_before`].
pub proof fn lemma_pack_order(ms: Seq<GlyphMetrics>, n: nat)
    requires
        n <= usize::MAX,
    ensures
        pack_order(ms, n).len() == n,
        pack_order(ms, n).no_duplicates(),
        forall|k: int| 0 <= k < n ==> #[trigger] pack_order(ms, n)[k] < n,
        forall|j: usize| j < n ==> #[trigger] pack_order(ms, n).contains(j),
        forall|a: int, b: int|
            0 <= a < b < n ==> packs_before(ms, #[trigger] pack_order(ms, n)[a], #[trigger] pack_order(ms, n)[b]),
    decreases n,
{
    if n > 0 {
        let m = (n - 1) as nat;
        lemma_pack_order(ms, m);
        let o = pack_order(ms, m);
        let h = ms[m as int].height;
        let p = insert_pos(o, ms, h, 0);
        lemma_insert_pos(o, ms, h, 0);
        o.insert_ensures(p, m as usize);
        let o2 = pack_order(ms, n);
        assert(o2 == o.insert(p, m as usize));
        assert(o2[p] == m);
        assert(o2.len() == n);
        assert forall|k: int| 0 <= k < n implies #[trigger] o2[k] < n by {
            if k > p {
                assert(o2[k] == o[k - 1]);
            }
        }
        assert forall|j: usize| j < n implies #[trigger] o2.contains(j) by {
            if j == m {
                assert(o2[p] == j);
            } else {
                assert(o.contains(j));
                let i = choose|i: int| 0 <= i < o.len() && o[i] == j;
                if i < p {
                    assert(o2[i] == j);
                } else {
                    assert(o2[i + 1] == j);
                }
            }
        }
        assert forall|a: int, b: int|
            0 <= a < o2.len() && 0 <= b < o2.len() && a != b implies o2[a] != o2[b] by {
            let ia = if a < p { a } else if a == p { -1 } else { a - 1 };
            let ib = if b < p { b } else if b == p { -1 } else { b - 1 };
            if ia >= 0 && ib >= 0 {
                assert(o2[a] == o[ia] && o2[b] == o[ib]);
            } else if ia >= 0 {
                assert(o2[a] == o[ia] && o[ia] < m);
            } else if ib >= 0 {
                assert(o2[b] == o[ib] && o[ib] < m);
            }
        }
        assert forall|a: int, b: int| 0 <= a < b < n implies packs_before(
            ms,
            #[trigger] o2[a],
            #[trigger] o2[b],
        ) by {
            if b < p {
                assert(o2[a] == o[a] && o2[b] == o[b]);
            } else if b == p {
                assert(o2[a] == o[a]);
                assert(!(ms[o[a] as int].height < h));
                assert(o[a] < m);
            } else if a > p {
                assert(o2[a] == o[a - 1] && o2[b] == o[b - 1]);
            } else if a == p {
                assert(o2[b] == o[b - 1]);
                assert(ms[o[p] as int].height < h);
                if b - 1 > p {
                    assert(packs_before(ms, o[p], o[b - 1]));
                }
            } else {
                assert(o2[a] == o[a] && o2[b] == o[b - 1]);
                assert(packs_before(ms, o[a], o[b - 1]));
            }
        }
    }
}

/// Everything before `insert_pos` is at least as tall as `h`, the element at
/// it (if any) is lower.
pub proof fn lemma_insert_pos(order: Seq<usize>, ms: Seq<GlyphMetrics>, h: usize, i: int)
    requires
        0 <= i <= order.len(),
    ensures
        i <= insert_pos(order, ms, h, i) <= order.len(),
        forall|j: int|
            i <= j < insert_pos(order, ms, h, i) ==> ms[#[trigger] order[j] as int].height >= h,
        insert_pos(order, ms, h, i) < order.len() ==> ms[order[insert_pos(order, ms, h, i)] as int].height < h,
    decreases order.len() - i,
{
    if i < order.len() && ms[order[i] as int].height >= h {
        lemma_insert_pos(order, ms, h, i + 1);
    }
}

/// The byte offset of the alpha channel of pixel `(x, y)`.
pub open spec fn alpha_index(x: int, y: int) -> int {
    (y * ATLAS_DIM + x) * 4 + 3
}

/// Copying byte `b` of a bitmap writes the alpha byte of its pixel, which
/// lies within the texture.
pub proof fn lemma_blit_step(buf: Seq<u8>, at: Area, w: int, h: int, bm: Seq<u8>, b: int)
    requires
        buf.len() == texture_len(),
        bm.len() == w * h,
        0 <= w,
        0 <= h,
        0 <= b < bm.len(),
        0 <= at.0.x,
        at.0.x + w <= ATLAS_DIM,
        0 <= at.0.y,
        at.0.y + h <= ATLAS_DIM,
    ensures
        w > 0,
        0 <= b / w < h,
        0 <= b % w < w,
        0 <= alpha_index(at.0.x + b % w, at.0.y + b / w) < texture_len(),
        blit(buf, at, w, bm, b).update(alpha_index(at.0.x + b % w, at.0.y + b / w), bm[b])
            == blit(buf, at, w, bm, b + 1),
{
    let d = ATLAS_DIM as int;
    let x = at.0.x as int;
    let y = at.0.y as int;
    assert(w > 0) by (nonlinear_arith)
        requires
            bm.len() == w * h,
            b < bm.len(),
            0 <= b,
            0 <= w,
            0 <= h,
    {
    }
    lemma_fundamental_div_mod(b, w);
    let row = b / w;
    let col = b % w;
    assert(b == w * row + col);
    assert(0 <= row < h) by (nonlinear_arith)
        requires
            b == w * row + col,
            0 <= col < w,
            0 <= b < w * h,
            w > 0,
    {
    }
    let pp = (y + row) * d + (x + col);
    assert(0 <= pp < d * d) by (nonlinear_arith)
        requires
            0 <= y + row < d,
            0 <= x + col < d,
            pp == (y + row) * d + (x + col),
    {
    }
    let idx = alpha_index(x + col, y + row);
    assert(idx == pp * 4 + 3);
    lemma_fundamental_div_mod_converse(idx, 4, pp, 3);
    lemma_fundamental_div_mod_converse(pp, d, y + row, x + col);
    let s0 = blit(buf, at, w, bm, b);
    let s1 = blit(buf, at, w, bm, b + 1);
    assert forall|k: int| 0 <= k < s1.len() implies #[trigger] s0.update(idx, bm[b])[k] == s1[k] by {
        if k == idx {
            assert(row * w == w * row) by (nonlinear_arith);
            assert((y + row - y) * w + (x + col - x) == b);
        } else {
            let p = k / 4;
            let px = p % d;
            let py = p / d;
            if k % 4 == 3 && x <= px < x + w && y <= py && (py - y) * w + (px - x) == b {
                lemma_fundamental_div_mod_converse(b, w, py - y, px - x);
                lemma_fundamental_div_mod(p, d);
                lemma_fundamental_div_mod(k, 4);
                assert(p == d * py + px);
                assert(p == pp);
                assert(false);
            }
        }
    }
    assert(s0.update(idx, bm[b]) =~= s1);
}

/// When each glyph of the packing order got its slot, each glyph's
/// rectangle has the glyph's size.
pub proof fn lemma_each_glyph_sized(ord: Seq<usize>, ms: Seq<GlyphMetrics>, places: Seq<Area>, n: nat)
    requires
        n <= usize::MAX,
        ord == pack_order(ms, n),
        places.len() == n,
        forall|q: nat| q < n ==> places[#[trigger] ord[q as int] as int] == slot_area(ord, ms, q),
        forall|q: nat| q < n ==> #[trigger] slot_fits(ord, ms, q),
    ensures
        forall|g: int|
            0 <= g < n ==> {
                &&& (#[trigger] places[g]).1.x == places[g].0.x + ms[g].width
                &&& places[g].1.y == places[g].0.y + ms[g].height
            },
{
    lemma_pack_order(ms, n);
    assert forall|g: int| 0 <= g < n implies {
        &&& (#[trigger] places[g]).1.x == places[g].0.x + ms[g].width
        &&& places[g].1.y == places[g].0.y + ms[g].height
    } by {
        assert(ord.contains(g as usize));
        let q = choose|q: int| 0 <= q < ord.len() && ord[q] == g as usize;
        let qn = q as nat;
        assert(places[ord[qn as int] as int] == slot_area(ord, ms, qn));
        assert(slot_fits(ord, ms, qn));
        lemma_shelf_nonneg(ord, ms, qn);
    }
}

/// The shelf cursor never goes negative.
pub proof fn lemma_shelf_nonneg(ord: Seq<usize>, ms: Seq<GlyphMetrics>, k: nat)
    ensures
        shelf_after(ord, ms, k).0 >= 0,
        shelf_after(ord, ms, k).1 >= 0,
        shelf_after(ord, ms, k).2 >= 0,
        slot(ord, ms, k).0 >= 0,
        slot(ord, ms, k).1 >= 0,
    decreases k,
{
    if k > 0 {
        lemma_shelf_nonneg(ord, ms, (k - 1) as nat);
    }
}

pub proof fn lemma_atlas_pixels_len(places: Seq<Area>, ms: Seq<GlyphMetrics>, bitmaps: Seq<Seq<u8>>, n: nat)
    ensures
        atlas_pixels(places, ms, bitmaps, n).len() == texture_len(),
    decreases n,
{
    if n > 0 {
        lemma_atlas_pixels_len(places, ms, bitmaps, (n - 1) as nat);
    }
}

/// The texture built from the first `n` glyphs depends on those glyphs alone.
pub proof fn lemma_atlas_pixels_prefix(
    p1: Seq<Area>,
    m1: Seq<GlyphMetrics>,
    b1: Seq<Seq<u8>>,
    p2: Seq<Area>,
    m2: Seq<GlyphMetrics>,
    b2: Seq<Seq<u8>>,
    n: nat,
)
    requires
        forall|j: int| 0 <= j < n ==> p1[j] == p2[j] && m1[j] == m2[j] && b1[j] == b2[j],
    ensures
        atlas_pixels(p1, m1, b1, n) == atlas_pixels(p2, m2, b2, n),
    decreases n,
{
    if n > 0 {
        lemma_atlas_pixels_prefix(p1, m1, b1, p2, m2, b2, (n - 1) as nat);
        assert(p1[n - 1] == p2[n - 1] && m1[n - 1] == m2[n - 1] && b1[n - 1] == b2[n - 1]);
    }
}

} // verus!
