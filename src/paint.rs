//! Painting wrapped text: one textured quad per glyph, placed on the rows
//! that word wrapping chooses.
use vstd::prelude::*;

use crate::atlas::{lemma_grows_refl, lemma_grows_trans, uv_of, FontAtlas, GlyphKey, GlyphMetrics, Rasterizer};
use crate::frame::{appended, lemma_appended_refl, lemma_appended_trans, quad_vertices, Frame, Rgb, Vertex};
use crate::geometry::{clamp, from_usize, sat_add, sat_sub, Area, Vec2};
use crate::wrap::{glyph_count, is_white, lemma_glyph_count_step, white_space, LH, PX, WS};

verus! {

/// What a glyph map holds for each key: metrics and atlas placement.
pub type GlyphMap = Map<GlyphKey, (GlyphMetrics, Area)>;

/// The pen while painting: where the next word starts, the top of the
/// current row, and the width taken on the row as word wrapping counts it.
#[derive(Clone, Copy, Debug, PartialEq, Eq, Structural)]
pub struct Pen {
    pub x: i64,
    pub y: i64,
    pub row: i64,
}

/// The pen at the start of text painted into `area`.
pub open spec fn pen_at(area: Area) -> Pen {
    Pen { x: area.0.x, y: area.0.y, row: 0 }
}

/// The advance of `c` at [`PX`], zero when the map does not hold it.
pub open spec fn pen_advance(gm: GlyphMap, c: char) -> int {
    if gm.contains_key((c, PX)) {
        gm[(c, PX)].0.advance_width as int
    } else {
        0
    }
}

/// The end of the word that starts at `i`: the first white space at or
/// after `i`, or the end of `s`.
pub open spec fn word_stop(s: Seq<char>, i: int) -> int
    decreases s.len() - i,
{
    if i < 0 || i >= s.len() || white_space(s[i]) {
        i
    } else {
        word_stop(s, i + 1)
    }
}

/// The width of `s[i..j]`: the sum of its advances.
pub open spec fn span_width(s: Seq<char>, i: int, j: int, gm: GlyphMap) -> int
    decreases j - i,
{
    if j <= i {
        0
    } else {
        clamp(span_width(s, i, j - 1, gm) + pen_advance(gm, s[j - 1]))
    }
}

/// The quad of glyph `c` drawn with the pen at `(x, y)`: the bitmap's
/// top-left corner is offset by the bearing, and its bottom sits on the
/// baseline a line height below `y`; textured with the glyph's atlas rectangle, in white.
pub open spec fn glyph_quad(c: char, x: int, y: int, gm: GlyphMap) -> Seq<Vertex> {
    let m = gm[(c, PX)].0;
    let gx = clamp(x + m.xmin);
    let h = clamp(m.height as int);
    let gy = clamp(clamp(clamp(y + LH) - m.ymin) - h);
    quad_vertices(
        Area(
            Vec2 { x: gx as i64, y: gy as i64 },
            Vec2 { x: clamp(gx + clamp(m.width as int)) as i64, y: clamp(gy + h) as i64 },
        ),
        uv_of(gm[(c, PX)].1),
        Rgb { r: 255, g: 255, b: 255 },
    )
}

/// The quads of `s[i..j]` drawn from pen position `x` on the row at `y`,
/// and where the pen ends.
pub open spec fn glyph_run(s: Seq<char>, i: int, j: int, x: int, y: int, gm: GlyphMap) -> (Seq<Vertex>, int)
    decreases j - i,
{
    if j <= i {
        (Seq::empty(), x)
    } else {
        let (q, x2) = glyph_run(s, i, j - 1, x, y, gm);
        (q + glyph_quad(s[j - 1], x2, y, gm), clamp(x2 + pen_advance(gm, s[j - 1])))
    }
}

/// The vertices of `s[i..]` painted from `pen` in rows that start at
/// `left` and are `width` wide. Each word is first measured; when the row
/// taken so far, the word and a space exceed `width`, the word starts a new
/// row a line height below (and the row then counts the word alone); the
/// word's glyphs follow each other, and a space follows the word.
pub open spec fn paint_from(s: Seq<char>, i: int, pen: Pen, left: i64, width: int, gm: GlyphMap) -> Seq<Vertex>
    decreases s.len() - i,
{
    if i < 0 || i >= s.len() {
        Seq::empty()
    } else if white_space(s[i]) {
        paint_from(s, i + 1, pen, left, width, gm)
    } else {
        let j = word_stop(s, i);
        if j <= i || j > s.len() {
            Seq::empty()
        } else {
            let w = span_width(s, i, j, gm);
            let wraps = clamp(clamp(pen.row + w) + WS) > width;
            let x1 = if wraps { left as int } else { pen.x as int };
            let y1 = if wraps { clamp(pen.y + LH) } else { pen.y as int };
            let row1 = if wraps { w } else { clamp(clamp(pen.row + w) + WS) };
            let (q, xe) = glyph_run(s, i, j, x1, y1, gm);
            q + paint_from(
                s,
                j,
                Pen { x: clamp(xe + WS) as i64, y: y1 as i64, row: row1 as i64 },
                left,
                width,
                gm,
            )
        }
    }
}

/// Whether `gm` holds every character of `s[i..j]`.
pub open spec fn holds_span(s: Seq<char>, i: int, j: int, gm: GlyphMap) -> bool {
    forall|k: int| i <= k < j ==> #[trigger] gm.contains_key((s[k], PX))
}

pub proof fn lemma_map_trans(a: GlyphMap, b: GlyphMap, c: GlyphMap)
    requires
        a.submap_of(b),
        b.submap_of(c),
    ensures
        a.submap_of(c),
{
    vstd::map_lib::lemma_submap_of_trans(a, b, c);
}

proof fn lemma_span_ext(s: Seq<char>, i: int, j: int, a: GlyphMap, b: GlyphMap)
    requires
        a.submap_of(b),
        holds_span(s, i, j, a),
    ensures
        span_width(s, i, j, a) == span_width(s, i, j, b),
    decreases j - i,
{
    if j > i {
        lemma_span_ext(s, i, j - 1, a, b);
        assert(a.contains_key((s[j - 1], PX)));
    }
}

proof fn lemma_run_ext(s: Seq<char>, i: int, j: int, x: int, y: int, a: GlyphMap, b: GlyphMap)
    requires
        a.submap_of(b),
        holds_span(s, i, j, a),
    ensures
        glyph_run(s, i, j, x, y, a) == glyph_run(s, i, j, x, y, b),
    decreases j - i,
{
    if j > i {
        lemma_run_ext(s, i, j - 1, x, y, a, b);
        assert(a.contains_key((s[j - 1], PX)));
    }
}

proof fn lemma_word_stop(s: Seq<char>, i: int, j: int)
    requires
        0 <= i <= j <= s.len(),
        forall|k: int| i <= k < j ==> !white_space(#[trigger] s[k]),
        j == s.len() || white_space(s[j]),
    ensures
        word_stop(s, i) == j,
    decreases j - i,
{
    if i < j {
        lemma_word_stop(s, i + 1, j);
    }
}

/// Paints text `s` into `frame`, wrapped into `area`'s width as layout
/// wraps it; see [`paint_from`]. Exactly one quad is emitted for each
/// character that is not white space, however the words are wrapped.
pub fn paint_text<R: Rasterizer>(frame: &mut Frame, atlas: &mut FontAtlas<R>, s: &Vec<char>, area: Area)
    requires
        old(atlas).wf(),
    ensures
        final(atlas).wf(),
        old(atlas).grows_to(*final(atlas)),
        old(atlas).table().submap_of(final(atlas).table()),
        old(atlas).glyph_map().submap_of(final(atlas).glyph_map()),
        appended(*old(frame), *final(frame), 6 * glyph_count(s@)),
        forall|gm: GlyphMap|
            final(atlas).glyph_map().submap_of(gm) ==> final(frame).vertices@ == old(frame).vertices@
                + #[trigger] paint_from(s@, 0, pen_at(area), area.0.x, area.width(), gm),
{
    let n = s.len();
    let width = area.w();
    let left = area.0.x;
    let mut pen = Pen { x: area.0.x, y: area.0.y, row: 0 };
    let mut i: usize = 0;
    proof {
        lemma_grows_refl(*atlas);
        lemma_appended_refl(*frame);
        assert(s@.take(0) =~= Seq::<char>::empty());
        assert(old(atlas).glyph_map().submap_of(atlas.glyph_map()));
        assert forall|gm: GlyphMap| atlas.glyph_map().submap_of(gm) implies old(frame).vertices@
            + #[trigger] paint_from(s@, 0, pen_at(area), left, width as int, gm) == frame.vertices@
            + paint_from(s@, i as int, pen, left, width as int, gm) by {
            assert(old(frame).vertices@ == frame.vertices@);
        }
    }
    while i < n
        invariant
            i <= n,
            n == s@.len(),
            width == area.width(),
            left == area.0.x,
            old(atlas).wf(),
            atlas.wf(),
            old(atlas).grows_to(*atlas),
            old(atlas).table().submap_of(atlas.table()),
            old(atlas).glyph_map().submap_of(atlas.glyph_map()),
            appended(*old(frame), *frame, 6 * glyph_count(s@.take(i as int))),
            forall|gm: GlyphMap|
                atlas.glyph_map().submap_of(gm) ==> old(frame).vertices@ + #[trigger] paint_from(
                    s@,
                    0,
                    pen_at(area),
                    left,
                    width as int,
                    gm,
                ) == frame.vertices@ + paint_from(s@, i as int, pen, left, width as int, gm),
        decreases n - i,
    {
        if is_white(s[i]) {
            proof {
                lemma_glyph_count_step(s@, i as int);
            }
            i += 1;
        } else {
            let start = i;
            let ghost a_start = *atlas;
            let ghost v_start = frame.vertices@;
            let ghost f_start = *frame;
            let ghost pen0 = pen;
            let mut w: i64 = 0;
            let mut j = i;
            proof {
                lemma_grows_refl(*atlas);
            }
            while j < n && !is_white(s[j])
                invariant
                    start <= j <= n,
                    n == s@.len(),
                    start < n,
                    !white_space(s@[start as int]),
                    old(atlas).wf(),
                    a_start.wf(),
                    atlas.wf(),
                    old(atlas).grows_to(a_start),
                    a_start.grows_to(*atlas),
                    old(atlas).table().submap_of(a_start.table()),
                    a_start.table().submap_of(atlas.table()),
                    old(atlas).glyph_map().submap_of(a_start.glyph_map()),
                    a_start.glyph_map().submap_of(atlas.glyph_map()),
                    *frame == f_start,
                    forall|k: int| start <= k < j ==> !white_space(#[trigger] s@[k]),
                    holds_span(s@, start as int, j as int, atlas.glyph_map()),
                    w == span_width(s@, start as int, j as int, atlas.glyph_map()),
                    glyph_count(s@.take(j as int)) == glyph_count(s@.take(start as int)) + (j - start),
                decreases n - j,
            {
                proof {
                    lemma_glyph_count_step(s@, j as int);
                }
                let ghost a0 = *atlas;
                let sz = atlas.size(s[j], PX);
                proof {
                    lemma_grows_trans(a_start, a0, *atlas);
                    lemma_map_trans(a_start.glyph_map(), a0.glyph_map(), atlas.glyph_map());
                    lemma_span_ext(s@, start as int, j as int, a0.glyph_map(), atlas.glyph_map());
                    assert(atlas.glyph_map()[(s@[j as int], PX)].0 == atlas.table()[(s@[j as int], PX)]);
                    assert forall|k: int| start <= k < j + 1 implies #[trigger] atlas.glyph_map().contains_key((s@[k], PX)) by {
                        if k < j {
                            assert(a0.glyph_map().contains_key((s@[k], PX)));
                        }
                    }
                }
                w = sat_add(w, sz.x);
                j += 1;
            }
            proof {
                lemma_word_stop(s@, start as int, j as int);
                lemma_grows_trans(*old(atlas), a_start, *atlas);
                lemma_map_trans(old(atlas).glyph_map(), a_start.glyph_map(), atlas.glyph_map());
            }
            let wraps = sat_add(sat_add(pen.row, w), WS) > width;
            let x1 = if wraps { left } else { pen.x };
            let y1 = if wraps { sat_add(pen.y, LH) } else { pen.y };
            let row1 = if wraps { w } else { sat_add(sat_add(pen.row, w), WS) };
            let ghost a_draw = *atlas;
            let mut x = x1;
            let mut k = start;
            proof {
                lemma_grows_refl(*atlas);
                lemma_appended_refl(*frame);
            }
            while k < j
                invariant
                    start <= k <= j <= n,
                    n == s@.len(),
                    old(atlas).wf(),
                    a_draw.wf(),
                    atlas.wf(),
                    old(atlas).grows_to(a_draw),
                    a_draw.grows_to(*atlas),
                    old(atlas).table().submap_of(a_draw.table()),
                    a_draw.table().submap_of(atlas.table()),
                    old(atlas).glyph_map().submap_of(a_draw.glyph_map()),
                    a_draw.glyph_map().submap_of(atlas.glyph_map()),
                    holds_span(s@, start as int, j as int, a_draw.glyph_map()),
                    appended(f_start, *frame, (6 * (k - start)) as nat),
                    frame.vertices@ == v_start + glyph_run(s@, start as int, k as int, x1 as int, y1 as int, a_draw.glyph_map()).0,
                    x == glyph_run(s@, start as int, k as int, x1 as int, y1 as int, a_draw.glyph_map()).1,
                decreases j - k,
            {
                let ghost a0 = *atlas;
                let id = atlas.get(s[k], PX);
                proof {
                    lemma_grows_trans(a_draw, a0, *atlas);
                    lemma_map_trans(a_draw.glyph_map(), a0.glyph_map(), atlas.glyph_map());
                    assert(a_draw.glyph_map().contains_key((s@[k as int], PX)));
                }
                let m = atlas.metrics(id);
                let uv = atlas.texture_area(id);
                let gx = sat_add(x, m.xmin as i64);
                let h = from_usize(m.height);
                let gy = sat_sub(sat_sub(sat_add(y1, LH), m.ymin as i64), h);
                let ghost f0 = *frame;
                let rect = Area(Vec2 { x: gx, y: gy }, Vec2 { x: sat_add(gx, from_usize(m.width)), y: sat_add(gy, h) });
                frame.quad(rect, uv, Rgb::white());
                proof {
                    lemma_appended_trans(f_start, f0, *frame, (6 * (k - start)) as nat, 6);
                    assert(glyph_quad(s@[k as int], x as int, y1 as int, a_draw.glyph_map()) == quad_vertices(
                        rect,
                        uv,
                        Rgb { r: 255, g: 255, b: 255 },
                    ));
                    assert(frame.vertices@ =~= v_start + glyph_run(s@, start as int, k + 1, x1 as int, y1 as int, a_draw.glyph_map()).0);
                }
                x = sat_add(x, m.advance_width);
                k += 1;
            }
            let ghost xe = x;
            pen = Pen { x: sat_add(x, WS), y: y1, row: row1 };
            proof {
                lemma_appended_trans(*old(frame), f_start, *frame, 6 * glyph_count(s@.take(start as int)), (6 * (j - start)) as nat);
                lemma_grows_trans(*old(atlas), a_draw, *atlas);
                lemma_map_trans(old(atlas).glyph_map(), a_draw.glyph_map(), atlas.glyph_map());
                lemma_map_trans(a_start.glyph_map(), a_draw.glyph_map(), atlas.glyph_map());
                assert forall|gm: GlyphMap| atlas.glyph_map().submap_of(gm) implies old(frame).vertices@
                    + #[trigger] paint_from(s@, 0, pen_at(area), left, width as int, gm) == frame.vertices@
                    + paint_from(s@, j as int, pen, left, width as int, gm) by {
                    lemma_map_trans(a_start.glyph_map(), atlas.glyph_map(), gm);
                    lemma_map_trans(a_draw.glyph_map(), atlas.glyph_map(), gm);
                    lemma_span_ext(s@, start as int, j as int, a_draw.glyph_map(), gm);
                    lemma_run_ext(s@, start as int, j as int, x1 as int, y1 as int, a_draw.glyph_map(), gm);
                    assert(paint_from(s@, start as int, pen0, left, width as int, gm) == glyph_run(
                        s@,
                        start as int,
                        j as int,
                        x1 as int,
                        y1 as int,
                        gm,
                    ).0 + paint_from(s@, j as int, pen, left, width as int, gm));
                    assert(old(frame).vertices@ + paint_from(s@, 0, pen_at(area), left, width as int, gm)
                        == v_start + paint_from(s@, start as int, pen0, left, width as int, gm));
                    assert(v_start + (glyph_run(s@, start as int, j as int, x1 as int, y1 as int, gm).0
                        + paint_from(s@, j as int, pen, left, width as int, gm)) =~= frame.vertices@
                        + paint_from(s@, j as int, pen, left, width as int, gm));
                }
            }
            i = j;
        }
    }
    proof {
        assert(s@.take(n as int) =~= s@);
        assert forall|gm: GlyphMap| atlas.glyph_map().submap_of(gm) implies frame.vertices@ == old(frame).vertices@
            + #[trigger] paint_from(s@, 0, pen_at(area), area.0.x, area.width(), gm) by {
            assert(paint_from(s@, n as int, pen, left, width as int, gm) =~= Seq::<Vertex>::empty());
            assert(frame.vertices@ + Seq::<Vertex>::empty() =~= frame.vertices@);
        }
    }
}

} // verus!
