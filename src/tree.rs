//! The layout tree: an arena of nodes linked by index, laid out into pixel
//! rectangles, painted into a frame, and hit-tested.
use vstd::prelude::*;

use crate::atlas::{lemma_wf_lens, lemma_grows_refl, lemma_grows_trans, FontAtlas, GlyphKey, GlyphMetrics, Rasterizer};
use crate::atlas::AtlasError;
use crate::frame::{appended, lemma_appended_refl, lemma_appended_trans, Frame, Rgb};
use crate::geometry::{clamp, from_usize, sat_add, sat_sub, Area, Vec2, UNBOUNDED};
use crate::packing::{
    all_fit, atlas_pixels, lemma_atlas_pixels_len, lemma_atlas_pixels_prefix, lemma_pack_order, pack_order, slot_area,
    texture_len,
};
use crate::textbook::TextBook;
use crate::frame::Vertex;
use crate::paint::{lemma_map_trans, paint_from, paint_text, pen_at, GlyphMap};
use crate::wrap::{glyph_count, measure_text, text_height, LH};

verus! {

/// The index that stands for "no node".
pub const NO_NODE: usize = usize::MAX;

/// What a node is.
#[derive(Clone, Copy, Debug, PartialEq, Eq, Structural)]
pub enum NodeKind {
    /// A deleted node.
    Deleted,
    /// A run of text, by its id in a [`TextBook`].
    Text(usize),
    /// A container that insets its children by the amount and stacks them.
    Pad(i64),
    /// A container that stacks its children shifted up by the offset.
    Scroll(i64),
    /// A wrapper that reports the event id when its area is clicked.
    Clickable(usize),
}

#[derive(Clone, Copy, Debug, PartialEq, Eq, Structural)]
pub struct Node {
    pub kind: NodeKind,
    /// The first child, or [`NO_NODE`].
    pub child: usize,
    /// The next sibling, or [`NO_NODE`].
    pub next: usize,
    /// Where the latest layout placed the node.
    pub area: Area,
}

pub struct Tree {
    nodes: Vec<Node>,
}

/// Whether `i` names a node of `ns`.
pub open spec fn valid(ns: Seq<Node>, i: int) -> bool {
    0 <= i < ns.len()
}

/// Whether every link of `ns` is either absent or names a node.
pub open spec fn links_ok(ns: Seq<Node>) -> bool {
    &&& ns.len() < NO_NODE
    &&& forall|i: int|
        0 <= i < ns.len() ==> {
            &&& (#[trigger] ns[i]).child == NO_NODE || ns[i].child < ns.len()
            &&& ns[i].next == NO_NODE || ns[i].next < ns.len()
        }
}

/// Whether every text node of `ns` refers to one of `count` texts.
pub open spec fn texts_within(ns: Seq<Node>, count: nat) -> bool {
    forall|i: int| 0 <= i < ns.len() ==> ((#[trigger] ns[i]).kind matches NodeKind::Text(t) ==> t < count)
}

/// Whether `b` differs from `a` in the nodes' areas alone.
pub open spec fn same_shape(a: Seq<Node>, b: Seq<Node>) -> bool {
    &&& a.len() == b.len()
    &&& forall|i: int|
        0 <= i < a.len() ==> {
            &&& (#[trigger] b[i]).kind == a[i].kind
            &&& b[i].child == a[i].child
            &&& b[i].next == a[i].next
        }
}

pub open spec fn with_area(nd: Node, a: Area) -> Node {
    Node { area: a, ..nd }
}

pub open spec fn with_next(nd: Node, next: usize) -> Node {
    Node { next, ..nd }
}

/// `ns` after linking `ch[0]`, ..., `ch[i]` as siblings, in that order.
pub open spec fn linked(ns: Seq<Node>, ch: Seq<usize>, i: nat) -> Seq<Node>
    decreases i,
{
    if i == 0 || i >= ch.len() {
        ns
    } else {
        let prev = linked(ns, ch, (i - 1) as nat);
        let j = ch[i - 1] as int;
        prev.update(j, with_next(prev[j], ch[i as int]))
    }
}

/// The node that `add` appends.
pub open spec fn new_node(kind: NodeKind, ch: Seq<usize>) -> Node {
    Node {
        kind,
        child: if ch.len() > 0 { ch[0] } else { NO_NODE },
        next: NO_NODE,
        area: Area(Vec2 { x: 0, y: 0 }, Vec2 { x: 0, y: 0 }),
    }
}

proof fn lemma_linked(ns: Seq<Node>, ch: Seq<usize>, i: nat)
    requires
        links_ok(ns),
        forall|k: int| 0 <= k < ch.len() ==> #[trigger] ch[k] < ns.len(),
    ensures
        linked(ns, ch, i).len() == ns.len(),
        links_ok(linked(ns, ch, i)),
        forall|j: int|
            0 <= j < ns.len() ==> {
                &&& (#[trigger] linked(ns, ch, i)[j]).kind == ns[j].kind
                &&& linked(ns, ch, i)[j].child == ns[j].child
                &&& linked(ns, ch, i)[j].area == ns[j].area
            },
    decreases i,
{
    if i > 0 && i < ch.len() {
        lemma_linked(ns, ch, (i - 1) as nat);
    }
}

/// The characters of text `t`, empty when there is no such text.
pub open spec fn text_of(book: Seq<Seq<char>>, t: usize) -> Seq<char> {
    if t < book.len() {
        book[t as int]
    } else {
        Seq::empty()
    }
}

/// The area in which a `Pad(p)` stacks its children: inset by `p` at the
/// top and sides, unbounded below.
pub open spec fn pad_area(area: Area, p: i64) -> Area {
    Area(
        Vec2 { x: clamp(area.0.x + p) as i64, y: clamp(area.0.y + p) as i64 },
        Vec2 { x: clamp(area.1.x - p) as i64, y: UNBOUNDED },
    )
}

/// The area in which a `Scroll(s)` stacks its children: moved up by `s`,
/// unbounded below.
pub open spec fn scroll_area(area: Area, s: i64) -> Area {
    Area(Vec2 { x: area.0.x, y: clamp(area.0.y - s) as i64 }, Vec2 { x: area.1.x, y: UNBOUNDED })
}

/// Lays out node `n` in `area`: the nodes with their new areas, and the
/// size the node takes. `m` gives the glyph advances; `depth` bounds the
/// nesting that is followed.
///
/// - Text is wrapped into the area's width, one line height per row; when
///   the node's recorded width already equals that width, its recorded
///   size is reused.
/// - A clickable lays out its child in the same area and gives it the
///   child's size.
/// - A pad stacks its children in its inset area (see [`lay_stack`]),
///   stopping below `area`'s bottom edge; it is as wide as the area and
///   as tall as its content plus the padding above and below: from its top
///   to the bottom of its last placed child, plus the padding.
/// - A scroll stacks all its children from its offset and fills the area.
pub open spec fn lay(
    ns: Seq<Node>,
    book: Seq<Seq<char>>,
    n: int,
    area: Area,
    depth: nat,
    m: Map<GlyphKey, GlyphMetrics>,
) -> (Seq<Node>, Vec2)
    decreases depth, 0nat,
{
    if depth == 0 || !valid(ns, n) {
        (ns, Vec2 { x: 0, y: 0 })
    } else {
        match ns[n].kind {
            NodeKind::Deleted => (ns, Vec2 { x: 0, y: 0 }),
            NodeKind::Text(t) => {
                if ns[n].area.width() == area.width() {
                    (ns, ns[n].area.size_of())
                } else {
                    (
                        ns,
                        Vec2 {
                            x: area.width() as i64,
                            y: text_height(text_of(book, t), area.width(), m) as i64,
                        },
                    )
                }
            },
            NodeKind::Clickable(_) => {
                let c = ns[n].child as int;
                if !valid(ns, c) {
                    (ns, Vec2 { x: 0, y: 0 })
                } else {
                    let (ns1, size) = lay(ns, book, c, area, (depth - 1) as nat, m);
                    (ns1.update(c, with_area(ns1[c], area.resized(size))), size)
                }
            },
            NodeKind::Pad(p) => {
                let (ns1, y) = lay_stack(
                    ns,
                    book,
                    ns[n].child as int,
                    pad_area(area, p),
                    area.1.y as int,
                    pad_area(area, p).0.y as int,
                    (depth - 1) as nat,
                    ns.len(),
                    m,
                );
                (ns1, Vec2 { x: area.width() as i64, y: clamp(clamp(y - area.0.y) + p) as i64 })
            },
            NodeKind::Scroll(s) => {
                let (ns1, y) = lay_stack(
                    ns,
                    book,
                    ns[n].child as int,
                    scroll_area(area, s),
                    UNBOUNDED as int,
                    scroll_area(area, s).0.y as int,
                    (depth - 1) as nat,
                    ns.len(),
                    m,
                );
                (ns1, area.size_of())
            },
        }
    }
}

/// Stacks the sibling list from `c` top to bottom in `ca`: each child is
/// laid out at the cursor, recorded as spanning the area's width and its
/// own height, and the cursor moves down by that height plus a line
/// height. Once the cursor passes `bottom` the remaining siblings are left
/// alone. Returns the nodes and the bottom edge of the last child placed
/// (`end` when none is); `steps` bounds the number of siblings followed.
pub open spec fn lay_stack(
    ns: Seq<Node>,
    book: Seq<Seq<char>>,
    c: int,
    ca: Area,
    bottom: int,
    end: int,
    depth: nat,
    steps: nat,
    m: Map<GlyphKey, GlyphMetrics>,
) -> (Seq<Node>, int)
    decreases depth, steps,
{
    if steps == 0 || !valid(ns, c) {
        (ns, end)
    } else {
        let (ns1, size) = lay(ns, book, c, ca, depth, m);
        let low = clamp(ca.0.y + size.y);
        let ns2 = ns1.update(c, with_area(ns1[c], Area(ca.0, Vec2 { x: ca.1.x, y: low as i64 })));
        let y2 = clamp(low + LH);
        if y2 > bottom {
            (ns2, low)
        } else {
            lay_stack(
                ns2,
                book,
                ns2[c].next as int,
                Area(Vec2 { x: ca.0.x, y: y2 as i64 }, ca.1),
                bottom,
                low,
                depth,
                (steps - 1) as nat,
                m,
            )
        }
    }
}

proof fn lemma_submap_trans(
    a: Map<GlyphKey, GlyphMetrics>,
    b: Map<GlyphKey, GlyphMetrics>,
    c: Map<GlyphKey, GlyphMetrics>,
)
    requires
        a.submap_of(b),
        b.submap_of(c),
    ensures
        a.submap_of(c),
{
    vstd::map_lib::lemma_submap_of_trans(a, b, c);
}

/// Layout keeps the number of nodes.
pub proof fn lemma_lay_len(
    ns: Seq<Node>,
    book: Seq<Seq<char>>,
    n: int,
    area: Area,
    depth: nat,
    m: Map<GlyphKey, GlyphMetrics>,
)
    ensures
        lay(ns, book, n, area, depth, m).0.len() == ns.len(),
    decreases depth, 0nat,
{
    if depth > 0 && valid(ns, n) {
        match ns[n].kind {
            NodeKind::Clickable(_) => {
                let c = ns[n].child as int;
                if valid(ns, c) {
                    lemma_lay_len(ns, book, c, area, (depth - 1) as nat, m);
                }
            },
            NodeKind::Pad(p) => {
                lemma_stack_len(ns, book, ns[n].child as int, pad_area(area, p), area.1.y as int,
                    pad_area(area, p).0.y as int, (depth - 1) as nat, ns.len(), m);
            },
            NodeKind::Scroll(s) => {
                lemma_stack_len(ns, book, ns[n].child as int, scroll_area(area, s), UNBOUNDED as int,
                    scroll_area(area, s).0.y as int, (depth - 1) as nat, ns.len(), m);
            },
            _ => {},
        }
    }
}

/// Stacking keeps the number of nodes.
pub proof fn lemma_stack_len(
    ns: Seq<Node>,
    book: Seq<Seq<char>>,
    c: int,
    ca: Area,
    bottom: int,
    end: int,
    depth: nat,
    steps: nat,
    m: Map<GlyphKey, GlyphMetrics>,
)
    ensures
        lay_stack(ns, book, c, ca, bottom, end, depth, steps, m).0.len() == ns.len(),
    decreases depth, steps,
{
    if steps > 0 && valid(ns, c) {
        lemma_lay_len(ns, book, c, ca, depth, m);
        let (ns1, size) = lay(ns, book, c, ca, depth, m);
        let low = clamp(ca.0.y + size.y);
        let ns2 = ns1.update(c, with_area(ns1[c], Area(ca.0, Vec2 { x: ca.1.x, y: low as i64 })));
        let y2 = clamp(low + LH);
        if y2 <= bottom {
            lemma_stack_len(ns2, book, ns2[c].next as int, Area(Vec2 { x: ca.0.x, y: y2 as i64 }, ca.1),
                bottom, low, depth, (steps - 1) as nat, m);
        }
    }
}

proof fn lemma_same_shape(a: Seq<Node>, b: Seq<Node>, count: nat)
    requires
        same_shape(a, b),
        links_ok(a),
        texts_within(a, count),
    ensures
        links_ok(b),
        texts_within(b, count),
{
    assert forall|i: int| 0 <= i < b.len() implies {
        &&& (#[trigger] b[i]).child == NO_NODE || b[i].child < b.len()
        &&& b[i].next == NO_NODE || b[i].next < b.len()
    } by {
        assert(a[i].child == b[i].child);
    }
    assert forall|i: int| 0 <= i < b.len() implies ((#[trigger] b[i]).kind matches NodeKind::Text(
        t,
    ) ==> t < count) by {
        assert(a[i].kind == b[i].kind);
    }
}

/// The event of the first clickable hit at `p`, searching from node `n`
/// depth first: a node whose area does not hold `p` is skipped with its
/// subtree; a clickable that holds it answers without looking further
/// down; any other node asks its children in order.
pub open spec fn click_at(ns: Seq<Node>, n: int, p: Vec2, depth: nat) -> Option<usize>
    decreases depth, 0nat,
{
    if depth == 0 || !valid(ns, n) || !p.is_inside(ns[n].area) {
        None
    } else {
        match ns[n].kind {
            NodeKind::Clickable(e) => Some(e),
            _ => click_list(ns, ns[n].child as int, p, (depth - 1) as nat, ns.len()),
        }
    }
}

/// The first answer of [`click_at`] along the sibling list from `c`.
pub open spec fn click_list(ns: Seq<Node>, c: int, p: Vec2, depth: nat, steps: nat) -> Option<usize>
    decreases depth, steps,
{
    if steps == 0 || !valid(ns, c) {
        None
    } else {
        match click_at(ns, c, p, depth) {
            Some(e) => Some(e),
            None => click_list(ns, ns[c].next as int, p, depth, (steps - 1) as nat),
        }
    }
}

/// A hit always comes from a clickable node whose recorded area holds the
/// point, and the point lies in the area of the node the search starts at.
pub proof fn lemma_click_sound(ns: Seq<Node>, n: int, p: Vec2, depth: nat, e: usize)
    requires
        click_at(ns, n, p, depth) == Some(e),
    ensures
        valid(ns, n),
        p.is_inside(ns[n].area),
        exists|i: int| valid(ns, i) && #[trigger] ns[i].kind == NodeKind::Clickable(e) && p.is_inside(ns[i].area),
    decreases depth, 0nat,
{
    if !(ns[n].kind is Clickable) {
        lemma_click_list_sound(ns, ns[n].child as int, p, (depth - 1) as nat, ns.len(), e);
    }
}

proof fn lemma_click_list_sound(ns: Seq<Node>, c: int, p: Vec2, depth: nat, steps: nat, e: usize)
    requires
        click_list(ns, c, p, depth, steps) == Some(e),
    ensures
        exists|i: int| valid(ns, i) && #[trigger] ns[i].kind == NodeKind::Clickable(e) && p.is_inside(ns[i].area),
    decreases depth, steps,
{
    if click_at(ns, c, p, depth) == Some(e) {
        lemma_click_sound(ns, c, p, depth, e);
    } else {
        lemma_click_list_sound(ns, ns[c].next as int, p, depth, (steps - 1) as nat, e);
    }
}

/// Whether `c` is among the first `steps` siblings from `x` and every
/// sibling before it misses `p`.
pub open spec fn first_hit(ns: Seq<Node>, x: int, c: int, p: Vec2, depth: nat, steps: nat) -> bool
    decreases steps,
{
    steps > 0 && valid(ns, x) && (x == c || (click_at(ns, x, p, depth) is None && first_hit(
        ns,
        ns[x].next as int,
        c,
        p,
        depth,
        (steps - 1) as nat,
    )))
}

proof fn lemma_click_list_hit(ns: Seq<Node>, x: int, c: int, p: Vec2, depth: nat, steps: nat, e: usize)
    requires
        first_hit(ns, x, c, p, depth, steps),
        click_at(ns, c, p, depth) == Some(e),
    ensures
        click_list(ns, x, p, depth, steps) == Some(e),
    decreases steps,
{
    if x != c {
        lemma_click_list_hit(ns, ns[x].next as int, c, p, depth, (steps - 1) as nat, e);
    }
}

/// One step down the search path: when the point lies in a node's area,
/// the node is not itself clickable, and the first of its children to
/// answer answers with `e`, then the node answers with `e`. With
/// [`lemma_click_containment`] for the clickable at the end, this gives
/// the answer along any path whose areas all hold the point.
pub proof fn lemma_click_path(ns: Seq<Node>, n: int, c: int, p: Vec2, depth: nat, e: usize)
    requires
        valid(ns, n),
        depth > 0,
        p.is_inside(ns[n].area),
        !(ns[n].kind is Clickable),
        first_hit(ns, ns[n].child as int, c, p, (depth - 1) as nat, ns.len()),
        click_at(ns, c, p, (depth - 1) as nat) == Some(e),
    ensures
        click_at(ns, n, p, depth) == Some(e),
{
    lemma_click_list_hit(ns, ns[n].child as int, c, p, (depth - 1) as nat, ns.len(), e);
}

/// `ns` with node `n`, its descendants and its later siblings marked deleted.
pub open spec fn del(ns: Seq<Node>, n: int, fuel: nat) -> Seq<Node>
    decreases fuel,
{
    if fuel == 0 || !valid(ns, n) {
        ns
    } else {
        let ns1 = ns.update(n, Node { kind: NodeKind::Deleted, ..ns[n] });
        let ns2 = del(ns1, ns1[n].child as int, (fuel - 1) as nat);
        del(ns2, ns2[n].next as int, (fuel - 1) as nat)
    }
}

/// Deleting changes kinds alone, never links or areas.
pub proof fn lemma_del_links(ns: Seq<Node>, n: int, fuel: nat)
    ensures
        del(ns, n, fuel).len() == ns.len(),
        forall|i: int|
            0 <= i < ns.len() ==> {
                &&& (#[trigger] del(ns, n, fuel)[i]).child == ns[i].child
                &&& del(ns, n, fuel)[i].next == ns[i].next
                &&& del(ns, n, fuel)[i].area == ns[i].area
                &&& (del(ns, n, fuel)[i].kind == ns[i].kind || del(ns, n, fuel)[i].kind
                    == NodeKind::Deleted)
            },
    decreases fuel,
{
    if fuel > 0 && valid(ns, n) {
        let ns1 = ns.update(n, Node { kind: NodeKind::Deleted, ..ns[n] });
        lemma_del_links(ns1, ns1[n].child as int, (fuel - 1) as nat);
        let ns2 = del(ns1, ns1[n].child as int, (fuel - 1) as nat);
        lemma_del_links(ns2, ns2[n].next as int, (fuel - 1) as nat);
    }
}

/// No point outside a node's recorded area hits anything under it; a
/// clickable whose recorded area holds a point answers with its own event.
pub proof fn lemma_click_containment(ns: Seq<Node>, n: int, p: Vec2, depth: nat)
    ensures
        !p.is_inside(ns[n].area) ==> click_at(ns, n, p, depth) is None,
        valid(ns, n) && depth > 0 && p.is_inside(ns[n].area) ==> (ns[n].kind matches NodeKind::Clickable(e)
            ==> click_at(ns, n, p, depth) == Some(e)),
{
}

/// Whether a node is painted into a frame whose viewport is `view`.
pub open spec fn visible(view: Area, nd: Node) -> bool {
    view.overlaps(nd.area) && !view.is_zero_area()
}

/// How many glyphs painting the first `i` nodes emits.
pub open spec fn painted(ns: Seq<Node>, book: Seq<Seq<char>>, view: Area, i: nat) -> nat
    decreases i,
{
    if i == 0 {
        0
    } else {
        let nd = ns[i - 1];
        painted(ns, book, view, (i - 1) as nat) + match nd.kind {
            NodeKind::Text(t) => if visible(view, nd) {
                glyph_count(text_of(book, t))
            } else {
                0nat
            },
            _ => 0nat,
        }
    }
}

/// The vertices that painting the first `i` nodes emits, in node order:
/// each visible text node is painted at its recorded area.
pub open spec fn painted_vertices(ns: Seq<Node>, book: Seq<Seq<char>>, view: Area, i: nat, gm: GlyphMap) -> Seq<Vertex>
    decreases i,
{
    if i == 0 {
        Seq::empty()
    } else {
        let nd = ns[i - 1];
        painted_vertices(ns, book, view, (i - 1) as nat, gm) + match nd.kind {
            NodeKind::Text(t) => if visible(view, nd) {
                paint_from(text_of(book, t), 0, pen_at(nd.area), nd.area.0.x, nd.area.width(), gm)
            } else {
                Seq::empty()
            },
            _ => Seq::empty(),
        }
    }
}

/// Whether node `j` is reached from `n` by following child and sibling
/// links, at most `fuel` links deep.
pub open spec fn reaches(ns: Seq<Node>, n: int, j: int, fuel: nat) -> bool
    decreases fuel,
{
    valid(ns, n) && (n == j || (fuel > 0 && (reaches(ns, ns[n].child as int, j, (fuel - 1) as nat)
        || reaches(ns, ns[n].next as int, j, (fuel - 1) as nat))))
}

/// How `build` treats the texture, with `mid` the atlas as layout left it
/// (holding every glyph it had, plus those layout added, and flagged as
/// changed when it was flagged before or glyphs were added). When `mid` is
/// flagged, all of its glyphs are packed: if they do not fit the build
/// fails and the frame is untouched, else the frame takes the packed
/// texture, whose placements the final atlas keeps. When `mid` is not
/// flagged, the frame's texture is left alone.
pub open spec fn build_texture_step<R: Rasterizer>(
    before: FontAtlas<R>,
    mid: FontAtlas<R>,
    f0: Frame,
    f1: Frame,
    after: FontAtlas<R>,
    r: Result<(), AtlasError>,
) -> bool {
    let n = mid.keys().len();
    let ms = mid.glyph_metrics();
    let order = pack_order(ms, n as nat);
    &&& mid.wf()
    &&& before.grows_to(mid)
    &&& n <= after.keys().len()
    &&& after.keys().subrange(0, n as int) == mid.keys()
    &&& after.glyph_metrics().subrange(0, n as int) == ms
    &&& (r is Err <==> mid.is_changed() && !all_fit(ms, n as nat))
    &&& if r is Err {
        &&& f1.texture_bytes == f0.texture_bytes
        &&& f1.texture_dimensions == f0.texture_dimensions
        &&& f1.texture_changed == f0.texture_changed
    } else if mid.is_changed() {
        &&& f1.texture_changed
        &&& f1.texture_dimensions == (1024u32, 1024u32)
        &&& f1.texture_bytes@ == atlas_pixels(after.placements(), after.glyph_metrics(), after.bitmaps(), n as nat)
        &&& forall|k: nat| k < n ==> after.placements()[#[trigger] order[k as int] as int] == slot_area(order, ms, k)
    } else {
        &&& f1.texture_bytes == f0.texture_bytes
        &&& f1.texture_dimensions == f0.texture_dimensions
        &&& f1.texture_changed == f0.texture_changed
    }
}

/// Whether no node reached from `n` within `fuel` links is deleted.
pub open spec fn live_from(ns: Seq<Node>, n: int, fuel: nat) -> bool {
    forall|i: int| #[trigger] reaches(ns, n, i, fuel) ==> !(ns[i].kind is Deleted)
}

/// Reachability from `c` does not change where only node `a`'s links
/// change and `c` does not reach `a`.
proof fn lemma_reaches_unchanged(ns1: Seq<Node>, ns2: Seq<Node>, a: int, c: int, j: int, k: nat)
    requires
        ns1.len() == ns2.len(),
        forall|i: int|
            0 <= i < ns1.len() && i != a ==> (#[trigger] ns2[i]).child == ns1[i].child && ns2[i].next
                == ns1[i].next,
        !reaches(ns1, c, a, k),
    ensures
        reaches(ns1, c, j, k) == reaches(ns2, c, j, k),
    decreases k,
{
    if valid(ns1, c) && k > 0 {
        assert(c != a);
        assert(ns2[c].child == ns1[c].child && ns2[c].next == ns1[c].next);
        lemma_reaches_unchanged(ns1, ns2, a, ns1[c].child as int, j, (k - 1) as nat);
        lemma_reaches_unchanged(ns1, ns2, a, ns1[c].next as int, j, (k - 1) as nat);
    }
}

/// `nd` marked deleted.
pub open spec fn tomb(nd: Node) -> Node {
    Node { kind: NodeKind::Deleted, ..nd }
}

/// Reachability depends on the links alone.
proof fn lemma_reaches_links(ns1: Seq<Node>, ns2: Seq<Node>, c: int, j: int, k: nat)
    requires
        ns1.len() == ns2.len(),
        forall|i: int| 0 <= i < ns1.len() ==> (#[trigger] ns2[i]).child == ns1[i].child && ns2[i].next == ns1[i].next,
    ensures
        reaches(ns1, c, j, k) == reaches(ns2, c, j, k),
    decreases k,
{
    if valid(ns1, c) && k > 0 {
        assert(ns2[c].child == ns1[c].child && ns2[c].next == ns1[c].next);
        lemma_reaches_links(ns1, ns2, ns1[c].child as int, j, (k - 1) as nat);
        lemma_reaches_links(ns1, ns2, ns1[c].next as int, j, (k - 1) as nat);
    }
}

/// Only nodes are reached.
pub proof fn lemma_reaches_valid(ns: Seq<Node>, c: int, j: int, k: nat)
    requires
        reaches(ns, c, j, k),
    ensures
        valid(ns, j),
    decreases k,
{
    if c != j {
        if reaches(ns, ns[c].child as int, j, (k - 1) as nat) {
            lemma_reaches_valid(ns, ns[c].child as int, j, (k - 1) as nat);
        } else {
            lemma_reaches_valid(ns, ns[c].next as int, j, (k - 1) as nat);
        }
    }
}

/// What is reached with some fuel is reached with more.
pub proof fn lemma_reaches_more(ns: Seq<Node>, c: int, j: int, k: nat)
    requires
        reaches(ns, c, j, k),
    ensures
        reaches(ns, c, j, k + 1),
    decreases k,
{
    if c != j {
        if reaches(ns, ns[c].child as int, j, (k - 1) as nat) {
            lemma_reaches_more(ns, ns[c].child as int, j, (k - 1) as nat);
        } else {
            lemma_reaches_more(ns, ns[c].next as int, j, (k - 1) as nat);
        }
    }
}

/// Deleting from `n` marks exactly the nodes that `n` reaches (within one
/// link less than the fuel) and leaves every other node as it was.
pub proof fn lemma_del_reach(ns: Seq<Node>, n: int, fuel: nat)
    ensures
        del(ns, n, fuel).len() == ns.len(),
        forall|i: int|
            0 <= i < ns.len() ==> #[trigger] del(ns, n, fuel)[i] == if fuel > 0 && reaches(
                ns,
                n,
                i,
                (fuel - 1) as nat,
            ) {
                tomb(ns[i])
            } else {
                ns[i]
            },
    decreases fuel,
{
    lemma_del_links(ns, n, fuel);
    if fuel > 0 && valid(ns, n) {
        let f = (fuel - 1) as nat;
        let ns1 = ns.update(n, tomb(ns[n]));
        let c = ns[n].child as int;
        lemma_del_reach(ns1, c, f);
        lemma_del_links(ns1, c, f);
        let ns2 = del(ns1, c, f);
        let x = ns[n].next as int;
        assert(ns2[n].next == x);
        lemma_del_reach(ns2, x, f);
        assert forall|i: int| 0 <= i < ns.len() implies #[trigger] del(ns, n, fuel)[i] == if fuel > 0
            && reaches(ns, n, i, f) {
            tomb(ns[i])
        } else {
            ns[i]
        } by {
            if f > 0 {
                lemma_reaches_links(ns, ns1, c, i, (f - 1) as nat);
                lemma_reaches_links(ns, ns2, x, i, (f - 1) as nat);
            }
        }
    }
}

/// After `replace(a, b)` node `a` is still there. When `b` and the subtree
/// under it share no node with the subtree that `a` headed:
/// - `a` holds `b`'s node (its kind and links);
/// - every other node that `a` reached before is deleted, and no longer
///   reached from `a`;
/// - every node now reached from `a`, other than `a`, is as it was.
pub proof fn lemma_replace_detaches(ns: Seq<Node>, a: int, b: int, j: int)
    requires
        links_ok(ns),
        valid(ns, a),
        valid(ns, b),
        j != a,
        !reaches(ns, a, b, ns.len()),
        forall|k: int|
            #[trigger] reaches(ns, a, k, ns.len()) ==> !reaches(
                ns,
                ns[b].child as int,
                k,
                (ns.len() - 1) as nat,
            ) && !reaches(ns, ns[b].next as int, k, (ns.len() - 1) as nat),
    ensures
        ({
            let d = del(ns, a, ns.len());
            let after = d.update(a, d[b]);
            &&& valid(after, a)
            &&& after[a] == ns[b]
            &&& reaches(ns, a, j, (ns.len() - 1) as nat) ==> after[j].kind == NodeKind::Deleted
            &&& reaches(ns, a, j, ns.len()) ==> !reaches(after, a, j, ns.len())
            &&& reaches(after, a, j, ns.len()) ==> after[j] == ns[j]
        }),
{
    let l = ns.len();
    let l1 = (l - 1) as nat;
    let d = del(ns, a, l);
    let after = d.update(a, d[b]);
    lemma_del_links(ns, a, l);
    lemma_del_reach(ns, a, l);
    if reaches(ns, a, b, l1) {
        lemma_reaches_more(ns, a, b, l1);
    }
    assert(d[b] == ns[b]);
    assert(reaches(ns, a, a, l));
    assert(after[a].child == ns[b].child && after[a].next == ns[b].next);
    assert forall|i: int| 0 <= i < ns.len() && i != a implies (#[trigger] after[i]).child
        == ns[i].child && after[i].next == ns[i].next by {
        assert(after[i] == d[i]);
    }
    lemma_reaches_unchanged(ns, after, a, ns[b].child as int, j, l1);
    lemma_reaches_unchanged(ns, after, a, ns[b].next as int, j, l1);
    if reaches(ns, a, j, l1) {
        lemma_reaches_valid(ns, a, j, l1);
        lemma_reaches_more(ns, a, j, l1);
        assert(after[j] == d[j]);
    }
    if reaches(after, a, j, l) {
        lemma_reaches_valid(after, a, j, l);
        assert(reaches(after, ns[b].child as int, j, l1) || reaches(after, ns[b].next as int, j, l1));
        assert(reaches(ns, ns[b].child as int, j, l1) || reaches(ns, ns[b].next as int, j, l1));
        assert(!reaches(ns, a, j, l));
        if reaches(ns, a, j, l1) {
            lemma_reaches_more(ns, a, j, l1);
        }
        assert(after[j] == d[j]);
    }
}

impl View for Tree {
    type V = Seq<Node>;

    closed spec fn view(&self) -> Seq<Node> {
        self.nodes@
    }
}

impl Tree {
    pub open spec fn wf(&self) -> bool {
        links_ok(self@)
    }

    pub fn new() -> (r: Tree)
        ensures
            r.wf(),
            r@ == Seq::<Node>::empty(),
    {
        Tree { nodes: Vec::new() }
    }

    pub fn len(&self) -> (r: usize)
        ensures
            r == self@.len(),
    {
        self.nodes.len()
    }

    /// Appends a node of `kind` whose children are `children`, in order, and
    /// returns its id. The children are linked as siblings.
    pub fn add(&mut self, kind: NodeKind, children: Vec<usize>) -> (id: usize)
        requires
            old(self).wf(),
            old(self)@.len() + 1 < NO_NODE,
            forall|k: int| 0 <= k < children@.len() ==> #[trigger] children@[k] < old(self)@.len(),
        ensures
            final(self).wf(),
            id == old(self)@.len(),
            final(self)@ == linked(old(self)@, children@, (children@.len() - 1) as nat).push(
                new_node(kind, children@),
            ),
    {
        let n = children.len();
        let ghost start = self@;
        if n > 0 {
            let mut i: usize = 0;
            while i + 1 < n
                invariant
                    n == children@.len(),
                    n > 0,
                    i + 1 <= n,
                    links_ok(start),
                    forall|k: int| 0 <= k < n ==> #[trigger] children@[k] < start.len(),
                    self@ == linked(start, children@, i as nat),
                decreases n - i,
            {
                proof {
                    lemma_linked(start, children@, i as nat);
                }
                let j = children[i];
                let mut nd = self.nodes[j];
                nd.next = children[i + 1];
                self.nodes.set(j, nd);
                i += 1;
            }
        }
        proof {
            lemma_linked(start, children@, (n - 1) as nat);
        }
        let first = if n > 0 { children[0] } else { NO_NODE };
        let id = self.nodes.len();
        self.nodes.push(Node { kind, child: first, next: NO_NODE, area: Area::zero() });
        proof {
            let l = linked(start, children@, (n - 1) as nat);
            assert(self@ == l.push(new_node(kind, children@)));
            assert forall|i: int| 0 <= i < self@.len() implies {
                &&& (#[trigger] self@[i]).child == NO_NODE || self@[i].child < self@.len()
                &&& self@[i].next == NO_NODE || self@[i].next < self@.len()
            } by {
                if i < l.len() {
                    assert(self@[i] == l[i]);
                }
            }
        }
        id
    }

    /// The kind of node `id`.
    pub fn get(&self, id: usize) -> (r: NodeKind)
        requires
            id < self@.len(),
        ensures
            r == self@[id as int].kind,
    {
        self.nodes[id].kind
    }

    /// The area the latest layout gave node `id`.
    pub fn area(&self, id: usize) -> (r: Area)
        requires
            id < self@.len(),
        ensures
            r == self@[id as int].area,
    {
        self.nodes[id].area
    }

    /// Changes the kind of node `id` in place.
    pub fn update(&mut self, node: usize, kind: NodeKind)
        requires
            old(self).wf(),
            node < old(self)@.len(),
        ensures
            final(self).wf(),
            final(self)@ == old(self)@.update(node as int, Node { kind, ..old(self)@[node as int] }),
    {
        let mut nd = self.nodes[node];
        nd.kind = kind;
        self.nodes.set(node, nd);
        proof {
            assert forall|i: int| 0 <= i < self@.len() implies {
                &&& (#[trigger] self@[i]).child == NO_NODE || self@[i].child < self@.len()
                &&& self@[i].next == NO_NODE || self@[i].next < self@.len()
            } by {
                assert(self@[i].child == old(self)@[i].child);
                assert(self@[i].next == old(self)@[i].next);
            }
        }
    }

    /// Whether every text node refers to a text of `book`.
    pub fn texts_in(&self, book: &TextBook) -> (r: bool)
        ensures
            r == texts_within(self@, book@.len()),
    {
        let n = book.len();
        let mut i: usize = 0;
        while i < self.nodes.len()
            invariant
                n == book@.len(),
                i <= self@.len(),
                forall|j: int|
                    0 <= j < i ==> ((#[trigger] self@[j]).kind matches NodeKind::Text(t) ==> t < n),
            decreases self@.len() - i,
        {
            if let NodeKind::Text(t) = self.nodes[i].kind {
                if t >= n {
                    return false;
                }
            }
            i += 1;
        }
        true
    }

    /// Lays out node `node` in `area`, recording the areas of its
    /// descendants, and returns its size; see [`lay`].
    fn layout<R: Rasterizer>(
        &mut self,
        node: usize,
        area: Area,
        atlas: &mut FontAtlas<R>,
        text: &TextBook,
        depth: usize,
    ) -> (size: Vec2)
        requires
            old(self).wf(),
            old(atlas).wf(),
            texts_within(old(self)@, text@.len()),
        ensures
            final(self).wf(),
            same_shape(old(self)@, final(self)@),
            texts_within(final(self)@, text@.len()),
            final(atlas).wf(),
            old(atlas).grows_to(*final(atlas)),
            old(atlas).table().submap_of(final(atlas).table()),
            forall|m: Map<GlyphKey, GlyphMetrics>|
                final(atlas).table().submap_of(m) ==> #[trigger] lay(
                    old(self)@,
                    text@,
                    node as int,
                    area,
                    depth as nat,
                    m,
                ) == (final(self)@, size),
            depth > 0 && valid(old(self)@, node as int) && old(self)@[node as int].kind is Text
                && old(self)@[node as int].area.width() == area.width() ==> *final(atlas) == *old(atlas),
        decreases depth, 0nat,
    {
        proof {
            lemma_grows_refl(*atlas);
        }
        if depth == 0 || node >= self.nodes.len() {
            return Vec2::zero();
        }
        let nd = self.nodes[node];
        match nd.kind {
            NodeKind::Deleted => {
                proof {
                    assert forall|m: Map<GlyphKey, GlyphMetrics>|
                        atlas.table().submap_of(m) implies #[trigger] lay(
                        old(self)@,
                        text@,
                        node as int,
                        area,
                        depth as nat,
                        m,
                    ) == (self@, Vec2 { x: 0, y: 0 }) by {
                        assert(self@[node as int].kind == NodeKind::Deleted);
                    }
                }
                Vec2::zero()
            },
            NodeKind::Text(t) => {
                if nd.area.w() == area.w() {
                    return nd.area.size();
                }
                proof {
                    assert(old(self)@[node as int].kind == NodeKind::Text(t));
                    assert(t < text@.len());
                }
                let chars = text.chars(t);
                let w = area.w();
                let h = measure_text(&chars, w, atlas);
                proof {
                    assert(chars@ == text_of(text@, t));
                    assert forall|m: Map<GlyphKey, GlyphMetrics>|
                        atlas.table().submap_of(m) implies #[trigger] lay(
                        old(self)@,
                        text@,
                        node as int,
                        area,
                        depth as nat,
                        m,
                    ) == (self@, Vec2 { x: w, y: h }) by {
                        assert(h == text_height(chars@, w as int, m));
                    }
                }
                Vec2 { x: w, y: h }
            },
            NodeKind::Clickable(_) => {
                let c = nd.child;
                if c >= self.nodes.len() {
                    return Vec2::zero();
                }
                let size = self.layout(c, area, atlas, text, depth - 1);
                let mut cn = self.nodes[c];
                cn.area = area.resize(size);
                let ghost mid = self@;
                self.nodes.set(c, cn);
                proof {
                    assert(same_shape(mid, self@));
                    lemma_same_shape(old(self)@, self@, text@.len());
                }
                proof {
                    assert forall|m: Map<GlyphKey, GlyphMetrics>|
                        atlas.table().submap_of(m) implies #[trigger] lay(
                        old(self)@,
                        text@,
                        node as int,
                        area,
                        depth as nat,
                        m,
                    ) == (self@, size) by {
                        let c0 = old(self)@[node as int].child as int;
                        assert(c0 == c);
                        assert(old(self)@[node as int].kind is Clickable);
                        assert(lay(old(self)@, text@, c as int, area, (depth - 1) as nat, m) == (mid, size));
                        assert(with_area(mid[c as int], area.resized(size)) == cn);
                        assert(self@ == mid.update(c as int, cn));
                    }
                }
                size
            },
            NodeKind::Pad(p) => {
                let ca = Area(
                    Vec2 { x: sat_add(area.0.x, p), y: sat_add(area.0.y, p) },
                    Vec2 { x: sat_sub(area.1.x, p), y: UNBOUNDED },
                );
                let y = self.layout_stack(nd.child, ca, area.1.y, ca.0.y, atlas, text, depth - 1);
                let r = Vec2 { x: area.w(), y: sat_add(sat_sub(y, area.0.y), p) };
                proof {
                    assert forall|m: Map<GlyphKey, GlyphMetrics>|
                        atlas.table().submap_of(m) implies #[trigger] lay(
                        old(self)@,
                        text@,
                        node as int,
                        area,
                        depth as nat,
                        m,
                    ) == (self@, r) by {
                        assert(old(self)@[node as int].kind == NodeKind::Pad(p));
                        assert(ca == pad_area(area, p));
                        assert(lay_stack(old(self)@, text@, nd.child as int, ca, area.1.y as int, ca.0.y as int, (depth - 1) as nat, old(self)@.len() as nat, m) == (self@, y as int));
                    }
                }
                r
            },
            NodeKind::Scroll(sc) => {
                let ca = Area(
                    Vec2 { x: area.0.x, y: sat_sub(area.0.y, sc) },
                    Vec2 { x: area.1.x, y: UNBOUNDED },
                );
                let yy = self.layout_stack(nd.child, ca, UNBOUNDED, ca.0.y, atlas, text, depth - 1);
                let r = area.size();
                proof {
                    assert forall|m: Map<GlyphKey, GlyphMetrics>|
                        atlas.table().submap_of(m) implies #[trigger] lay(
                        old(self)@,
                        text@,
                        node as int,
                        area,
                        depth as nat,
                        m,
                    ) == (self@, r) by {
                        assert(old(self)@[node as int].kind == NodeKind::Scroll(sc));
                        assert(ca == scroll_area(area, sc));
                        assert(lay_stack(old(self)@, text@, nd.child as int, ca, UNBOUNDED as int, ca.0.y as int, (depth - 1) as nat, old(self)@.len() as nat, m) == (self@, yy as int));
                    }
                }
                r
            },
        }
    }

    /// Stacks the sibling list from `first`; see [`lay_stack`].
    fn layout_stack<R: Rasterizer>(
        &mut self,
        first: usize,
        ca: Area,
        bottom: i64,
        end: i64,
        atlas: &mut FontAtlas<R>,
        text: &TextBook,
        depth: usize,
    ) -> (y: i64)
        requires
            old(self).wf(),
            old(atlas).wf(),
            texts_within(old(self)@, text@.len()),
        ensures
            final(self).wf(),
            same_shape(old(self)@, final(self)@),
            texts_within(final(self)@, text@.len()),
            final(atlas).wf(),
            old(atlas).grows_to(*final(atlas)),
            old(atlas).table().submap_of(final(atlas).table()),
            forall|m: Map<GlyphKey, GlyphMetrics>|
                final(atlas).table().submap_of(m) ==> #[trigger] lay_stack(
                    old(self)@,
                    text@,
                    first as int,
                    ca,
                    bottom as int,
                    end as int,
                    depth as nat,
                    old(self)@.len() as nat,
                    m,
                ) == (final(self)@, y as int),
        decreases depth, 1nat,
    {
        let ghost start = self@;
        let mut c = first;
        let mut cur = ca;
        let mut last = end;
        let mut steps = self.nodes.len();
        proof {
            lemma_grows_refl(*atlas);
        }
        while steps > 0 && c < self.nodes.len()
            invariant
                self.wf(),
                same_shape(start, self@),
                start == old(self)@,
                texts_within(self@, text@.len()),
                old(atlas).wf(),
                atlas.wf(),
                old(atlas).grows_to(*atlas),
                old(atlas).table().submap_of(atlas.table()),
                forall|m: Map<GlyphKey, GlyphMetrics>|
                    atlas.table().submap_of(m) ==> #[trigger] lay_stack(
                        start,
                        text@,
                        first as int,
                        ca,
                        bottom as int,
                        end as int,
                        depth as nat,
                        start.len() as nat,
                        m,
                    ) == lay_stack(self@, text@, c as int, cur, bottom as int, last as int, depth as nat, steps as nat, m),
            decreases steps,
        {
            let ghost ns0 = self@;
            let ghost at0 = *atlas;
            let ghost c0 = c;
            let ghost cur0 = cur;
            let ghost steps0 = steps;
            let size = self.layout(c, cur, atlas, text, depth);
            let ghost ns1 = self@;
            let low = sat_add(cur.0.y, size.y);
            let mut cn = self.nodes[c];
            cn.area = Area(cur.0, Vec2 { x: cur.1.x, y: low });
            self.nodes.set(c, cn);
            proof {
                assert(same_shape(ns1, self@));
                lemma_same_shape(ns0, self@, text@.len());
                lemma_grows_trans(*old(atlas), at0, *atlas);
            }
            let y2 = sat_add(low, LH);
            let next = self.nodes[c].next;
            cur = Area(Vec2 { x: cur.0.x, y: y2 }, cur.1);
            c = if y2 > bottom { NO_NODE } else { next };
            last = low;
            steps -= 1;
            proof {
                assert forall|m: Map<GlyphKey, GlyphMetrics>|
                    atlas.table().submap_of(m) implies #[trigger] lay_stack(
                        start,
                        text@,
                        first as int,
                        ca,
                        bottom as int,
                        end as int,
                        depth as nat,
                        start.len() as nat,
                        m,
                    ) == lay_stack(self@, text@, c as int, cur, bottom as int, last as int, depth as nat, steps as nat, m) by {
                    lemma_submap_trans(at0.table(), atlas.table(), m);
                    assert(lay(ns0, text@, c0 as int, cur0, depth as nat, m) == (ns1, size));
                }
            }
        }
        last
    }

    /// The event of the first clickable at `mouse` under node `node`; see
    /// [`click_at`].
    pub fn click(&self, node: usize, mouse: Vec2) -> (r: Option<usize>)
        requires
            self.wf(),
            node < self@.len(),
        ensures
            r == click_at(self@, node as int, mouse, self@.len() as nat),
    {
        self.click_rec(node, mouse, self.nodes.len())
    }

    fn click_rec(&self, node: usize, mouse: Vec2, depth: usize) -> (r: Option<usize>)
        requires
            self.wf(),
        ensures
            r == click_at(self@, node as int, mouse, depth as nat),
        decreases depth,
    {
        if depth == 0 || node >= self.nodes.len() {
            return None;
        }
        let nd = self.nodes[node];
        if !mouse.inside(nd.area) {
            return None;
        }
        match nd.kind {
            NodeKind::Clickable(event_id) => Some(event_id),
            _ => {
                let mut child = nd.child;
                let mut steps = self.nodes.len();
                while steps > 0 && child < self.nodes.len()
                    invariant
                        self.wf(),
                        depth > 0,
                        node < self@.len(),
                        self@[node as int] == nd,
                        mouse.is_inside(nd.area),
                        !(nd.kind is Clickable),
                        click_list(self@, nd.child as int, mouse, (depth - 1) as nat, self@.len() as nat)
                            == click_list(self@, child as int, mouse, (depth - 1) as nat, steps as nat),
                    decreases steps,
                {
                    let res = self.click_rec(child, mouse, depth - 1);
                    if res.is_some() {
                        proof {
                            assert(click_list(self@, child as int, mouse, (depth - 1) as nat, steps as nat) == res);
                            assert(self@[node as int] == nd);
                        }
                        return res;
                    }
                    child = self.nodes[child].next;
                    steps -= 1;
                }
                None
            },
        }
    }

    /// Marks node `node`, its descendants and its later siblings as deleted.
    fn delete(&mut self, node: usize, fuel: usize)
        requires
            old(self).wf(),
        ensures
            final(self).wf(),
            final(self)@ == del(old(self)@, node as int, fuel as nat),
        decreases fuel,
    {
        if fuel == 0 || node >= self.nodes.len() {
            return;
        }
        let mut nd = self.nodes[node];
        nd.kind = NodeKind::Deleted;
        self.nodes.set(node, nd);
        proof {
            lemma_same_shape_links(old(self)@, self@);
        }
        let child = self.nodes[node].child;
        self.delete(child, fuel - 1);
        proof {
            lemma_del_links(old(self)@.update(node as int, nd), child as int, (fuel - 1) as nat);
        }
        let next = self.nodes[node].next;
        self.delete(next, fuel - 1);
    }

    /// Deletes the subtree at `a` (with `a`'s later siblings) and puts a copy
    /// of node `b` in its place, so that `a` stays the handle of whatever
    /// now stands there.
    pub fn replace(&mut self, a: usize, b: usize)
        requires
            old(self).wf(),
            a < old(self)@.len(),
            b < old(self)@.len(),
        ensures
            final(self).wf(),
            final(self)@ == del(old(self)@, a as int, old(self)@.len() as nat).update(
                a as int,
                del(old(self)@, a as int, old(self)@.len() as nat)[b as int],
            ),
    {
        let n = self.nodes.len();
        self.delete(a, n);
        proof {
            lemma_del_links(old(self)@, a as int, n as nat);
        }
        let nb = self.nodes[b];
        self.nodes.set(a, nb);
        proof {
            let d = del(old(self)@, a as int, n as nat);
            assert forall|i: int| 0 <= i < self@.len() implies {
                &&& (#[trigger] self@[i]).child == NO_NODE || self@[i].child < self@.len()
                &&& self@[i].next == NO_NODE || self@[i].next < self@.len()
            } by {
                if i == a {
                    assert(self@[i] == d[b as int]);
                } else {
                    assert(self@[i] == d[i]);
                }
            }
        }
    }
}

impl Tree {
    /// Paints every visible text node at its recorded area; see [`painted`].
    fn render<R: Rasterizer>(&self, frame: &mut Frame, atlas: &mut FontAtlas<R>, text: &TextBook)
        requires
            self.wf(),
            old(atlas).wf(),
            texts_within(self@, text@.len()),
        ensures
            final(atlas).wf(),
            old(atlas).grows_to(*final(atlas)),
            old(atlas).table().submap_of(final(atlas).table()),
            old(atlas).glyph_map().submap_of(final(atlas).glyph_map()),
            appended(*old(frame), *final(frame), 6 * painted(self@, text@, old(frame).area, self@.len() as nat)),
            forall|gm: GlyphMap|
                final(atlas).glyph_map().submap_of(gm) ==> final(frame).vertices@ == old(frame).vertices@
                    + #[trigger] painted_vertices(self@, text@, old(frame).area, self@.len() as nat, gm),
    {
        let mut i: usize = 0;
        proof {
            lemma_grows_refl(*atlas);
            lemma_appended_refl(*frame);
            assert forall|gm: GlyphMap| atlas.glyph_map().submap_of(gm) implies frame.vertices@
                == old(frame).vertices@ + #[trigger] painted_vertices(self@, text@, old(frame).area, 0, gm) by {
                assert(frame.vertices@ =~= old(frame).vertices@ + Seq::<Vertex>::empty());
            }
        }
        while i < self.nodes.len()
            invariant
                self.wf(),
                texts_within(self@, text@.len()),
                i <= self@.len(),
                old(atlas).wf(),
                atlas.wf(),
                old(atlas).grows_to(*atlas),
                old(atlas).table().submap_of(atlas.table()),
                frame.area == old(frame).area,
                appended(*old(frame), *frame, 6 * painted(self@, text@, old(frame).area, i as nat)),
                old(atlas).glyph_map().submap_of(atlas.glyph_map()),
                forall|gm: GlyphMap|
                    atlas.glyph_map().submap_of(gm) ==> frame.vertices@ == old(frame).vertices@
                        + #[trigger] painted_vertices(self@, text@, old(frame).area, i as nat, gm),
            decreases self@.len() - i,
        {
            let nd = self.nodes[i];
            if frame.area.contains(nd.area) && !frame.area.is_zero() {
                if let NodeKind::Text(tid) = nd.kind {
                    proof {
                        assert(self@[i as int] == nd);
                    }
                    let chars = text.chars(tid);
                    let ghost f0 = *frame;
                    let ghost a0 = *atlas;
                    paint_text(frame, atlas, &chars, nd.area);
                    proof {
                        lemma_grows_trans(*old(atlas), a0, *atlas);
                        lemma_map_trans(old(atlas).glyph_map(), a0.glyph_map(), atlas.glyph_map());
                        lemma_appended_trans(*old(frame), f0, *frame, 6 * painted(self@, text@, old(frame).area, i as nat), 6 * glyph_count(chars@));
                        assert(chars@ == text_of(text@, tid));
                        assert forall|gm: GlyphMap| atlas.glyph_map().submap_of(gm) implies frame.vertices@
                            == old(frame).vertices@ + #[trigger] painted_vertices(self@, text@, old(frame).area, (i + 1) as nat, gm) by {
                            lemma_map_trans(a0.glyph_map(), atlas.glyph_map(), gm);
                            assert(f0.vertices@ == old(frame).vertices@ + painted_vertices(self@, text@, old(frame).area, i as nat, gm));
                            assert(frame.vertices@ =~= old(frame).vertices@ + painted_vertices(self@, text@, old(frame).area, (i + 1) as nat, gm));
                        }
                    }
                } else {
                    proof {
                        assert forall|gm: GlyphMap| atlas.glyph_map().submap_of(gm) implies frame.vertices@
                            == old(frame).vertices@ + #[trigger] painted_vertices(self@, text@, old(frame).area, (i + 1) as nat, gm) by {
                            assert(painted_vertices(self@, text@, old(frame).area, i as nat, gm) =~= painted_vertices(self@, text@, old(frame).area, (i + 1) as nat, gm));
                        }
                    }
                }
            } else {
                proof {
                    assert forall|gm: GlyphMap| atlas.glyph_map().submap_of(gm) implies frame.vertices@
                        == old(frame).vertices@ + #[trigger] painted_vertices(self@, text@, old(frame).area, (i + 1) as nat, gm) by {
                        assert(painted_vertices(self@, text@, old(frame).area, i as nat, gm) =~= painted_vertices(self@, text@, old(frame).area, (i + 1) as nat, gm));
                    }
                }
            }
            i += 1;
        }
    }

    /// Whether no node reached from `root` is deleted, as [`Tree::build`]
    /// asks.
    pub fn live(&self, root: usize) -> (r: bool)
        ensures
            r == live_from(self@, root as int, self@.len() as nat),
    {
        self.live_rec(root, self.nodes.len())
    }

    fn live_rec(&self, n: usize, fuel: usize) -> (r: bool)
        ensures
            r == live_from(self@, n as int, fuel as nat),
        decreases fuel,
    {
        if n >= self.nodes.len() {
            proof {
                assert forall|i: int| #[trigger] reaches(self@, n as int, i, fuel as nat) implies !(
                self@[i].kind is Deleted) by {}
            }
            return true;
        }
        let nd = self.nodes[n];
        if let NodeKind::Deleted = nd.kind {
            proof {
                assert(reaches(self@, n as int, n as int, fuel as nat));
            }
            return false;
        }
        if fuel == 0 {
            proof {
                assert forall|i: int| #[trigger] reaches(self@, n as int, i, fuel as nat) implies !(
                self@[i].kind is Deleted) by {}
            }
            return true;
        }
        let a = self.live_rec(nd.child, fuel - 1);
        let b = self.live_rec(nd.next, fuel - 1);
        proof {
            if a && b {
                assert forall|i: int| #[trigger] reaches(self@, n as int, i, fuel as nat) implies !(
                self@[i].kind is Deleted) by {
                    if i != n {
                        if reaches(self@, nd.child as int, i, (fuel - 1) as nat) {
                        } else {
                            assert(reaches(self@, nd.next as int, i, (fuel - 1) as nat));
                        }
                    }
                }
            } else if !a {
                let i = choose|i: int| #[trigger] reaches(self@, nd.child as int, i, (fuel - 1) as nat) && (self@[i].kind is Deleted);
                assert(reaches(self@, n as int, i, fuel as nat));
            } else {
                let i = choose|i: int| #[trigger] reaches(self@, nd.next as int, i, (fuel - 1) as nat) && (self@[i].kind is Deleted);
                assert(reaches(self@, n as int, i, fuel as nat));
            }
        }
        a && b
    }

    /// Lays the tree out from `root` in the frame's viewport, then rebuilds
    /// the atlas texture into the frame when the atlas is flagged as
    /// changed (glyphs were added before or during this layout) and
    /// consumes the flag, then paints. When the glyphs no longer fit into
    /// the atlas, nothing is painted and `AtlasError::Full` is returned.
    pub fn build<R: Rasterizer>(
        &mut self,
        root: usize,
        frame: &mut Frame,
        atlas: &mut FontAtlas<R>,
        text: &TextBook,
    ) -> (r: Result<(), AtlasError>)
        requires
            old(self).wf(),
            root < old(self)@.len(),
            old(atlas).wf(),
            texts_within(old(self)@, text@.len()),
            live_from(old(self)@, root as int, old(self)@.len() as nat),
        ensures
            final(self).wf(),
            same_shape(old(self)@, final(self)@),
            final(atlas).wf(),
            old(atlas).keys().len() <= final(atlas).keys().len(),
            final(atlas).keys().subrange(0, old(atlas).keys().len() as int) == old(atlas).keys(),
            final(atlas).glyph_metrics().subrange(0, old(atlas).keys().len() as int) == old(atlas).glyph_metrics(),
            old(atlas).table().submap_of(final(atlas).table()),
            final(self)@[root as int].area == old(frame).area,
            forall|m: Map<GlyphKey, GlyphMetrics>|
                final(atlas).table().submap_of(m) ==> final(self)@ == (#[trigger] lay(
                    old(self)@,
                    text@,
                    root as int,
                    old(frame).area,
                    old(self)@.len() as nat,
                    m,
                )).0.update(root as int, with_area(lay(old(self)@, text@, root as int, old(frame).area, old(self)@.len() as nat, m).0[root as int], old(frame).area)),
            final(frame).area == old(frame).area,
            exists|mid: FontAtlas<R>| #[trigger] build_texture_step(*old(atlas), mid, *old(frame), *final(frame), *final(atlas), r),
            match r {
                Ok(_) => {
                    &&& final(frame).vertices@.len() == old(frame).vertices@.len() + 6 * painted(
                        final(self)@,
                        text@,
                        old(frame).area,
                        old(self)@.len() as nat,
                    )
                    &&& final(frame).vertices@.subrange(0, old(frame).vertices@.len() as int)
                        == old(frame).vertices@
                    &&& forall|gm: GlyphMap|
                        final(atlas).glyph_map().submap_of(gm) ==> final(frame).vertices@ == old(frame).vertices@
                            + #[trigger] painted_vertices(final(self)@, text@, old(frame).area, old(self)@.len() as nat, gm)
                },
                Err(e) => e == AtlasError::Full && final(frame).vertices == old(frame).vertices,
            },
    {
        let n = self.nodes.len();
        let view = frame.area;
        let _ = self.layout(root, view, atlas, text, n);
        let ghost laid = self@;
        let ghost a1 = *atlas;
        let mut nd = self.nodes[root];
        nd.area = view;
        self.nodes.set(root, nd);
        proof {
            assert(same_shape(laid, self@));
            lemma_same_shape(old(self)@, self@, text@.len());
            lemma_wf_lens(a1);
        }
        let changed = atlas.consume_changed();
        let ghost a1c = *atlas;
        if changed {
            match atlas.build_texture() {
                Ok(t) => {
                    proof {
                        lemma_atlas_pixels_len(atlas.placements(), atlas.glyph_metrics(), atlas.bitmaps(), atlas.keys().len() as nat);
                    }
                    frame.set_texture(t.bytes, (t.width, t.height));
                },
                Err(e) => {
                    proof {
                        lemma_wf_lens(*atlas);
                        assert(atlas.keys().subrange(0, a1.keys().len() as int) =~= atlas.keys());
                        assert(atlas.glyph_metrics().subrange(0, a1.keys().len() as int) =~= atlas.glyph_metrics());
                        assert(atlas.table() == a1.table());
                        assert(build_texture_step(*old(atlas), a1, *old(frame), *frame, *atlas, Err::<(), AtlasError>(e)));
                    }
                    return Err(e);
                },
            }
        }
        let ghost a2 = *atlas;
        let ghost f2 = *frame;
        let packed_glyphs = atlas.len();
        proof {
            assert(atlas.table() == a1.table());
        }
        self.render(frame, atlas, text);
        proof {
            let n1 = old(atlas).keys().len() as int;
            let n2 = a2.keys().len() as int;
            lemma_wf_lens(*atlas);
            lemma_wf_lens(a2);
            assert(old(atlas).table().submap_of(a2.table()));
            lemma_submap_trans(old(atlas).table(), a2.table(), atlas.table());
            assert(atlas.keys().subrange(0, n1) =~= atlas.keys().subrange(0, n2).subrange(0, n1));
            assert(atlas.glyph_metrics().subrange(0, n1) =~= atlas.glyph_metrics().subrange(0, n2).subrange(0, n1));
            assert(a1.keys().subrange(0, n1) == old(atlas).keys());
            assert(a1.glyph_metrics().subrange(0, n1) == old(atlas).glyph_metrics());
            assert(atlas.keys().subrange(0, n1) =~= old(atlas).keys());
            assert(atlas.glyph_metrics().subrange(0, n1) =~= old(atlas).glyph_metrics());
            if changed {
                let ms = a1.glyph_metrics();
                let order = pack_order(ms, n2 as nat);
                lemma_pack_order(ms, n2 as nat);
                assert forall|j: int| 0 <= j < n2 implies atlas.placements()[j] == a2.placements()[j]
                    && atlas.glyph_metrics()[j] == a2.glyph_metrics()[j] && atlas.bitmaps()[j] == a2.bitmaps()[j] by {
                    assert(atlas.placements().subrange(0, n2)[j] == atlas.placements()[j]);
                    assert(atlas.glyph_metrics().subrange(0, n2)[j] == atlas.glyph_metrics()[j]);
                    assert(atlas.bitmaps().subrange(0, n2)[j] == atlas.bitmaps()[j]);
                }
                lemma_atlas_pixels_prefix(atlas.placements(), atlas.glyph_metrics(), atlas.bitmaps(), a2.placements(), a2.glyph_metrics(), a2.bitmaps(), n2 as nat);
                assert forall|k: nat| k < n2 implies atlas.placements()[#[trigger] order[k as int] as int]
                    == slot_area(order, ms, k) by {
                    assert(order[k as int] < n2);
                    assert(atlas.placements()[order[k as int] as int] == a2.placements()[order[k as int] as int]);
                }
            }
            assert(build_texture_step(*old(atlas), a1, *old(frame), *frame, *atlas, Ok::<(), AtlasError>(())));
            assert(frame.vertices@.subrange(0, f2.vertices@.len() as int) == f2.vertices@);
            assert forall|m: Map<GlyphKey, GlyphMetrics>|
                atlas.table().submap_of(m) implies a1.table().submap_of(m) by {
                lemma_submap_trans(a1.table(), atlas.table(), m);
            }
        }
        Ok(())
    }
}

/// Changing kinds alone keeps the links valid.
proof fn lemma_same_shape_links(a: Seq<Node>, b: Seq<Node>)
    requires
        links_ok(a),
        a.len() == b.len(),
        forall|i: int| 0 <= i < a.len() ==> (#[trigger] b[i]).child == a[i].child && b[i].next == a[i].next,
    ensures
        links_ok(b),
{
    assert forall|i: int| 0 <= i < b.len() implies {
        &&& (#[trigger] b[i]).child == NO_NODE || b[i].child < b.len()
        &&& b[i].next == NO_NODE || b[i].next < b.len()
    } by {
        assert(a[i].child == b[i].child);
    }
}

} // verus!
