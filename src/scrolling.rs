//! How laying out a scroll again, further scrolled, moves its texts.
use vstd::prelude::*;

use crate::atlas::{GlyphKey, GlyphMetrics};
use crate::geometry::{clamp, Area, Vec2, UNBOUNDED};
use crate::tree::{lemma_lay_len, lay, lay_stack, pad_area, scroll_area, valid, with_area, Node, NodeKind};
use crate::wrap::LH;

verus! {

/// Coordinates this far from zero are never reached by saturation.
pub open spec fn small(v: int) -> bool {
    -0x2000_0000_0000_0000 <= v <= 0x2000_0000_0000_0000
}

/// Whether `t` is among the first `k` nodes of the sibling list from `c`.
pub open spec fn in_chain(ns: Seq<Node>, c: int, k: nat, t: int) -> bool
    decreases k,
{
    k > 0 && valid(ns, c) && (c == t || in_chain(ns, ns[c].next as int, (k - 1) as nat, t))
}

/// Whether the first `k` nodes of the sibling list from `c` are distinct
/// text nodes.
pub open spec fn text_chain(ns: Seq<Node>, c: int, k: nat) -> bool
    decreases k,
{
    k == 0 || !valid(ns, c) || (ns[c].kind is Text && !in_chain(ns, ns[c].next as int, (k - 1) as nat, c)
        && text_chain(ns, ns[c].next as int, (k - 1) as nat))
}

/// `a` moved up by `d`.
pub open spec fn shifted(a: Area, d: int) -> Area {
    Area(Vec2 { x: a.0.x, y: (a.0.y - d) as i64 }, Vec2 { x: a.1.x, y: (a.1.y - d) as i64 })
}

proof fn lemma_in_chain_valid(ns: Seq<Node>, c: int, k: nat, t: int)
    requires
        in_chain(ns, c, k, t),
    ensures
        valid(ns, t),
    decreases k,
{
    if c != t {
        lemma_in_chain_valid(ns, ns[c].next as int, (k - 1) as nat, t);
    }
}

/// Chains follow `next` links alone.
proof fn lemma_chain_links(p: Seq<Node>, q: Seq<Node>, c: int, k: nat)
    requires
        p.len() == q.len(),
        forall|t: int| #[trigger] in_chain(p, c, k, t) ==> q[t].next == p[t].next && q[t].kind == p[t].kind,
    ensures
        forall|t: int| in_chain(p, c, k, t) == #[trigger] in_chain(q, c, k, t),
        text_chain(p, c, k) == text_chain(q, c, k),
    decreases k,
{
    if k > 0 && valid(p, c) {
        assert(in_chain(p, c, k, c));
        let nx = p[c].next as int;
        assert forall|t: int| #[trigger] in_chain(p, nx, (k - 1) as nat, t) implies q[t].next == p[t].next
            && q[t].kind == p[t].kind by {
            assert(in_chain(p, c, k, t));
        }
        lemma_chain_links(p, q, nx, (k - 1) as nat);
        assert(q[c].next == p[c].next && q[c].kind == p[c].kind);
        assert forall|t: int| in_chain(p, c, k, t) == #[trigger] in_chain(q, c, k, t) by {
            assert(in_chain(p, nx, (k - 1) as nat, t) == in_chain(q, nx, (k - 1) as nat, t));
        }
    }
}

/// Stacking a chain of texts writes the areas of the chain alone, each
/// spanning the stacking area's x-range, and changes no kind or link.
proof fn lemma_stack_frame(
    p: Seq<Node>,
    book: Seq<Seq<char>>,
    c: int,
    ca: Area,
    e: int,
    d: nat,
    k: nat,
    m: Map<GlyphKey, GlyphMetrics>,
)
    requires
        text_chain(p, c, k),
    ensures
        ({
            let a = lay_stack(p, book, c, ca, UNBOUNDED as int, e, d, k, m).0;
            &&& a.len() == p.len()
            &&& forall|i: int| 0 <= i < p.len() ==> (#[trigger] a[i]).kind == p[i].kind && a[i].next == p[i].next
            &&& forall|i: int| 0 <= i < p.len() && !in_chain(p, c, k, i) ==> #[trigger] a[i] == p[i]
            &&& forall|t: int| #[trigger] in_chain(p, c, k, t) ==> a[t].area.0.x == ca.0.x && a[t].area.1.x == ca.1.x
            &&& k > 0 && valid(p, c) ==> a[c].area.0 == ca.0
        }),
    decreases k,
{
    if k > 0 && valid(p, c) {
        let (p1, size) = lay(p, book, c, ca, d, m);
        assert(p1 == p);
        let low = clamp(ca.0.y + size.y);
        let p2 = p1.update(c, with_area(p1[c], Area(ca.0, Vec2 { x: ca.1.x, y: low as i64 })));
        let y2 = clamp(low + LH);
        let ca2 = Area(Vec2 { x: ca.0.x, y: y2 as i64 }, ca.1);
        let nx = p2[c].next as int;
        assert forall|t: int| #[trigger] in_chain(p, nx, (k - 1) as nat, t) implies p2[t].next == p[t].next
            && p2[t].kind == p[t].kind by {
            lemma_in_chain_valid(p, nx, (k - 1) as nat, t);
        }
        lemma_chain_links(p, p2, nx, (k - 1) as nat);
        lemma_stack_frame(p2, book, nx, ca2, low, d, (k - 1) as nat, m);
        let a = lay_stack(p, book, c, ca, UNBOUNDED as int, e, d, k, m).0;
        assert(a == lay_stack(p2, book, nx, ca2, UNBOUNDED as int, low, d, (k - 1) as nat, m).0);
        assert forall|t: int| #[trigger] in_chain(p, c, k, t) implies a[t].area.0.x == ca.0.x && a[t].area.1.x
            == ca.1.x by {
            if t != c {
                assert(in_chain(p2, nx, (k - 1) as nat, t));
            } else {
                assert(!in_chain(p2, nx, (k - 1) as nat, c));
            }
        }
        assert forall|i: int| 0 <= i < p.len() && !in_chain(p, c, k, i) implies #[trigger] a[i] == p[i] by {
            assert(i != c);
            assert(!in_chain(p2, nx, (k - 1) as nat, i));
        }
    }
}

/// Stacking a chain of texts a second time, from a cursor `delta` higher
/// and with the first pass's areas recorded, moves each area up by `delta`:
/// every text now finds its width recorded and keeps its height.
proof fn lemma_stack_shift(
    p: Seq<Node>,
    q: Seq<Node>,
    book: Seq<Seq<char>>,
    c: int,
    ca: Area,
    e1: int,
    e2: int,
    d: nat,
    k: nat,
    m: Map<GlyphKey, GlyphMetrics>,
    delta: int,
)
    requires
        text_chain(p, c, k),
        q.len() == p.len(),
        ca.1.y == UNBOUNDED,
        small(delta),
        forall|t: int|
            #[trigger] in_chain(p, c, k, t) ==> {
                let a = lay_stack(p, book, c, ca, UNBOUNDED as int, e1, d, k, m).0;
                &&& q[t].kind == p[t].kind
                &&& q[t].next == p[t].next
                &&& q[t].area == a[t].area
                &&& small(a[t].area.0.y as int)
                &&& small(a[t].area.1.y as int)
            },
    ensures
        forall|t: int|
            #[trigger] in_chain(p, c, k, t) ==> lay_stack(
                q,
                book,
                c,
                Area(Vec2 { x: ca.0.x, y: (ca.0.y - delta) as i64 }, ca.1),
                UNBOUNDED as int,
                e2,
                d,
                k,
                m,
            ).0[t].area == shifted(lay_stack(p, book, c, ca, UNBOUNDED as int, e1, d, k, m).0[t].area, delta),
    decreases k,
{
    if k > 0 && valid(p, c) {
        let u = UNBOUNDED as int;
        let a = lay_stack(p, book, c, ca, u, e1, d, k, m).0;
        let cb = Area(Vec2 { x: ca.0.x, y: (ca.0.y - delta) as i64 }, ca.1);
        let b = lay_stack(q, book, c, cb, u, e2, d, k, m).0;
        assert(in_chain(p, c, k, c));
        // first pass
        let (p1, size1) = lay(p, book, c, ca, d, m);
        assert(p1 == p);
        let low = clamp(ca.0.y + size1.y);
        let rect1 = Area(ca.0, Vec2 { x: ca.1.x, y: low as i64 });
        let p2 = p1.update(c, with_area(p1[c], rect1));
        let y2 = clamp(low + LH);
        let ca2 = Area(Vec2 { x: ca.0.x, y: y2 as i64 }, ca.1);
        let nx = p[c].next as int;
        assert(p2[c].next == nx);
        assert(y2 <= u);
        assert(a == lay_stack(p2, book, nx, ca2, u, low, d, (k - 1) as nat, m).0);
        assert forall|t: int| #[trigger] in_chain(p, nx, (k - 1) as nat, t) implies p2[t].next == p[t].next
            && p2[t].kind == p[t].kind by {
            lemma_in_chain_valid(p, nx, (k - 1) as nat, t);
        }
        lemma_chain_links(p, p2, nx, (k - 1) as nat);
        lemma_stack_frame(p2, book, nx, ca2, low, d, (k - 1) as nat, m);
        assert(!in_chain(p2, nx, (k - 1) as nat, c));
        assert(a[c] == p2[c]);
        assert(a[c].area == rect1);
        assert(small(ca.0.y as int) && small(low));
        assert(low == ca.0.y + size1.y);
        // second pass
        assert(q[c].area == rect1);
        let (q1, size2) = lay(q, book, c, cb, d, m);
        assert(q1 == q);
        assert(size2.y == size1.y);
        let low2 = clamp(cb.0.y + size2.y);
        assert(low2 == low - delta);
        let rect2 = Area(cb.0, Vec2 { x: cb.1.x, y: low2 as i64 });
        assert(rect2 == shifted(rect1, delta));
        let q2 = q1.update(c, with_area(q1[c], rect2));
        let y2b = clamp(low2 + LH);
        assert(y2b == y2 - delta);
        let cb2 = Area(Vec2 { x: cb.0.x, y: y2b as i64 }, cb.1);
        assert(q2[c].next == nx);
        assert(b == lay_stack(q2, book, nx, cb2, u, low2, d, (k - 1) as nat, m).0);
        // the rest of the chain
        assert forall|t: int| #[trigger] in_chain(p2, nx, (k - 1) as nat, t) implies {
            &&& q2[t].kind == p2[t].kind
            &&& q2[t].next == p2[t].next
            &&& q2[t].area == a[t].area
            &&& small(a[t].area.0.y as int)
            &&& small(a[t].area.1.y as int)
        } by {
            assert(in_chain(p, nx, (k - 1) as nat, t));
            assert(in_chain(p, c, k, t));
            lemma_in_chain_valid(p, nx, (k - 1) as nat, t);
            assert(t != c);
            assert(q2[t] == q[t]);
            assert(p2[t] == p[t]);
        }
        assert(text_chain(p2, nx, (k - 1) as nat));
        lemma_stack_shift(p2, q2, book, nx, ca2, low, low2, d, (k - 1) as nat, m, delta);
        assert(cb2 == Area(Vec2 { x: ca2.0.x, y: (ca2.0.y - delta) as i64 }, ca2.1));
        lemma_chain_links(p2, q2, nx, (k - 1) as nat);
        lemma_stack_frame(q2, book, nx, cb2, low2, d, (k - 1) as nat, m);
        assert(!in_chain(q2, nx, (k - 1) as nat, c));
        assert(b[c] == q2[c]);
        assert forall|t: int| #[trigger] in_chain(p, c, k, t) implies b[t].area == shifted(a[t].area, delta) by {
            if t != c {
                assert(in_chain(p2, nx, (k - 1) as nat, t));
            }
        }
    }
}

/// Laying a scroll out again with its offset raised by `delta`, from the
/// nodes the previous layout left (the scroll's own area may differ), moves
/// each of its children up by exactly `delta` from where the previous
/// layout put it, with the same x-range and so the same width. This is stated for a
/// scroll whose children are distinct text nodes, and for coordinates that
/// stay far from the limits of `i64`.
pub proof fn lemma_scroll_shifts_texts(
    ns: Seq<Node>,
    book: Seq<Seq<char>>,
    n: int,
    area: Area,
    depth: nat,
    m: Map<GlyphKey, GlyphMetrics>,
    s: i64,
    delta: i64,
    t: int,
    again: Seq<Node>,
)
    requires
        again.len() == ns.len(),
        again[n].kind == NodeKind::Scroll((s + delta) as i64),
        again[n].child == ns[n].child,
        forall|i: int| 0 <= i < ns.len() && i != n ==> #[trigger] again[i] == lay(ns, book, n, area, depth, m).0[i],
        valid(ns, n),
        depth > 0,
        ns[n].kind == NodeKind::Scroll(s),
        text_chain(ns, ns[n].child as int, ns.len()),
        in_chain(ns, ns[n].child as int, ns.len(), t),
        small(area.0.y as int),
        small(s as int),
        small(delta as int),
        forall|u: int|
            #[trigger] in_chain(ns, ns[n].child as int, ns.len(), u) ==> small(
                lay(ns, book, n, area, depth, m).0[u].area.0.y as int,
            ) && small(lay(ns, book, n, area, depth, m).0[u].area.1.y as int),
    ensures
        lay(ns, book, n, area, depth, m).0[n] == ns[n],
        lay(again, book, n, area, depth, m).0[t].area == shifted(
            lay(ns, book, n, area, depth, m).0[t].area,
            delta as int,
        ),
{
    let u = UNBOUNDED as int;
    let c = ns[n].child as int;
    let l = ns.len();
    let ca = scroll_area(area, s);
    let a = lay(ns, book, n, area, depth, m).0;
    assert(a == lay_stack(ns, book, c, ca, u, ca.0.y as int, (depth - 1) as nat, l, m).0);
    lemma_stack_frame(ns, book, c, ca, ca.0.y as int, (depth - 1) as nat, l, m);
    if in_chain(ns, c, l, n) {
        lemma_in_chain_text(ns, c, l, n);
    }
    assert(a[n] == ns[n]);
    assert(again[n].child == c);
    let cb = scroll_area(area, (s + delta) as i64);
    assert(cb == Area(Vec2 { x: ca.0.x, y: (ca.0.y - delta) as i64 }, ca.1));
    assert(lay(again, book, n, area, depth, m).0 == lay_stack(again, book, c, cb, u, cb.0.y as int, (depth - 1) as nat, l, m).0);
    assert forall|v: int| #[trigger] in_chain(ns, c, l, v) implies {
        let a1 = lay_stack(ns, book, c, ca, u, ca.0.y as int, (depth - 1) as nat, l, m).0;
        &&& again[v].kind == ns[v].kind
        &&& again[v].next == ns[v].next
        &&& again[v].area == a1[v].area
        &&& small(a1[v].area.0.y as int)
        &&& small(a1[v].area.1.y as int)
    } by {
        lemma_in_chain_text(ns, c, l, v);
        assert(v != n);
    }
    lemma_stack_shift(ns, again, book, c, ca, ca.0.y as int, cb.0.y as int, (depth - 1) as nat, l, m, delta as int);
}

/// Every node of a text chain is a text node.
proof fn lemma_in_chain_text(ns: Seq<Node>, c: int, k: nat, t: int)
    requires
        text_chain(ns, c, k),
        in_chain(ns, c, k, t),
    ensures
        valid(ns, t),
        ns[t].kind is Text,
    decreases k,
{
    if c != t {
        lemma_in_chain_text(ns, ns[c].next as int, (k - 1) as nat, t);
    }
}

/// The same for a scroll whose one child is a pad of distinct text nodes:
/// laying it out again with its offset raised by `delta` moves each text up
/// by exactly `delta` from where the previous layout put it, with the same
/// x-range; coordinates stay far from the limits of `i64`.
pub proof fn lemma_scroll_pad_shifts_texts(
    ns: Seq<Node>,
    book: Seq<Seq<char>>,
    n: int,
    area: Area,
    depth: nat,
    m: Map<GlyphKey, GlyphMetrics>,
    s: i64,
    p: i64,
    delta: i64,
    t: int,
    again: Seq<Node>,
)
    requires
        again.len() == lay(ns, book, n, area, depth, m).0.len(),
        again[n].kind == NodeKind::Scroll((s + delta) as i64),
        again[n].child == lay(ns, book, n, area, depth, m).0[n].child,
        forall|i: int| 0 <= i < ns.len() && i != n ==> #[trigger] again[i] == lay(ns, book, n, area, depth, m).0[i],
        valid(ns, n),
        depth > 1,
        ns[n].kind == NodeKind::Scroll(s),
        valid(ns, ns[n].child as int),
        ns[ns[n].child as int].kind == NodeKind::Pad(p),
        !valid(ns, ns[ns[n].child as int].next as int),
        text_chain(ns, ns[ns[n].child as int].child as int, ns.len()),
        in_chain(ns, ns[ns[n].child as int].child as int, ns.len(), t),
        small(area.0.y as int),
        small(s as int),
        small(p as int),
        small(delta as int),
        forall|u: int|
            #[trigger] in_chain(ns, ns[ns[n].child as int].child as int, ns.len(), u) ==> small(
                lay(ns, book, n, area, depth, m).0[u].area.0.y as int,
            ) && small(lay(ns, book, n, area, depth, m).0[u].area.1.y as int),
    ensures
        lay(ns, book, n, area, depth, m).0[n] == ns[n],
        lay(ns, book, n, area, depth, m).0.len() == ns.len(),
        lay(again, book, n, area, depth, m).0.len() == ns.len(),
        lay(again, book, n, area, depth, m).0[t].area == shifted(
            lay(ns, book, n, area, depth, m).0[t].area,
            delta as int,
        ),
{
    let u = UNBOUNDED as int;
    let l = ns.len();
    let pad = ns[n].child as int;
    let inner = ns[pad].child as int;
    let d2 = (depth - 2) as nat;
    // first pass
    let ca = scroll_area(area, s);
    let pa = pad_area(ca, p);
    let ns1 = lay_stack(ns, book, inner, pa, u, pa.0.y as int, d2, l, m).0;
    lemma_stack_frame(ns, book, inner, pa, pa.0.y as int, d2, l, m);
    assert(lay(ns, book, pad, ca, (depth - 1) as nat, m).0 == ns1);
    let size1 = lay(ns, book, pad, ca, (depth - 1) as nat, m).1;
    let low1 = clamp(ca.0.y + size1.y);
    let a = ns1.update(pad, with_area(ns1[pad], Area(ca.0, Vec2 { x: ca.1.x, y: low1 as i64 })));
    if in_chain(ns, inner, l, pad) {
        lemma_in_chain_text(ns, inner, l, pad);
    }
    if in_chain(ns, inner, l, n) {
        lemma_in_chain_text(ns, inner, l, n);
    }
    assert(ns1[pad] == ns[pad]);
    assert(ns1[n] == ns[n]);
    assert(lay(ns, book, n, area, depth, m).0 == lay_stack(ns, book, pad, ca, u, ca.0.y as int, (depth - 1) as nat, l, m).0);
    let y2 = clamp(low1 + LH);
    assert(y2 <= u);
    assert(a[pad].next == ns[pad].next);
    assert(a.len() == l);
    let rest = Area(Vec2 { x: ca.0.x, y: y2 as i64 }, ca.1);
    assert(lay_stack(ns, book, pad, ca, u, ca.0.y as int, (depth - 1) as nat, l, m) == lay_stack(
        a,
        book,
        a[pad].next as int,
        rest,
        u,
        low1,
        (depth - 1) as nat,
        (l - 1) as nat,
        m,
    ));
    assert(lay(ns, book, n, area, depth, m).0 == a);
    // second pass
    let cb = scroll_area(area, (s + delta) as i64);
    let pb = pad_area(cb, p);
    assert(again[n].child == pad);
    assert(again[pad] == a[pad]);
    assert(again[pad].kind == NodeKind::Pad(p));
    assert(again[pad].child == inner);
    let q1 = lay_stack(again, book, inner, pb, u, pb.0.y as int, d2, l, m).0;
    assert(lay(again, book, pad, cb, (depth - 1) as nat, m).0 == q1);
    assert forall|v: int| #[trigger] in_chain(ns, inner, l, v) implies {
        &&& again[v].kind == ns[v].kind
        &&& again[v].next == ns[v].next
        &&& again[v].area == ns1[v].area
        &&& small(ns1[v].area.0.y as int)
        &&& small(ns1[v].area.1.y as int)
    } by {
        lemma_in_chain_text(ns, inner, l, v);
        assert(v != n && v != pad);
        assert(a[v] == ns1[v]);
    }
    assert(in_chain(ns, inner, l, inner));
    assert(ns1[inner].area.0 == pa.0);
    assert(small(pa.0.y as int));
    assert(pb == Area(Vec2 { x: pa.0.x, y: (pa.0.y - delta) as i64 }, pa.1));
    lemma_stack_shift(ns, again, book, inner, pa, pa.0.y as int, pb.0.y as int, d2, l, m, delta as int);
    assert(q1[t].area == shifted(ns1[t].area, delta as int));
    // the scroll writes the pad's area and stops
    assert(again.len() == l);
    let size2 = lay(again, book, pad, cb, (depth - 1) as nat, m).1;
    let low2 = clamp(cb.0.y + size2.y);
    let b = q1.update(pad, with_area(q1[pad], Area(cb.0, Vec2 { x: cb.1.x, y: low2 as i64 })));
    lemma_chain_links(ns, again, inner, l);
    lemma_stack_frame(again, book, inner, pb, pb.0.y as int, d2, l, m);
    assert(q1[pad] == again[pad]);
    assert(lay(again, book, n, area, depth, m).0 == lay_stack(again, book, pad, cb, u, cb.0.y as int, (depth - 1) as nat, l, m).0);
    let y2b = clamp(low2 + LH);
    assert(y2b <= u);
    assert(b[pad].next == ns[pad].next);
    assert(b.len() == l);
    let restb = Area(Vec2 { x: cb.0.x, y: y2b as i64 }, cb.1);
    assert(lay_stack(again, book, pad, cb, u, cb.0.y as int, (depth - 1) as nat, l, m) == lay_stack(
        b,
        book,
        b[pad].next as int,
        restb,
        u,
        low2,
        (depth - 1) as nat,
        (l - 1) as nat,
        m,
    ));
    assert(lay(again, book, n, area, depth, m).0 == b);
    lemma_in_chain_text(ns, inner, l, t);
    assert(t != pad);
}

/// The nodes after `build` lays out from `root` in `view` (see
/// [`crate::tree::Tree::build`]): the layout, with the root given the
/// whole view.
pub open spec fn built(ns: Seq<Node>, book: Seq<Seq<char>>, root: int, view: Area, m: Map<GlyphKey, GlyphMetrics>) -> Seq<Node> {
    let a = lay(ns, book, root, view, ns.len(), m).0;
    a.update(root, with_area(a[root], view))
}

/// Across two builds: build a tree whose root is a scroll of distinct text
/// nodes, raise the scroll's offset by `delta` with `update`, and build
/// again; every text moves up by exactly `delta`, with the same x-range.
/// `m` is any glyph table extending both builds' atlases (the second
/// build's final table will do).
pub proof fn lemma_rebuild_scroll_texts(
    ns: Seq<Node>,
    book: Seq<Seq<char>>,
    root: int,
    view: Area,
    m: Map<GlyphKey, GlyphMetrics>,
    s: i64,
    delta: i64,
    t: int,
)
    requires
        valid(ns, root),
        ns[root].kind == NodeKind::Scroll(s),
        text_chain(ns, ns[root].child as int, ns.len()),
        in_chain(ns, ns[root].child as int, ns.len(), t),
        small(view.0.y as int),
        small(s as int),
        small(delta as int),
        forall|u: int|
            #[trigger] in_chain(ns, ns[root].child as int, ns.len(), u) ==> small(
                built(ns, book, root, view, m)[u].area.0.y as int,
            ) && small(built(ns, book, root, view, m)[u].area.1.y as int),
    ensures
        ({
            let t1 = built(ns, book, root, view, m);
            let again = t1.update(root, Node { kind: NodeKind::Scroll((s + delta) as i64), ..t1[root] });
            built(again, book, root, view, m)[t].area == shifted(t1[t].area, delta as int)
        }),
{
    let l = ns.len();
    let a = lay(ns, book, root, view, l, m).0;
    let t1 = built(ns, book, root, view, m);
    let again = t1.update(root, Node { kind: NodeKind::Scroll((s + delta) as i64), ..t1[root] });
    lemma_in_chain_text(ns, ns[root].child as int, l, t);
    assert(t != root);
    let ca = scroll_area(view, s);
    lemma_stack_frame(ns, book, ns[root].child as int, ca, ca.0.y as int, (l - 1) as nat, l, m);
    assert(a.len() == l);
    if in_chain(ns, ns[root].child as int, l, root) {
        lemma_in_chain_text(ns, ns[root].child as int, l, root);
    }
    assert(a[root] == ns[root]);
    assert forall|u: int| #[trigger] in_chain(ns, ns[root].child as int, ns.len(), u) implies small(
        a[u].area.0.y as int,
    ) && small(a[u].area.1.y as int) by {
        lemma_in_chain_text(ns, ns[root].child as int, l, u);
        assert(t1[u] == a[u]);
    }
    lemma_scroll_shifts_texts(ns, book, root, view, l, m, s, delta, t, again);
    let c = ns[root].child as int;
    assert(again.len() == l);
    assert forall|u: int| #[trigger] in_chain(ns, c, l, u) implies again[u].next == ns[u].next
        && again[u].kind == ns[u].kind by {
        lemma_in_chain_text(ns, c, l, u);
        assert(again[u] == a[u]);
    }
    lemma_chain_links(ns, again, c, l);
    let cb = scroll_area(view, (s + delta) as i64);
    lemma_stack_frame(again, book, c, cb, cb.0.y as int, (l - 1) as nat, l, m);
    let b = lay(again, book, root, view, l, m).0;
    assert(b == lay_stack(again, book, c, cb, UNBOUNDED as int, cb.0.y as int, (l - 1) as nat, l, m).0);
    assert(b.len() == l);
    assert(built(again, book, root, view, m)[t] == b[t]);
    assert(t1[t] == a[t]);
}

/// The same across two builds for a root scroll whose one child is a pad of
/// distinct text nodes.
pub proof fn lemma_rebuild_scroll_pad_texts(
    ns: Seq<Node>,
    book: Seq<Seq<char>>,
    root: int,
    view: Area,
    m: Map<GlyphKey, GlyphMetrics>,
    s: i64,
    p: i64,
    delta: i64,
    t: int,
)
    requires
        valid(ns, root),
        ns[root].kind == NodeKind::Scroll(s),
        valid(ns, ns[root].child as int),
        ns[ns[root].child as int].kind == NodeKind::Pad(p),
        !valid(ns, ns[ns[root].child as int].next as int),
        text_chain(ns, ns[ns[root].child as int].child as int, ns.len()),
        in_chain(ns, ns[ns[root].child as int].child as int, ns.len(), t),
        small(view.0.y as int),
        small(s as int),
        small(p as int),
        small(delta as int),
        forall|u: int|
            #[trigger] in_chain(ns, ns[ns[root].child as int].child as int, ns.len(), u) ==> small(
                built(ns, book, root, view, m)[u].area.0.y as int,
            ) && small(built(ns, book, root, view, m)[u].area.1.y as int),
    ensures
        ({
            let t1 = built(ns, book, root, view, m);
            let again = t1.update(root, Node { kind: NodeKind::Scroll((s + delta) as i64), ..t1[root] });
            built(again, book, root, view, m)[t].area == shifted(t1[t].area, delta as int)
        }),
{
    let l = ns.len();
    let pad = ns[root].child as int;
    let inner = ns[pad].child as int;
    assert(pad != root);
    assert(l > 1) by {
        assert(0 <= pad < l && 0 <= root < l);
    }
    let a = lay(ns, book, root, view, l, m).0;
    lemma_lay_len(ns, book, root, view, l, m);
    let t1 = built(ns, book, root, view, m);
    let again = t1.update(root, Node { kind: NodeKind::Scroll((s + delta) as i64), ..t1[root] });
    lemma_in_chain_text(ns, inner, l, t);
    assert(t != root);
    if in_chain(ns, inner, l, root) {
        lemma_in_chain_text(ns, inner, l, root);
    }
    assert forall|u: int| #[trigger] in_chain(ns, inner, ns.len(), u) implies small(a[u].area.0.y as int)
        && small(a[u].area.1.y as int) by {
        lemma_in_chain_text(ns, inner, l, u);
        assert(t1[u] == a[u]);
    }
    lemma_scroll_pad_shifts_texts(ns, book, root, view, l, m, s, p, delta, t, again);
    let b = lay(again, book, root, view, l, m).0;
    lemma_lay_len(again, book, root, view, l, m);
    assert(again.len() == l);
    assert(b.len() == l);
    assert(built(again, book, root, view, m)[t] == b[t]);
    assert(t1[t] == a[t]);
}

} // verus!
