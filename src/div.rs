//! A simpler box model: boxes of fixed or filling size, with padding and a
//! background, whose children flow left to right and wrap.
use vstd::prelude::*;

use crate::atlas::UV_ONE;
use crate::frame::{full_uv, quad_vertices, Frame, Rgb, Vertex};
use crate::geometry::{clamp, sat_add, Area, Vec2};

verus! {

/// How a box looks; `None` leaves a property at its default.
#[derive(Clone, Copy, Debug, PartialEq, Eq, Structural)]
pub struct Style {
    /// Fixed width; the box fills the available width without it.
    pub width: Option<i64>,
    /// Fixed height; the box fills the available height without it.
    pub height: Option<i64>,
    pub padding: Option<i64>,
    /// Background colour; no background is drawn without it.
    pub bg: Option<Rgb>,
    pub offset: Option<Vec2>,
    pub texture: Option<usize>,
}

impl Style {
    pub fn new() -> (r: Style)
        ensures
            r == (Style {
                width: None,
                height: None,
                padding: None,
                bg: None,
                offset: None,
                texture: None,
            }),
    {
        Style { width: None, height: None, padding: None, bg: None, offset: None, texture: None }
    }
}

pub struct Div {
    style: Style,
    children: Vec<Div>,
}

/// The size of a box with style `st` given `max` to fill.
pub open spec fn box_size(st: Style, max: Area) -> Vec2 {
    Vec2 {
        x: match st.width {
            Some(w) => w,
            None => max.width() as i64,
        },
        y: match st.height {
            Some(h) => h,
            None => max.height() as i64,
        },
    }
}

/// What drawing box `d` into `area` emits: its background, if any, then
/// its children; see [`flow`].
pub open spec fn draw(d: Div, area: Area) -> Seq<Vertex>
    decreases d, d.kids().len() + 1,
{
    let my = area.resized(box_size(d.style_of(), area));
    let inner = match d.style_of().padding {
        Some(p) => my.padded(p as int),
        None => my,
    };
    let bgq = match d.style_of().bg {
        Some(c) => quad_vertices(my, full_uv(), c),
        None => Seq::empty(),
    };
    bgq + flow(d, 0, inner, inner, inner.0.y)
}

/// The children of `d` from the `i`-th on, flowed inside `inner`: each is
/// drawn at `fit`'s corner, right of the previous one; one that would cross
/// `inner`'s right edge starts a new row at the bottom of the lowest box so
/// far (`low`).
pub open spec fn flow(d: Div, i: int, inner: Area, fit: Area, low: i64) -> Seq<Vertex>
    decreases d, d.kids().len() - i,
{
    if i < 0 || i >= d.kids().len() {
        Seq::empty()
    } else {
        let ch = d.kids()[i];
        let size = box_size(ch.style_of(), fit);
        let fit1 = if clamp(fit.0.x + size.x) > inner.1.x {
            Area(Vec2 { x: inner.0.x, y: low }, fit.1)
        } else {
            fit
        };
        let r = fit1.resized(box_size(ch.style_of(), fit1));
        draw(ch, fit1) + flow(
            d,
            i + 1,
            inner,
            Area(Vec2 { x: r.1.x, y: fit1.0.y }, fit1.1),
            if r.1.y > low { r.1.y } else { low },
        )
    }
}

impl Div {
    pub closed spec fn style_of(&self) -> Style {
        self.style
    }

    pub closed spec fn kids(&self) -> Seq<Div> {
        self.children@
    }

    pub fn new() -> (r: Div)
        ensures
            r.style_of() == (Style {
                width: None,
                height: None,
                padding: None,
                bg: None,
                offset: None,
                texture: None,
            }),
            r.kids() == Seq::<Div>::empty(),
    {
        Div { style: Style::new(), children: Vec::new() }
    }

    pub fn children(self, children: Vec<Div>) -> (r: Div)
        ensures
            r.style_of() == self.style_of(),
            r.kids() == children@,
    {
        Div { style: self.style, children }
    }

    /// Gives the box a fixed size.
    pub fn size(self, w: i64, h: i64) -> (r: Div)
        ensures
            r.style_of() == (Style { width: Some(w), height: Some(h), ..self.style_of() }),
            r.kids() == self.kids(),
    {
        let mut d = self;
        d.style.width = Some(w);
        d.style.height = Some(h);
        d
    }

    pub fn pad(self, padding: i64) -> (r: Div)
        ensures
            r.style_of() == (Style { padding: Some(padding), ..self.style_of() }),
            r.kids() == self.kids(),
    {
        let mut d = self;
        d.style.padding = Some(padding);
        d
    }

    pub fn bg(self, color: Rgb) -> (r: Div)
        ensures
            r.style_of() == (Style { bg: Some(color), ..self.style_of() }),
            r.kids() == self.kids(),
    {
        let mut d = self;
        d.style.bg = Some(color);
        d
    }

    fn calc_size(&self, max: &Area) -> (r: Vec2)
        ensures
            r == box_size(self.style_of(), *max),
    {
        let w = match self.style.width {
            Some(w) => w,
            None => max.w(),
        };
        let h = match self.style.height {
            Some(h) => h,
            None => max.h(),
        };
        Vec2 { x: w, y: h }
    }

    /// Draws the box into `area` and returns the area it takes: its size at
    /// `area`'s top-left corner. The background, if any, is drawn first;
    /// the children then flow left to right inside the padding and wrap
    /// below the lowest box of the row when they would cross its right edge.
    pub fn render(&self, frame: &mut Frame, area: &Area) -> (r: Area)
        ensures
            r == area.resized(box_size(self.style_of(), *area)),
            final(frame).area == old(frame).area,
            final(frame).texture_bytes == old(frame).texture_bytes,
            final(frame).texture_dimensions == old(frame).texture_dimensions,
            final(frame).texture_changed == old(frame).texture_changed,
            final(frame).vertices@ == old(frame).vertices@ + draw(*self, *area),
        decreases self,
    {
        let my_area = area.resize(self.calc_size(area));
        let ghost v0 = frame.vertices@;
        if let Some(color) = self.style.bg {
            frame.quad(my_area, Area(Vec2 { x: 0, y: 0 }, Vec2 { x: UV_ONE, y: UV_ONE }), color);
        }
        let mut child_area = my_area;
        if let Some(padding) = self.style.padding {
            child_area = child_area.pad(padding);
        }
        let mut fit = child_area;
        let mut max_y = fit.0.y;
        let ghost whole = draw(*self, *area);
        proof {
            let bgq = match self.style.bg {
                Some(c) => quad_vertices(my_area, full_uv(), c),
                None => Seq::<Vertex>::empty(),
            };
            assert(frame.vertices@ =~= v0 + bgq);
            assert(whole == bgq + flow(*self, 0, child_area, fit, max_y));
            assert(frame.vertices@ + flow(*self, 0, child_area, fit, max_y) =~= v0 + whole);
        }
        let mut i: usize = 0;
        while i < self.children.len()
            invariant
                i <= self.children@.len(),
                frame.area == old(frame).area,
                frame.texture_bytes == old(frame).texture_bytes,
                frame.texture_dimensions == old(frame).texture_dimensions,
                frame.texture_changed == old(frame).texture_changed,
                frame.vertices@ + flow(*self, i as int, child_area, fit, max_y) == v0 + whole,
            decreases self.children@.len() - i,
        {
            let child = &self.children[i];
            proof {
                assert(decreases_to!(self => self.children));
                vstd::std_specs::vec::axiom_vec_index_decreases(self.children, i as int);
            }
            let ghost fit0 = fit;
            let ghost max0 = max_y;
            let ghost vb = frame.vertices@;
            let size = child.calc_size(&fit);
            if sat_add(fit.0.x, size.x) > child_area.1.x {
                fit.0.x = child_area.0.x;
                fit.0.y = max_y;
            }
            let ghost fit1 = fit;
            let a = child.render(frame, &fit);
            fit.0.x = a.1.x;
            if a.1.y > max_y {
                max_y = a.1.y;
            }
            proof {
                assert(fit1 == (if clamp(fit0.0.x + size.x) > child_area.1.x {
                    Area(Vec2 { x: child_area.0.x, y: max0 }, fit0.1)
                } else {
                    fit0
                }));
                assert(flow(*self, i as int, child_area, fit0, max0) == draw(*child, fit1) + flow(
                    *self,
                    i + 1,
                    child_area,
                    fit,
                    max_y,
                ));
                assert(frame.vertices@ + flow(*self, i + 1, child_area, fit, max_y) =~= vb + flow(
                    *self,
                    i as int,
                    child_area,
                    fit0,
                    max0,
                ));
            }
            i += 1;
        }
        proof {
            assert(frame.vertices@ + Seq::<Vertex>::empty() =~= frame.vertices@);
        }
        my_area
    }
}

} // verus!
