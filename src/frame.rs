//! The draw list of one frame: textured quads as an unindexed triangle list,
//! and the texture to upload when it changed.
use vstd::prelude::*;

use crate::atlas::UV_ONE;
use crate::geometry::{Area, Vec2};

verus! {

/// A colour, one byte per channel.
#[derive(Clone, Copy, Debug, PartialEq, Eq, Structural)]
pub struct Rgb {
    pub r: u8,
    pub g: u8,
    pub b: u8,
}

impl Rgb {
    pub fn white() -> (r: Rgb)
        ensures
            r == (Rgb { r: 255, g: 255, b: 255 }),
    {
        Rgb { r: 255, g: 255, b: 255 }
    }
}

/// One vertex: a screen position in pixels (depth is always zero), texture
/// coordinates in units of [`UV_ONE`], and a flat colour.
#[derive(Clone, Copy, Debug, PartialEq, Eq, Structural)]
pub struct Vertex {
    pub x: i64,
    pub y: i64,
    pub u: i64,
    pub v: i64,
    pub color: Rgb,
}

/// The six vertices, two triangles, that cover `area` and map its corners
/// to the corners of `uv`.
pub open spec fn quad_vertices(area: Area, uv: Area, color: Rgb) -> Seq<Vertex> {
    let tl = Vertex { x: area.0.x, y: area.0.y, u: uv.0.x, v: uv.0.y, color };
    let bl = Vertex { x: area.0.x, y: area.1.y, u: uv.0.x, v: uv.1.y, color };
    let br = Vertex { x: area.1.x, y: area.1.y, u: uv.1.x, v: uv.1.y, color };
    let tr = Vertex { x: area.1.x, y: area.0.y, u: uv.1.x, v: uv.0.y, color };
    seq![tl, bl, br, br, tr, tl]
}

/// The texture coordinates of the whole texture.
pub open spec fn full_uv() -> Area {
    Area(Vec2 { x: 0, y: 0 }, Vec2 { x: UV_ONE, y: UV_ONE })
}

/// `next` is `prev` with `k` more vertices and nothing else changed.
pub open spec fn appended(prev: Frame, next: Frame, k: nat) -> bool {
    &&& next.area == prev.area
    &&& next.texture_bytes == prev.texture_bytes
    &&& next.texture_dimensions == prev.texture_dimensions
    &&& next.texture_changed == prev.texture_changed
    &&& next.vertices@.len() == prev.vertices@.len() + k
    &&& next.vertices@.subrange(0, prev.vertices@.len() as int) == prev.vertices@
}

pub struct Frame {
    /// The viewport: from the origin to the window size.
    pub area: Area,
    pub vertices: Vec<Vertex>,
    /// RGBA bytes of the texture to sample, row-major.
    pub texture_bytes: Vec<u8>,
    pub texture_dimensions: (u32, u32),
    /// Whether the texture was replaced during this frame.
    pub texture_changed: bool,
}

impl Frame {
    /// An empty frame for a window of the given size, holding a 1×1 opaque
    /// white texture.
    pub fn new(width: u32, height: u32) -> (r: Frame)
        ensures
            r.area == Area(Vec2 { x: 0, y: 0 }, Vec2 { x: width as i64, y: height as i64 }),
            r.vertices@ == Seq::<Vertex>::empty(),
            r.texture_bytes@ == seq![255u8, 255u8, 255u8, 255u8],
            r.texture_dimensions == (1u32, 1u32),
            !r.texture_changed,
    {
        let mut bytes: Vec<u8> = Vec::new();
        bytes.push(255u8);
        bytes.push(255u8);
        bytes.push(255u8);
        bytes.push(255u8);
        proof {
            assert(bytes@ =~= seq![255u8, 255u8, 255u8, 255u8]);
        }
        Frame {
            area: Area(Vec2 { x: 0, y: 0 }, Vec2 { x: width as i64, y: height as i64 }),
            vertices: Vec::new(),
            texture_bytes: bytes,
            texture_dimensions: (1, 1),
            texture_changed: false,
        }
    }

    /// Appends a quad covering `area`, textured with the `uv` part of the
    /// texture and tinted with `color`.
    pub fn quad(&mut self, area: Area, uv: Area, color: Rgb)
        ensures
            final(self).vertices@ == old(self).vertices@ + quad_vertices(area, uv, color),
            appended(*old(self), *final(self), 6),
            final(self).area == old(self).area,
            final(self).texture_bytes == old(self).texture_bytes,
            final(self).texture_dimensions == old(self).texture_dimensions,
            final(self).texture_changed == old(self).texture_changed,
    {
        let tl = Vertex { x: area.0.x, y: area.0.y, u: uv.0.x, v: uv.0.y, color };
        let bl = Vertex { x: area.0.x, y: area.1.y, u: uv.0.x, v: uv.1.y, color };
        let br = Vertex { x: area.1.x, y: area.1.y, u: uv.1.x, v: uv.1.y, color };
        let tr = Vertex { x: area.1.x, y: area.0.y, u: uv.1.x, v: uv.0.y, color };
        self.vertices.push(tl);
        self.vertices.push(bl);
        self.vertices.push(br);
        self.vertices.push(br);
        self.vertices.push(tr);
        self.vertices.push(tl);
        proof {
            assert(self.vertices@ =~= old(self).vertices@ + quad_vertices(area, uv, color));
            assert(self.vertices@.subrange(0, old(self).vertices@.len() as int) =~= old(self).vertices@);
        }
    }

    /// Replaces the texture and marks it as changed.
    pub fn set_texture(&mut self, bytes: Vec<u8>, dimensions: (u32, u32))
        ensures
            final(self).texture_bytes@ == bytes@,
            final(self).texture_dimensions == dimensions,
            final(self).texture_changed,
            final(self).area == old(self).area,
            final(self).vertices == old(self).vertices,
    {
        self.texture_bytes = bytes;
        self.texture_dimensions = dimensions;
        self.texture_changed = true;
    }
}

pub proof fn lemma_appended_refl(f: Frame)
    ensures
        appended(f, f, 0),
{
    assert(f.vertices@.subrange(0, f.vertices@.len() as int) =~= f.vertices@);
}

pub proof fn lemma_appended_trans(a: Frame, b: Frame, c: Frame, k1: nat, k2: nat)
    requires
        appended(a, b, k1),
        appended(b, c, k2),
    ensures
        appended(a, c, k1 + k2),
{
    let n = a.vertices@.len() as int;
    let m = b.vertices@.len() as int;
    assert(c.vertices@.subrange(0, n) =~= c.vertices@.subrange(0, m).subrange(0, n));
}

} // verus!
