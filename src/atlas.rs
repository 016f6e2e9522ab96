//! The glyph atlas: rasterized glyphs cached by (character, pixel size),
//! shelf-packed into one square RGBA texture.
use vstd::prelude::*;

use crate::geometry::{Area, Vec2};
use crate::packing::{
    all_fit, atlas_pixels, blit, lemma_blit_step, lemma_insert_pos, lemma_pack_order, insert_pos,
    pack_order, shelf_after, lemma_each_glyph_sized, slot_area, slot_fits, texture_len,
};

verus! {

/// Width and height of the atlas texture, in pixels.
pub const ATLAS_DIM: usize = 1024;

/// Texture coordinates are fixed-point numbers: this value stands for 1.0.
pub const UV_ONE: i64 = 65536;

/// Placement and advance of one rasterized glyph, in whole pixels.
#[derive(Clone, Copy, Debug, PartialEq, Eq, Structural)]
pub struct GlyphMetrics {
    /// Offset of the bitmap's left edge from the pen position.
    pub xmin: i32,
    /// Offset of the bitmap's bottom edge from the baseline.
    pub ymin: i32,
    /// Bitmap width.
    pub width: usize,
    /// Bitmap height.
    pub height: usize,
    /// Horizontal distance the pen moves after the glyph.
    pub advance_width: i64,
}

/// A source of glyph bitmaps.
pub trait Rasterizer {
    /// Rasterizes `c` at `px` pixels per em: its metrics and a row-major
    /// coverage bitmap, one byte per pixel.
    fn rasterize(&self, c: char, px: u16) -> (GlyphMetrics, Vec<u8>);
}

#[verifier::external_type_specification]
#[verifier::external_body]
pub struct ExFont(fontdue::Font);

/// Relies on `fontdue::Font::from_bytes`: parses a TrueType or OpenType
/// font, or fails.
#[verifier::external_body]
fn parse_font(bytes: &[u8]) -> (r: Option<fontdue::Font>) {
    fontdue::Font::from_bytes(bytes, fontdue::FontSettings::default()).ok()
}

/// Relies on `fontdue::Font::rasterize`: the coverage bitmap it returns is
/// built for the metrics' width and height, one byte per pixel, row-major.
#[verifier::external_body]
fn rasterize_glyph(font: &fontdue::Font, c: char, px: u16) -> (r: (GlyphMetrics, Vec<u8>))
    ensures
        r.1@.len() == r.0.width * r.0.height,
{
    let (m, bitmap) = font.rasterize(c, px.into());
    let metrics = GlyphMetrics {
        xmin: m.xmin,
        ymin: m.ymin,
        width: m.width,
        height: m.height,
        advance_width: m.advance_width.round() as i64,
    };
    (metrics, bitmap)
}

/// Rasterizes with a parsed font file.
pub struct FontRasterizer {
    font: fontdue::Font,
}

impl FontRasterizer {
    /// Parses font file bytes; `None` when they do not hold a usable font.
    pub fn from_bytes(bytes: &[u8]) -> (r: Option<FontRasterizer>) {
        match parse_font(bytes) {
            Some(font) => Some(FontRasterizer { font }),
            None => None,
        }
    }
}

impl Rasterizer for FontRasterizer {
    fn rasterize(&self, c: char, px: u16) -> (GlyphMetrics, Vec<u8>) {
        rasterize_glyph(&self.font, c, px)
    }
}

/// The glyph as the atlas stores it: as rasterized when the bitmap holds
/// `width * height` bytes, else with an empty bitmap (and the advance kept).
pub open spec fn stored_glyph(m: GlyphMetrics, bitmap: Seq<u8>) -> (GlyphMetrics, Seq<u8>) {
    if bitmap.len() == m.width * m.height {
        (m, bitmap)
    } else {
        (GlyphMetrics { width: 0, height: 0, ..m }, Seq::empty())
    }
}

/// The texture that [`FontAtlas::build_texture`] produces: RGBA bytes, row-major.
pub struct TextureData {
    pub bytes: Vec<u8>,
    pub width: u32,
    pub height: u32,
}

/// The glyphs do not fit into one atlas texture.
#[derive(Clone, Copy, Debug, PartialEq, Eq, Structural)]
pub enum AtlasError {
    Full,
}

/// A glyph's cache key: character and pixel size.
pub type GlyphKey = (char, u16);

pub struct FontAtlas<R> {
    rasterizer: R,
    changed: bool,
    keys: Vec<GlyphKey>,
    bitmaps: Vec<Vec<u8>>,
    metrics: Vec<GlyphMetrics>,
    texarea: Vec<Area>,
}

/// Whether `a` lies within the atlas texture, corners ordered.
pub open spec fn within_atlas(a: Area) -> bool {
    0 <= a.0.x <= a.1.x <= ATLAS_DIM && 0 <= a.0.y <= a.1.y <= ATLAS_DIM
}

/// `a` in texture coordinates: pixels divided by the atlas size, in units of [`UV_ONE`].
pub open spec fn uv_of(a: Area) -> Area {
    Area(
        Vec2 {
            x: (a.0.x * UV_ONE / ATLAS_DIM as int) as i64,
            y: (a.0.y * UV_ONE / ATLAS_DIM as int) as i64,
        },
        Vec2 {
            x: (a.1.x * UV_ONE / ATLAS_DIM as int) as i64,
            y: (a.1.y * UV_ONE / ATLAS_DIM as int) as i64,
        },
    )
}

impl<R: Rasterizer> FontAtlas<R> {
    /// The cached keys; a glyph's id is its index here.
    pub closed spec fn keys(&self) -> Seq<GlyphKey> {
        self.keys@
    }

    /// The metrics of each glyph, by id.
    pub closed spec fn glyph_metrics(&self) -> Seq<GlyphMetrics> {
        self.metrics@
    }

    /// The coverage bitmap of each glyph, by id.
    pub closed spec fn bitmaps(&self) -> Seq<Seq<u8>> {
        Seq::new(self.bitmaps@.len(), |i: int| self.bitmaps@[i]@)
    }

    /// Where each glyph was placed by the latest packing, by id.
    pub closed spec fn placements(&self) -> Seq<Area> {
        self.texarea@
    }

    /// Whether glyphs were added since the flag was last consumed.
    pub closed spec fn is_changed(&self) -> bool {
        self.changed
    }

    pub closed spec fn wf(&self) -> bool {
        &&& self.bitmaps@.len() == self.keys@.len()
        &&& self.metrics@.len() == self.keys@.len()
        &&& self.texarea@.len() == self.keys@.len()
        &&& self.keys@.no_duplicates()
        &&& forall|i: int|
            0 <= i < self.keys@.len() ==> #[trigger] self.bitmaps@[i]@.len()
                == self.metrics@[i].width * self.metrics@[i].height
        &&& forall|i: int| 0 <= i < self.keys@.len() ==> within_atlas(#[trigger] self.texarea@[i])
    }

    /// The metrics cached under each key.
    pub open spec fn table(&self) -> Map<GlyphKey, GlyphMetrics> {
        Map::new(
            |k: GlyphKey| self.keys().contains(k),
            |k: GlyphKey| self.glyph_metrics()[self.keys().index_of(k)],
        )
    }

    /// The metrics and placement cached under each key.
    pub open spec fn glyph_map(&self) -> Map<GlyphKey, (GlyphMetrics, Area)> {
        Map::new(
            |k: GlyphKey| self.keys().contains(k),
            |k: GlyphKey|
                (
                    self.glyph_metrics()[self.keys().index_of(k)],
                    self.placements()[self.keys().index_of(k)],
                ),
        )
    }

    /// `next` is `self` with the glyph of `k` available, and `id` is its id:
    /// a cached key is found without any change; a new one is rasterized and
    /// appended, unplaced, and marks the atlas as changed.
    pub open spec fn lookup_result(&self, k: GlyphKey, next: Self, id: usize) -> bool {
        &&& id < next.keys().len()
        &&& next.keys()[id as int] == k
        &&& if self.keys().contains(k) {
            &&& id == self.keys().index_of(k)
            &&& next.keys() == self.keys()
            &&& next.glyph_metrics() == self.glyph_metrics()
            &&& next.bitmaps() == self.bitmaps()
            &&& next.placements() == self.placements()
            &&& next.is_changed() == self.is_changed()
        } else {
            &&& id == self.keys().len()
            &&& next.keys() == self.keys().push(k)
            &&& next.glyph_metrics().drop_last() == self.glyph_metrics()
            &&& next.bitmaps().drop_last() == self.bitmaps()
            &&& next.placements() == self.placements().push(Area(Vec2 { x: 0, y: 0 }, Vec2 { x: 0, y: 0 }))
            &&& next.is_changed()
        }
    }

    /// `next` is `self` after a successful packing that produced `t`: each
    /// glyph sits in its shelf slot and the texture holds their coverage;
    /// the changed flag is left as it was.
    pub open spec fn packed_into(&self, next: Self, t: TextureData) -> bool {
        let n = self.keys().len() as nat;
        let ms = self.glyph_metrics();
        let order = pack_order(ms, n);
        &&& next.wf()
        &&& next.keys() == self.keys()
        &&& next.glyph_metrics() == ms
        &&& next.bitmaps() == self.bitmaps()
        &&& next.is_changed() == self.is_changed()
        &&& forall|k: nat|
            k < n ==> next.placements()[#[trigger] order[k as int] as int] == slot_area(order, ms, k)
        &&& t.bytes@ == atlas_pixels(next.placements(), ms, next.bitmaps(), n)
        &&& t.width == ATLAS_DIM
        &&& t.height == ATLAS_DIM
    }

    /// `next` holds every glyph of `self`, unchanged and under the same id,
    /// and is marked changed exactly when `self` was or glyphs were added.
    pub open spec fn grows_to(&self, next: Self) -> bool {
        &&& self.keys().len() <= next.keys().len()
        &&& next.keys().subrange(0, self.keys().len() as int) == self.keys()
        &&& next.glyph_metrics().subrange(0, self.keys().len() as int) == self.glyph_metrics()
        &&& next.bitmaps().subrange(0, self.keys().len() as int) == self.bitmaps()
        &&& next.placements().subrange(0, self.keys().len() as int) == self.placements()
        &&& next.is_changed() == (self.is_changed() || next.keys().len() > self.keys().len())
    }

    pub fn new(rasterizer: R) -> (r: Self)
        ensures
            r.wf(),
            r.keys() == Seq::<GlyphKey>::empty(),
            !r.is_changed(),
    {
        FontAtlas {
            rasterizer,
            changed: false,
            keys: Vec::new(),
            bitmaps: Vec::new(),
            metrics: Vec::new(),
            texarea: Vec::new(),
        }
    }

    pub fn len(&self) -> (r: usize)
        ensures
            r == self.keys().len(),
    {
        self.keys.len()
    }

    /// The id of the glyph for `chr` at `px` pixels, rasterizing it first
    /// when it is not cached yet.
    pub fn get(&mut self, chr: char, px: u16) -> (id: usize)
        requires
            old(self).wf(),
        ensures
            final(self).wf(),
            old(self).lookup_result((chr, px), *final(self), id),
            old(self).grows_to(*final(self)),
            old(self).table().submap_of(final(self).table()),
            final(self).table().contains_key((chr, px)),
            final(self).table()[(chr, px)] == final(self).glyph_metrics()[id as int],
            old(self).glyph_map().submap_of(final(self).glyph_map()),
            final(self).glyph_map().contains_key((chr, px)),
            final(self).glyph_map()[(chr, px)] == (
                final(self).glyph_metrics()[id as int],
                final(self).placements()[id as int],
            ),
    {
        let n = self.keys.len();
        let mut i: usize = 0;
        while i < n
            invariant
                n == self.keys@.len(),
                i <= n,
                *self == *old(self),
                self.wf(),
                forall|j: int| 0 <= j < i ==> self.keys@[j] != (chr, px),
            decreases n - i,
        {
            let k = self.keys[i];
            if k.0 == chr && k.1 == px {
                proof {
                    assert(self.keys@.contains((chr, px)));
                    assert(self.keys@.index_of((chr, px)) == i) by {
                        let j = self.keys@.index_of((chr, px));
                        assert(0 <= j < n && self.keys@[j] == (chr, px));
                    }
                    assert(self.keys@.subrange(0, n as int) =~= self.keys@);
                    assert(self.metrics@.subrange(0, n as int) =~= self.metrics@);
                    assert(self.bitmaps().subrange(0, n as int) =~= self.bitmaps());
                    assert(self.texarea@.subrange(0, n as int) =~= self.texarea@);
                    lemma_table_index(*self, i);
                    assert(self.glyph_map() =~= old(self).glyph_map());
                }
                return i;
            }
            i += 1;
        }
        proof {
            assert(!self.keys@.contains((chr, px)));
        }
        self.changed = true;
        let (m0, b0) = self.rasterizer.rasterize(chr, px);
        let blen = b0.len();
        let fits = match m0.width.checked_mul(m0.height) {
            Some(len) => len == blen,
            None => false,
        };
        proof {
            assert(fits == (b0@.len() == m0.width * m0.height));
        }
        let (m, bitmap) = if fits {
            (m0, b0)
        } else {
            (GlyphMetrics { width: 0, height: 0, ..m0 }, Vec::new())
        };
        proof {
            assert((m, bitmap@) == stored_glyph(m0, b0@));
            if !fits {
                assert(m.width == 0 && m.height == 0);
                assert(m.width * m.height == 0) by (nonlinear_arith)
                    requires
                        m.width == 0,
                ;
            }
            assert(bitmap@.len() == m.width * m.height);
        }
        self.keys.push((chr, px));
        self.metrics.push(m);
        self.bitmaps.push(bitmap);
        self.texarea.push(Area::zero());
        proof {
            let s = &*self;
            assert(s.keys@.no_duplicates()) by {
                assert forall|a: int, b: int|
                    0 <= a < s.keys@.len() && 0 <= b < s.keys@.len() && a != b implies s.keys@[a]
                    != s.keys@[b] by {
                    if a < n && b < n {
                        assert(old(self).keys@[a] != old(self).keys@[b]);
                    }
                }
            }
            assert(s.bitmaps().drop_last() =~= old(self).bitmaps());
            assert(s.bitmaps().len() == s.keys@.len());
            assert(s.keys().subrange(0, n as int) =~= old(self).keys());
            assert(s.glyph_metrics().subrange(0, n as int) =~= old(self).glyph_metrics());
            assert(s.glyph_metrics().drop_last() =~= old(self).glyph_metrics());
            assert(s.bitmaps().subrange(0, n as int) =~= old(self).bitmaps());
            assert(s.placements().subrange(0, n as int) =~= old(self).placements());
            lemma_table_index(*s, n);
            lemma_grows_submap(*old(self), *s);
            assert forall|k: GlyphKey| #[trigger] old(self).glyph_map().dom().contains(k) implies s.glyph_map().dom().contains(k)
                && old(self).glyph_map()[k] == s.glyph_map()[k] by {
                let j = old(self).keys().index_of(k);
                assert(old(self).keys().contains(k));
                assert(0 <= j < n && old(self).keys()[j] == k);
                assert(s.keys()[j] == k);
                lemma_index_unique(*s, k, j);
            }
        }
        n
    }

    /// The glyph's advance width and the line height (`px`), rasterizing
    /// the glyph if needed.
    pub fn size(&mut self, chr: char, px: u16) -> (r: Vec2)
        requires
            old(self).wf(),
        ensures
            final(self).wf(),
            old(self).grows_to(*final(self)),
            old(self).table().submap_of(final(self).table()),
            final(self).table().contains_key((chr, px)),
            r == (Vec2 { x: final(self).table()[(chr, px)].advance_width, y: px as i64 }),
            exists|id: usize|
                #[trigger] old(self).lookup_result((chr, px), *final(self), id) && r.x
                    == final(self).glyph_metrics()[id as int].advance_width,
            old(self).glyph_map().submap_of(final(self).glyph_map()),
            final(self).glyph_map().contains_key((chr, px)),
    {
        let id = self.get(chr, px);
        let m = self.metrics[id];
        Vec2 { x: m.advance_width, y: px as i64 }
    }

    pub fn metrics(&self, id: usize) -> (r: GlyphMetrics)
        requires
            self.wf(),
            id < self.keys().len(),
        ensures
            r == self.glyph_metrics()[id as int],
    {
        self.metrics[id]
    }

    /// The glyph's placement in texture coordinates.
    pub fn texture_area(&self, id: usize) -> (r: Area)
        requires
            self.wf(),
            id < self.keys().len(),
        ensures
            r == uv_of(self.placements()[id as int]),
    {
        let a = self.texarea[id];
        assert(within_atlas(a));
        let scale: i64 = UV_ONE / (ATLAS_DIM as i64);
        assert(scale == 64);
        proof {
            assert(a.0.x * UV_ONE / ATLAS_DIM as int == a.0.x * 64) by (nonlinear_arith)
                requires 0 <= a.0.x <= 1024;
            assert(a.0.y * UV_ONE / ATLAS_DIM as int == a.0.y * 64) by (nonlinear_arith)
                requires 0 <= a.0.y <= 1024;
            assert(a.1.x * UV_ONE / ATLAS_DIM as int == a.1.x * 64) by (nonlinear_arith)
                requires 0 <= a.1.x <= 1024;
            assert(a.1.y * UV_ONE / ATLAS_DIM as int == a.1.y * 64) by (nonlinear_arith)
                requires 0 <= a.1.y <= 1024;
        }
        Area(
            Vec2 { x: a.0.x * scale, y: a.0.y * scale },
            Vec2 { x: a.1.x * scale, y: a.1.y * scale },
        )
    }

    /// Whether glyphs were added since the flag was last consumed.
    pub fn texture_changed(&self) -> (r: bool)
        ensures
            r == self.is_changed(),
    {
        self.changed
    }

    /// Returns whether glyphs were added since the last call and clears the
    /// flag: a `true` means the texture must be rebuilt and uploaded.
    pub fn consume_changed(&mut self) -> (r: bool)
        requires
            old(self).wf(),
        ensures
            r == old(self).is_changed(),
            !final(self).is_changed(),
            final(self).wf(),
            final(self).keys() == old(self).keys(),
            final(self).glyph_metrics() == old(self).glyph_metrics(),
            final(self).bitmaps() == old(self).bitmaps(),
            final(self).placements() == old(self).placements(),
    {
        let r = self.changed;
        self.changed = false;
        r
    }

    /// Packs all cached glyphs into the texture and builds its bytes.
    ///
    /// Glyphs are placed in [`pack_order`] on shelves that fill the texture
    /// row by row; the bytes are white with each glyph's coverage in the
    /// alpha channel. The changed flag is left alone. When the glyphs do not
    /// all fit, nothing changes and `AtlasError::Full` is returned: glyphs
    /// never overlap or spill out of the texture.
    pub fn build_texture(&mut self) -> (r: Result<TextureData, AtlasError>)
        requires
            old(self).wf(),
        ensures
            final(self).wf(),
            final(self).keys() == old(self).keys(),
            final(self).glyph_metrics() == old(self).glyph_metrics(),
            final(self).bitmaps() == old(self).bitmaps(),
            r is Ok <==> all_fit(old(self).glyph_metrics(), old(self).keys().len() as nat),
            match r {
                Ok(t) => old(self).packed_into(*final(self), t),
                Err(e) => {
                    &&& e == AtlasError::Full
                    &&& final(self).placements() == old(self).placements()
                    &&& final(self).is_changed() == old(self).is_changed()
                },
            },
    {
        let order = self.sorted_ids();
        let placed = self.shelf_places(&order);
        match placed {
            None => Err(AtlasError::Full),
            Some(places) => {
                self.texarea = places;
                let bytes = self.pixels();
                Ok(TextureData { bytes, width: ATLAS_DIM as u32, height: ATLAS_DIM as u32 })
            },
        }
    }

    /// The ids of all glyphs in packing order.
    fn sorted_ids(&self) -> (order: Vec<usize>)
        requires
            self.wf(),
        ensures
            order@ == pack_order(self.glyph_metrics(), self.keys().len() as nat),
    {
        let n = self.keys.len();
        let ghost ms = self.metrics@;
        let mut order: Vec<usize> = Vec::new();
        let mut i: usize = 0;
        while i < n
            invariant
                self.wf(),
                ms == self.metrics@,
                n == self.keys@.len(),
                i <= n,
                order@ == pack_order(ms, i as nat),
            decreases n - i,
        {
            proof {
                lemma_pack_order(ms, i as nat);
                lemma_insert_pos(order@, ms, self.metrics@[i as int].height, 0);
            }
            let h = self.metrics[i].height;
            let mut p: usize = 0;
            while p < order.len() && self.metrics[order[p]].height >= h
                invariant
                    self.wf(),
                    ms == self.metrics@,
                    n == self.keys@.len(),
                    i < n,
                    order@ == pack_order(ms, i as nat),
                    forall|k: int| 0 <= k < order@.len() ==> #[trigger] order@[k] < i,
                    p <= order.len(),
                    insert_pos(order@, ms, h, p as int) == insert_pos(order@, ms, h, 0),
                decreases order.len() - p,
            {
                p += 1;
            }
            order.insert(p, i);
            i += 1;
        }
        order
    }

    /// The rectangle of every glyph, by id, when all fit into the texture.
    #[verifier::rlimit(90)]
    fn shelf_places(&self, order: &Vec<usize>) -> (r: Option<Vec<Area>>)
        requires
            self.wf(),
            order@ == pack_order(self.glyph_metrics(), self.keys().len() as nat),
        ensures
            r is Some <==> all_fit(self.glyph_metrics(), self.keys().len() as nat),
            r matches Some(places) ==> {
                let ms = self.glyph_metrics();
                &&& places@.len() == self.keys().len()
                &&& forall|k: nat|
                    k < self.keys().len() ==> places@[#[trigger] order@[k as int] as int]
                        == slot_area(order@, ms, k)
                &&& forall|g: int|
                    0 <= g < self.keys().len() ==> {
                        &&& within_atlas(#[trigger] places@[g])
                        &&& places@[g].1.x == places@[g].0.x + ms[g].width
                        &&& places@[g].1.y == places@[g].0.y + ms[g].height
                    }
            },
    {
        let n = self.keys.len();
        let ghost ms = self.metrics@;
        let ghost ord = order@;
        proof {
            lemma_pack_order(ms, n as nat);
        }
        let mut places: Vec<Area> = Vec::new();
        let mut j: usize = 0;
        while j < n
            invariant
                j <= n,
                places@.len() == j,
                forall|q: int| 0 <= q < j ==> within_atlas(#[trigger] places@[q]),
            decreases n - j,
        {
            places.push(Area::zero());
            j += 1;
        }
        let mut x: usize = 0;
        let mut y: usize = 0;
        let mut mh: usize = 0;
        let mut k: usize = 0;
        while k < n
            invariant
                self.wf(),
                ms == self.metrics@,
                n == self.keys@.len(),
                ord == order@,
                ord == pack_order(ms, n as nat),
                ord.len() == n,
                ord.no_duplicates(),
                forall|q: int| 0 <= q < n ==> #[trigger] ord[q] < n,
                places@.len() == n,
                k <= n,
                (x as int, y as int, mh as int) == shelf_after(ord, ms, k as nat),
                x <= ATLAS_DIM,
                y <= ATLAS_DIM,
                mh <= ATLAS_DIM,
                forall|q: nat| q < k ==> #[trigger] slot_fits(ord, ms, q),
                forall|q: nat| q < k ==> places@[#[trigger] ord[q as int] as int] == slot_area(ord, ms, q),
                forall|q: int| 0 <= q < n ==> within_atlas(#[trigger] places@[q]),
            decreases n - k,
        {
            let id = order[k];
            let g = self.metrics[id];
            let wraps = g.width > ATLAS_DIM - x;
            let sx: usize = if wraps { 0 } else { x };
            let sy: usize = if wraps { y + mh } else { y };
            if g.width > ATLAS_DIM - sx || sy > ATLAS_DIM || g.height > ATLAS_DIM - sy {
                proof {
                    assert(!slot_fits(ord, ms, k as nat));
                }
                return None;
            }
            let a = Area(
                Vec2 { x: sx as i64, y: sy as i64 },
                Vec2 { x: (sx + g.width) as i64, y: (sy + g.height) as i64 },
            );
            places.set(id, a);
            proof {
                assert(slot_fits(ord, ms, k as nat));
                assert(a == slot_area(ord, ms, k as nat));
                assert forall|q: nat| q < k + 1 implies places@[#[trigger] ord[q as int] as int]
                    == slot_area(ord, ms, q) by {
                    if q < k {
                        assert(ord[q as int] != ord[k as int]);
                    }
                }
            }
            if wraps {
                x = g.width;
                y = sy;
                mh = g.height;
            } else {
                x = sx + g.width;
                if g.height > mh {
                    mh = g.height;
                }
            }
            k += 1;
        }
        proof {
            lemma_each_glyph_sized(ord, ms, places@, n as nat);
        }
        Some(places)
    }

    /// The texture bytes for the current placements.
    fn pixels(&self) -> (rgba: Vec<u8>)
        requires
            self.wf(),
            forall|q: int|
                0 <= q < self.keys().len() ==> {
                    &&& (#[trigger] self.placements()[q]).1.x == self.placements()[q].0.x
                        + self.glyph_metrics()[q].width
                    &&& self.placements()[q].1.y == self.placements()[q].0.y
                        + self.glyph_metrics()[q].height
                },
        ensures
            rgba@ == atlas_pixels(
                self.placements(),
                self.glyph_metrics(),
                self.bitmaps(),
                self.keys().len() as nat,
            ),
    {
        let n = self.keys.len();
        let ghost ms = self.metrics@;
        let total: usize = ATLAS_DIM * ATLAS_DIM * 4;
        let mut rgba: Vec<u8> = Vec::new();
        let mut t: usize = 0;
        while t < total
            invariant
                t <= total,
                total == texture_len(),
                rgba@.len() == t,
                forall|q: int| 0 <= q < t ==> #[trigger] rgba@[q] == 0xffu8,
            decreases total - t,
        {
            rgba.push(0xffu8);
            t += 1;
        }
        assert(rgba@ =~= atlas_pixels(self.texarea@, ms, self.bitmaps(), 0));
        let mut g: usize = 0;
        while g < n
            invariant
                self.wf(),
                ms == self.metrics@,
                n == self.keys@.len(),
                g <= n,
                forall|q: int|
                    0 <= q < self.keys().len() ==> {
                        &&& (#[trigger] self.placements()[q]).1.x == self.placements()[q].0.x
                            + self.glyph_metrics()[q].width
                        &&& self.placements()[q].1.y == self.placements()[q].0.y
                            + self.glyph_metrics()[q].height
                    },
                rgba@ == atlas_pixels(self.texarea@, ms, self.bitmaps(), g as nat),
                rgba@.len() == texture_len(),
            decreases n - g,
        {
            self.blit_glyph(&mut rgba, g);
            g += 1;
        }
        rgba
    }

    /// Copies the coverage of glyph `g` into the alpha bytes of its rectangle.
    fn blit_glyph(&self, rgba: &mut Vec<u8>, g: usize)
        requires
            self.wf(),
            g < self.keys().len(),
            old(rgba)@.len() == texture_len(),
            self.placements()[g as int].1.x == self.placements()[g as int].0.x
                + self.glyph_metrics()[g as int].width,
            self.placements()[g as int].1.y == self.placements()[g as int].0.y
                + self.glyph_metrics()[g as int].height,
        ensures
            final(rgba)@ == blit(
                old(rgba)@,
                self.placements()[g as int],
                self.glyph_metrics()[g as int].width as int,
                self.bitmaps()[g as int],
                self.bitmaps()[g as int].len() as int,
            ),
    {
        let area = self.texarea[g];
        let w = self.metrics[g].width;
        let h = self.metrics[g].height;
        let len = self.bitmaps[g].len();
        let ghost base = rgba@;
        let ghost bm = self.bitmaps@[g as int]@;
        assert(within_atlas(area));
        assert(bm == self.bitmaps()[g as int]);
        assert(rgba@ =~= blit(base, area, w as int, bm, 0));
        let mut b: usize = 0;
        while b < len
            invariant
                self.wf(),
                g < self.keys().len(),
                area == self.texarea@[g as int],
                within_atlas(area),
                area.1.x == area.0.x + w,
                area.1.y == area.0.y + h,
                w == self.metrics@[g as int].width,
                h == self.metrics@[g as int].height,
                bm == self.bitmaps@[g as int]@,
                len == bm.len(),
                b <= len,
                base.len() == texture_len(),
                rgba@ == blit(base, area, w as int, bm, b as int),
            decreases len - b,
        {
            proof {
                lemma_blit_step(base, area, w as int, h as int, bm, b as int);
            }
            let row = b / w;
            let col = b % w;
            let idx = ((area.0.y as usize + row) * ATLAS_DIM + area.0.x as usize + col) * 4 + 3;
            rgba.set(idx, self.bitmaps[g][b]);
            b += 1;
        }
    }
}

/// Looking a glyph up a second time with the same character and size
/// returns the same id and changes nothing, the changed flag included.
pub proof fn lemma_lookup_idempotent<R: Rasterizer>(
    a0: FontAtlas<R>,
    a1: FontAtlas<R>,
    a2: FontAtlas<R>,
    k: GlyphKey,
    id1: usize,
    id2: usize,
)
    requires
        a0.wf(),
        a0.lookup_result(k, a1, id1),
        a1.lookup_result(k, a2, id2),
    ensures
        id1 == id2,
        a2.keys() == a1.keys(),
        a2.glyph_metrics() == a1.glyph_metrics(),
        a2.bitmaps() == a1.bitmaps(),
        a2.placements() == a1.placements(),
        a2.is_changed() == a1.is_changed(),
{
    assert(a1.keys().contains(k)) by {
        assert(a1.keys()[id1 as int] == k);
    }
    lemma_index_unique(a1, k, id1 as int);
}

proof fn lemma_index_unique<R: Rasterizer>(a: FontAtlas<R>, k: GlyphKey, id: int)
    requires
        a.keys().no_duplicates(),
        0 <= id < a.keys().len(),
        a.keys()[id] == k,
    ensures
        a.keys().index_of(k) == id,
{
    assert(a.keys().contains(k));
    let j = a.keys().index_of(k);
    assert(0 <= j < a.keys().len() && a.keys()[j] == k);
}

/// Packing depends on nothing but the cached glyphs: two atlases holding
/// the same glyphs, in the same order, pack them into the same rectangles
/// and the same texture bytes.
pub proof fn lemma_pack_deterministic<R: Rasterizer>(
    a: FontAtlas<R>,
    a2: FontAtlas<R>,
    ta: TextureData,
    b: FontAtlas<R>,
    b2: FontAtlas<R>,
    tb: TextureData,
)
    requires
        a.wf(),
        b.wf(),
        a.keys().len() <= usize::MAX,
        a.keys() == b.keys(),
        a.glyph_metrics() == b.glyph_metrics(),
        a.bitmaps() == b.bitmaps(),
        a.packed_into(a2, ta),
        b.packed_into(b2, tb),
    ensures
        a2.placements() == b2.placements(),
        ta.bytes@ == tb.bytes@,
        ta.width == tb.width && ta.height == tb.height,
{
    let n = a.keys().len() as nat;
    let ms = a.glyph_metrics();
    let order = pack_order(ms, n);
    lemma_pack_order(ms, n);
    assert forall|g: int| 0 <= g < n implies a2.placements()[g] == b2.placements()[g] by {
        assert(order.contains(g as usize));
        let q = choose|q: int| 0 <= q < order.len() && order[q] == g as usize;
        assert(a2.placements()[order[q as nat as int] as int] == slot_area(order, ms, q as nat));
        assert(b2.placements()[order[q as nat as int] as int] == slot_area(order, ms, q as nat));
    }
    assert(a2.placements() =~= b2.placements());
}

proof fn lemma_table_index<R: Rasterizer>(a: FontAtlas<R>, id: usize)
    requires
        a.wf(),
        id < a.keys().len(),
    ensures
        a.table().contains_key(a.keys()[id as int]),
        a.table()[a.keys()[id as int]] == a.glyph_metrics()[id as int],
{
    lemma_index_unique(a, a.keys()[id as int], id as int);
}

/// Growing an atlas keeps what its table held.
pub proof fn lemma_grows_submap<R: Rasterizer>(a: FontAtlas<R>, b: FontAtlas<R>)
    requires
        a.wf(),
        b.wf(),
        a.grows_to(b),
    ensures
        a.table().submap_of(b.table()),
{
    assert forall|k: GlyphKey| #[trigger] a.table().dom().contains(k) implies b.table().dom().contains(k)
        && a.table()[k] == b.table()[k] by {
        let i = a.keys().index_of(k);
        assert(a.keys().contains(k));
        assert(0 <= i < a.keys().len() && a.keys()[i] == k);
        assert(b.keys().subrange(0, a.keys().len() as int)[i] == b.keys()[i]);
        assert(b.glyph_metrics().subrange(0, a.keys().len() as int)[i] == b.glyph_metrics()[i]);
        assert(b.keys()[i] == a.keys()[i]);
        assert(b.glyph_metrics()[i] == a.glyph_metrics()[i]);
        lemma_index_unique(b, k, i);
    }
}

pub proof fn lemma_grows_refl<R: Rasterizer>(a: FontAtlas<R>)
    requires
        a.wf(),
    ensures
        a.grows_to(a),
        a.table().submap_of(a.table()),
{
    assert(a.keys().subrange(0, a.keys().len() as int) =~= a.keys());
    assert(a.glyph_metrics().subrange(0, a.keys().len() as int) =~= a.glyph_metrics());
    assert(a.bitmaps().subrange(0, a.keys().len() as int) =~= a.bitmaps());
    assert(a.placements().subrange(0, a.keys().len() as int) =~= a.placements());
}

pub proof fn lemma_grows_trans<R: Rasterizer>(a: FontAtlas<R>, b: FontAtlas<R>, c: FontAtlas<R>)
    requires
        a.wf(),
        b.wf(),
        c.wf(),
        a.grows_to(b),
        b.grows_to(c),
        a.table().submap_of(b.table()),
        b.table().submap_of(c.table()),
    ensures
        a.grows_to(c),
        a.table().submap_of(c.table()),
{
    let n = a.keys().len() as int;
    let m = b.keys().len() as int;
    assert(c.keys().subrange(0, n) =~= c.keys().subrange(0, m).subrange(0, n));
    assert(c.glyph_metrics().subrange(0, n) =~= c.glyph_metrics().subrange(0, m).subrange(0, n));
    assert(c.bitmaps().subrange(0, n) =~= c.bitmaps().subrange(0, m).subrange(0, n));
    assert(c.placements().subrange(0, n) =~= c.placements().subrange(0, m).subrange(0, n));
    assert forall|k: GlyphKey| #[trigger] a.table().dom().contains(k) implies c.table().dom().contains(k)
        && a.table()[k] == c.table()[k] by {
        assert(b.table().dom().contains(k));
    }
}

/// A well-formed atlas holds one record of each kind per glyph.
pub proof fn lemma_wf_lens<R: Rasterizer>(a: FontAtlas<R>)
    requires
        a.wf(),
    ensures
        a.glyph_metrics().len() == a.keys().len(),
        a.bitmaps().len() == a.keys().len(),
        a.placements().len() == a.keys().len(),
{
}

/// The keys of a well-formed atlas are distinct.
pub proof fn lemma_keys_distinct<R: Rasterizer>(a: FontAtlas<R>)
    requires
        a.wf(),
    ensures
        a.keys().no_duplicates(),
{
}

/// Once a glyph has an id, looking its key up again returns that id and
/// adds nothing, whatever lookups and packings came in between, as long as
/// the atlas kept its glyphs (see [`FontAtlas::grows_to`]).
pub proof fn lemma_lookup_stable<R: Rasterizer>(
    a: FontAtlas<R>,
    b: FontAtlas<R>,
    c: FontAtlas<R>,
    k: GlyphKey,
    id: usize,
    r: usize,
)
    requires
        a.wf(),
        b.wf(),
        id < a.keys().len(),
        a.keys()[id as int] == k,
        a.grows_to(b),
        b.lookup_result(k, c, r),
    ensures
        r == id,
        c.keys() == b.keys(),
        c.is_changed() == b.is_changed(),
{
    assert(b.keys().subrange(0, a.keys().len() as int)[id as int] == b.keys()[id as int]);
    assert(b.keys().contains(k));
    lemma_index_unique(b, k, id as int);
}

} // verus!
