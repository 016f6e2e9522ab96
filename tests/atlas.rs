use ruglet::atlas::{AtlasError, FontAtlas, GlyphMetrics, Rasterizer, ATLAS_DIM, UV_ONE};
use ruglet::geometry::{Area, Vec2};

/// Every glyph is a `w` × `h` box of coverage `c as u8`, advancing `adv`.
struct Boxes {
    w: usize,
    h: usize,
    adv: i64,
}

impl Rasterizer for Boxes {
    fn rasterize(&self, c: char, _px: u16) -> (GlyphMetrics, Vec<u8>) {
        let m = GlyphMetrics { xmin: 0, ymin: 0, width: self.w, height: self.h, advance_width: self.adv };
        (m, vec![c as u8; self.w * self.h])
    }
}

/// Glyph size depends on the character: height = digit value.
struct Tall;

impl Rasterizer for Tall {
    fn rasterize(&self, c: char, _px: u16) -> (GlyphMetrics, Vec<u8>) {
        let h = c.to_digit(10).unwrap_or(1) as usize;
        let m = GlyphMetrics { xmin: 0, ymin: 0, width: 400, height: h, advance_width: 10 };
        (m, vec![200; 400 * h])
    }
}

#[test]
fn lookup_twice_returns_same_id_and_keeps_flag_clear() {
    let mut a = FontAtlas::new(Boxes { w: 2, h: 2, adv: 5 });
    assert!(!a.texture_changed());
    let first = a.get('x', 60);
    assert!(a.texture_changed());
    assert!(a.consume_changed());
    assert!(!a.texture_changed());
    let second = a.get('x', 60);
    assert_eq!(first, second);
    assert!(!a.texture_changed());
    assert_eq!(a.len(), 1);
}

#[test]
fn packing_leaves_the_flag_and_consuming_clears_it() {
    let mut a = FontAtlas::new(Boxes { w: 2, h: 2, adv: 5 });
    a.get('x', 60);
    assert!(a.build_texture().is_ok());
    assert!(a.texture_changed());
    assert!(a.consume_changed());
    assert!(!a.consume_changed());
    assert!(!a.texture_changed());
}

#[test]
fn new_keys_get_new_ids() {
    let mut a = FontAtlas::new(Boxes { w: 2, h: 2, adv: 5 });
    assert_eq!(a.get('a', 60), 0);
    assert_eq!(a.get('b', 60), 1);
    assert_eq!(a.get('a', 30), 2);
    assert_eq!(a.get('b', 60), 1);
}

#[test]
fn size_reports_advance_and_pixel_size() {
    let mut a = FontAtlas::new(Boxes { w: 2, h: 2, adv: 33 });
    assert_eq!(a.size('q', 60), Vec2::new(33, 60));
    let id = a.get('q', 60);
    assert_eq!(a.metrics(id).advance_width, 33);
}

#[test]
fn shelf_packing_sorts_by_height_and_wraps() {
    let mut a = FontAtlas::new(Tall);
    // heights 2, 5, 5, 3; each 400 wide, so two fit on a shelf of 1024.
    let i2 = a.get('2', 60);
    let i5 = a.get('5', 60);
    let j5 = a.get('5', 61);
    let i3 = a.get('3', 60);
    assert!(a.build_texture().is_ok());
    let uv = |x: i64| x * UV_ONE / ATLAS_DIM as i64;
    // order: 5 (id 1), 5 (id 2), 3, 2
    assert_eq!(a.texture_area(i5), Area(Vec2::new(0, 0), Vec2::new(uv(400), uv(5))));
    assert_eq!(a.texture_area(j5), Area(Vec2::new(uv(400), 0), Vec2::new(uv(800), uv(5))));
    assert_eq!(a.texture_area(i3), Area(Vec2::new(0, uv(5)), Vec2::new(uv(400), uv(8))));
    assert_eq!(a.texture_area(i2), Area(Vec2::new(uv(400), uv(5)), Vec2::new(uv(800), uv(7))));
}

#[test]
fn texture_is_white_with_coverage_in_alpha() {
    let mut a = FontAtlas::new(Boxes { w: 2, h: 3, adv: 5 });
    a.get('A', 60);
    let t = a.build_texture().unwrap();
    assert_eq!((t.width, t.height), (1024, 1024));
    assert_eq!(t.bytes.len(), 1024 * 1024 * 4);
    // pixel (1, 2) is inside the glyph: alpha = 'A'
    let px = (2 * 1024 + 1) * 4;
    assert_eq!(&t.bytes[px..px + 4], &[255, 255, 255, b'A']);
    // pixel (2, 0) is outside: untouched
    let px = 2 * 4;
    assert_eq!(&t.bytes[px..px + 4], &[255, 255, 255, 255]);
}

#[test]
fn packing_is_deterministic() {
    let build = || {
        let mut a = FontAtlas::new(Tall);
        for c in "31415926".chars() {
            a.get(c, 60);
        }
        let t = a.build_texture().unwrap();
        let areas: Vec<Area> = (0..a.len()).map(|i| a.texture_area(i)).collect();
        (t.bytes, areas)
    };
    let (b1, a1) = build();
    let (b2, a2) = build();
    assert_eq!(a1, a2);
    assert!(b1 == b2);
}

#[test]
fn repacking_gives_the_same_result() {
    let mut a = FontAtlas::new(Tall);
    for c in "2718".chars() {
        a.get(c, 60);
    }
    let t1 = a.build_texture().unwrap();
    let t2 = a.build_texture().unwrap();
    assert!(t1.bytes == t2.bytes);
}

#[test]
fn overflow_is_reported() {
    let mut a = FontAtlas::new(Boxes { w: 600, h: 600, adv: 5 });
    a.get('a', 60);
    assert!(a.build_texture().is_ok());
    a.get('b', 60);
    // two 600x600 glyphs need two shelves: 1200 rows > 1024
    assert_eq!(a.build_texture().err(), Some(AtlasError::Full));
    // the flag stays set so the caller can see the texture is stale
    assert!(a.texture_changed());
}

#[test]
fn too_wide_glyph_does_not_fit() {
    let mut a = FontAtlas::new(Boxes { w: 2000, h: 1, adv: 5 });
    a.get('a', 60);
    assert_eq!(a.build_texture().err(), Some(AtlasError::Full));
}

#[test]
fn empty_atlas_packs_to_white() {
    let mut a = FontAtlas::new(Boxes { w: 1, h: 1, adv: 1 });
    let t = a.build_texture().unwrap();
    assert!(t.bytes.iter().all(|b| *b == 255));
}

#[test]
fn garbage_is_not_a_font() {
    assert!(ruglet::atlas::FontRasterizer::from_bytes(&[0, 1, 2, 3, 4, 5, 6, 7]).is_none());
    assert!(ruglet::atlas::FontRasterizer::from_bytes(&[]).is_none());
}

#[test]
fn mis_sized_bitmap_becomes_an_empty_glyph() {
    struct Short;
    impl Rasterizer for Short {
        fn rasterize(&self, _c: char, _px: u16) -> (GlyphMetrics, Vec<u8>) {
            let m = GlyphMetrics { xmin: 1, ymin: 2, width: 4, height: 4, advance_width: 9 };
            (m, vec![7; 10])
        }
    }
    let mut a = FontAtlas::new(Short);
    let id = a.get('z', 60);
    let m = a.metrics(id);
    assert_eq!((m.width, m.height), (0, 0));
    assert_eq!((m.xmin, m.ymin, m.advance_width), (1, 2, 9));
    let t = a.build_texture().unwrap();
    assert!(t.bytes.iter().all(|b| *b == 255));
}
