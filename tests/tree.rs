use ruglet::atlas::{AtlasError, FontAtlas, GlyphMetrics, Rasterizer};
use ruglet::frame::Frame;
use ruglet::geometry::{Area, Vec2};
use ruglet::textbook::TextBook;
use ruglet::paint::paint_text;
use ruglet::tree::{NodeKind, Tree};

/// Every character advances 60 pixels and is a 10×10 box.
struct Mono;

impl Rasterizer for Mono {
    fn rasterize(&self, _c: char, _px: u16) -> (GlyphMetrics, Vec<u8>) {
        let m = GlyphMetrics { xmin: 0, ymin: 0, width: 10, height: 10, advance_width: 60 };
        (m, vec![255; 100])
    }
}

fn rect(x0: i64, y0: i64, x1: i64, y1: i64) -> Area {
    Area(Vec2::new(x0, y0), Vec2::new(x1, y1))
}

fn texts(tree: &mut Tree, book: &mut TextBook, lines: &[&str]) -> Vec<usize> {
    lines
        .iter()
        .map(|s| {
            let t = book.add(s);
            tree.add(NodeKind::Text(t), vec![])
        })
        .collect()
}

#[test]
fn pad_of_three_texts_in_a_thousand_pixel_viewport() {
    let mut tree = Tree::new();
    let mut book = TextBook::new();
    let mut atlas = FontAtlas::new(Mono);
    let kids = texts(&mut tree, &mut book, &["A", "BB", "CCC"]);
    let root = tree.add(NodeKind::Pad(50), kids.clone());
    let mut frame = Frame::new(1000, 1000);
    assert_eq!(tree.build(root, &mut frame, &mut atlas, &book), Ok(()));
    // each text is one row of 80 pixels; a line height separates the children
    assert_eq!(tree.area(kids[0]), rect(50, 50, 950, 130));
    assert_eq!(tree.area(kids[1]), rect(50, 210, 950, 290));
    assert_eq!(tree.area(kids[2]), rect(50, 370, 950, 450));
    assert_eq!(tree.area(root), rect(0, 0, 1000, 1000));
}

#[test]
fn pad_reports_content_height_with_both_paddings() {
    let mut tree = Tree::new();
    let mut book = TextBook::new();
    let mut atlas = FontAtlas::new(Mono);
    let kids = texts(&mut tree, &mut book, &["A", "BB", "CCC"]);
    let pad = tree.add(NodeKind::Pad(50), kids);
    let root = tree.add(NodeKind::Scroll(0), vec![pad]);
    let mut frame = Frame::new(1000, 1000);
    tree.build(root, &mut frame, &mut atlas, &book).unwrap();
    // 50 + three rows of 80 with a line height between them + 50
    assert_eq!(tree.area(pad), rect(0, 0, 1000, 500));
}

#[test]
fn long_text_wraps_into_rows() {
    let mut tree = Tree::new();
    let mut book = TextBook::new();
    let mut atlas = FontAtlas::new(Mono);
    // words of 5 chars = 300 px; row + 300 + 30 must stay within 700
    let kids = texts(&mut tree, &mut book, &["aaaaa bbbbb ccccc ddddd eeeee"]);
    let root = tree.add(NodeKind::Pad(0), kids.clone());
    let mut frame = Frame::new(700, 2000);
    tree.build(root, &mut frame, &mut atlas, &book).unwrap();
    // rows: [aaaaa bbbbb] [ccccc ddddd] [eeeee]: after a wrap the row holds the word alone
    let a = tree.area(kids[0]);
    assert_eq!(a.h(), 240);
}

#[test]
fn pad_stops_below_the_viewport() {
    let mut tree = Tree::new();
    let mut book = TextBook::new();
    let mut atlas = FontAtlas::new(Mono);
    let kids = texts(&mut tree, &mut book, &["one", "two", "three"]);
    let root = tree.add(NodeKind::Pad(0), kids.clone());
    let mut frame = Frame::new(500, 100);
    tree.build(root, &mut frame, &mut atlas, &book).unwrap();
    assert_eq!(tree.area(kids[0]), rect(0, 0, 500, 80));
    // cursor 160 > 100: the others are never placed
    assert_eq!(tree.area(kids[1]), Area::zero());
    assert_eq!(tree.area(kids[2]), Area::zero());
}

#[test]
fn scrolling_moves_texts_up_by_the_offset() {
    let mut tree = Tree::new();
    let mut book = TextBook::new();
    let mut atlas = FontAtlas::new(Mono);
    let kids = texts(&mut tree, &mut book, &["first line", "second", "third one here"]);
    let pad = tree.add(NodeKind::Pad(20), kids.clone());
    let root = tree.add(NodeKind::Scroll(0), vec![pad]);
    let mut frame = Frame::new(800, 600);
    tree.build(root, &mut frame, &mut atlas, &book).unwrap();
    let before: Vec<Area> = kids.iter().map(|k| tree.area(*k)).collect();
    tree.update(root, NodeKind::Scroll(130));
    let mut frame = Frame::new(800, 600);
    tree.build(root, &mut frame, &mut atlas, &book).unwrap();
    for (k, b) in kids.iter().zip(before.iter()) {
        let a = tree.area(*k);
        assert_eq!(a.0.y, b.0.y - 130);
        assert_eq!(a.1.y, b.1.y - 130);
        assert_eq!(a.0.x, b.0.x);
        assert_eq!(a.w(), b.w());
    }
}

#[test]
fn click_finds_the_clickable_under_the_pointer() {
    let mut tree = Tree::new();
    let mut book = TextBook::new();
    let mut atlas = FontAtlas::new(Mono);
    let t0 = texts(&mut tree, &mut book, &["alpha"])[0];
    let c0 = tree.add(NodeKind::Clickable(7), vec![t0]);
    let t1 = texts(&mut tree, &mut book, &["beta"])[0];
    let c1 = tree.add(NodeKind::Clickable(9), vec![t1]);
    let pad = tree.add(NodeKind::Pad(10), vec![c0, c1]);
    let root = tree.add(NodeKind::Scroll(0), vec![pad]);
    let mut frame = Frame::new(400, 400);
    tree.build(root, &mut frame, &mut atlas, &book).unwrap();
    let r0 = tree.area(t0);
    assert_eq!(tree.area(c0), r0);
    assert_eq!(tree.click(root, Vec2::new(r0.0.x + 1, r0.0.y + 1)), Some(7));
    let r1 = tree.area(t1);
    assert_eq!(tree.click(root, Vec2::new(r1.1.x - 1, r1.1.y - 1)), Some(9));
    // between the two rows
    assert_eq!(tree.click(root, Vec2::new(100, r0.1.y + 10)), None);
    // outside the root
    assert_eq!(tree.click(root, Vec2::new(500, 10)), None);
    assert_eq!(tree.click(root, Vec2::new(-1, 10)), None);
}

#[test]
fn replace_keeps_the_root_handle() {
    let mut tree = Tree::new();
    let mut book = TextBook::new();
    let mut atlas = FontAtlas::new(Mono);
    let old_kids = texts(&mut tree, &mut book, &["old a", "old b"]);
    let old_pad = tree.add(NodeKind::Pad(5), old_kids.clone());
    let root = tree.add(NodeKind::Scroll(0), vec![old_pad]);
    let new_kids = texts(&mut tree, &mut book, &["new"]);
    let new_pad = tree.add(NodeKind::Pad(5), new_kids.clone());
    let new_root = tree.add(NodeKind::Scroll(0), vec![new_pad]);
    tree.replace(root, new_root);
    assert_eq!(tree.get(root), NodeKind::Scroll(0));
    assert_eq!(tree.get(old_pad), NodeKind::Deleted);
    for k in &old_kids {
        assert_eq!(tree.get(*k), NodeKind::Deleted);
    }
    assert_eq!(tree.get(new_pad), NodeKind::Pad(5));
    let mut frame = Frame::new(300, 300);
    assert_eq!(tree.build(root, &mut frame, &mut atlas, &book), Ok(()));
    assert_eq!(tree.area(new_kids[0]).0, Vec2::new(5, 5));
    assert_eq!(tree.click(root, Vec2::new(10, 10)), None);
}

#[test]
fn update_changes_the_kind() {
    let mut tree = Tree::new();
    let n = tree.add(NodeKind::Scroll(0), vec![]);
    tree.update(n, NodeKind::Scroll(-40));
    assert_eq!(tree.get(n), NodeKind::Scroll(-40));
}

#[test]
fn painting_emits_one_quad_per_glyph() {
    let mut atlas = FontAtlas::new(Mono);
    let mut frame = Frame::new(300, 300);
    let text: Vec<char> = "  the quick\tbrown  fox jumps ".chars().collect();
    paint_text(&mut frame, &mut atlas, &text, rect(0, 0, 300, 300));
    let glyphs = text.iter().filter(|c| !c.is_whitespace()).count();
    assert_eq!(glyphs, 21);
    assert_eq!(frame.vertices.len(), 6 * glyphs);
}

#[test]
fn build_paints_visible_text_only() {
    let mut tree = Tree::new();
    let mut book = TextBook::new();
    let mut atlas = FontAtlas::new(Mono);
    let kids = texts(&mut tree, &mut book, &["ab cd", "efg"]);
    let root = tree.add(NodeKind::Pad(0), kids);
    let mut frame = Frame::new(500, 500);
    tree.build(root, &mut frame, &mut atlas, &book).unwrap();
    // 4 + 3 glyphs; the pad itself paints nothing
    assert_eq!(frame.vertices.len(), 6 * 7);
    assert!(frame.texture_changed);
    assert_eq!(frame.texture_dimensions, (1024, 1024));
    // second frame: nothing new to rasterize, so no texture upload
    let mut frame = Frame::new(500, 500);
    tree.build(root, &mut frame, &mut atlas, &book).unwrap();
    assert!(!frame.texture_changed);
    assert_eq!(frame.vertices.len(), 6 * 7);
}

#[test]
fn glyphs_sit_on_the_baseline() {
    let mut atlas = FontAtlas::new(Mono);
    let mut frame = Frame::new(300, 300);
    let text: Vec<char> = "ab".chars().collect();
    paint_text(&mut frame, &mut atlas, &text, rect(10, 20, 300, 300));
    // first glyph: x = 10, y = 20 + 80 - 0 - 10
    assert_eq!((frame.vertices[0].x, frame.vertices[0].y), (10, 90));
    // second glyph one advance to the right
    assert_eq!((frame.vertices[6].x, frame.vertices[6].y), (70, 90));
}

#[test]
fn full_atlas_fails_the_build() {
    struct Huge;
    impl Rasterizer for Huge {
        fn rasterize(&self, _c: char, _px: u16) -> (GlyphMetrics, Vec<u8>) {
            let m = GlyphMetrics { xmin: 0, ymin: 0, width: 700, height: 700, advance_width: 60 };
            (m, vec![1; 700 * 700])
        }
    }
    let mut tree = Tree::new();
    let mut book = TextBook::new();
    let mut atlas = FontAtlas::new(Huge);
    let kids = texts(&mut tree, &mut book, &["xy"]);
    let root = tree.add(NodeKind::Pad(0), kids);
    let mut frame = Frame::new(500, 500);
    assert_eq!(tree.build(root, &mut frame, &mut atlas, &book), Err(AtlasError::Full));
    assert!(frame.vertices.is_empty());
}

#[test]
fn texts_in_checks_text_ids() {
    let mut tree = Tree::new();
    let mut book = TextBook::new();
    let t = book.add("x");
    tree.add(NodeKind::Text(t), vec![]);
    assert!(tree.texts_in(&book));
    tree.add(NodeKind::Text(5), vec![]);
    assert!(!tree.texts_in(&book));
}

#[test]
fn scrolling_a_list_of_texts() {
    let mut tree = Tree::new();
    let mut book = TextBook::new();
    let mut atlas = FontAtlas::new(Mono);
    let kids = texts(&mut tree, &mut book, &["a b c", "dd", "e"]);
    let root = tree.add(NodeKind::Scroll(10), kids.clone());
    let mut frame = Frame::new(400, 300);
    tree.build(root, &mut frame, &mut atlas, &book).unwrap();
    assert_eq!(tree.area(kids[0]), rect(0, -10, 400, 70));
    assert_eq!(tree.area(kids[1]), rect(0, 150, 400, 230));
    tree.update(root, NodeKind::Scroll(-40));
    let mut frame = Frame::new(400, 300);
    tree.build(root, &mut frame, &mut atlas, &book).unwrap();
    assert_eq!(tree.area(kids[0]), rect(0, 40, 400, 120));
    assert_eq!(tree.area(kids[1]), rect(0, 200, 400, 280));
    assert_eq!(tree.area(kids[2]), rect(0, 360, 400, 440));
}

#[test]
fn live_detects_deleted_nodes_under_the_root() {
    let mut tree = Tree::new();
    let mut book = TextBook::new();
    let kids = texts(&mut tree, &mut book, &["x", "y"]);
    let root = tree.add(NodeKind::Pad(0), kids.clone());
    assert!(tree.live(root));
    tree.update(kids[1], NodeKind::Deleted);
    assert!(!tree.live(root));
    // the first text reaches its later sibling too
    assert!(!tree.live(kids[0]));
}

#[test]
fn replace_leaves_a_live_tree() {
    let mut tree = Tree::new();
    let mut book = TextBook::new();
    let old_kids = texts(&mut tree, &mut book, &["a"]);
    let root = tree.add(NodeKind::Pad(1), old_kids);
    let new_kids = texts(&mut tree, &mut book, &["b", "c"]);
    let new_root = tree.add(NodeKind::Pad(2), new_kids);
    tree.replace(root, new_root);
    assert!(tree.live(root));
    assert_eq!(tree.get(root), NodeKind::Pad(2));
}
