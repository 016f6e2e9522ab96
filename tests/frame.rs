use ruglet::atlas::UV_ONE;
use ruglet::div::Div;
use ruglet::frame::{Frame, Rgb, Vertex};
use ruglet::geometry::{Area, Vec2};
use ruglet::textbook::TextBook;
use ruglet::wrap::is_white;

#[test]
fn new_frame_is_empty_with_white_texture() {
    let f = Frame::new(640, 480);
    assert_eq!(f.area, Area(Vec2::new(0, 0), Vec2::new(640, 480)));
    assert!(f.vertices.is_empty());
    assert_eq!(f.texture_bytes, vec![255, 255, 255, 255]);
    assert_eq!(f.texture_dimensions, (1, 1));
    assert!(!f.texture_changed);
}

#[test]
fn quad_emits_two_triangles() {
    let mut f = Frame::new(10, 10);
    let c = Rgb { r: 1, g: 2, b: 3 };
    f.quad(Area(Vec2::new(1, 2), Vec2::new(5, 7)), Area(Vec2::new(10, 20), Vec2::new(30, 40)), c);
    let v = |x, y, u, vv| Vertex { x, y, u, v: vv, color: c };
    assert_eq!(
        f.vertices,
        vec![
            v(1, 2, 10, 20),
            v(1, 7, 10, 40),
            v(5, 7, 30, 40),
            v(5, 7, 30, 40),
            v(5, 2, 30, 20),
            v(1, 2, 10, 20),
        ]
    );
}

#[test]
fn set_texture_marks_change() {
    let mut f = Frame::new(10, 10);
    f.set_texture(vec![1, 2, 3, 4, 5, 6, 7, 8], (2, 1));
    assert!(f.texture_changed);
    assert_eq!(f.texture_dimensions, (2, 1));
    assert_eq!(f.texture_bytes.len(), 8);
}

#[test]
fn text_book_ids_are_stable() {
    let mut b = TextBook::new();
    let a = b.add("hello");
    let c = b.add("world");
    assert_eq!((a, c), (0, 1));
    assert_eq!(b.get(a), "hello");
    assert_eq!(b.get(c), "world");
    assert_eq!(b.chars(c), vec!['w', 'o', 'r', 'l', 'd']);
    assert_eq!(b.len(), 2);
}

#[test]
fn white_space_matches_std() {
    for u in 0u32..0x3100 {
        if let Some(c) = char::from_u32(u) {
            assert_eq!(is_white(c), c.is_whitespace(), "{:?}", c);
        }
    }
}

#[test]
fn div_takes_fixed_or_filling_size() {
    let mut f = Frame::new(100, 100);
    let area = Area(Vec2::new(10, 10), Vec2::new(90, 90));
    let fixed = Div::new().size(20, 30);
    assert_eq!(fixed.render(&mut f, &area), Area(Vec2::new(10, 10), Vec2::new(30, 40)));
    let fill = Div::new();
    assert_eq!(fill.render(&mut f, &area), area);
    assert!(f.vertices.is_empty());
}

#[test]
fn div_draws_background_then_flows_children() {
    let mut f = Frame::new(100, 100);
    let red = Rgb { r: 255, g: 0, b: 0 };
    let blue = Rgb { r: 0, g: 0, b: 255 };
    let kids = vec![
        Div::new().size(30, 10).bg(blue),
        Div::new().size(30, 20).bg(blue),
        Div::new().size(30, 10).bg(blue),
    ];
    let d = Div::new().size(80, 80).pad(5).bg(red).children(kids);
    let area = Area(Vec2::new(0, 0), Vec2::new(100, 100));
    assert_eq!(d.render(&mut f, &area), Area(Vec2::new(0, 0), Vec2::new(80, 80)));
    assert_eq!(f.vertices.len(), 24);
    assert_eq!(f.vertices[0].color, red);
    assert_eq!((f.vertices[2].x, f.vertices[2].y), (80, 80));
    assert_eq!((f.vertices[2].u, f.vertices[2].v), (UV_ONE, UV_ONE));
    // first child at the padded corner, second beside it
    assert_eq!((f.vertices[6].x, f.vertices[6].y), (5, 5));
    assert_eq!((f.vertices[12].x, f.vertices[12].y), (35, 5));
    // third would cross x = 75: it wraps below the tallest box of the row
    assert_eq!((f.vertices[18].x, f.vertices[18].y), (5, 25));
}
