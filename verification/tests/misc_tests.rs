use flwing::embed::{embed_font, EmbeddedFont};
use flwing::geometry::{Color, Point2D};
use flwing::gradient::{MeshGradient, MeshPoint};
use flwing::kinds::{NoiseType, TraceMode, Tool};
use flwing::text::{push_decimal, str_eq, starts_with};

fn grid(rows: usize, cols: usize) -> MeshGradient {
    let p = MeshPoint {
        position: Point2D::zero(),
        color: Color::white(),
        handle_top: Point2D::zero(),
        handle_bottom: Point2D::zero(),
        handle_left: Point2D::zero(),
        handle_right: Point2D::zero(),
    };
    MeshGradient { rows: rows as u32 - 1, cols: cols as u32 - 1, points: vec![vec![p; cols]; rows] }
}

#[test]
fn mesh_set_color() {
    let mut mesh = grid(3, 3);
    let red = Color::new(255, 0, 0, 255);
    mesh.set_color(0, 0, red);
    mesh.set_color(0, 2, Color::new(0, 0, 255, 255));
    assert_eq!(mesh.points[0][0].color, red);
    assert_eq!(mesh.points[0][2].color, Color::new(0, 0, 255, 255));
    assert_eq!(mesh.points[0][1].color, Color::white());
    let before = mesh.points.clone();
    mesh.set_color(3, 0, red);
    mesh.set_color(0, 3, red);
    assert_eq!(mesh.points, before);
}

#[test]
fn colors() {
    assert_eq!(Color::from_hex(0xFF8000), Color::new(255, 128, 0, 255));
    assert_eq!(Color::from_hex(0x12345678), Color::new(0x34, 0x56, 0x78, 255));
    assert_eq!(Color::black(), Color::new(0, 0, 0, 255));
}

#[test]
fn embedding_skips_duplicates() {
    let mut fonts: Vec<EmbeddedFont> = Vec::new();
    embed_font(&mut fonts, "Noto", "Regular", vec![1]);
    embed_font(&mut fonts, "Noto", "Bold", vec![2]);
    embed_font(&mut fonts, "Noto", "Regular", vec![3]);
    assert_eq!(fonts.len(), 2);
    assert_eq!(fonts[0].data, vec![1]);
    assert_eq!(fonts[1].style, "Bold");
}

#[test]
fn enums_compare() {
    assert_ne!(Tool::Select, Tool::Pen);
    assert_eq!(NoiseType::Worley, NoiseType::Worley);
    assert_ne!(TraceMode::Color, TraceMode::Binary);
}

#[test]
fn text_helpers() {
    let mut s = String::from("V");
    push_decimal(&mut s, 0);
    push_decimal(&mut s, 1203);
    assert_eq!(s, "V01203");
    assert!(str_eq("한글", "한글"));
    assert!(!str_eq("a", "ab"));
    assert!(starts_with("ko-KR", "ko"));
    assert!(!starts_with("k", "ko"));
}
