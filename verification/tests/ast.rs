use drf_parser::ast::color::Color;
use drf_parser::ast::drf::Drf;
use drf_parser::ast::line_style::LineStyle;
use drf_parser::ast::packet::Packet;
use drf_parser::ast::stipple::Stipple;

fn strings(words: &[&str]) -> Vec<String> {
    words.iter().map(|w| w.to_string()).collect()
}

#[test]
fn color_new_keeps_components() {
    let c = Color::new(String::from("red"), 255, 1, 2, true);
    assert_eq!(c.name, "red");
    assert_eq!(c.rgb, [255, 1, 2]);
    assert!(c.blink);
}

#[test]
fn color_from_fields() {
    let c = Color::from_vec(&strings(&["display", "white", "255", "254", "0"]));
    assert_eq!(c.name, "white");
    assert_eq!(c.rgb, [255, 254, 0]);
    assert!(!c.blink);
    let c = Color::from_vec(&strings(&["display", "blinky", "+1", "02", "3", "t"]));
    assert_eq!(c.rgb, [1, 2, 3]);
    assert!(c.blink);
    let c = Color::from_vec(&strings(&["display", "steady", "1", "2", "3", "true"]));
    assert!(!c.blink);
    let c = Color::from_vec(&strings(&["display", "many", "1", "2", "3", "t", "x"]));
    assert!(!c.blink);
}

#[test]
fn packet_new_is_empty() {
    let p = Packet::new();
    assert_eq!(p.name, "");
    assert_eq!(p.stipple, "");
    assert_eq!(p.line_style, "");
    assert_eq!(p.fill, "");
    assert_eq!(p.outline, "");
    assert_eq!(p.fill_style, None);
}

#[test]
fn packet_from_fields() {
    let p = Packet::from_vec(&strings(&["display", "M1", "dots", "solid", "red", "white"]));
    assert_eq!(p.name, "M1");
    assert_eq!(p.stipple, "dots");
    assert_eq!(p.line_style, "solid");
    assert_eq!(p.fill, "red");
    assert_eq!(p.outline, "white");
    assert_eq!(p.fill_style, None);
    let p = Packet::from_vec(&strings(&["d", "M2", "s", "l", "f", "o", "X"]));
    assert_eq!(p.outline, "o");
    assert_eq!(p.fill_style, Some(String::from("X")));
}

#[test]
fn stipple_new_and_from_fields() {
    let t = Stipple::new(String::from("s"), vec![vec![1, 0, 1]], 7, 9);
    assert_eq!(t.name, "s");
    assert_eq!((t.row, t.col), (7, 9));
    let t = Stipple::from_vec(&strings(&["display", "dots"]), 2, vec![vec![1, 0, 1], vec![0]]);
    assert_eq!(t.name, "dots");
    assert_eq!(t.row, 2);
    assert_eq!(t.col, 3);
    assert_eq!(t.bitmap, vec![vec![1, 0, 1], vec![0]]);
}

#[test]
fn line_style_new_and_from_fields() {
    let l = LineStyle::new(String::from("solid"), String::from("1"), vec![1]);
    assert_eq!(l.name, "solid");
    assert_eq!(l.width, "1");
    assert_eq!(l.pattern, vec![1]);
    let l = LineStyle::from_vec(&strings(&["display", "dash", "2.5"]), vec![1, 0]);
    assert_eq!(l.name, "dash");
    assert_eq!(l.width, "2.5");
    assert_eq!(l.pattern, vec![1, 0]);
}

#[test]
fn drf_new_is_empty() {
    let d = Drf::new(String::from("display"));
    assert_eq!(d.name, "display");
    assert_eq!(d.colors.len(), 0);
    assert_eq!(d.stipples.len(), 0);
    assert_eq!(d.line_styles.len(), 0);
    assert_eq!(d.packets.len(), 0);
}
