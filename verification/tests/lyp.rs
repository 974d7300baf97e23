use drf_parser::ast::drf::Drf;
use drf_parser::ast::packet::Packet;
use drf_parser::ast::stipple::Stipple;
use drf_parser::named_map::NamedMap;
use drf_parser::parser::lyp::{
    color_name, klayout_custom_name, normalize_klayout_ref, packet_name, parse_hex_color,
    parse_layer_purpose, parse_lyp, parse_source, scan_content, validate_output, HexColor,
    LypError, LypOutput, ReferenceKind,
};

#[test]
fn parses_layer_properties_into_drf_and_layermap() {
    let content = r##"
<?xml version="1.0" encoding="utf-8"?>
<layer-properties>
 <properties>
  <frame-color>#ff0000</frame-color>
  <fill-color>#00ff00</fill-color>
  <dither-pattern>C0</dither-pattern>
  <line-style>16</line-style>
  <name>M1.drawing - 61/0</name>
  <source>61/0@1</source>
 </properties>
 <properties>
  <frame-color>#ff0000</frame-color>
  <fill-color>#00ff00</fill-color>
  <dither-pattern>I1</dither-pattern>
  <line-style>17</line-style>
  <name>M2.drawing - 62/0</name>
  <source>62/0@1</source>
 </properties>
 <custom-dither-pattern>
  <pattern>
   <line>*.</line>
   <line>.*</line>
  </pattern>
  <order>99</order>
  <name>checker</name>
 </custom-dither-pattern>
 <custom-dither-pattern>
  <pattern>
   <line>..</line>
   <line>..</line>
  </pattern>
  <order>1</order>
  <name>blank</name>
 </custom-dither-pattern>
 <custom-line-style>
  <pattern>***.</pattern>
  <order>99</order>
  <name>dashed</name>
 </custom-line-style>
 <custom-line-style>
  <pattern>*</pattern>
  <order>1</order>
  <name>solid</name>
 </custom-line-style>
</layer-properties>
"##;

    let output = parse_lyp(content).unwrap();
    assert_eq!(output.layermap.get("M1#drawing"), Some(&(61, 0)));
    assert_eq!(output.layermap.get("M2#drawing"), Some(&(62, 0)));

    let display = output.drf.get("display").unwrap();
    assert!(display.colors.contains_key("color_ff0000"));
    assert!(display.colors.contains_key("color_00ff00"));
    assert!(display.stipples.contains_key("C0"));
    assert!(display.stipples.contains_key("I0"));
    assert!(display.stipples.contains_key("I1"));
    assert!(display.line_styles.contains_key("C0"));
    assert_eq!(display.stipples.get("C0").unwrap().bitmap[0], vec![1, 0]);
    assert_eq!(display.stipples.get("I0").unwrap().bitmap[0], vec![1; 16]);
    assert_eq!(display.stipples.get("I1").unwrap().bitmap[0], vec![0; 16]);
    assert_eq!(display.stipples.get("C1").unwrap().bitmap[0], vec![0, 0]);
    assert_eq!(
        display.line_styles.get("C0").unwrap().pattern,
        vec![1, 1, 1, 0]
    );
    assert_eq!(display.line_styles.get("C1").unwrap().pattern, vec![1]);

    let packet = display.packets.get("M1_drawing").unwrap();
    assert_eq!(packet.name, "M1_drawing");
    assert_eq!(packet.outline, "color_ff0000");
    assert_eq!(packet.fill, "color_00ff00");
    assert_eq!(packet.stipple, "C0");
    assert_eq!(packet.line_style, "C0");

    let builtin_packet = display.packets.get("M2_drawing").unwrap();
    assert_eq!(builtin_packet.stipple, "I1");
    assert_eq!(builtin_packet.line_style, "C1");
}

fn layer(name: &str, source: &str, frame: &str, fill: &str, dither: &str, style: &str) -> String {
    format!(
        "<properties>\n<frame-color>{}</frame-color>\n<fill-color>{}</fill-color>\n\
<dither-pattern>{}</dither-pattern>\n<line-style>{}</line-style>\n<name>{}</name>\n\
<source>{}</source>\n</properties>\n",
        frame, fill, dither, style, name, source
    )
}

fn error_of(content: &str) -> LypError {
    match parse_lyp(content) {
        Ok(_) => panic!("expected an error"),
        Err(e) => e,
    }
}

#[test]
fn lyp_empty_file_has_only_builtins() {
    let output = parse_lyp("").unwrap();
    assert_eq!(output.drf.len(), 1);
    assert_eq!(output.layermap.len(), 0);
    let display = output.drf.get("display").unwrap();
    assert_eq!(display.name, "display");
    assert_eq!(display.stipples.len(), 2);
    assert_eq!(display.line_styles.len(), 2);
    assert_eq!(display.colors.len(), 0);
    assert_eq!(display.packets.len(), 0);
    let i0 = display.stipples.get("I0").unwrap();
    assert_eq!((i0.row, i0.col), (16, 16));
    assert_eq!(i0.bitmap, vec![vec![1u8; 16]; 16]);
    assert_eq!(display.line_styles.get("I0").unwrap().pattern, vec![1]);
    assert_eq!(display.line_styles.get("I1").unwrap().pattern, vec![1, 0]);
    assert_eq!(display.line_styles.get("I1").unwrap().width, "1");
}

#[test]
fn lyp_builtins_survive_many_customs() {
    let mut content = String::new();
    for _ in 0..3 {
        content.push_str("<custom-dither-pattern>\n<line>*</line>\n</custom-dither-pattern>\n");
        content.push_str("<custom-line-style>\n<pattern>.</pattern>\n</custom-line-style>\n");
    }
    let output = parse_lyp(&content).unwrap();
    let display = output.drf.get("display").unwrap();
    assert_eq!(display.stipples.len(), 5);
    assert_eq!(display.line_styles.len(), 5);
    assert_eq!(display.stipples.get("I1").unwrap().bitmap, vec![vec![0u8; 16]; 16]);
    assert_eq!(display.stipples.get("C2").unwrap().bitmap, vec![vec![1u8]]);
    assert_eq!(display.line_styles.get("C2").unwrap().pattern, vec![0]);
}

#[test]
fn lyp_skips_layers_without_purpose_or_numbers() {
    let mut content = layer("M1 - 61/0", "61/0@1", "#ff0000", "#00ff00", "", "");
    content.push_str(&layer("M2.pin", "62@1", "#ff0000", "#00ff00", "", ""));
    content.push_str(&layer("M4.x", " 64 / 4 @2", "#ff0000", "#00ff00", "", ""));
    content.push_str(&layer("M3 . fill ", " 63/4 @2", "#ff0000", "#00ff00", "", ""));
    let output = parse_lyp(&content).unwrap();
    assert_eq!(output.layermap.len(), 1);
    assert_eq!(output.layermap.get("M3#fill"), Some(&(63, 4)));
    let display = output.drf.get("display").unwrap();
    assert_eq!(display.packets.len(), 1);
    let packet = display.packets.get("M3_fill").unwrap();
    assert_eq!(packet.stipple, "I0");
    assert_eq!(packet.line_style, "I0");
    assert_eq!(packet.fill_style, None);
}

#[test]
fn lyp_decodes_entities() {
    let content = layer("A&amp;B.x&lt;y - 1/2", "1/2", "#010203", "#010203", "I1", "I1");
    let output = parse_lyp(&content).unwrap();
    assert_eq!(output.layermap.get("A&B#x<y"), Some(&(1, 2)));
    let display = output.drf.get("display").unwrap();
    assert!(display.packets.contains_key("A&B_x<y"));
    assert_eq!(display.colors.get("color_010203").unwrap().rgb, [1, 2, 3]);
}

#[test]
fn lyp_error_missing_stipple() {
    let content = layer("M1.drawing", "1/0", "#ff0000", "#00ff00", "C3", "I0");
    match error_of(&content) {
        LypError::MissingStipple { display, name, stipple } => {
            assert_eq!(display, "display");
            assert_eq!(name, "M1_drawing");
            assert_eq!(stipple, "C3");
        }
        other => panic!("unexpected {:?}", other),
    }
    assert_eq!(
        error_of(&content).message(),
        "display.M1_drawing references missing stipple C3"
    );
}

#[test]
fn lyp_error_missing_line_style() {
    let content = layer("M1.drawing", "1/0", "#ff0000", "#00ff00", "I0", "20");
    match error_of(&content) {
        LypError::MissingLineStyle { line_style, .. } => assert_eq!(line_style, "C4"),
        other => panic!("unexpected {:?}", other),
    }
}

#[test]
fn lyp_error_missing_fill_color() {
    let content = layer("M1.drawing", "1/0", "#ff0000", "green", "I0", "I0");
    match error_of(&content) {
        LypError::MissingFillColor { fill, .. } => assert_eq!(fill, "color_green"),
        other => panic!("unexpected {:?}", other),
    }
}

#[test]
fn lyp_error_missing_outline_color() {
    let content = layer("M1.drawing", "1/0", "#ff00", "#00ff00", "I0", "I0");
    match error_of(&content) {
        LypError::MissingOutlineColor { outline, .. } => assert_eq!(outline, "color_ff00"),
        other => panic!("unexpected {:?}", other),
    }
}

#[test]
fn lyp_error_non_rectangular() {
    let content = "<custom-dither-pattern>\n<line>**</line>\n<line>*</line>\n</custom-dither-pattern>\n";
    match error_of(content) {
        LypError::NonRectangular { display, name } => {
            assert_eq!(display, "display");
            assert_eq!(name, "C0");
        }
        other => panic!("unexpected {:?}", other),
    }
    assert_eq!(error_of(content).message(), "display.C0 has non-rectangular bitmap");
}

#[test]
fn lyp_error_misaligned_color() {
    let content = layer("M1.drawing", "1/0", "#ff0000", "#a\u{e9}000", "I0", "I0");
    match error_of(&content) {
        LypError::MisalignedColor => {}
        other => panic!("unexpected {:?}", other),
    }
}

#[test]
fn lyp_error_row_mismatch_from_validation() {
    let mut display = Drf::new(String::from("display"));
    display.stipples.insert(
        String::from("bad"),
        Stipple::new(String::from("bad"), vec![vec![1, 0]], 2, 2),
    );
    let mut drf = NamedMap::new();
    drf.insert(String::from("display"), display);
    let output = LypOutput { drf, layermap: NamedMap::new() };
    match validate_output(&output) {
        Err(e) => {
            assert_eq!(e.message(), "display.bad row mismatch: row=2, bitmap rows=1");
            match e {
                LypError::RowMismatch { row, rows, .. } => assert_eq!((row, rows), (2, 1)),
                other => panic!("unexpected {:?}", other),
            }
        }
        Ok(()) => panic!("expected an error"),
    }
}

#[test]
fn lyp_validation_accepts_consistent_display() {
    let mut display = Drf::new(String::from("display"));
    display.stipples.insert(
        String::from("s"),
        Stipple::new(String::from("s"), vec![vec![1, 0], vec![0, 1]], 2, 2),
    );
    let mut drf = NamedMap::new();
    drf.insert(String::from("display"), display);
    let output = LypOutput { drf, layermap: NamedMap::new() };
    assert!(validate_output(&output).is_ok());

    let mut display = Drf::new(String::from("display"));
    let mut p = Packet::new();
    p.name = String::from("p");
    display.packets.insert(String::from("p"), p);
    let mut drf = NamedMap::new();
    drf.insert(String::from("display"), display);
    let output = LypOutput { drf, layermap: NamedMap::new() };
    match validate_output(&output) {
        Err(LypError::MissingStipple { stipple, .. }) => assert_eq!(stipple, ""),
        _ => panic!("expected a missing stipple"),
    }
}

#[test]
fn scan_collects_sections() {
    let content = "<properties>\n<name>a.b</name>\n<source>1/2</source>\n</properties>\n\
<custom-dither-pattern>\n<line>*.*</line>\n</custom-dither-pattern>\n\
<custom-dither-pattern>\n</custom-dither-pattern>\n\
<custom-line-style>\n<pattern>**</pattern>\n</custom-line-style>\n";
    let scan = scan_content(content);
    assert_eq!(scan.props.len(), 1);
    assert_eq!(scan.props[0].name, "a.b");
    assert_eq!(scan.props[0].source, "1/2");
    assert_eq!(scan.props[0].fill_color, "");
    assert_eq!(scan.dithers.len(), 2);
    assert_eq!(scan.dithers[0].lines, vec!["*.*"]);
    assert!(scan.dithers[1].lines.is_empty());
    assert_eq!(scan.styles.len(), 1);
    assert_eq!(scan.styles[0].pattern, "**");
    assert!(scan.cur_prop.is_none());
}

#[test]
fn layer_purpose_and_source() {
    assert_eq!(
        parse_layer_purpose("M1.drawing - 61/0"),
        Some((String::from("M1"), String::from("drawing")))
    );
    assert_eq!(
        parse_layer_purpose(" poly . pin "),
        Some((String::from("poly"), String::from("pin")))
    );
    assert_eq!(
        parse_layer_purpose("a.b.c"),
        Some((String::from("a"), String::from("b.c")))
    );
    assert_eq!(parse_layer_purpose("nodot - x.y"), None);
    assert_eq!(parse_source("61/0@1"), Some((61, 0)));
    assert_eq!(parse_source(" 7/ 8 "), None);
    assert_eq!(parse_source("7/+8@x"), Some((7, 8)));
    assert_eq!(parse_source("7/8/9"), None);
    assert_eq!(parse_source("7"), None);
}

#[test]
fn names_of_colors_packets_and_customs() {
    assert_eq!(color_name("#FF00aa"), "color_ff00aa");
    assert_eq!(color_name("##Ab"), "color_ab");
    assert_eq!(color_name(""), "color_");
    assert_eq!(packet_name(&String::from("M1"), &String::from("drawing")), "M1_drawing");
    assert_eq!(klayout_custom_name(0), "C0");
    assert_eq!(klayout_custom_name(1234), "C1234");
}

#[test]
fn normalize_references() {
    assert_eq!(normalize_klayout_ref("", ReferenceKind::Dither), "I0");
    assert_eq!(normalize_klayout_ref("  ", ReferenceKind::LineStyle), "I0");
    assert_eq!(normalize_klayout_ref(" C3 ", ReferenceKind::Dither), "C3");
    assert_eq!(normalize_klayout_ref("Ifoo", ReferenceKind::Dither), "Ifoo");
    assert_eq!(normalize_klayout_ref("5", ReferenceKind::Dither), "I5");
    assert_eq!(normalize_klayout_ref("15", ReferenceKind::LineStyle), "I15");
    assert_eq!(normalize_klayout_ref("16", ReferenceKind::LineStyle), "C0");
    assert_eq!(normalize_klayout_ref("40", ReferenceKind::Dither), "C24");
    assert_eq!(normalize_klayout_ref("+7", ReferenceKind::Dither), "I7");
    assert_eq!(normalize_klayout_ref("dots", ReferenceKind::Dither), "dots");
    assert_eq!(normalize_klayout_ref("-1", ReferenceKind::Dither), "-1");
    let once = normalize_klayout_ref("20", ReferenceKind::Dither);
    assert_eq!(normalize_klayout_ref(&once, ReferenceKind::Dither), once);
}

#[test]
fn hex_colors() {
    assert_eq!(parse_hex_color("#ff8000"), HexColor::Rgb(255, 128, 0));
    assert_eq!(parse_hex_color("#00FF0a"), HexColor::Rgb(0, 255, 10));
    assert_eq!(parse_hex_color("#+f0000"), HexColor::Rgb(15, 0, 0));
    assert_eq!(parse_hex_color("ff8000"), HexColor::NotColor);
    assert_eq!(parse_hex_color("#ff80"), HexColor::NotColor);
    assert_eq!(parse_hex_color("#gg0000"), HexColor::NotColor);
    assert_eq!(parse_hex_color("#ff80001"), HexColor::NotColor);
    assert_eq!(parse_hex_color("#a\u{e9}000"), HexColor::Misaligned);
    assert_eq!(parse_hex_color("#\u{e9}\u{e9}00"), HexColor::NotColor);
}
