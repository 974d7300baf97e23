use drf_parser::parser::drf::{DrfError, DrfParser};

const SAMPLE: &str = "\
drDefineDisplay(
;( DisplayName )
 ( display )
 ( psb )
)
drDefineColor(
;( DisplayName ColorsName Red Green Blue Blink )
 ( display white 255 255 255 )
 ( display red 255 0 0 t )
 ( psb blue 0 0 255 f )
)
drDefineStipple(
;( DisplayName StippleName Bitmap )
 ( display dots ( ( 1 0 )
                  ( 0 1 ) ) )
 ( display blank ( ( 0 0 0 0 ) ) )
)
drDefineLineStyle(
;( DisplayName LineStyle Size Pattern )
 ( display solid 1 ( 1 1 1 ) )
 ( display dashed 2 ( 1 1 0 0 ) )
)
drDefinePacket(
;( DisplayName PacketName Stipple LineStyle Fill Outline [FillStyle])
 ( display M1 dots solid red white )
 ( display M2 dots dashed white red outlineStipple )
)
";

fn parse_text(text: &str) -> (DrfParser, Result<(), DrfError>) {
    let mut parser = DrfParser::from_string(text);
    let res = parser.parse();
    (parser, res)
}

#[test]
fn drf_test01() {
    let mut parser = DrfParser::from_string(SAMPLE);
    let res = parser.parse();
    assert_eq!(res, Ok(()));
    println!("{}", parser.drf.len());
    assert_eq!(parser.drf.len(), 2);
    assert!(parser.drf.contains_key("display"));
    assert!(parser.drf.contains_key("psb"));
}

#[test]
fn drf_reads_colors() {
    let (parser, res) = parse_text(SAMPLE);
    assert_eq!(res, Ok(()));
    let display = parser.drf.get("display").unwrap();
    let white = display.colors.get("white").unwrap();
    assert_eq!(white.name, "white");
    assert_eq!(white.rgb, [255, 255, 255]);
    assert!(!white.blink);
    let red = display.colors.get("red").unwrap();
    assert_eq!(red.rgb, [255, 0, 0]);
    assert!(red.blink);
    let psb = parser.drf.get("psb").unwrap();
    let blue = psb.colors.get("blue").unwrap();
    assert_eq!(blue.rgb, [0, 0, 255]);
    assert!(!blue.blink);
    assert!(!display.colors.contains_key("blue"));
}

#[test]
fn drf_reads_stipples() {
    let (parser, _) = parse_text(SAMPLE);
    let display = parser.drf.get("display").unwrap();
    let dots = display.stipples.get("dots").unwrap();
    assert_eq!(dots.name, "dots");
    assert_eq!(dots.bitmap, vec![vec![1, 0], vec![0, 1]]);
    assert_eq!(dots.row, 2);
    assert_eq!(dots.col, 2);
    let blank = display.stipples.get("blank").unwrap();
    assert_eq!(blank.bitmap, vec![vec![0, 0, 0, 0]]);
    assert_eq!(blank.row, 1);
    assert_eq!(blank.col, 4);
}

#[test]
fn drf_reads_line_styles() {
    let (parser, _) = parse_text(SAMPLE);
    let display = parser.drf.get("display").unwrap();
    let solid = display.line_styles.get("solid").unwrap();
    assert_eq!(solid.name, "solid");
    assert_eq!(solid.width, "1");
    assert_eq!(solid.pattern, vec![1, 1, 1]);
    let dashed = display.line_styles.get("dashed").unwrap();
    assert_eq!(dashed.width, "2");
    assert_eq!(dashed.pattern, vec![1, 1, 0, 0]);
}

#[test]
fn drf_reads_packets() {
    let (parser, _) = parse_text(SAMPLE);
    let display = parser.drf.get("display").unwrap();
    let m1 = display.packets.get("M1").unwrap();
    assert_eq!(m1.name, "M1");
    assert_eq!(m1.stipple, "dots");
    assert_eq!(m1.line_style, "solid");
    assert_eq!(m1.fill, "red");
    assert_eq!(m1.outline, "white");
    assert_eq!(m1.fill_style, None);
    let m2 = display.packets.get("M2").unwrap();
    assert_eq!(m2.line_style, "dashed");
    assert_eq!(m2.fill_style, Some(String::from("outlineStipple")));
}

#[test]
fn drf_stipple_rows_follow_bitmap() {
    let text = "drDefineDisplay( ( display ) )
drDefineStipple(
 ( display uneven ( ( 1 0 1 ) ( 1 ) ( 0 0 ) ) )
)";
    let (parser, res) = parse_text(text);
    assert_eq!(res, Ok(()));
    let t = parser.drf.get("display").unwrap().stipples.get("uneven").unwrap();
    assert_eq!(t.row, t.bitmap.len());
    assert_eq!(t.row, 3);
    assert_eq!(t.col, t.bitmap[0].len());
    assert_eq!(t.col, 3);
}

#[test]
fn drf_later_entry_replaces_earlier() {
    let text = "drDefineDisplay( ( display ) )
drDefineColor( ( display c 1 2 3 ) ( display c 4 5 6 ) )";
    let (parser, res) = parse_text(text);
    assert_eq!(res, Ok(()));
    let display = parser.drf.get("display").unwrap();
    assert_eq!(display.colors.len(), 1);
    assert_eq!(display.colors.get("c").unwrap().rgb, [4, 5, 6]);
}

#[test]
fn drf_stops_at_unknown_word() {
    let text = "drDefineDisplay( ( display ) ) techLayers( ) drDefineColor( ( display c 1 2 3 ) )";
    let (parser, res) = parse_text(text);
    assert_eq!(res, Ok(()));
    assert_eq!(parser.drf.get("display").unwrap().colors.len(), 0);
    assert_eq!(parser.reader.peek_word().map(|w| w.as_str()), Some("techLayers"));
}

#[test]
fn drf_empty_text() {
    let (parser, res) = parse_text("; only a comment\n");
    assert_eq!(res, Ok(()));
    assert_eq!(parser.drf.len(), 0);
}

#[test]
fn drf_error_unexpected_end() {
    assert_eq!(parse_text("drDefineDisplay").1, Err(DrfError::UnexpectedEnd));
    assert_eq!(parse_text("drDefineDisplay( ( display )").1, Err(DrfError::UnexpectedEnd));
}

#[test]
fn drf_error_missing_open_paren() {
    assert_eq!(parse_text("drDefineDisplay display").1, Err(DrfError::MissingOpenParen));
}

#[test]
fn drf_error_missing_field() {
    let text = "drDefineDisplay( ( display ) ) drDefineColor( ( display white ) )";
    assert_eq!(parse_text(text).1, Err(DrfError::MissingField));
    let text = "drDefineDisplay( ( display ) ) drDefineLineStyle( ( display s ( 1 ) ) )";
    assert_eq!(parse_text(text).1, Err(DrfError::MissingField));
}

#[test]
fn drf_error_bad_number() {
    let text = "drDefineDisplay( ( display ) ) drDefineColor( ( display white 256 0 0 ) )";
    assert_eq!(parse_text(text).1, Err(DrfError::BadNumber));
    let text = "drDefineDisplay( ( display ) ) drDefineColor( ( display white 1 x 0 ) )";
    assert_eq!(parse_text(text).1, Err(DrfError::BadNumber));
}

#[test]
fn drf_error_bad_digit() {
    let text = "drDefineDisplay( ( display ) ) drDefineStipple( ( display s ( ( 1 x ) ) ) )";
    assert_eq!(parse_text(text).1, Err(DrfError::BadDigit));
    let text = "drDefineDisplay( ( display ) ) drDefineLineStyle( ( display s 1 ( 1 - ) ) )";
    assert_eq!(parse_text(text).1, Err(DrfError::BadDigit));
}

#[test]
fn drf_error_unknown_display() {
    let text = "drDefineDisplay( ( display ) ) drDefineColor( ( other white 1 2 3 ) )";
    assert_eq!(parse_text(text).1, Err(DrfError::UnknownDisplay));
    let text = "drDefineDisplay( ( display ) ) drDefinePacket( ( other p s l f o ) )";
    assert_eq!(parse_text(text).1, Err(DrfError::UnknownDisplay));
}

#[test]
fn drf_error_bad_packet() {
    let text = "drDefineDisplay( ( display ) ) drDefinePacket( ( display p s l f ) )";
    assert_eq!(parse_text(text).1, Err(DrfError::BadPacket));
}

#[test]
fn drf_error_empty_bitmap() {
    let text = "drDefineDisplay( ( display ) ) drDefineStipple( ( display s ( ) ) )";
    assert_eq!(parse_text(text).1, Err(DrfError::EmptyBitmap));
}

#[test]
fn drf_line_layout_does_not_matter() {
    let one_line = SAMPLE
        .lines()
        .filter(|l| !l.trim_start().starts_with(';'))
        .collect::<Vec<_>>()
        .join(" ");
    let (a, ra) = parse_text(&one_line);
    let broken = one_line.replace(' ', "\n");
    let (b, rb) = parse_text(&broken);
    assert_eq!(ra, rb);
    assert_eq!(a.drf.len(), b.drf.len());
    let da = a.drf.get("display").unwrap();
    let db = b.drf.get("display").unwrap();
    assert_eq!(da.colors.len(), db.colors.len());
    assert_eq!(da.stipples.get("dots").unwrap().bitmap, db.stipples.get("dots").unwrap().bitmap);
    assert_eq!(da.packets.get("M2").unwrap().fill_style, db.packets.get("M2").unwrap().fill_style);
}
