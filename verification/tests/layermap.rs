use drf_parser::parser::layermap::{layer_key, LayerMap, LayerMapError, LayerMapParser};

const SAMPLE: &str = "\
# layer purpose stream datatype
M1 drawing 35 0
M2 drawing 36 0
M1 pin 35 1  # pin shapes

VIA1 drawing 50 0
";

#[test]
fn layermap_test01() {
    let mut parser = LayerMapParser::from_string(SAMPLE);
    let res = parser.parse();
    assert_eq!(res, Ok(()));
    println!("{:?}", parser.layermap.len());
    assert_eq!(parser.layermap.len(), 4);
    assert_eq!(parser.layermap.get("M1", "drawing"), Some((35, 0)));
    assert_eq!(parser.layermap.get("M2", "drawing"), Some((36, 0)));
    assert_eq!(parser.layermap.get("M1", "pin"), Some((35, 1)));
    assert_eq!(parser.layermap.get("VIA1", "drawing"), Some((50, 0)));
    assert_eq!(parser.layermap.get("M3", "drawing"), None);
}

#[test]
fn layermap_readme_example() {
    let mut parser = LayerMapParser::from_string("M1 drawing 35 0");
    assert_eq!(parser.parse(), Ok(()));
    let (layer, purpose, stream, datatype) = parser.layermap.entry_at(0);
    assert_eq!(layer_key(layer, purpose), "M1#drawing");
    assert_eq!((stream, datatype), (35, 0));
}

#[test]
fn layermap_later_line_replaces_earlier() {
    let mut parser = LayerMapParser::from_string("M1 drawing 35 0\nM1 drawing 40 2\n");
    assert_eq!(parser.parse(), Ok(()));
    assert_eq!(parser.layermap.len(), 1);
    assert_eq!(parser.layermap.get("M1", "drawing"), Some((40, 2)));
}

#[test]
fn layermap_entries_may_span_lines() {
    let mut parser = LayerMapParser::from_string("M1\ndrawing\n35\n0 M2 pin 1 +2");
    assert_eq!(parser.parse(), Ok(()));
    assert_eq!(parser.layermap.get("M1", "drawing"), Some((35, 0)));
    assert_eq!(parser.layermap.get("M2", "pin"), Some((1, 2)));
}

#[test]
fn layermap_error_unexpected_end() {
    let mut parser = LayerMapParser::from_string("M1 drawing 35 0\nM2 drawing 36");
    assert_eq!(parser.parse(), Err(LayerMapError::UnexpectedEnd));
    assert_eq!(parser.layermap.get("M1", "drawing"), Some((35, 0)));
    let mut parser = LayerMapParser::from_string("M1");
    assert_eq!(parser.parse(), Err(LayerMapError::UnexpectedEnd));
}

#[test]
fn layermap_error_bad_number() {
    let mut parser = LayerMapParser::from_string("M1 drawing x 0");
    assert_eq!(parser.parse(), Err(LayerMapError::BadNumber));
    let mut parser = LayerMapParser::from_string("M1 drawing 1 -1");
    assert_eq!(parser.parse(), Err(LayerMapError::BadNumber));
    assert_eq!(parser.layermap.len(), 0);
}

#[test]
fn layer_key_joins_with_hash() {
    assert_eq!(layer_key(&String::from("VIA1"), &String::from("pin")), "VIA1#pin");
    assert_eq!(layer_key(&String::new(), &String::new()), "#");
}

#[test]
fn layer_map_insert_and_index() {
    let mut m = LayerMap::new();
    assert_eq!(m.len(), 0);
    m.insert(String::from("a"), String::from("b"), (1, 2));
    m.insert(String::from("c"), String::from("d"), (3, 4));
    m.insert(String::from("a"), String::from("b"), (5, 6));
    assert_eq!(m.len(), 2);
    assert_eq!(m.index_of("a", "b"), Some(0));
    assert_eq!(m.index_of("c", "d"), Some(1));
    assert_eq!(m.index_of("a", "d"), None);
    assert_eq!(m.get("a", "b"), Some((5, 6)));
}
