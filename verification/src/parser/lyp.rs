//! The reader of KLayout layer-property files (`.lyp`): an XML list of
//! layer properties, custom dither patterns and custom line styles, turned
//! into one display and a layer map.

use vstd::prelude::*;
use crate::ast::color::{Color, ColorView};
use crate::ast::drf::{Drf, DrfView, empty_drf};
use crate::ast::line_style::{LineStyle, LineStyleView};
use crate::ast::packet::{Packet, PacketView};
use crate::ast::stipple::{Stipple, StippleView, rows_view};
use crate::named_map::{NamedMap, assoc_insert, key_index, lemma_lookup_after_insert, lookup};
use crate::num::{decimal, parse_radix, parse_uint, push_decimal};
use crate::parser::drf::{add_color, add_line_style, add_packet, add_stipple};
use crate::parser::layermap::layer_key;
use crate::text::{
    ascii_lower, chars_of, find, find_in, find_line_end, lemma_line_end_bounds, line_end, range_is,
    replace_all, replace_chars, run_of, string_from_chars, string_of_range, to_ascii_lower, trim,
    trim_range, trim_start_char,
};

verus! {

/// The properties of one layer, as the file writes them.
pub struct LayerProperties {
    pub name: String,
    pub source: String,
    pub frame_color: String,
    pub fill_color: String,
    pub dither_pattern: String,
    pub line_style: String,
}

/// What a [`LayerProperties`] holds.
pub struct PropView {
    pub name: Seq<char>,
    pub source: Seq<char>,
    pub frame_color: Seq<char>,
    pub fill_color: Seq<char>,
    pub dither_pattern: Seq<char>,
    pub line_style: Seq<char>,
}

impl View for LayerProperties {
    type V = PropView;

    open spec fn view(&self) -> PropView {
        PropView {
            name: self.name@,
            source: self.source@,
            frame_color: self.frame_color@,
            fill_color: self.fill_color@,
            dither_pattern: self.dither_pattern@,
            line_style: self.line_style@,
        }
    }
}

/// Layer properties with every field empty.
pub open spec fn empty_prop() -> PropView {
    PropView {
        name: seq![],
        source: seq![],
        frame_color: seq![],
        fill_color: seq![],
        dither_pattern: seq![],
        line_style: seq![],
    }
}

/// What the scan of the file has gathered: the finished layer properties,
/// dither patterns (lists of lines) and line styles (patterns), and the ones
/// being read.
pub struct ScanView {
    pub props: Seq<PropView>,
    pub dithers: Seq<Seq<Seq<char>>>,
    pub styles: Seq<Seq<char>>,
    pub cur_prop: Option<PropView>,
    pub cur_dither: Option<Seq<Seq<char>>>,
    pub cur_style: Option<Seq<char>>,
}

/// Nothing gathered yet.
pub open spec fn empty_scan() -> ScanView {
    ScanView {
        props: seq![],
        dithers: seq![],
        styles: seq![],
        cur_prop: None,
        cur_dither: None,
        cur_style: None,
    }
}

/// The text with the XML escapes `&quot;`, `&apos;`, `&lt;`, `&gt;` and
/// `&amp;` replaced, in that order.
pub open spec fn decode_xml(v: Seq<char>) -> Seq<char> {
    replace_all(
        replace_all(
            replace_all(replace_all(replace_all(v, "&quot;"@, "\""@), "&apos;"@, "'"@), "&lt;"@, "<"@),
            "&gt;"@,
            ">"@,
        ),
        "&amp;"@,
        "&"@,
    )
}

/// The decoded text of the line `t` when it is an element with the opening
/// tag `open` and the closing tag `close`.
pub open spec fn element_text(t: Seq<char>, open: Seq<char>, close: Seq<char>) -> Option<Seq<char>> {
    if t.len() >= open.len() + close.len() && t.take(open.len() as int) == open && t.skip(
        t.len() - close.len(),
    ) == close {
        Some(decode_xml(t.subrange(open.len() as int, t.len() - close.len())))
    } else {
        None
    }
}

/// The layer properties `p` after the line `t`: the first of its fields whose
/// element `t` is takes the element's text.
pub open spec fn prop_update(p: PropView, t: Seq<char>) -> PropView {
    if let Some(v) = element_text(t, "<name>"@, "</name>"@) {
        PropView { name: v, ..p }
    } else if let Some(v) = element_text(t, "<source>"@, "</source>"@) {
        PropView { source: v, ..p }
    } else if let Some(v) = element_text(t, "<frame-color>"@, "</frame-color>"@) {
        PropView { frame_color: v, ..p }
    } else if let Some(v) = element_text(t, "<fill-color>"@, "</fill-color>"@) {
        PropView { fill_color: v, ..p }
    } else if let Some(v) = element_text(t, "<dither-pattern>"@, "</dither-pattern>"@) {
        PropView { dither_pattern: v, ..p }
    } else if let Some(v) = element_text(t, "<line-style>"@, "</line-style>"@) {
        PropView { line_style: v, ..p }
    } else {
        p
    }
}

/// The scan after the trimmed line `t`: the opening and closing tags of
/// properties, dither patterns and line styles start and finish them; inside
/// layer properties a line sets a field, inside a dither pattern a `line`
/// element adds a line, and inside a line style a `pattern` element sets the
/// pattern.
pub open spec fn scan_step(st: ScanView, t: Seq<char>) -> ScanView {
    if t == "<properties>"@ {
        ScanView { cur_prop: Some(empty_prop()), ..st }
    } else if t == "</properties>"@ {
        match st.cur_prop {
            Some(p) => ScanView { props: st.props.push(p), cur_prop: None, ..st },
            None => st,
        }
    } else if t == "<custom-dither-pattern>"@ {
        ScanView { cur_dither: Some(seq![]), ..st }
    } else if t == "</custom-dither-pattern>"@ {
        match st.cur_dither {
            Some(d) => ScanView { dithers: st.dithers.push(d), cur_dither: None, ..st },
            None => st,
        }
    } else if t == "<custom-line-style>"@ {
        ScanView { cur_style: Some(seq![]), ..st }
    } else if t == "</custom-line-style>"@ {
        match st.cur_style {
            Some(l) => ScanView { styles: st.styles.push(l), cur_style: None, ..st },
            None => st,
        }
    } else {
        match st.cur_prop {
            Some(p) => ScanView { cur_prop: Some(prop_update(p, t)), ..st },
            None => match st.cur_dither {
                Some(d) => match element_text(t, "<line>"@, "</line>"@) {
                    Some(v) => ScanView { cur_dither: Some(d.push(v)), ..st },
                    None => st,
                },
                None => match st.cur_style {
                    Some(_) => match element_text(t, "<pattern>"@, "</pattern>"@) {
                        Some(v) => ScanView { cur_style: Some(v), ..st },
                        None => st,
                    },
                    None => st,
                },
            },
        }
    }
}

/// The scan of the lines of `s` that start at or after `start`, each
/// trimmed, from the scan `st`.
pub open spec fn scan_from(s: Seq<char>, start: int, st: ScanView) -> ScanView
    decreases s.len() - start,
{
    if start < 0 || start >= s.len() {
        st
    } else {
        proof {
            lemma_line_end_bounds(s, start);
        }
        scan_from(s, line_end(s, start), scan_step(st, trim(s.subrange(start, line_end(s, start)))))
    }
}

/// The scan of a whole file.
pub open spec fn scan(s: Seq<char>) -> ScanView {
    scan_from(s, 0, empty_scan())
}

/// The decoded text of `v[from..to]` when it is an element with the tags
/// `open` and `close`.
fn element_text_of(v: &Vec<char>, from: usize, to: usize, open: &str, close: &str) -> (res: Option<
    String,
>)
    requires
        from <= to <= v@.len(),
    ensures
        match res {
            Some(r) => element_text(v@.subrange(from as int, to as int), open@, close@) == Some(r@),
            None => element_text(v@.subrange(from as int, to as int), open@, close@) is None,
        },
{
    let ghost t = v@.subrange(from as int, to as int);
    let o = chars_of(open);
    let c = chars_of(close);
    if to - from < o.len() || to - from - o.len() < c.len() {
        return None;
    }
    let a = from + o.len();
    let b = to - c.len();
    assert(t.take(o@.len() as int) =~= v@.subrange(from as int, a as int));
    assert(t.skip(t.len() - c@.len()) =~= v@.subrange(b as int, to as int));
    if !range_is(v, from, a, open) || !range_is(v, b, to, close) {
        return None;
    }
    let mut mid: Vec<char> = Vec::new();
    let mut i = a;
    while i < b
        invariant
            a <= i <= b <= v@.len(),
            mid@ == v@.subrange(a as int, i as int),
        decreases b - i,
    {
        mid.push(v[i]);
        i += 1;
    }
    assert(mid@ =~= t.subrange(o@.len() as int, t.len() - c@.len()));
    let d1 = replace_chars(&mid, "&quot;", "\"");
    let d2 = replace_chars(&d1, "&apos;", "'");
    let d3 = replace_chars(&d2, "&lt;", "<");
    let d4 = replace_chars(&d3, "&gt;", ">");
    let d5 = replace_chars(&d4, "&amp;", "&");
    Some(string_from_chars(&d5))
}

/// The lines of a custom dither pattern.
pub struct CustomDitherPattern {
    pub lines: Vec<String>,
}

/// The pattern of a custom line style.
pub struct CustomLineStyle {
    pub pattern: String,
}

/// What the scan of the file has gathered (see [`ScanView`]).
pub struct Scan {
    pub props: Vec<LayerProperties>,
    pub dithers: Vec<CustomDitherPattern>,
    pub styles: Vec<CustomLineStyle>,
    pub cur_prop: Option<LayerProperties>,
    pub cur_dither: Option<CustomDitherPattern>,
    pub cur_style: Option<CustomLineStyle>,
}

impl View for Scan {
    type V = ScanView;

    open spec fn view(&self) -> ScanView {
        ScanView {
            props: self.props@.map_values(|p: LayerProperties| p@),
            dithers: self.dithers@.map_values(|d: CustomDitherPattern| crate::text::views(d.lines@)),
            styles: self.styles@.map_values(|l: CustomLineStyle| l.pattern@),
            cur_prop: match self.cur_prop {
                Some(p) => Some(p@),
                None => None,
            },
            cur_dither: match self.cur_dither {
                Some(d) => Some(crate::text::views(d.lines@)),
                None => None,
            },
            cur_style: match self.cur_style {
                Some(l) => Some(l.pattern@),
                None => None,
            },
        }
    }
}

/// Sets the field of `p` whose element the line `v[from..to]` is.
fn update_prop(p: &mut LayerProperties, v: &Vec<char>, from: usize, to: usize)
    requires
        from <= to <= v@.len(),
    ensures
        final(p)@ == prop_update(old(p)@, v@.subrange(from as int, to as int)),
{
    if let Some(x) = element_text_of(v, from, to, "<name>", "</name>") {
        p.name = x;
    } else if let Some(x) = element_text_of(v, from, to, "<source>", "</source>") {
        p.source = x;
    } else if let Some(x) = element_text_of(v, from, to, "<frame-color>", "</frame-color>") {
        p.frame_color = x;
    } else if let Some(x) = element_text_of(v, from, to, "<fill-color>", "</fill-color>") {
        p.fill_color = x;
    } else if let Some(x) = element_text_of(v, from, to, "<dither-pattern>", "</dither-pattern>") {
        p.dither_pattern = x;
    } else if let Some(x) = element_text_of(v, from, to, "<line-style>", "</line-style>") {
        p.line_style = x;
    }
}

/// Layer properties with every field empty.
fn new_prop() -> (res: LayerProperties)
    ensures
        res@ == empty_prop(),
{
    LayerProperties {
        name: String::new(),
        source: String::new(),
        frame_color: String::new(),
        fill_color: String::new(),
        dither_pattern: String::new(),
        line_style: String::new(),
    }
}

/// Applies the trimmed line `v[from..to]` to the scan.
fn scan_line(st: &mut Scan, v: &Vec<char>, from: usize, to: usize)
    requires
        from <= to <= v@.len(),
    ensures
        final(st)@ == scan_step(old(st)@, v@.subrange(from as int, to as int)),
{
    let ghost t = v@.subrange(from as int, to as int);
    if range_is(v, from, to, "<properties>") {
        st.cur_prop = Some(new_prop());
    } else if range_is(v, from, to, "</properties>") {
        if let Some(p) = st.cur_prop.take() {
            st.props.push(p);
            assert(st@.props =~= old(st)@.props.push(p@));
        }
    } else if range_is(v, from, to, "<custom-dither-pattern>") {
        let d = CustomDitherPattern { lines: Vec::new() };
        assert(crate::text::views(d.lines@) =~= Seq::<Seq<char>>::empty());
        st.cur_dither = Some(d);
    } else if range_is(v, from, to, "</custom-dither-pattern>") {
        if let Some(d) = st.cur_dither.take() {
            st.dithers.push(d);
            assert(st@.dithers =~= old(st)@.dithers.push(crate::text::views(d.lines@)));
        }
    } else if range_is(v, from, to, "<custom-line-style>") {
        st.cur_style = Some(CustomLineStyle { pattern: String::new() });
    } else if range_is(v, from, to, "</custom-line-style>") {
        if let Some(l) = st.cur_style.take() {
            st.styles.push(l);
            assert(st@.styles =~= old(st)@.styles.push(l.pattern@));
        }
    } else if st.cur_prop.is_some() {
        let mut p = st.cur_prop.take().unwrap();
        update_prop(&mut p, v, from, to);
        st.cur_prop = Some(p);
    } else if st.cur_dither.is_some() {
        if let Some(x) = element_text_of(v, from, to, "<line>", "</line>") {
            let mut d = st.cur_dither.take().unwrap();
            let ghost before = crate::text::views(d.lines@);
            d.lines.push(x);
            assert(crate::text::views(d.lines@) =~= before.push(x@));
            st.cur_dither = Some(d);
        }
    } else if st.cur_style.is_some() {
        if let Some(x) = element_text_of(v, from, to, "<pattern>", "</pattern>") {
            st.cur_style = Some(CustomLineStyle { pattern: x });
        }
    }
}

/// Scans the lines of `content`, each trimmed.
pub fn scan_content(content: &str) -> (res: Scan)
    ensures
        res@ == scan(content@),
{
    let v = chars_of(content);
    let mut st = Scan {
        props: Vec::new(),
        dithers: Vec::new(),
        styles: Vec::new(),
        cur_prop: None,
        cur_dither: None,
        cur_style: None,
    };
    assert(st@.props =~= empty_scan().props);
    assert(st@.dithers =~= empty_scan().dithers);
    assert(st@.styles =~= empty_scan().styles);
    let mut start: usize = 0;
    while start < v.len()
        invariant
            v@ == content@,
            start <= v@.len(),
            scan_from(v@, start as int, st@) == scan(content@),
        decreases v@.len() - start,
    {
        let end = find_line_end(&v, start);
        let (a, b) = trim_range(&v, start, end);
        scan_line(&mut st, &v, a, b);
        start = end;
    }
    st
}

/// The layer name and purpose that a layer's name holds: the part before
/// the first ` - `, trimmed, split at its first `.`, both parts trimmed.
pub open spec fn layer_purpose(name: Seq<char>) -> Option<(Seq<char>, Seq<char>)> {
    let before = match find(name, " - "@) {
        Some(i) => name.take(i),
        None => name,
    };
    let b = trim(before);
    match find(b, "."@) {
        Some(k) => Some((trim(b.take(k)), trim(b.skip(k + 1)))),
        None => None,
    }
}

/// The layer name and purpose of a layer's name, if it has a `.`.
pub fn parse_layer_purpose(name: &str) -> (res: Option<(String, String)>)
    ensures
        match res {
            Some((l, p)) => layer_purpose(name@) == Some((l@, p@)),
            None => layer_purpose(name@) is None,
        },
{
    let v = chars_of(name);
    let dash = chars_of(" - ");
    let end = match find_in(&v, 0, v.len(), &dash) {
        Some(i) => i,
        None => v.len(),
    };
    assert(v@.subrange(0, v@.len() as int) =~= v@);
    assert(v@.take(end as int) =~= v@.subrange(0, end as int));
    let (a, b) = trim_range(&v, 0, end);
    let ghost bs = v@.subrange(a as int, b as int);
    let dot = chars_of(".");
    proof {
        reveal_strlit(".");
    }
    match find_in(&v, a, b, &dot) {
        None => None,
        Some(k) => {
            assert(bs.take(k as int) =~= v@.subrange(a as int, a + k));
            assert(bs.skip(k + 1) =~= v@.subrange(a + k + 1, b as int));
            let (l1, l2) = trim_range(&v, a, a + k);
            let (p1, p2) = trim_range(&v, a + k + 1, b);
            Some((string_of_range(&v, l1, l2), string_of_range(&v, p1, p2)))
        },
    }
}

/// The layer and data-type numbers that a layer's source holds: the part
/// before the first `@`, trimmed, split at its first `/` into two decimal
/// numbers.
pub open spec fn source_numbers(source: Seq<char>) -> Option<(usize, usize)> {
    let before = match find(source, "@"@) {
        Some(i) => source.take(i),
        None => source,
    };
    let b = trim(before);
    match find(b, "/"@) {
        Some(k) => match (
            parse_uint(b.take(k), 10, usize::MAX as nat),
            parse_uint(b.skip(k + 1), 10, usize::MAX as nat),
        ) {
            (Some(x), Some(y)) => Some((x as usize, y as usize)),
            _ => None,
        },
        None => None,
    }
}

/// The layer and data-type numbers of a layer's source.
pub fn parse_source(source: &str) -> (res: Option<(usize, usize)>)
    ensures
        res == source_numbers(source@),
{
    let v = chars_of(source);
    let at = chars_of("@");
    let end = match find_in(&v, 0, v.len(), &at) {
        Some(i) => i,
        None => v.len(),
    };
    assert(v@.subrange(0, v@.len() as int) =~= v@);
    assert(v@.take(end as int) =~= v@.subrange(0, end as int));
    let (a, b) = trim_range(&v, 0, end);
    let ghost bs = v@.subrange(a as int, b as int);
    let slash = chars_of("/");
    proof {
        reveal_strlit("/");
    }
    match find_in(&v, a, b, &slash) {
        None => None,
        Some(k) => {
            assert(bs.take(k as int) =~= v@.subrange(a as int, a + k));
            assert(bs.skip(k + 1) =~= v@.subrange(a + k + 1, b as int));
            let layer = parse_radix(&v, a, a + k, 10, usize::MAX);
            let datatype = parse_radix(&v, a + k + 1, b, 10, usize::MAX);
            match (layer, datatype) {
                (Some(x), Some(y)) => Some((x, y)),
                _ => None,
            }
        },
    }
}

/// The name of the color that the color text `v` writes: `color_`, then the
/// text without its leading `#`s, in lower case.
pub open spec fn color_name_of(v: Seq<char>) -> Seq<char> {
    "color_"@ + to_ascii_lower(trim_start_char(v, '#'))
}

/// The name of the color that the color text `value` writes.
pub fn color_name(value: &str) -> (res: String)
    ensures
        res@ == color_name_of(value@),
{
    let v = chars_of(value);
    let mut i: usize = 0;
    while i < v.len() && v[i] == '#'
        invariant
            i <= v@.len(),
            run_of(v@, '#', 0) == i + run_of(v@, '#', i as int),
        decreases v@.len() - i,
    {
        i += 1;
    }
    let mut out = chars_of("color_");
    let ghost start = out@;
    let ghost rest = v@.skip(i as int);
    assert(trim_start_char(v@, '#') == rest);
    let mut j = i;
    while j < v.len()
        invariant
            i <= j <= v@.len(),
            rest == v@.skip(i as int),
            out@ == start + to_ascii_lower(rest.take(j - i)),
        decreases v@.len() - j,
    {
        let c = v[j];
        let l = if 'A' <= c && c <= 'Z' {
            ((c as u8) + 32) as char
        } else {
            c
        };
        assert(l == ascii_lower(c));
        out.push(l);
        assert(to_ascii_lower(rest.take(j + 1 - i)) =~= to_ascii_lower(rest.take(j - i)).push(
            ascii_lower(rest[j - i]),
        ));
        j += 1;
    }
    assert(rest.take(j - i) =~= rest);
    string_from_chars(&out)
}

/// The name of the packet of a layer and purpose: `layer_purpose`.
pub fn packet_name(layer_name: &String, purpose: &String) -> (res: String)
    ensures
        res@ == layer_name@ + "_"@ + purpose@,
{
    let mut v = chars_of(layer_name.as_str());
    v.push('_');
    let p = chars_of(purpose.as_str());
    let ghost start = v@;
    let mut i: usize = 0;
    while i < p.len()
        invariant
            i <= p@.len(),
            v@ == start + p@.take(i as int),
        decreases p@.len() - i,
    {
        v.push(p[i]);
        assert(p@.take(i + 1) =~= p@.take(i as int).push(p@[i as int]));
        i += 1;
    }
    proof {
        reveal_strlit("_");
        assert(p@.take(p@.len() as int) =~= p@);
        assert(v@ =~= layer_name@ + "_"@ + purpose@);
    }
    string_from_chars(&v)
}

/// The name of the custom pattern or line style number `index`: `C` and
/// the number.
pub fn klayout_custom_name(index: usize) -> (res: String)
    ensures
        res@ == "C"@ + decimal(index as nat),
{
    let mut v: Vec<char> = Vec::new();
    v.push('C');
    push_decimal(index, &mut v);
    proof {
        reveal_strlit("C");
        assert(v@ =~= "C"@ + decimal(index as nat));
    }
    string_from_chars(&v)
}

/// Which table a reference names.
#[derive(Clone, Copy)]
pub enum ReferenceKind {
    Dither,
    LineStyle,
}

/// The name that a layer's dither pattern or line style refers to: `I0`
/// when empty; the text itself when it starts with `I` or `C`; for a number
/// below 16 the built-in `I` and the number, for a larger one the custom
/// `C` and the number less 16; otherwise the text. The text is trimmed
/// first.
pub open spec fn normalized_ref(value: Seq<char>) -> Seq<char> {
    let v = trim(value);
    if v.len() == 0 {
        "I0"@
    } else if v[0] == 'I' || v[0] == 'C' {
        v
    } else {
        match parse_uint(v, 10, usize::MAX as nat) {
            Some(n) => if n < 16 {
                "I"@ + decimal(n)
            } else {
                "C"@ + decimal((n - 16) as nat)
            },
            None => v,
        }
    }
}

proof fn lemma_prefixed_decimal_plain(c: char, n: nat)
    requires
        c == 'I' || c == 'C',
    ensures
        trim(seq![c] + decimal(n)) == seq![c] + decimal(n),
        (seq![c] + decimal(n))[0] == c,
{
    let r = seq![c] + decimal(n);
    crate::num::lemma_decimal_digits(n);
    let d = decimal(n);
    assert(crate::num::digit_value(d[d.len() - 1], 10) is Some);
    assert(r.last() == d[d.len() - 1]);
    crate::text::lemma_trim_plain(r);
}

/// Normalizing a reference twice gives what normalizing it once gives.
pub proof fn lemma_normalized_ref_idempotent(value: Seq<char>)
    ensures
        normalized_ref(normalized_ref(value)) == normalized_ref(value),
{
    reveal_strlit("I0");
    reveal_strlit("I");
    reveal_strlit("C");
    let v = trim(value);
    crate::text::lemma_trim_idempotent(value);
    if v.len() == 0 {
        assert("I0"@ =~= seq!['I', '0']);
        crate::text::lemma_trim_plain("I0"@);
    } else if v[0] == 'I' || v[0] == 'C' {
    } else {
        match parse_uint(v, 10, usize::MAX as nat) {
            Some(n) => {
                if n < 16 {
                    assert("I"@ =~= seq!['I']);
                    lemma_prefixed_decimal_plain('I', n);
                } else {
                    assert("C"@ =~= seq!['C']);
                    lemma_prefixed_decimal_plain('C', (n - 16) as nat);
                }
            },
            None => {},
        }
    }
}

/// The name that a layer's dither pattern or line style refers to.
pub fn normalize_klayout_ref(value: &str, kind: ReferenceKind) -> (res: String)
    ensures
        res@ == normalized_ref(value@),
{
    let chars = chars_of(value);
    assert(chars@.subrange(0, chars@.len() as int) =~= chars@);
    let (a, b) = trim_range(&chars, 0, chars.len());
    if a == b {
        return match kind {
            ReferenceKind::Dither => String::from_str("I0"),
            ReferenceKind::LineStyle => String::from_str("I0"),
        };
    }
    if chars[a] == 'I' || chars[a] == 'C' {
        return string_of_range(&chars, a, b);
    }
    match parse_radix(&chars, a, b, 10, usize::MAX) {
        Some(index) => {
            let mut v: Vec<char> = Vec::new();
            if index < 16 {
                v.push('I');
                push_decimal(index, &mut v);
                proof {
                    reveal_strlit("I");
                    assert(v@ =~= "I"@ + decimal(index as nat));
                }
            } else {
                v.push('C');
                push_decimal(index - 16, &mut v);
                proof {
                    reveal_strlit("C");
                    assert(v@ =~= "C"@ + decimal((index - 16) as nat));
                }
            }
            string_from_chars(&v)
        },
        None => string_of_range(&chars, a, b),
    }
}

/// The number of bytes of `c` in UTF-8.
pub open spec fn utf8_len(c: char) -> nat {
    if (c as u32) < 0x80 {
        1
    } else if (c as u32) < 0x800 {
        2
    } else if (c as u32) < 0x10000 {
        3
    } else {
        4
    }
}

/// The number of bytes of `s` in UTF-8.
pub open spec fn byte_len(s: Seq<char>) -> nat
    decreases s.len(),
{
    if s.len() == 0 {
        0
    } else {
        byte_len(s.drop_last()) + utf8_len(s.last())
    }
}

proof fn lemma_byte_len_prefix(s: Seq<char>, i: int, j: int)
    requires
        0 <= i <= j <= s.len(),
    ensures
        byte_len(s.take(i)) <= byte_len(s.take(j)),
    decreases j - i,
{
    if i < j {
        lemma_byte_len_prefix(s, i, j - 1);
        assert(s.take(j).drop_last() =~= s.take(j - 1));
    }
}

/// What reading the first two bytes of a text as a hexadecimal `u8` gives.
#[derive(Debug, Clone, Copy, PartialEq, Eq, Structural)]
pub enum PairRead {
    /// The two bytes are a number.
    Value(u8),
    /// They are not.
    NotNumber,
    /// Byte 2 falls inside a character, where the text cannot be cut.
    Misaligned,
}

/// Reading the first two bytes of `h` as a hexadecimal `u8`.
pub open spec fn pair_read(h: Seq<char>) -> PairRead {
    if h.len() == 0 {
        PairRead::NotNumber
    } else if utf8_len(h[0]) >= 3 {
        PairRead::Misaligned
    } else if utf8_len(h[0]) == 2 {
        PairRead::NotNumber
    } else if h.len() < 2 {
        PairRead::NotNumber
    } else if utf8_len(h[1]) >= 2 {
        PairRead::Misaligned
    } else {
        match parse_uint(h.take(2), 16, 255) {
            Some(n) => PairRead::Value(n as u8),
            None => PairRead::NotNumber,
        }
    }
}

/// What reading a `#rrggbb` color text gives.
#[derive(Debug, Clone, Copy, PartialEq, Eq, Structural)]
pub enum HexColor {
    /// The red, green and blue components.
    Rgb(u8, u8, u8),
    /// The text is not such a color.
    NotColor,
    /// The text cannot be cut into pairs of bytes at character boundaries.
    Misaligned,
}

/// Reading the color text `v`: a `#` and six bytes, read two by two as
/// hexadecimal numbers.
pub open spec fn hex_color(v: Seq<char>) -> HexColor {
    if v.len() == 0 || v[0] != '#' {
        HexColor::NotColor
    } else {
        let h = v.drop_first();
        if byte_len(h) != 6 {
            HexColor::NotColor
        } else {
            match pair_read(h) {
                PairRead::Misaligned => HexColor::Misaligned,
                PairRead::NotNumber => HexColor::NotColor,
                PairRead::Value(r) => match pair_read(h.skip(2)) {
                    PairRead::Misaligned => HexColor::Misaligned,
                    PairRead::NotNumber => HexColor::NotColor,
                    PairRead::Value(g) => match pair_read(h.skip(4)) {
                        PairRead::Misaligned => HexColor::Misaligned,
                        PairRead::NotNumber => HexColor::NotColor,
                        PairRead::Value(b) => HexColor::Rgb(r, g, b),
                    },
                },
            }
        }
    }
}

fn utf8_len_of(c: char) -> (res: usize)
    ensures
        res == utf8_len(c),
{
    let n = c as u32;
    if n < 0x80 {
        1
    } else if n < 0x800 {
        2
    } else if n < 0x10000 {
        3
    } else {
        4
    }
}

/// Reads the first two bytes of `v[start..]` as a hexadecimal `u8`.
fn pair_read_at(v: &Vec<char>, start: usize) -> (res: PairRead)
    requires
        start <= v@.len(),
    ensures
        res == pair_read(v@.subrange(start as int, v@.len() as int)),
{
    let ghost h = v@.subrange(start as int, v@.len() as int);
    if start == v.len() {
        return PairRead::NotNumber;
    }
    assert(h[0] == v@[start as int]);
    let l0 = utf8_len_of(v[start]);
    if l0 >= 3 {
        return PairRead::Misaligned;
    }
    if l0 == 2 {
        return PairRead::NotNumber;
    }
    if v.len() - start < 2 {
        return PairRead::NotNumber;
    }
    assert(h[1] == v@[start + 1]);
    if utf8_len_of(v[start + 1]) >= 2 {
        return PairRead::Misaligned;
    }
    assert(h.take(2) =~= v@.subrange(start as int, start + 2));
    match parse_radix(v, start, start + 2, 16, 255) {
        Some(n) => PairRead::Value(n as u8),
        None => PairRead::NotNumber,
    }
}

/// Reads the color text `value`: a `#` and six bytes, read two by two as
/// hexadecimal numbers.
pub fn parse_hex_color(value: &str) -> (res: HexColor)
    ensures
        res == hex_color(value@),
{
    let v = chars_of(value);
    if v.len() == 0 || v[0] != '#' {
        return HexColor::NotColor;
    }
    let ghost h = v@.drop_first();
    assert(h =~= v@.subrange(1, v@.len() as int));
    let mut total: usize = 0;
    let mut i: usize = 1;
    while i < v.len()
        invariant
            1 <= i <= v@.len(),
            v@ == value@,
            v@.len() > 0 && v@[0] == '#',
            h == v@.drop_first(),
            h == v@.subrange(1, v@.len() as int),
            total == byte_len(h.take(i - 1)),
            total <= 6,
        decreases v@.len() - i,
    {
        assert(h.take(i as int).drop_last() =~= h.take(i - 1));
        assert(h.take(i as int).last() == v@[i as int]);
        let l = utf8_len_of(v[i]);
        assert(byte_len(h.take(i as int)) == total + l);
        if total + l > 6 {
            proof {
                lemma_byte_len_prefix(h, i as int, h.len() as int);
                assert(h.take(h.len() as int) =~= h);
            }
            return HexColor::NotColor;
        }
        total = total + l;
        i += 1;
    }
    assert(h.take(i - 1) =~= h);
    if total != 6 {
        return HexColor::NotColor;
    }
    let r = match pair_read_at(&v, 1) {
        PairRead::Misaligned => return HexColor::Misaligned,
        PairRead::NotNumber => return HexColor::NotColor,
        PairRead::Value(r) => r,
    };
    assert(v@.len() >= 3);
    assert(h.skip(2) =~= v@.subrange(3, v@.len() as int));
    let g = match pair_read_at(&v, 3) {
        PairRead::Misaligned => return HexColor::Misaligned,
        PairRead::NotNumber => return HexColor::NotColor,
        PairRead::Value(g) => g,
    };
    assert(v@.len() >= 5);
    assert(h.skip(4) =~= v@.subrange(5, v@.len() as int));
    match pair_read_at(&v, 5) {
        PairRead::Misaligned => HexColor::Misaligned,
        PairRead::NotNumber => HexColor::NotColor,
        PairRead::Value(b) => HexColor::Rgb(r, g, b),
    }
}

/// A 16 by 16 bitmap of `bit`.
pub open spec fn solid_bitmap(bit: u8) -> Seq<Seq<u8>> {
    Seq::new(16, |i: int| Seq::new(16, |j: int| bit))
}

/// The display with the built-in stipples `I0` (all set) and `I1` (all
/// clear) and line styles `I0` (solid) and `I1` (dashed).
pub open spec fn builtin_display() -> DrfView {
    let d = empty_drf("display"@);
    let d = add_stipple(d, StippleView { name: "I0"@, bitmap: solid_bitmap(1), row: 16, col: 16 });
    let d = add_stipple(d, StippleView { name: "I1"@, bitmap: solid_bitmap(0), row: 16, col: 16 });
    let d = add_line_style(d, LineStyleView { name: "I0"@, width: "1"@, pattern: seq![1u8] });
    add_line_style(d, LineStyleView { name: "I1"@, width: "1"@, pattern: seq![1u8, 0u8] })
}

/// The bits of a pattern line: 1 for each `*`, 0 for any other character.
pub open spec fn pattern_bits(line: Seq<char>) -> Seq<u8> {
    Seq::new(line.len(), |i: int| if line[i] == '*' { 1u8 } else { 0u8 })
}

/// The stipple of custom dither pattern number `index`, made of `lines`.
pub open spec fn dither_stipple(lines: Seq<Seq<char>>, index: nat) -> StippleView {
    StippleView {
        name: "C"@ + decimal(index),
        bitmap: Seq::new(lines.len(), |i: int| pattern_bits(lines[i])),
        row: lines.len() as usize,
        col: lines[0].len() as usize,
    }
}

/// `d` with the stipples of the custom dither patterns `ds` from number `i`
/// on; a pattern without lines adds nothing.
pub open spec fn add_dithers(d: DrfView, ds: Seq<Seq<Seq<char>>>, i: int) -> DrfView
    decreases ds.len() - i,
{
    if i < 0 || i >= ds.len() {
        d
    } else {
        add_dithers(
            if ds[i].len() == 0 {
                d
            } else {
                add_stipple(d, dither_stipple(ds[i], i as nat))
            },
            ds,
            i + 1,
        )
    }
}

/// The line style of custom line style number `index`.
pub open spec fn custom_line_style(pattern: Seq<char>, index: nat) -> LineStyleView {
    LineStyleView { name: "C"@ + decimal(index), width: "1"@, pattern: pattern_bits(pattern) }
}

/// `d` with the custom line styles `ls` from number `i` on.
pub open spec fn add_styles(d: DrfView, ls: Seq<Seq<char>>, i: int) -> DrfView
    decreases ls.len() - i,
{
    if i < 0 || i >= ls.len() {
        d
    } else {
        add_styles(add_line_style(d, custom_line_style(ls[i], i as nat)), ls, i + 1)
    }
}

/// `d` with the color named `name` that the text `value` writes, unless a
/// color of that name exists or `value` is no color; `None` when `value`
/// cannot be cut into pairs of bytes.
pub open spec fn with_color(d: DrfView, name: Seq<char>, value: Seq<char>) -> Option<DrfView> {
    if key_index(d.colors, name) is Some {
        Some(d)
    } else {
        match hex_color(value) {
            HexColor::Rgb(r, g, b) => Some(
                add_color(d, ColorView { name, rgb: seq![r, g, b], blink: false }),
            ),
            HexColor::NotColor => Some(d),
            HexColor::Misaligned => None,
        }
    }
}

/// The layer map of the layer properties.
pub type LayerMapSeq = Seq<(Seq<char>, (usize, usize))>;

/// The display and layer map with the layer properties `ps` from number `i`
/// on: a layer whose name has no purpose, or whose source has no numbers,
/// adds nothing; another adds its numbers under `layer#purpose`, its fill
/// and frame colors, and its packet `layer_purpose`. `None` when a color
/// text cannot be cut into pairs of bytes.
pub open spec fn add_props(d: DrfView, lm: LayerMapSeq, ps: Seq<PropView>, i: int) -> Option<
    (DrfView, LayerMapSeq),
>
    decreases ps.len() - i,
{
    if i < 0 || i >= ps.len() {
        Some((d, lm))
    } else {
        let p = ps[i];
        match layer_purpose(p.name) {
            None => add_props(d, lm, ps, i + 1),
            Some((l, pu)) => match source_numbers(p.source) {
                None => add_props(d, lm, ps, i + 1),
                Some(nums) => {
                    let lm2 = assoc_insert(lm, l + "#"@ + pu, nums);
                    let fill = color_name_of(p.fill_color);
                    let outline = color_name_of(p.frame_color);
                    match with_color(d, fill, p.fill_color) {
                        None => None,
                        Some(d1) => match with_color(d1, outline, p.frame_color) {
                            None => None,
                            Some(d2) => {
                                let packet = PacketView {
                                    name: l + "_"@ + pu,
                                    stipple: normalized_ref(p.dither_pattern),
                                    line_style: normalized_ref(p.line_style),
                                    fill,
                                    outline,
                                    fill_style: None,
                                };
                                add_props(add_packet(d2, packet), lm2, ps, i + 1)
                            },
                        },
                    }
                },
            },
        }
    }
}

/// A 16 by 16 bitmap of `bit`.
fn filled_bitmap(bit: u8) -> (res: Vec<Vec<u8>>)
    ensures
        rows_view(res@) == solid_bitmap(bit),
{
    let mut rows: Vec<Vec<u8>> = Vec::new();
    let mut i: usize = 0;
    while i < 16
        invariant
            i <= 16,
            rows@.len() == i,
            forall|k: int| 0 <= k < i ==> #[trigger] rows@[k]@ == Seq::new(16, |j: int| bit),
        decreases 16 - i,
    {
        let mut row: Vec<u8> = Vec::new();
        let mut j: usize = 0;
        while j < 16
            invariant
                j <= 16,
                row@ == Seq::new(j as nat, |x: int| bit),
            decreases 16 - j,
        {
            row.push(bit);
            assert(row@ =~= Seq::new((j + 1) as nat, |x: int| bit));
            j += 1;
        }
        rows.push(row);
        i += 1;
    }
    assert(rows_view(rows@) =~= solid_bitmap(bit));
    rows
}

fn insert_builtin_stipples(display: &mut Drf)
    ensures
        final(display)@ == add_stipple(
            add_stipple(
                old(display)@,
                StippleView { name: "I0"@, bitmap: solid_bitmap(1), row: 16, col: 16 },
            ),
            StippleView { name: "I1"@, bitmap: solid_bitmap(0), row: 16, col: 16 },
        ),
{
    let solid = filled_bitmap(1);
    let clear = filled_bitmap(0);
    display.stipples.insert(String::from_str("I0"), Stipple::new(String::from_str("I0"), solid, 16, 16));
    display.stipples.insert(String::from_str("I1"), Stipple::new(String::from_str("I1"), clear, 16, 16));
}

fn insert_builtin_line_styles(display: &mut Drf)
    ensures
        final(display)@ == add_line_style(
            add_line_style(
                old(display)@,
                LineStyleView { name: "I0"@, width: "1"@, pattern: seq![1u8] },
            ),
            LineStyleView { name: "I1"@, width: "1"@, pattern: seq![1u8, 0u8] },
        ),
{
    let mut p0: Vec<u8> = Vec::new();
    p0.push(1);
    let mut p1: Vec<u8> = Vec::new();
    p1.push(1);
    p1.push(0);
    assert(p0@ =~= seq![1u8]);
    assert(p1@ =~= seq![1u8, 0u8]);
    display.line_styles.insert(
        String::from_str("I0"),
        LineStyle::new(String::from_str("I0"), String::from_str("1"), p0),
    );
    display.line_styles.insert(
        String::from_str("I1"),
        LineStyle::new(String::from_str("I1"), String::from_str("1"), p1),
    );
}

/// The bits of the pattern line `line`.
fn bits_of(line: &String) -> (res: Vec<u8>)
    ensures
        res@ == pattern_bits(line@),
{
    let cs = chars_of(line.as_str());
    let mut out: Vec<u8> = Vec::new();
    let mut i: usize = 0;
    while i < cs.len()
        invariant
            cs@ == line@,
            i <= cs@.len(),
            out@ == Seq::new(i as nat, |k: int| if cs@[k] == '*' { 1u8 } else { 0u8 }),
        decreases cs@.len() - i,
    {
        out.push(if cs[i] == '*' { 1u8 } else { 0u8 });
        assert(out@ =~= Seq::new((i + 1) as nat, |k: int| if cs@[k] == '*' { 1u8 } else { 0u8 }));
        i += 1;
    }
    out
}

/// Adds the stipples of the custom dither patterns.
fn add_dither_patterns(display: &mut Drf, dithers: &Vec<CustomDitherPattern>)
    ensures
        final(display)@ == add_dithers(
            old(display)@,
            dithers@.map_values(|d: CustomDitherPattern| crate::text::views(d.lines@)),
            0,
        ),
{
    let ghost ds = dithers@.map_values(|d: CustomDitherPattern| crate::text::views(d.lines@));
    let mut index: usize = 0;
    while index < dithers.len()
        invariant
            index <= dithers@.len(),
            ds == dithers@.map_values(|d: CustomDitherPattern| crate::text::views(d.lines@)),
            add_dithers(display@, ds, index as int) == add_dithers(old(display)@, ds, 0),
        decreases dithers@.len() - index,
    {
        let pattern = &dithers[index];
        assert(ds[index as int] == crate::text::views(pattern.lines@));
        if pattern.lines.len() > 0 {
            let mut bitmap: Vec<Vec<u8>> = Vec::new();
            let mut k: usize = 0;
            while k < pattern.lines.len()
                invariant
                    k <= pattern.lines@.len(),
                    bitmap@.len() == k,
                    forall|j: int| 0 <= j < k ==> #[trigger] bitmap@[j]@ == pattern_bits(
                        pattern.lines@[j]@,
                    ),
                decreases pattern.lines@.len() - k,
            {
                bitmap.push(bits_of(&pattern.lines[k]));
                k += 1;
            }
            let name = klayout_custom_name(index);
            let row = bitmap.len();
            let col = bitmap[0].len();
            let ghost t = dither_stipple(ds[index as int], index as nat);
            assert(rows_view(bitmap@) =~= t.bitmap);
            let stipple = Stipple::new(name.clone(), bitmap, row, col);
            display.stipples.insert(name, stipple);
        }
        index += 1;
    }
}

/// Adds the custom line styles.
fn add_custom_line_styles(display: &mut Drf, styles: &Vec<CustomLineStyle>)
    ensures
        final(display)@ == add_styles(
            old(display)@,
            styles@.map_values(|l: CustomLineStyle| l.pattern@),
            0,
        ),
{
    let ghost ls = styles@.map_values(|l: CustomLineStyle| l.pattern@);
    let mut index: usize = 0;
    while index < styles.len()
        invariant
            index <= styles@.len(),
            ls == styles@.map_values(|l: CustomLineStyle| l.pattern@),
            add_styles(display@, ls, index as int) == add_styles(old(display)@, ls, 0),
        decreases styles@.len() - index,
    {
        let name = klayout_custom_name(index);
        let pattern = bits_of(&styles[index].pattern);
        let style = LineStyle::new(name.clone(), String::from_str("1"), pattern);
        display.line_styles.insert(name, style);
        index += 1;
    }
}

/// Adds the color named `name` that the text `value` writes, unless a color
/// of that name exists or `value` is no color; false when `value` cannot be
/// cut into pairs of bytes.
fn insert_color(display: &mut Drf, name: &String, value: &String) -> (res: bool)
    ensures
        match with_color(old(display)@, name@, value@) {
            Some(d) => res && final(display)@ == d,
            None => !res,
        },
{
    if display.colors.contains_key(name.as_str()) {
        return true;
    }
    match parse_hex_color(value.as_str()) {
        HexColor::Rgb(r, g, b) => {
            display.colors.insert(name.clone(), Color::new(name.clone(), r, g, b, false));
            true
        },
        HexColor::NotColor => true,
        HexColor::Misaligned => false,
    }
}

/// Adds the layers of the layer properties `props` to the display and the
/// layer map; false when a color text cannot be cut into pairs of bytes.
fn add_properties(
    display: &mut Drf,
    layermap: &mut NamedMap<(usize, usize)>,
    props: &Vec<LayerProperties>,
) -> (res: bool)
    ensures
        match add_props(
            old(display)@,
            old(layermap)@,
            props@.map_values(|p: LayerProperties| p@),
            0,
        ) {
            Some((d, lm)) => res && final(display)@ == d && final(layermap)@ == lm,
            None => !res,
        },
{
    let ghost ps = props@.map_values(|p: LayerProperties| p@);
    let ghost target = add_props(display@, layermap@, ps, 0);
    let mut i: usize = 0;
    while i < props.len()
        invariant
            i <= props@.len(),
            ps == props@.map_values(|p: LayerProperties| p@),
            target == add_props(old(display)@, old(layermap)@, ps, 0),
            add_props(display@, layermap@, ps, i as int) == target,
        decreases props@.len() - i,
    {
        let property = &props[i];
        assert(ps[i as int] == property@);
        let (layer_name, purpose) = match parse_layer_purpose(property.name.as_str()) {
            Some(lp) => lp,
            None => {
                i += 1;
                continue;
            },
        };
        let nums = match parse_source(property.source.as_str()) {
            Some(n) => n,
            None => {
                i += 1;
                continue;
            },
        };
        layermap.insert(layer_key(&layer_name, &purpose), nums);
        let fill = color_name(property.fill_color.as_str());
        let outline = color_name(property.frame_color.as_str());
        if !insert_color(display, &fill, &property.fill_color) {
            return false;
        }
        if !insert_color(display, &outline, &property.frame_color) {
            return false;
        }
        let name = packet_name(&layer_name, &purpose);
        let stipple = normalize_klayout_ref(property.dither_pattern.as_str(), ReferenceKind::Dither);
        let line_style = normalize_klayout_ref(property.line_style.as_str(), ReferenceKind::LineStyle);
        let packet = Packet { name: name.clone(), stipple, line_style, fill, outline, fill_style: None };
        display.packets.insert(name, packet);
        i += 1;
    }
    true
}

/// Why a layer-property file could not be turned into a display.
#[derive(Debug, Clone)]
pub enum LypError {
    /// A color text cannot be cut into pairs of bytes at character
    /// boundaries.
    MisalignedColor,
    /// A stipple declares another number of rows than its bitmap has.
    RowMismatch { display: String, name: String, row: usize, rows: usize },
    /// A stipple has a row of another length than it declares.
    NonRectangular { display: String, name: String },
    /// A packet names a stipple the display lacks.
    MissingStipple { display: String, name: String, stipple: String },
    /// A packet names a line style the display lacks.
    MissingLineStyle { display: String, name: String, line_style: String },
    /// A packet names a fill color the display lacks.
    MissingFillColor { display: String, name: String, fill: String },
    /// A packet names an outline color the display lacks.
    MissingOutlineColor { display: String, name: String, outline: String },
}

/// What a [`LypError`] holds.
pub enum LypErrorView {
    MisalignedColor,
    RowMismatch { display: Seq<char>, name: Seq<char>, row: usize, rows: usize },
    NonRectangular { display: Seq<char>, name: Seq<char> },
    MissingStipple { display: Seq<char>, name: Seq<char>, stipple: Seq<char> },
    MissingLineStyle { display: Seq<char>, name: Seq<char>, line_style: Seq<char> },
    MissingFillColor { display: Seq<char>, name: Seq<char>, fill: Seq<char> },
    MissingOutlineColor { display: Seq<char>, name: Seq<char>, outline: Seq<char> },
}

impl View for LypError {
    type V = LypErrorView;

    open spec fn view(&self) -> LypErrorView {
        match self {
            LypError::MisalignedColor => LypErrorView::MisalignedColor,
            LypError::RowMismatch { display, name, row, rows } => LypErrorView::RowMismatch {
                display: display@,
                name: name@,
                row: *row,
                rows: *rows,
            },
            LypError::NonRectangular { display, name } => LypErrorView::NonRectangular {
                display: display@,
                name: name@,
            },
            LypError::MissingStipple { display, name, stipple } => LypErrorView::MissingStipple {
                display: display@,
                name: name@,
                stipple: stipple@,
            },
            LypError::MissingLineStyle { display, name, line_style } =>
                LypErrorView::MissingLineStyle {
                display: display@,
                name: name@,
                line_style: line_style@,
            },
            LypError::MissingFillColor { display, name, fill } => LypErrorView::MissingFillColor {
                display: display@,
                name: name@,
                fill: fill@,
            },
            LypError::MissingOutlineColor { display, name, outline } =>
                LypErrorView::MissingOutlineColor {
                display: display@,
                name: name@,
                outline: outline@,
            },
        }
    }
}

/// The error, if any, of the stipple named `name` of display `dn`.
pub open spec fn stipple_error(dn: Seq<char>, name: Seq<char>, t: StippleView) -> Option<LypErrorView> {
    if t.row != t.bitmap.len() {
        Some(LypErrorView::RowMismatch { display: dn, name, row: t.row, rows: t.bitmap.len() as usize })
    } else if exists|k: int| 0 <= k < t.bitmap.len() && #[trigger] t.bitmap[k].len() != t.col {
        Some(LypErrorView::NonRectangular { display: dn, name })
    } else {
        None
    }
}

/// The first error among the stipples `ts` of display `dn`, from number `i`.
pub open spec fn stipples_error(dn: Seq<char>, ts: Seq<(Seq<char>, StippleView)>, i: int) -> Option<
    LypErrorView,
>
    decreases ts.len() - i,
{
    if i < 0 || i >= ts.len() {
        None
    } else {
        match stipple_error(dn, ts[i].0, ts[i].1) {
            Some(e) => Some(e),
            None => stipples_error(dn, ts, i + 1),
        }
    }
}

/// The error, if any, of the packet named `name` of display `d` named `dn`:
/// its stipple, line style, fill and outline must be defined in `d`.
pub open spec fn packet_error(dn: Seq<char>, name: Seq<char>, p: PacketView, d: DrfView) -> Option<
    LypErrorView,
> {
    if key_index(d.stipples, p.stipple) is None {
        Some(LypErrorView::MissingStipple { display: dn, name, stipple: p.stipple })
    } else if key_index(d.line_styles, p.line_style) is None {
        Some(LypErrorView::MissingLineStyle { display: dn, name, line_style: p.line_style })
    } else if key_index(d.colors, p.fill) is None {
        Some(LypErrorView::MissingFillColor { display: dn, name, fill: p.fill })
    } else if key_index(d.colors, p.outline) is None {
        Some(LypErrorView::MissingOutlineColor { display: dn, name, outline: p.outline })
    } else {
        None
    }
}

/// The first error among the packets of display `d`, from number `i`.
pub open spec fn packets_error(dn: Seq<char>, d: DrfView, i: int) -> Option<LypErrorView>
    decreases d.packets.len() - i,
{
    if i < 0 || i >= d.packets.len() {
        None
    } else {
        match packet_error(dn, d.packets[i].0, d.packets[i].1, d) {
            Some(e) => Some(e),
            None => packets_error(dn, d, i + 1),
        }
    }
}

/// The first error of display `d`: its stipples first, then its packets.
pub open spec fn display_error(dn: Seq<char>, d: DrfView) -> Option<LypErrorView> {
    match stipples_error(dn, d.stipples, 0) {
        Some(e) => Some(e),
        None => packets_error(dn, d, 0),
    }
}

/// The first error among the displays `drfs`, from number `i`.
pub open spec fn output_error(drfs: Seq<(Seq<char>, DrfView)>, i: int) -> Option<LypErrorView>
    decreases drfs.len() - i,
{
    if i < 0 || i >= drfs.len() {
        None
    } else {
        match display_error(drfs[i].0, drfs[i].1) {
            Some(e) => Some(e),
            None => output_error(drfs, i + 1),
        }
    }
}

/// The text of an error.
pub open spec fn error_message(e: LypErrorView) -> Seq<char> {
    match e {
        LypErrorView::MisalignedColor => "color text cannot be cut into byte pairs"@,
        LypErrorView::RowMismatch { display, name, row, rows } => display + "."@ + name
            + " row mismatch: row="@ + decimal(row as nat) + ", bitmap rows="@ + decimal(rows as nat),
        LypErrorView::NonRectangular { display, name } => display + "."@ + name
            + " has non-rectangular bitmap"@,
        LypErrorView::MissingStipple { display, name, stipple } => display + "."@ + name
            + " references missing stipple "@ + stipple,
        LypErrorView::MissingLineStyle { display, name, line_style } => display + "."@ + name
            + " references missing line_style "@ + line_style,
        LypErrorView::MissingFillColor { display, name, fill } => display + "."@ + name
            + " references missing fill color "@ + fill,
        LypErrorView::MissingOutlineColor { display, name, outline } => display + "."@ + name
            + " references missing outline color "@ + outline,
    }
}

/// Appends the characters of `s` to `v`.
fn push_str(v: &mut Vec<char>, s: &str)
    ensures
        final(v)@ == old(v)@ + s@,
{
    let cs = chars_of(s);
    let mut i: usize = 0;
    while i < cs.len()
        invariant
            i <= cs@.len(),
            v@ == old(v)@ + cs@.take(i as int),
        decreases cs@.len() - i,
    {
        v.push(cs[i]);
        assert(cs@.take(i + 1) =~= cs@.take(i as int).push(cs@[i as int]));
        i += 1;
    }
    assert(cs@.take(cs@.len() as int) =~= cs@);
}

/// `display.name` and the text `middle`, as the start of a message.
fn message_head(display: &String, name: &String, middle: &str) -> (res: Vec<char>)
    ensures
        res@ == display@ + "."@ + name@ + middle@,
{
    let mut v: Vec<char> = Vec::new();
    push_str(&mut v, display.as_str());
    push_str(&mut v, ".");
    push_str(&mut v, name.as_str());
    push_str(&mut v, middle);
    assert(v@ =~= display@ + "."@ + name@ + middle@);
    v
}

impl LypError {
    /// The text of the error.
    pub fn message(&self) -> (res: String)
        ensures
            res@ == error_message(self@),
    {
        match self {
            LypError::MisalignedColor => String::from_str("color text cannot be cut into byte pairs"),
            LypError::RowMismatch { display, name, row, rows } => {
                let mut v = message_head(display, name, " row mismatch: row=");
                push_decimal(*row, &mut v);
                push_str(&mut v, ", bitmap rows=");
                push_decimal(*rows, &mut v);
                proof {
                    assert(v@ =~= error_message(self@));
                }
                string_from_chars(&v)
            },
            LypError::NonRectangular { display, name } => {
                let v = message_head(display, name, " has non-rectangular bitmap");
                string_from_chars(&v)
            },
            LypError::MissingStipple { display, name, stipple } => {
                let mut v = message_head(display, name, " references missing stipple ");
                push_str(&mut v, stipple.as_str());
                string_from_chars(&v)
            },
            LypError::MissingLineStyle { display, name, line_style } => {
                let mut v = message_head(display, name, " references missing line_style ");
                push_str(&mut v, line_style.as_str());
                string_from_chars(&v)
            },
            LypError::MissingFillColor { display, name, fill } => {
                let mut v = message_head(display, name, " references missing fill color ");
                push_str(&mut v, fill.as_str());
                string_from_chars(&v)
            },
            LypError::MissingOutlineColor { display, name, outline } => {
                let mut v = message_head(display, name, " references missing outline color ");
                push_str(&mut v, outline.as_str());
                string_from_chars(&v)
            },
        }
    }
}

/// The error, if any, of the display `d` named `dn`.
fn validate_display(dn: &String, d: &Drf) -> (res: Result<(), LypError>)
    ensures
        match res {
            Ok(()) => display_error(dn@, d@) is None,
            Err(e) => display_error(dn@, d@) == Some(e@),
        },
{
    let ghost dv = d@;
    let mut k: usize = 0;
    while k < d.stipples.len()
        invariant
            dv == d@,
            k <= dv.stipples.len(),
            stipples_error(dn@, dv.stipples, 0) == stipples_error(dn@, dv.stipples, k as int),
        decreases dv.stipples.len() - k,
    {
        let name = d.stipples.key_at(k);
        let t = d.stipples.value_at(k);
        if t.row != t.bitmap.len() {
            return Err(
                LypError::RowMismatch {
                    display: dn.clone(),
                    name: name.clone(),
                    row: t.row,
                    rows: t.bitmap.len(),
                },
            );
        }
        let mut r: usize = 0;
        while r < t.bitmap.len()
            invariant
                dv == d@,
                k < dv.stipples.len(),
                stipples_error(dn@, dv.stipples, 0) == stipples_error(dn@, dv.stipples, k as int),
                t@ == dv.stipples[k as int].1,
                name@ == dv.stipples[k as int].0,
                t@.row == t@.bitmap.len(),
                r <= t.bitmap@.len(),
                forall|j: int| 0 <= j < r ==> (#[trigger] t@.bitmap[j]).len() == t@.col,
            decreases t.bitmap@.len() - r,
        {
            if t.bitmap[r].len() != t.col {
                assert(t@.bitmap[r as int].len() != t@.col);
                return Err(LypError::NonRectangular { display: dn.clone(), name: name.clone() });
            }
            assert(t@.bitmap[r as int] == t.bitmap@[r as int]@);
            r += 1;
        }
        k += 1;
    }
    let mut j: usize = 0;
    while j < d.packets.len()
        invariant
            dv == d@,
            j <= dv.packets.len(),
            stipples_error(dn@, dv.stipples, 0) is None,
            display_error(dn@, dv) == packets_error(dn@, dv, j as int),
        decreases dv.packets.len() - j,
    {
        let name = d.packets.key_at(j);
        let p = d.packets.value_at(j);
        if !d.stipples.contains_key(p.stipple.as_str()) {
            return Err(
                LypError::MissingStipple {
                    display: dn.clone(),
                    name: name.clone(),
                    stipple: p.stipple.clone(),
                },
            );
        }
        if !d.line_styles.contains_key(p.line_style.as_str()) {
            return Err(
                LypError::MissingLineStyle {
                    display: dn.clone(),
                    name: name.clone(),
                    line_style: p.line_style.clone(),
                },
            );
        }
        if !d.colors.contains_key(p.fill.as_str()) {
            return Err(
                LypError::MissingFillColor {
                    display: dn.clone(),
                    name: name.clone(),
                    fill: p.fill.clone(),
                },
            );
        }
        if !d.colors.contains_key(p.outline.as_str()) {
            return Err(
                LypError::MissingOutlineColor {
                    display: dn.clone(),
                    name: name.clone(),
                    outline: p.outline.clone(),
                },
            );
        }
        j += 1;
    }
    Ok(())
}

/// The displays and layer map read from a layer-property file.
pub struct LypOutput {
    pub drf: NamedMap<Drf>,
    pub layermap: NamedMap<(usize, usize)>,
}

/// What a [`LypOutput`] holds.
pub struct LypOutputView {
    pub drf: Seq<(Seq<char>, DrfView)>,
    pub layermap: LayerMapSeq,
}

impl View for LypOutput {
    type V = LypOutputView;

    open spec fn view(&self) -> LypOutputView {
        LypOutputView { drf: self.drf@, layermap: self.layermap@ }
    }
}

/// Whether a stipple declares as many rows as its bitmap has, each as long
/// as it declares.
pub open spec fn stipple_consistent(t: StippleView) -> bool {
    &&& t.row == t.bitmap.len()
    &&& forall|k: int| 0 <= k < t.bitmap.len() ==> (#[trigger] t.bitmap[k]).len() == t.col
}

/// Whether the stipple, line style, fill color and outline color that a
/// packet names are all defined in the display `d`.
pub open spec fn packet_consistent(p: PacketView, d: DrfView) -> bool {
    &&& key_index(d.stipples, p.stipple) is Some
    &&& key_index(d.line_styles, p.line_style) is Some
    &&& key_index(d.colors, p.fill) is Some
    &&& key_index(d.colors, p.outline) is Some
}

/// Whether every stipple of `d` is consistent and every packet of `d` names
/// only what `d` defines.
pub open spec fn display_consistent(d: DrfView) -> bool {
    &&& forall|i: int| 0 <= i < d.stipples.len() ==> stipple_consistent(#[trigger] d.stipples[i].1)
    &&& forall|j: int| 0 <= j < d.packets.len() ==> packet_consistent(#[trigger] d.packets[j].1, d)
}

/// Whether every display of `drfs` is consistent.
pub open spec fn output_consistent(drfs: Seq<(Seq<char>, DrfView)>) -> bool {
    forall|i: int| 0 <= i < drfs.len() ==> display_consistent(#[trigger] drfs[i].1)
}

proof fn lemma_stipples_error(dn: Seq<char>, ts: Seq<(Seq<char>, StippleView)>, i: int)
    requires
        0 <= i <= ts.len(),
    ensures
        stipples_error(dn, ts, i) is None <==> forall|j: int|
            i <= j < ts.len() ==> stipple_consistent(#[trigger] ts[j].1),
    decreases ts.len() - i,
{
    if i < ts.len() {
        lemma_stipples_error(dn, ts, i + 1);
        if stipple_error(dn, ts[i].0, ts[i].1) is None {
            assert(stipple_consistent(ts[i].1));
        } else {
            assert(!stipple_consistent(ts[i].1));
        }
    }
}

proof fn lemma_packets_error(dn: Seq<char>, d: DrfView, i: int)
    requires
        0 <= i <= d.packets.len(),
    ensures
        packets_error(dn, d, i) is None <==> forall|j: int|
            i <= j < d.packets.len() ==> packet_consistent(#[trigger] d.packets[j].1, d),
    decreases d.packets.len() - i,
{
    if i < d.packets.len() {
        lemma_packets_error(dn, d, i + 1);
    }
}

proof fn lemma_output_error(drfs: Seq<(Seq<char>, DrfView)>, i: int)
    requires
        0 <= i <= drfs.len(),
    ensures
        output_error(drfs, i) is None <==> forall|j: int|
            i <= j < drfs.len() ==> display_consistent(#[trigger] drfs[j].1),
    decreases drfs.len() - i,
{
    if i < drfs.len() {
        lemma_output_error(drfs, i + 1);
        lemma_stipples_error(drfs[i].0, drfs[i].1.stipples, 0);
        lemma_packets_error(drfs[i].0, drfs[i].1, 0);
    }
}

/// Validation accepts exactly the consistent outputs: those whose stipples
/// are rectangles of their declared size and whose packets name only what
/// their display defines.
pub proof fn lemma_validation_accepts_consistent(drfs: Seq<(Seq<char>, DrfView)>)
    ensures
        output_error(drfs, 0) is None <==> output_consistent(drfs),
{
    lemma_output_error(drfs, 0);
}

/// The first error, if any, of the displays of `output`.
pub fn validate_output(output: &LypOutput) -> (res: Result<(), LypError>)
    ensures
        match res {
            Ok(()) => output_error(output@.drf, 0) is None,
            Err(e) => output_error(output@.drf, 0) == Some(e@),
        },
{
    let ghost drfs = output.drf@;
    let mut i: usize = 0;
    while i < output.drf.len()
        invariant
            drfs == output.drf@,
            i <= drfs.len(),
            output_error(drfs, 0) == output_error(drfs, i as int),
        decreases drfs.len() - i,
    {
        let name = output.drf.key_at(i);
        let d = output.drf.value_at(i);
        match validate_display(name, d) {
            Err(e) => return Err(e),
            Ok(()) => {},
        }
        i += 1;
    }
    Ok(())
}

/// What the layer properties `ps`, custom dither patterns `ds` and custom
/// line styles `ls` give: the display `display`, built from the built-in
/// stipples and line styles, the custom ones and the layers, and the layer
/// map; or the first error of the display.
pub open spec fn build_model(ps: Seq<PropView>, ds: Seq<Seq<Seq<char>>>, ls: Seq<Seq<char>>) -> Result<
    LypOutputView,
    LypErrorView,
> {
    let d0 = add_styles(add_dithers(builtin_display(), ds, 0), ls, 0);
    match add_props(d0, seq![], ps, 0) {
        None => Err(LypErrorView::MisalignedColor),
        Some((d, lm)) => {
            let drfs = seq![("display"@, d)];
            match output_error(drfs, 0) {
                Some(e) => Err(e),
                None => Ok(LypOutputView { drf: drfs, layermap: lm }),
            }
        },
    }
}

/// Whether `d` holds the built-in stipples `I0` (all set) and `I1` (all
/// clear) and the built-in line styles `I0` (solid) and `I1` (dashed).
pub open spec fn has_builtins(d: DrfView) -> bool {
    &&& lookup(d.stipples, "I0"@) == Some(
        StippleView { name: "I0"@, bitmap: solid_bitmap(1), row: 16, col: 16 },
    )
    &&& lookup(d.stipples, "I1"@) == Some(
        StippleView { name: "I1"@, bitmap: solid_bitmap(0), row: 16, col: 16 },
    )
    &&& lookup(d.line_styles, "I0"@) == Some(
        LineStyleView { name: "I0"@, width: "1"@, pattern: seq![1u8] },
    )
    &&& lookup(d.line_styles, "I1"@) == Some(
        LineStyleView { name: "I1"@, width: "1"@, pattern: seq![1u8, 0u8] },
    )
}

proof fn lemma_custom_name_not_builtin(n: nat)
    ensures
        "C"@ + decimal(n) != "I0"@,
        "C"@ + decimal(n) != "I1"@,
{
    reveal_strlit("C");
    reveal_strlit("I0");
    reveal_strlit("I1");
    assert(("C"@ + decimal(n))[0] == 'C');
}

proof fn lemma_builtin_display()
    ensures
        has_builtins(builtin_display()),
{
    reveal_strlit("I0");
    reveal_strlit("I1");
    assert("I0"@[1] != "I1"@[1]);
    let d = empty_drf("display"@);
    let t0 = StippleView { name: "I0"@, bitmap: solid_bitmap(1), row: 16, col: 16 };
    let t1 = StippleView { name: "I1"@, bitmap: solid_bitmap(0), row: 16, col: 16 };
    let l0 = LineStyleView { name: "I0"@, width: "1"@, pattern: seq![1u8] };
    let l1 = LineStyleView { name: "I1"@, width: "1"@, pattern: seq![1u8, 0u8] };
    lemma_lookup_after_insert(d.stipples, "I0"@, t0, "I1"@);
    lemma_lookup_after_insert(assoc_insert(d.stipples, "I0"@, t0), "I1"@, t1, "I0"@);
    lemma_lookup_after_insert(d.line_styles, "I0"@, l0, "I1"@);
    lemma_lookup_after_insert(assoc_insert(d.line_styles, "I0"@, l0), "I1"@, l1, "I0"@);
}

proof fn lemma_add_dithers_keeps_builtins(d: DrfView, ds: Seq<Seq<Seq<char>>>, i: int)
    requires
        has_builtins(d),
    ensures
        has_builtins(add_dithers(d, ds, i)),
    decreases ds.len() - i,
{
    if 0 <= i < ds.len() {
        if ds[i].len() == 0 {
            lemma_add_dithers_keeps_builtins(d, ds, i + 1);
        } else {
            let t = dither_stipple(ds[i], i as nat);
            lemma_custom_name_not_builtin(i as nat);
            lemma_lookup_after_insert(d.stipples, t.name, t, "I0"@);
            lemma_lookup_after_insert(d.stipples, t.name, t, "I1"@);
            lemma_add_dithers_keeps_builtins(add_stipple(d, t), ds, i + 1);
        }
    }
}

proof fn lemma_add_styles_keeps_builtins(d: DrfView, ls: Seq<Seq<char>>, i: int)
    requires
        has_builtins(d),
    ensures
        has_builtins(add_styles(d, ls, i)),
    decreases ls.len() - i,
{
    if 0 <= i < ls.len() {
        let l = custom_line_style(ls[i], i as nat);
        lemma_custom_name_not_builtin(i as nat);
        lemma_lookup_after_insert(d.line_styles, l.name, l, "I0"@);
        lemma_lookup_after_insert(d.line_styles, l.name, l, "I1"@);
        lemma_add_styles_keeps_builtins(add_line_style(d, l), ls, i + 1);
    }
}

proof fn lemma_add_props_keeps_builtins(d: DrfView, lm: LayerMapSeq, ps: Seq<PropView>, i: int)
    requires
        has_builtins(d),
    ensures
        add_props(d, lm, ps, i) matches Some((d2, lm2)) ==> has_builtins(d2),
    decreases ps.len() - i,
{
    if 0 <= i < ps.len() {
        let p = ps[i];
        match layer_purpose(p.name) {
            None => lemma_add_props_keeps_builtins(d, lm, ps, i + 1),
            Some((l, pu)) => match source_numbers(p.source) {
                None => lemma_add_props_keeps_builtins(d, lm, ps, i + 1),
                Some(nums) => {
                    let lm2 = assoc_insert(lm, l + "#"@ + pu, nums);
                    let fill = color_name_of(p.fill_color);
                    let outline = color_name_of(p.frame_color);
                    match with_color(d, fill, p.fill_color) {
                        None => {},
                        Some(d1) => match with_color(d1, outline, p.frame_color) {
                            None => {},
                            Some(d2) => {
                                let packet = PacketView {
                                    name: l + "_"@ + pu,
                                    stipple: normalized_ref(p.dither_pattern),
                                    line_style: normalized_ref(p.line_style),
                                    fill,
                                    outline,
                                    fill_style: None,
                                };
                                lemma_add_props_keeps_builtins(add_packet(d2, packet), lm2, ps, i + 1);
                            },
                        },
                    }
                },
            },
        }
    }
}

/// Whatever the layer-property file holds, a display that is read holds
/// the built-in stipples `I0` and `I1` and line styles `I0` and `I1`
/// unchanged: custom patterns are named `C0`, `C1`, ... and never replace
/// them.
pub proof fn lemma_builtins_always_present(
    ps: Seq<PropView>,
    ds: Seq<Seq<Seq<char>>>,
    ls: Seq<Seq<char>>,
)
    ensures
        build_model(ps, ds, ls) matches Ok(o) ==> o.drf.len() == 1 && o.drf[0].0 == "display"@
            && has_builtins(o.drf[0].1),
{
    lemma_builtin_display();
    lemma_add_dithers_keeps_builtins(builtin_display(), ds, 0);
    let d1 = add_dithers(builtin_display(), ds, 0);
    lemma_add_styles_keeps_builtins(d1, ls, 0);
    lemma_add_props_keeps_builtins(add_styles(d1, ls, 0), seq![], ps, 0);
}

proof fn lemma_insert_keeps_keys<K, V>(m: Seq<(K, V)>, k: K, v: V)
    ensures
        key_index(assoc_insert(m, k, v), k) is Some,
        forall|o: K| key_index(m, o) is Some ==> #[trigger] key_index(assoc_insert(m, k, v), o) is Some,
{
    lemma_lookup_after_insert(m, k, v, k);
    assert forall|o: K| key_index(m, o) is Some implies #[trigger] key_index(
        assoc_insert(m, k, v),
        o,
    ) is Some by {
        lemma_lookup_after_insert(m, k, v, o);
    }
}

/// Whether the layer properties `p` name a layer with a purpose and have a
/// source with layer and data-type numbers: the layers that are read.
pub open spec fn layer_qualifies(p: PropView) -> bool {
    layer_purpose(p.name) is Some && source_numbers(p.source) is Some
}

/// Whether the display `d` and layer map `lm` record the layer `p`: its
/// `layer#purpose` key, its packet `layer_purpose`, and its fill and frame
/// colors whenever their texts are `#rrggbb` colors.
pub open spec fn layer_recorded(d: DrfView, lm: LayerMapSeq, p: PropView) -> bool {
    let (l, pu) = layer_purpose(p.name).unwrap();
    &&& key_index(lm, l + "#"@ + pu) is Some
    &&& key_index(d.packets, l + "_"@ + pu) is Some
    &&& (hex_color(p.fill_color) is Rgb ==> key_index(d.colors, color_name_of(p.fill_color)) is Some)
    &&& (hex_color(p.frame_color) is Rgb ==> key_index(d.colors, color_name_of(p.frame_color))
        is Some)
}

proof fn lemma_with_color_keeps(d: DrfView, name: Seq<char>, value: Seq<char>)
    ensures
        with_color(d, name, value) matches Some(d1) ==> {
            &&& forall|k: Seq<char>| key_index(d.colors, k) is Some ==> #[trigger] key_index(
                d1.colors,
                k,
            ) is Some
            &&& (hex_color(value) is Rgb ==> key_index(d1.colors, name) is Some)
            &&& d1.packets == d.packets
            &&& d1.stipples == d.stipples
            &&& d1.line_styles == d.line_styles
        },
{
    if key_index(d.colors, name) is None {
        if let HexColor::Rgb(r, g, b) = hex_color(value) {
            lemma_insert_keeps_keys(d.colors, name, ColorView { name, rgb: seq![r, g, b], blink: false });
        }
    }
}

proof fn lemma_add_props_records(d: DrfView, lm: LayerMapSeq, ps: Seq<PropView>, i: int)
    requires
        0 <= i,
    ensures
        add_props(d, lm, ps, i) matches Some((d2, lm2)) ==> {
            &&& forall|k: Seq<char>| key_index(d.colors, k) is Some ==> #[trigger] key_index(
                d2.colors,
                k,
            ) is Some
            &&& forall|k: Seq<char>| key_index(d.packets, k) is Some ==> #[trigger] key_index(
                d2.packets,
                k,
            ) is Some
            &&& forall|k: Seq<char>| key_index(lm, k) is Some ==> #[trigger] key_index(lm2, k)
                is Some
            &&& d2.stipples == d.stipples
            &&& d2.line_styles == d.line_styles
            &&& forall|j: int|
                i <= j < ps.len() && layer_qualifies(ps[j]) ==> layer_recorded(d2, lm2, #[trigger] ps[j])
        },
    decreases ps.len() - i,
{
    if i < ps.len() {
        let p = ps[i];
        match layer_purpose(p.name) {
            None => lemma_add_props_records(d, lm, ps, i + 1),
            Some((l, pu)) => match source_numbers(p.source) {
                None => lemma_add_props_records(d, lm, ps, i + 1),
                Some(nums) => {
                    let lm2 = assoc_insert(lm, l + "#"@ + pu, nums);
                    let fill = color_name_of(p.fill_color);
                    let outline = color_name_of(p.frame_color);
                    lemma_insert_keeps_keys(lm, l + "#"@ + pu, nums);
                    lemma_with_color_keeps(d, fill, p.fill_color);
                    match with_color(d, fill, p.fill_color) {
                        None => {},
                        Some(d1) => {
                            lemma_with_color_keeps(d1, outline, p.frame_color);
                            match with_color(d1, outline, p.frame_color) {
                                None => {},
                                Some(d2) => {
                                    let packet = PacketView {
                                        name: l + "_"@ + pu,
                                        stipple: normalized_ref(p.dither_pattern),
                                        line_style: normalized_ref(p.line_style),
                                        fill,
                                        outline,
                                        fill_style: None,
                                    };
                                    let d3 = add_packet(d2, packet);
                                    lemma_insert_keeps_keys(d2.packets, packet.name, packet);
                                    lemma_add_props_records(d3, lm2, ps, i + 1);
                                    if let Some((d4, lm4)) = add_props(d3, lm2, ps, i + 1) {
                                        assert(add_props(d, lm, ps, i) == Some((d4, lm4)));
                                        assert(layer_recorded(d4, lm4, ps[i]));
                                    }
                                },
                            }
                        },
                    }
                },
            },
        }
    }
}

/// Every layer that is read is recorded: when the file is read without
/// error, each layer whose name has a purpose and whose source has numbers
/// has its `layer#purpose` key in the layer map and its packet
/// `layer_purpose` in the display, and the display holds the colors that
/// its fill and frame color texts name whenever those texts are `#rrggbb`
/// colors, whatever colors earlier layers added.
pub proof fn lemma_layers_recorded(ps: Seq<PropView>, ds: Seq<Seq<Seq<char>>>, ls: Seq<Seq<char>>)
    ensures
        build_model(ps, ds, ls) matches Ok(o) ==> o.drf.len() == 1 && forall|j: int|
            0 <= j < ps.len() && layer_qualifies(ps[j]) ==> layer_recorded(
                o.drf[0].1,
                o.layermap,
                #[trigger] ps[j],
            ),
{
    let d0 = add_styles(add_dithers(builtin_display(), ds, 0), ls, 0);
    lemma_add_props_records(d0, seq![], ps, 0);
}

proof fn lemma_custom_names_differ(n: nat, m: nat)
    requires
        n != m,
    ensures
        "C"@ + decimal(n) != "C"@ + decimal(m),
{
    crate::num::lemma_decimal_digits(n);
    crate::num::lemma_decimal_digits(m);
    if "C"@ + decimal(n) == "C"@ + decimal(m) {
        reveal_strlit("C");
        assert(("C"@ + decimal(n)).skip(1) =~= decimal(n));
        assert(("C"@ + decimal(m)).skip(1) =~= decimal(m));
    }
}

proof fn lemma_add_dithers_keeps_other(d: DrfView, ds: Seq<Seq<Seq<char>>>, i: int, name: Seq<char>)
    requires
        0 <= i,
        forall|m: int| i <= m < ds.len() ==> name != "C"@ + #[trigger] decimal(m as nat),
    ensures
        lookup(add_dithers(d, ds, i).stipples, name) == lookup(d.stipples, name),
    decreases ds.len() - i,
{
    if i < ds.len() {
        if ds[i].len() == 0 {
            lemma_add_dithers_keeps_other(d, ds, i + 1, name);
        } else {
            let t = dither_stipple(ds[i], i as nat);
            lemma_lookup_after_insert(d.stipples, t.name, t, name);
            lemma_add_dithers_keeps_other(add_stipple(d, t), ds, i + 1, name);
        }
    }
}

proof fn lemma_add_dithers_holds(d: DrfView, ds: Seq<Seq<Seq<char>>>, i: int, n: int)
    requires
        0 <= i <= n < ds.len(),
        ds[n].len() > 0,
    ensures
        lookup(add_dithers(d, ds, i).stipples, "C"@ + decimal(n as nat)) == Some(
            dither_stipple(ds[n], n as nat),
        ),
    decreases ds.len() - i,
{
    if i < n {
        if ds[i].len() == 0 {
            lemma_add_dithers_holds(d, ds, i + 1, n);
        } else {
            lemma_add_dithers_holds(add_stipple(d, dither_stipple(ds[i], i as nat)), ds, i + 1, n);
        }
    } else {
        let t = dither_stipple(ds[n], n as nat);
        lemma_lookup_after_insert(d.stipples, t.name, t, t.name);
        assert forall|m: int| n + 1 <= m < ds.len() implies t.name != "C"@ + #[trigger] decimal(
            m as nat,
        ) by {
            lemma_custom_names_differ(n as nat, m as nat);
        }
        lemma_add_dithers_keeps_other(add_stipple(d, t), ds, n + 1, t.name);
    }
}

proof fn lemma_add_styles_keeps_stipples(d: DrfView, ls: Seq<Seq<char>>, i: int)
    ensures
        add_styles(d, ls, i).stipples == d.stipples,
    decreases ls.len() - i,
{
    if 0 <= i < ls.len() {
        lemma_add_styles_keeps_stipples(add_line_style(d, custom_line_style(ls[i], i as nat)), ls, i + 1);
    }
}

/// A custom dither pattern with lines becomes the stipple `C` and its
/// number: when the file is read without error, that stipple has a row for
/// each line of the pattern, as long as the line, with a 1 exactly where
/// the line has a `*` and a 0 elsewhere.
pub proof fn lemma_custom_dither_rows(
    ps: Seq<PropView>,
    ds: Seq<Seq<Seq<char>>>,
    ls: Seq<Seq<char>>,
    n: int,
)
    requires
        0 <= n < ds.len(),
        ds[n].len() > 0,
    ensures
        build_model(ps, ds, ls) matches Ok(o) ==> {
            &&& o.drf.len() == 1
            &&& lookup(o.drf[0].1.stipples, "C"@ + decimal(n as nat)) matches Some(t) && {
                &&& t.row == ds[n].len()
                &&& t.bitmap.len() == ds[n].len()
                &&& forall|k: int| 0 <= k < ds[n].len() ==> (#[trigger] t.bitmap[k]).len() == ds[n][k].len()
                &&& forall|k: int, j: int|
                    0 <= k < ds[n].len() && 0 <= j < ds[n][k].len() ==> #[trigger] t.bitmap[k][j] == (
                    if ds[n][k][j] == '*' {
                        1u8
                    } else {
                        0u8
                    })
            }
        },
{
    let d1 = add_dithers(builtin_display(), ds, 0);
    lemma_add_dithers_holds(builtin_display(), ds, 0, n);
    lemma_add_styles_keeps_stipples(d1, ls, 0);
    let d0 = add_styles(d1, ls, 0);
    lemma_add_props_records(d0, seq![], ps, 0);
    let t = dither_stipple(ds[n], n as nat);
    assert(t.bitmap.len() == ds[n].len());
    if let Some((d, lm)) = add_props(d0, seq![], ps, 0) {
        let drfs = seq![("display"@, d)];
        lemma_validation_accepts_consistent(drfs);
        crate::named_map::lemma_key_index(d.stipples, "C"@ + decimal(n as nat));
        if output_error(drfs, 0) is None {
            assert(display_consistent(drfs[0].1));
            let x = key_index(d.stipples, "C"@ + decimal(n as nat)).unwrap();
            assert(stipple_consistent(d.stipples[x].1));
        }
    }
}

/// What reading the layer-property text `content` gives.
pub open spec fn lyp_model(content: Seq<char>) -> Result<LypOutputView, LypErrorView> {
    let st = scan(content);
    build_model(st.props, st.dithers, st.styles)
}

/// Builds the display `display` and the layer map from what the file holds,
/// and checks that every packet names a stipple, line style and colors of
/// the display and that every stipple is a rectangle of its declared size.
pub fn build_output(
    properties: Vec<LayerProperties>,
    dither_patterns: Vec<CustomDitherPattern>,
    line_styles: Vec<CustomLineStyle>,
) -> (res: Result<LypOutput, LypError>)
    ensures
        ({
            let m = build_model(
                properties@.map_values(|p: LayerProperties| p@),
                dither_patterns@.map_values(|d: CustomDitherPattern| crate::text::views(d.lines@)),
                line_styles@.map_values(|l: CustomLineStyle| l.pattern@),
            );
            match res {
                Ok(o) => m == Ok::<LypOutputView, LypErrorView>(o@),
                Err(e) => m == Err::<LypOutputView, LypErrorView>(e@),
            }
        }),
{
    let mut display = Drf::new(String::from_str("display"));
    let mut layermap: NamedMap<(usize, usize)> = NamedMap::new();
    insert_builtin_stipples(&mut display);
    insert_builtin_line_styles(&mut display);
    assert(display@ == builtin_display());
    add_dither_patterns(&mut display, &dither_patterns);
    add_custom_line_styles(&mut display, &line_styles);
    if !add_properties(&mut display, &mut layermap, &properties) {
        return Err(LypError::MisalignedColor);
    }
    let mut drf: NamedMap<Drf> = NamedMap::new();
    let name = String::from_str("display");
    let ghost d = display@;
    drf.insert(name, display);
    assert(drf@ =~= seq![("display"@, d)]);
    let output = LypOutput { drf, layermap };
    match validate_output(&output) {
        Err(e) => Err(e),
        Ok(()) => Ok(output),
    }
}

/// Reads the layer-property text `content`: its layers, custom dither
/// patterns and custom line styles, as [`lyp_model`] gives them.
pub fn parse_lyp(content: &str) -> (res: Result<LypOutput, LypError>)
    ensures
        match res {
            Ok(o) => lyp_model(content@) == Ok::<LypOutputView, LypErrorView>(o@),
            Err(e) => lyp_model(content@) == Err::<LypOutputView, LypErrorView>(e@),
        },
        res matches Ok(o) ==> output_consistent(o@.drf),
        res matches Ok(o) ==> o@.drf.len() == 1 && o@.drf[0].0 == "display"@ && has_builtins(
            o@.drf[0].1,
        ),
{
    proof {
        let st = scan(content@);
        lemma_builtins_always_present(st.props, st.dithers, st.styles);
        let d0 = add_styles(add_dithers(builtin_display(), st.dithers, 0), st.styles, 0);
        if let Some((d, lm)) = add_props(d0, seq![], st.props, 0) {
            lemma_validation_accepts_consistent(seq![("display"@, d)]);
        }
    }
    let st = scan_content(content);
    build_output(st.props, st.dithers, st.styles)
}

} // verus!
