//! The parser of display resource files (`display.drf`): a list of
//! definitions `drDefineDisplay`, `drDefineColor`, `drDefineStipple`,
//! `drDefineLineStyle` and `drDefinePacket`, each followed by a bracketed
//! list of entries.

use vstd::prelude::*;
use crate::ast::color::{Color, ColorView, color_from_params, is_u8_text};
use crate::ast::drf::{Drf, DrfView, empty_drf};
use crate::ast::line_style::{LineStyle, LineStyleView, line_style_from_params};
use crate::ast::packet::{Packet, PacketView, packet_from_params};
use crate::ast::stipple::{Stipple, StippleView, stipple_from_params, rows_view};
use crate::named_map::{
    NamedMap, assoc_insert, key_index, lemma_key_index, lemma_lookup_after_insert, lookup,
};
use crate::num::parse_u8;
use crate::parser::reader::{
    FileStreamReader, content_words, lemma_stack_after_one, lemma_words_ignore_line_layout,
    stack_after,
};
use crate::text::{is_ws, str_is, views};

verus! {

/// Why a display resource file could not be read.
#[derive(Debug, Clone, Copy, PartialEq, Eq, Structural)]
pub enum DrfError {
    /// The text ends inside a definition.
    UnexpectedEnd,
    /// The name of a definition is not followed by `(`.
    MissingOpenParen,
    /// An entry has fewer fields than its definition needs.
    MissingField,
    /// A color component is not a decimal number from 0 to 255.
    BadNumber,
    /// A bitmap row or a line pattern holds a character that is not a digit.
    BadDigit,
    /// An entry names a display that no `drDefineDisplay` defined.
    UnknownDisplay,
    /// A packet entry has neither six nor seven fields.
    BadPacket,
    /// A stipple entry has no bitmap row.
    EmptyBitmap,
}

/// The kinds of definition.
#[derive(Debug, Clone, Copy, PartialEq, Eq, Structural)]
pub enum DefKind {
    Display,
    Color,
    Stipple,
    LineStyle,
    Packet,
}

/// The definition that the word `w` starts, if it starts one.
pub open spec fn def_kind(w: Seq<char>) -> Option<DefKind> {
    if w == "drDefineDisplay"@ {
        Some(DefKind::Display)
    } else if w == "drDefineColor"@ {
        Some(DefKind::Color)
    } else if w == "drDefineStipple"@ {
        Some(DefKind::Stipple)
    } else if w == "drDefineLineStyle"@ {
        Some(DefKind::LineStyle)
    } else if w == "drDefinePacket"@ {
        Some(DefKind::Packet)
    } else {
        None
    }
}

/// What the parser holds: the displays read so far, the words not yet read
/// and the bracket stack.
pub struct DrfState {
    pub drf: Seq<(Seq<char>, DrfView)>,
    pub words: Seq<Seq<char>>,
    pub stack: Seq<char>,
}

/// Where the parser is in the text, with what it has gathered of the
/// current entry.
pub enum DrfMode {
    /// Between definitions.
    Top,
    /// Just after the name of a definition.
    Open { kind: DefKind },
    /// Inside `drDefineDisplay`.
    Display,
    /// Inside `drDefineColor`, with the fields of the current entry.
    Color { params: Seq<Seq<char>> },
    /// Inside `drDefineStipple`, with the fields, the finished bitmap rows and
    /// the row being read.
    Stipple { params: Seq<Seq<char>>, bitmap: Seq<Seq<u8>>, row: Seq<u8> },
    /// Inside `drDefineLineStyle`, with the fields and the pattern.
    LineStyle { params: Seq<Seq<char>>, pattern: Seq<u8> },
    /// Inside `drDefinePacket`, with the fields of the current entry.
    Packet { params: Seq<Seq<char>> },
}

/// The state once the next word is read.
pub open spec fn advance(s: DrfState) -> DrfState {
    DrfState { drf: s.drf, words: s.words.drop_first(), stack: stack_after(s.stack, s.words[0]) }
}

/// The state with display `i` replaced by `d`.
pub open spec fn set_display(s: DrfState, i: int, d: DrfView) -> DrfState {
    DrfState { drf: s.drf.update(i, (s.drf[i].0, d)), words: s.words, stack: s.stack }
}

/// The state with a new, empty display named `name`.
pub open spec fn define_display(s: DrfState, name: Seq<char>) -> DrfState {
    DrfState { drf: assoc_insert(s.drf, name, empty_drf(name)), words: s.words, stack: s.stack }
}

/// `d` with the color `c` set under its name.
pub open spec fn add_color(d: DrfView, c: ColorView) -> DrfView {
    DrfView { colors: assoc_insert(d.colors, c.name, c), ..d }
}

/// `d` with the stipple `t` set under its name.
pub open spec fn add_stipple(d: DrfView, t: StippleView) -> DrfView {
    DrfView { stipples: assoc_insert(d.stipples, t.name, t), ..d }
}

/// `d` with the line style `l` set under its name.
pub open spec fn add_line_style(d: DrfView, l: LineStyleView) -> DrfView {
    DrfView { line_styles: assoc_insert(d.line_styles, l.name, l), ..d }
}

/// `d` with the packet `p` set under its name.
pub open spec fn add_packet(d: DrfView, p: PacketView) -> DrfView {
    DrfView { packets: assoc_insert(d.packets, p.name, p), ..d }
}

/// The digits of `w`, when every character of `w` is a decimal digit.
pub open spec fn decimal_digits(w: Seq<char>) -> Option<Seq<u8>> {
    if forall|i: int| 0 <= i < w.len() ==> '0' <= #[trigger] w[i] && w[i] <= '9' {
        Some(Seq::new(w.len(), |i: int| (w[i] as int - '0' as int) as u8))
    } else {
        None
    }
}

/// The error, if any, of reading a color from the fields `p`, in the order
/// in which the fields are read.
pub open spec fn color_fields_error(p: Seq<Seq<char>>) -> Option<DrfError> {
    if p.len() < 3 {
        Some(DrfError::MissingField)
    } else if !is_u8_text(p[2]) {
        Some(DrfError::BadNumber)
    } else if p.len() < 4 {
        Some(DrfError::MissingField)
    } else if !is_u8_text(p[3]) {
        Some(DrfError::BadNumber)
    } else if p.len() < 5 {
        Some(DrfError::MissingField)
    } else if !is_u8_text(p[4]) {
        Some(DrfError::BadNumber)
    } else {
        None
    }
}

/// Orders the modes for termination: a definition may end without reading.
pub open spec fn rank(m: DrfMode) -> nat {
    match m {
        DrfMode::Top => 0,
        _ => 1,
    }
}

/// The mode in which the entries of a definition of kind `k` are read.
pub open spec fn body_mode(k: DefKind) -> DrfMode {
    match k {
        DefKind::Display => DrfMode::Display,
        DefKind::Color => DrfMode::Color { params: seq![] },
        DefKind::Stipple => DrfMode::Stipple { params: seq![], bitmap: seq![], row: seq![] },
        DefKind::LineStyle => DrfMode::LineStyle { params: seq![], pattern: seq![] },
        DefKind::Packet => DrfMode::Packet { params: seq![] },
    }
}

/// What reading the rest of the text from mode `m` and state `s` gives: the
/// final state, and the error that stopped the reading, if any.
///
/// Between definitions, a word that starts no definition ends the reading.
/// Inside a definition, the bracket depth after each word decides what the
/// word is: a field of an entry, a row of digits, or the end of an entry, of
/// a bitmap or of the definition.
pub open spec fn run(m: DrfMode, s: DrfState) -> (DrfState, Option<DrfError>)
    decreases s.words.len(), rank(m),
{
    match m {
        DrfMode::Top => {
            if s.words.len() == 0 {
                (s, None)
            } else {
                match def_kind(s.words[0]) {
                    Some(k) => run(DrfMode::Open { kind: k }, advance(s)),
                    None => (s, None),
                }
            }
        },
        DrfMode::Open { kind } => {
            if s.words.len() == 0 {
                (s, Some(DrfError::UnexpectedEnd))
            } else if s.words[0] == "("@ {
                run(body_mode(kind), advance(s))
            } else {
                (advance(s), Some(DrfError::MissingOpenParen))
            }
        },
        DrfMode::Display => {
            if s.stack.len() == 0 {
                run(DrfMode::Top, s)
            } else if s.words.len() == 0 {
                (s, Some(DrfError::UnexpectedEnd))
            } else {
                let w = s.words[0];
                let s1 = advance(s);
                if w == "("@ || w == ")"@ {
                    run(DrfMode::Display, s1)
                } else {
                    run(DrfMode::Display, define_display(s1, w))
                }
            }
        },
        DrfMode::Color { params } => {
            if s.stack.len() < 1 {
                run(DrfMode::Top, s)
            } else if s.words.len() == 0 {
                (s, Some(DrfError::UnexpectedEnd))
            } else {
                let w = s.words[0];
                let s1 = advance(s);
                if w == ")"@ && s1.stack.len() == 0 {
                    run(DrfMode::Top, s1)
                } else if w == "("@ {
                    run(DrfMode::Color { params }, s1)
                } else if w == ")"@ {
                    match color_fields_error(params) {
                        Some(e) => (s1, Some(e)),
                        None => match key_index(s1.drf, params[0]) {
                            None => (s1, Some(DrfError::UnknownDisplay)),
                            Some(i) => run(
                                DrfMode::Color { params: seq![] },
                                set_display(s1, i, add_color(s1.drf[i].1, color_from_params(params))),
                            ),
                        },
                    }
                } else {
                    run(DrfMode::Color { params: params.push(w) }, s1)
                }
            }
        },
        DrfMode::Stipple { params, bitmap, row } => {
            if s.stack.len() < 1 {
                run(DrfMode::Top, s)
            } else if s.words.len() == 0 {
                (s, Some(DrfError::UnexpectedEnd))
            } else {
                let w = s.words[0];
                let s1 = advance(s);
                let d = s1.stack.len();
                if w == "("@ {
                    run(DrfMode::Stipple { params, bitmap, row }, s1)
                } else if w == ")"@ {
                    if d == 3 {
                        run(DrfMode::Stipple { params, bitmap: bitmap.push(row), row: seq![] }, s1)
                    } else if d == 2 {
                        if params.len() < 2 {
                            (s1, Some(DrfError::MissingField))
                        } else if bitmap.len() == 0 {
                            (s1, Some(DrfError::EmptyBitmap))
                        } else {
                            match key_index(s1.drf, params[0]) {
                                None => (s1, Some(DrfError::UnknownDisplay)),
                                Some(i) => run(
                                    DrfMode::Stipple { params: seq![], bitmap: seq![], row },
                                    set_display(
                                        s1,
                                        i,
                                        add_stipple(
                                            s1.drf[i].1,
                                            stipple_from_params(params, bitmap.len() as usize, bitmap),
                                        ),
                                    ),
                                ),
                            }
                        }
                    } else if d == 0 {
                        run(DrfMode::Top, s1)
                    } else {
                        run(DrfMode::Stipple { params, bitmap, row }, s1)
                    }
                } else if d == 2 {
                    run(DrfMode::Stipple { params: params.push(w), bitmap, row }, s1)
                } else if d == 4 {
                    match decimal_digits(w) {
                        Some(ds) => run(DrfMode::Stipple { params, bitmap, row: row + ds }, s1),
                        None => (s1, Some(DrfError::BadDigit)),
                    }
                } else {
                    run(DrfMode::Stipple { params, bitmap, row }, s1)
                }
            }
        },
        DrfMode::LineStyle { params, pattern } => {
            if s.stack.len() < 1 {
                run(DrfMode::Top, s)
            } else if s.words.len() == 0 {
                (s, Some(DrfError::UnexpectedEnd))
            } else {
                let w = s.words[0];
                let s1 = advance(s);
                let d = s1.stack.len();
                if w == "("@ {
                    run(DrfMode::LineStyle { params, pattern }, s1)
                } else if w == ")"@ {
                    if d == 2 {
                        if params.len() < 3 {
                            (s1, Some(DrfError::MissingField))
                        } else {
                            match key_index(s1.drf, params[0]) {
                                None => (s1, Some(DrfError::UnknownDisplay)),
                                Some(i) => run(
                                    DrfMode::LineStyle { params: seq![], pattern: seq![] },
                                    set_display(
                                        s1,
                                        i,
                                        add_line_style(s1.drf[i].1, line_style_from_params(params, pattern)),
                                    ),
                                ),
                            }
                        }
                    } else if d == 0 {
                        run(DrfMode::Top, s1)
                    } else {
                        run(DrfMode::LineStyle { params, pattern }, s1)
                    }
                } else if d == 2 {
                    run(DrfMode::LineStyle { params: params.push(w), pattern }, s1)
                } else if d == 3 {
                    match decimal_digits(w) {
                        Some(ds) => run(DrfMode::LineStyle { params, pattern: pattern + ds }, s1),
                        None => (s1, Some(DrfError::BadDigit)),
                    }
                } else {
                    run(DrfMode::LineStyle { params, pattern }, s1)
                }
            }
        },
        DrfMode::Packet { params } => {
            if s.stack.len() < 1 {
                run(DrfMode::Top, s)
            } else if s.words.len() == 0 {
                (s, Some(DrfError::UnexpectedEnd))
            } else {
                let w = s.words[0];
                let s1 = advance(s);
                let d = s1.stack.len();
                if w == "("@ {
                    run(DrfMode::Packet { params }, s1)
                } else if w == ")"@ {
                    if d == 1 {
                        if !(params.len() == 6 || params.len() == 7) {
                            (s1, Some(DrfError::BadPacket))
                        } else {
                            match key_index(s1.drf, params[0]) {
                                None => (s1, Some(DrfError::UnknownDisplay)),
                                Some(i) => run(
                                    DrfMode::Packet { params: seq![] },
                                    set_display(s1, i, add_packet(s1.drf[i].1, packet_from_params(params))),
                                ),
                            }
                        }
                    } else if d == 0 {
                        run(DrfMode::Top, s1)
                    } else {
                        run(DrfMode::Packet { params }, s1)
                    }
                } else {
                    run(DrfMode::Packet { params: params.push(w) }, s1)
                }
            }
        },
    }
}

/// The error of a result, if any.
pub open spec fn err_of(r: Result<(), DrfError>) -> Option<DrfError> {
    match r {
        Ok(()) => None,
        Err(e) => Some(e),
    }
}

/// What parsing the text `content` gives: the displays and the error that
/// stopped the reading, if any.
pub open spec fn parse_drf_text(content: Seq<char>) -> (DrfState, Option<DrfError>) {
    run(
        DrfMode::Top,
        DrfState { drf: seq![], words: content_words(content, Some(";"@)), stack: seq![] },
    )
}

/// Whether a sub-parser's result `res`, with the state `s` it left, agrees
/// with `expected`, what reading the whole rest of the text gives.
pub open spec fn finishes(
    res: Result<(), DrfError>,
    s: DrfState,
    expected: (DrfState, Option<DrfError>),
) -> bool {
    match res {
        Ok(()) => run(DrfMode::Top, s) == expected,
        Err(e) => (s, Some(e)) == expected,
    }
}

/// Reading from a definition's name: the `(` must follow, and the entries
/// are read in the definition's own mode.
proof fn lemma_def_start(s: DrfState, k: DefKind)
    requires
        s.words.len() > 0,
        def_kind(s.words[0]) == Some(k),
    ensures
        advance(s).words.len() == 0 ==> run(DrfMode::Top, s) == (
            advance(s),
            Some(DrfError::UnexpectedEnd),
        ),
        advance(s).words.len() > 0 && advance(s).words[0] == "("@ ==> run(DrfMode::Top, s)
            == run(body_mode(k), advance(advance(s))),
        advance(s).words.len() > 0 && advance(s).words[0] != "("@ ==> run(DrfMode::Top, s) == (
            advance(advance(s)),
            Some(DrfError::MissingOpenParen),
        ),
{
    assert(run(DrfMode::Top, s) == run(DrfMode::Open { kind: k }, advance(s)));
}

/// Whether a stipple declares as many rows as its bitmap has, has at least
/// one row, and declares as many columns as its first row has.
pub open spec fn stipple_sized(t: StippleView) -> bool {
    &&& t.bitmap.len() >= 1
    &&& t.row == t.bitmap.len() as usize
    &&& t.col == t.bitmap[0].len() as usize
}

/// Whether every stipple of every display of `drf` is sized.
pub open spec fn all_stipples_sized(drf: Seq<(Seq<char>, DrfView)>) -> bool {
    forall|i: int, j: int|
        0 <= i < drf.len() && 0 <= j < drf[i].1.stipples.len() ==> stipple_sized(
            #[trigger] drf[i].1.stipples[j].1,
        )
}

proof fn lemma_define_display_sized(s: DrfState, name: Seq<char>)
    requires
        all_stipples_sized(s.drf),
    ensures
        all_stipples_sized(define_display(s, name).drf),
{
    crate::named_map::lemma_key_index(s.drf, name);
    let m2 = define_display(s, name).drf;
    assert forall|i: int, j: int|
        0 <= i < m2.len() && 0 <= j < m2[i].1.stipples.len() implies stipple_sized(
        #[trigger] m2[i].1.stipples[j].1,
    ) by {
        if i < s.drf.len() && m2[i] != (name, empty_drf(name)) {
            assert(m2[i] == s.drf[i]);
        }
    }
}

proof fn lemma_set_display_sized(s: DrfState, i: int, d: DrfView)
    requires
        all_stipples_sized(s.drf),
        0 <= i < s.drf.len(),
        forall|j: int| 0 <= j < d.stipples.len() ==> stipple_sized(#[trigger] d.stipples[j].1),
    ensures
        all_stipples_sized(set_display(s, i, d).drf),
{
    let m2 = set_display(s, i, d).drf;
    assert forall|a: int, j: int|
        0 <= a < m2.len() && 0 <= j < m2[a].1.stipples.len() implies stipple_sized(
        #[trigger] m2[a].1.stipples[j].1,
    ) by {
        if a != i {
            assert(m2[a] == s.drf[a]);
        }
    }
}

proof fn lemma_add_stipple_sized(d: DrfView, t: StippleView)
    requires
        forall|j: int| 0 <= j < d.stipples.len() ==> stipple_sized(#[trigger] d.stipples[j].1),
        stipple_sized(t),
    ensures
        forall|j: int|
            0 <= j < add_stipple(d, t).stipples.len() ==> stipple_sized(
                #[trigger] add_stipple(d, t).stipples[j].1,
            ),
{
    crate::named_map::lemma_key_index(d.stipples, t.name);
    let m2 = add_stipple(d, t).stipples;
    assert forall|j: int| 0 <= j < m2.len() implies stipple_sized(#[trigger] m2[j].1) by {
        if j < d.stipples.len() && m2[j] != (t.name, t) {
            assert(m2[j] == d.stipples[j]);
        }
    }
}

proof fn lemma_in_display(s: DrfState, i: int)
    requires
        all_stipples_sized(s.drf),
        0 <= i < s.drf.len(),
    ensures
        forall|j: int|
            0 <= j < s.drf[i].1.stipples.len() ==> stipple_sized(#[trigger] s.drf[i].1.stipples[j].1),
{
    assert forall|j: int| 0 <= j < s.drf[i].1.stipples.len() implies stipple_sized(
        #[trigger] s.drf[i].1.stipples[j].1,
    ) by {
        assert(stipple_sized(s.drf[i].1.stipples[j].1));
    }
}

/// Reading keeps every stipple sized: a stipple is made only when its
/// bitmap closes, with at least one row, with its row count as the number
/// of rows read and its column count as the length of its first row.
pub proof fn lemma_run_keeps_stipples_sized(m: DrfMode, s: DrfState)
    requires
        all_stipples_sized(s.drf),
    ensures
        all_stipples_sized(run(m, s).0.drf),
    decreases s.words.len(), rank(m),
{
    match m {
        DrfMode::Top => {
            if s.words.len() > 0 {
                if let Some(k) = def_kind(s.words[0]) {
                    lemma_run_keeps_stipples_sized(DrfMode::Open { kind: k }, advance(s));
                }
            }
        },
        DrfMode::Open { kind } => {
            if s.words.len() > 0 && s.words[0] == "("@ {
                lemma_run_keeps_stipples_sized(body_mode(kind), advance(s));
            }
        },
        DrfMode::Display => {
            if s.stack.len() == 0 {
                lemma_run_keeps_stipples_sized(DrfMode::Top, s);
            } else if s.words.len() > 0 {
                let w = s.words[0];
                let s1 = advance(s);
                if w == "("@ || w == ")"@ {
                    lemma_run_keeps_stipples_sized(DrfMode::Display, s1);
                } else {
                    lemma_define_display_sized(s1, w);
                    lemma_run_keeps_stipples_sized(DrfMode::Display, define_display(s1, w));
                }
            }
        },
        DrfMode::Color { params } => {
            if s.stack.len() < 1 {
                lemma_run_keeps_stipples_sized(DrfMode::Top, s);
            } else if s.words.len() > 0 {
                let w = s.words[0];
                let s1 = advance(s);
                if w == ")"@ && s1.stack.len() == 0 {
                    lemma_run_keeps_stipples_sized(DrfMode::Top, s1);
                } else if w == "("@ {
                    lemma_run_keeps_stipples_sized(DrfMode::Color { params }, s1);
                } else if w == ")"@ {
                    if color_fields_error(params) is None {
                        crate::named_map::lemma_key_index(s1.drf, params[0]);
                        if let Some(i) = key_index(s1.drf, params[0]) {
                            let d = add_color(s1.drf[i].1, color_from_params(params));
                            lemma_in_display(s1, i);
                            lemma_set_display_sized(s1, i, d);
                            lemma_run_keeps_stipples_sized(
                                DrfMode::Color { params: seq![] },
                                set_display(s1, i, d),
                            );
                        }
                    }
                } else {
                    lemma_run_keeps_stipples_sized(DrfMode::Color { params: params.push(w) }, s1);
                }
            }
        },
        DrfMode::Stipple { params, bitmap, row } => {
            if s.stack.len() < 1 {
                lemma_run_keeps_stipples_sized(DrfMode::Top, s);
            } else if s.words.len() > 0 {
                let w = s.words[0];
                let s1 = advance(s);
                let dp = s1.stack.len();
                if w == "("@ {
                    lemma_run_keeps_stipples_sized(DrfMode::Stipple { params, bitmap, row }, s1);
                } else if w == ")"@ {
                    if dp == 3 {
                        lemma_run_keeps_stipples_sized(
                            DrfMode::Stipple { params, bitmap: bitmap.push(row), row: seq![] },
                            s1,
                        );
                    } else if dp == 2 {
                        if params.len() >= 2 && bitmap.len() != 0 {
                            crate::named_map::lemma_key_index(s1.drf, params[0]);
                            if let Some(i) = key_index(s1.drf, params[0]) {
                                let t = stipple_from_params(params, bitmap.len() as usize, bitmap);
                                let d = add_stipple(s1.drf[i].1, t);
                                lemma_in_display(s1, i);
                                lemma_add_stipple_sized(s1.drf[i].1, t);
                                lemma_set_display_sized(s1, i, d);
                                lemma_run_keeps_stipples_sized(
                                    DrfMode::Stipple { params: seq![], bitmap: seq![], row },
                                    set_display(s1, i, d),
                                );
                            }
                        }
                    } else if dp == 0 {
                        lemma_run_keeps_stipples_sized(DrfMode::Top, s1);
                    } else {
                        lemma_run_keeps_stipples_sized(DrfMode::Stipple { params, bitmap, row }, s1);
                    }
                } else if dp == 2 {
                    lemma_run_keeps_stipples_sized(
                        DrfMode::Stipple { params: params.push(w), bitmap, row },
                        s1,
                    );
                } else if dp == 4 {
                    if let Some(ds) = decimal_digits(w) {
                        lemma_run_keeps_stipples_sized(
                            DrfMode::Stipple { params, bitmap, row: row + ds },
                            s1,
                        );
                    }
                } else {
                    lemma_run_keeps_stipples_sized(DrfMode::Stipple { params, bitmap, row }, s1);
                }
            }
        },
        DrfMode::LineStyle { params, pattern } => {
            if s.stack.len() < 1 {
                lemma_run_keeps_stipples_sized(DrfMode::Top, s);
            } else if s.words.len() > 0 {
                let w = s.words[0];
                let s1 = advance(s);
                let dp = s1.stack.len();
                if w == "("@ {
                    lemma_run_keeps_stipples_sized(DrfMode::LineStyle { params, pattern }, s1);
                } else if w == ")"@ {
                    if dp == 2 {
                        if params.len() >= 3 {
                            crate::named_map::lemma_key_index(s1.drf, params[0]);
                            if let Some(i) = key_index(s1.drf, params[0]) {
                                let d = add_line_style(
                                    s1.drf[i].1,
                                    line_style_from_params(params, pattern),
                                );
                                lemma_in_display(s1, i);
                                lemma_set_display_sized(s1, i, d);
                                lemma_run_keeps_stipples_sized(
                                    DrfMode::LineStyle { params: seq![], pattern: seq![] },
                                    set_display(s1, i, d),
                                );
                            }
                        }
                    } else if dp == 0 {
                        lemma_run_keeps_stipples_sized(DrfMode::Top, s1);
                    } else {
                        lemma_run_keeps_stipples_sized(DrfMode::LineStyle { params, pattern }, s1);
                    }
                } else if dp == 2 {
                    lemma_run_keeps_stipples_sized(
                        DrfMode::LineStyle { params: params.push(w), pattern },
                        s1,
                    );
                } else if dp == 3 {
                    if let Some(ds) = decimal_digits(w) {
                        lemma_run_keeps_stipples_sized(
                            DrfMode::LineStyle { params, pattern: pattern + ds },
                            s1,
                        );
                    }
                } else {
                    lemma_run_keeps_stipples_sized(DrfMode::LineStyle { params, pattern }, s1);
                }
            }
        },
        DrfMode::Packet { params } => {
            if s.stack.len() < 1 {
                lemma_run_keeps_stipples_sized(DrfMode::Top, s);
            } else if s.words.len() > 0 {
                let w = s.words[0];
                let s1 = advance(s);
                let dp = s1.stack.len();
                if w == "("@ {
                    lemma_run_keeps_stipples_sized(DrfMode::Packet { params }, s1);
                } else if w == ")"@ {
                    if dp == 1 {
                        if params.len() == 6 || params.len() == 7 {
                            crate::named_map::lemma_key_index(s1.drf, params[0]);
                            if let Some(i) = key_index(s1.drf, params[0]) {
                                let d = add_packet(s1.drf[i].1, packet_from_params(params));
                                lemma_in_display(s1, i);
                                lemma_set_display_sized(s1, i, d);
                                lemma_run_keeps_stipples_sized(
                                    DrfMode::Packet { params: seq![] },
                                    set_display(s1, i, d),
                                );
                            }
                        }
                    } else if dp == 0 {
                        lemma_run_keeps_stipples_sized(DrfMode::Top, s1);
                    } else {
                        lemma_run_keeps_stipples_sized(DrfMode::Packet { params }, s1);
                    }
                } else {
                    lemma_run_keeps_stipples_sized(DrfMode::Packet { params: params.push(w) }, s1);
                }
            }
        },
    }
}

/// Every stipple read from a display resource file, whether or not the
/// reading ends in an error, has at least one row, declares as many rows
/// as its bitmap has and as many columns as its first row has.
pub proof fn lemma_read_stipples_sized(content: Seq<char>)
    ensures
        all_stipples_sized(parse_drf_text(content).0.drf),
{
    lemma_run_keeps_stipples_sized(
        DrfMode::Top,
        DrfState { drf: seq![], words: content_words(content, Some(";"@)), stack: seq![] },
    );
}

/// Where a text holds no `;`, its line layout does not matter: two texts
/// that differ only in which whitespace characters they hold (a line break
/// where the other has a space, say) read to the same displays, with the
/// same error if any.
pub proof fn lemma_drf_ignores_line_layout(s1: Seq<char>, s2: Seq<char>)
    requires
        s1.len() == s2.len(),
        forall|j: int| 0 <= j < s1.len() ==> s1[j] == s2[j] || (is_ws(s1[j]) && is_ws(s2[j])),
        forall|j: int| 0 <= j < s1.len() ==> s1[j] != ';',
    ensures
        parse_drf_text(s1) == parse_drf_text(s2),
{
    reveal_strlit(";");
    assert(";"@[0] == ';');
    assert forall|j: int| 0 <= j < s2.len() implies #[trigger] s2[j] != ";"@[0] by {
        assert(s1[j] != ';');
    }
    assert forall|j: int| 0 <= j < s1.len() implies #[trigger] s1[j] != ";"@[0] by {}
    lemma_words_ignore_line_layout(s1, s2, Some(";"@));
}

/// Whether `w` holds no bracket character, so that reading it leaves the
/// bracket stack as it is.
pub open spec fn bracket_free(w: Seq<char>) -> bool {
    forall|i: int|
        0 <= i < w.len() ==> #[trigger] w[i] != '(' && w[i] != ')' && w[i] != '{' && w[i] != '}'
            && w[i] != '[' && w[i] != ']'
}

proof fn lemma_bracket_free_stack(st: Seq<char>, w: Seq<char>)
    requires
        bracket_free(w),
    ensures
        stack_after(st, w) == st,
        w != "("@,
        w != ")"@,
    decreases w.len(),
{
    reveal_strlit("(");
    reveal_strlit(")");
    if w.len() > 0 {
        let d = w.drop_last();
        assert forall|i: int| 0 <= i < d.len() implies #[trigger] d[i] != '(' && d[i] != ')' && d[i]
            != '{' && d[i] != '}' && d[i] != '[' && d[i] != ']' by {
            assert(d[i] == w[i]);
        }
        lemma_bracket_free_stack(st, d);
        assert(w[w.len() - 1] == w.last());
        if w == "("@ {
            assert(w[0] == '(');
        }
        if w == ")"@ {
            assert(w[0] == ')');
        }
    }
}

proof fn lemma_key_index_same_names<V>(m: Seq<(Seq<char>, V)>, m2: Seq<(Seq<char>, V)>, k: Seq<char>)
    requires
        m.len() == m2.len(),
        forall|j: int| 0 <= j < m.len() ==> (#[trigger] m[j]).0 == m2[j].0,
    ensures
        key_index(m, k) == key_index(m2, k),
    decreases m.len(),
{
    if m.len() > 0 {
        let a = m.drop_last();
        let b = m2.drop_last();
        assert forall|j: int| 0 <= j < a.len() implies (#[trigger] a[j]).0 == b[j].0 by {
            assert(a[j] == m[j] && b[j] == m2[j]);
        }
        lemma_key_index_same_names(a, b, k);
        assert(m.last().0 == m2.last().0) by {
            assert(m[m.len() - 1].0 == m2[m.len() - 1].0);
        }
    }
}

/// How display `i` of `drf`, once replaced by `d`, looks up by name: the
/// display named `drf[i]`'s name is `d`, every other name finds what it
/// found before.
proof fn lemma_lookup_after_set(drf: Seq<(Seq<char>, DrfView)>, i: int, d: DrfView)
    requires
        0 <= i < drf.len(),
        key_index(drf, drf[i].0) == Some(i),
    ensures
        lookup(drf.update(i, (drf[i].0, d)), drf[i].0) == Some(d),
        forall|e: Seq<char>|
            e != drf[i].0 ==> #[trigger] lookup(drf.update(i, (drf[i].0, d)), e) == lookup(drf, e),
{
    let m2 = drf.update(i, (drf[i].0, d));
    assert forall|j: int| 0 <= j < drf.len() implies (#[trigger] drf[j]).0 == m2[j].0 by {}
    lemma_key_index_same_names(drf, m2, drf[i].0);
    assert forall|e: Seq<char>| e != drf[i].0 implies #[trigger] lookup(m2, e) == lookup(drf, e) by {
        lemma_key_index_same_names(drf, m2, e);
        lemma_key_index(drf, e);
        if let Some(j) = key_index(drf, e) {
            assert(j != i);
            assert(m2[j] == drf[j]);
        }
    }
}

/// The packet that an entry with the fields `params` describes, field by
/// field: name, stipple, line style, fill, outline and, with a seventh
/// field, the fill style.
pub open spec fn entry_packet_fields(p: PacketView, params: Seq<Seq<char>>) -> bool {
    &&& p.name == params[1]
    &&& p.stipple == params[2]
    &&& p.line_style == params[3]
    &&& p.fill == params[4]
    &&& p.outline == params[5]
    &&& p.fill_style == (if params.len() == 7 {
        Some(params[6])
    } else {
        None
    })
}

/// Whether the displays `after` are the displays `before` with the packet of
/// the entry `params` stored in the display that its first field names, and
/// nothing else changed.
pub open spec fn packet_entry_stored(
    before: Seq<(Seq<char>, DrfView)>,
    after: Seq<(Seq<char>, DrfView)>,
    params: Seq<Seq<char>>,
) -> bool {
    &&& forall|e: Seq<char>| e != params[0] ==> #[trigger] lookup(after, e) == lookup(before, e)
    &&& lookup(before, params[0]) is Some
    &&& lookup(after, params[0]) is Some
    &&& {
        let d0 = lookup(before, params[0]).unwrap();
        let d = lookup(after, params[0]).unwrap();
        &&& d.name == d0.name
        &&& d.colors == d0.colors
        &&& d.stipples == d0.stipples
        &&& d.line_styles == d0.line_styles
        &&& lookup(d.packets, params[1]) matches Some(pk) && entry_packet_fields(pk, params)
        &&& forall|n: Seq<char>|
            n != params[1] ==> #[trigger] lookup(d.packets, n) == lookup(d0.packets, n)
    }
}

proof fn lemma_packet_fields_read(t: DrfState, params: Seq<Seq<char>>, k: int, rest: Seq<Seq<char>>)
    requires
        0 <= k <= params.len(),
        t.stack.len() == 2,
        forall|j: int| 0 <= j < params.len() ==> bracket_free(#[trigger] params[j]),
        t.words == params.skip(k) + seq![")"@] + rest,
    ensures
        run(DrfMode::Packet { params: params.take(k) }, t) == run(
            DrfMode::Packet { params },
            DrfState { drf: t.drf, words: seq![")"@] + rest, stack: t.stack },
        ),
    decreases params.len() - k,
{
    if k == params.len() {
        assert(params.take(k) =~= params);
        assert(t.words =~= seq![")"@] + rest);
    } else {
        let w = params[k];
        assert(t.words[0] == w);
        lemma_bracket_free_stack(t.stack, w);
        let s1 = advance(t);
        assert(s1.words =~= params.skip(k + 1) + seq![")"@] + rest);
        assert(params.take(k).push(w) =~= params.take(k + 1));
        lemma_packet_fields_read(s1, params, k + 1, rest);
    }
}

/// A packet entry goes to the display it names: reading the entry
/// `( D name stipple line-style fill outline [fill-style] )` inside a
/// `drDefinePacket` section, where display `D` was declared, goes on from a
/// state that has the rest of the words, the same bracket stack, and the
/// displays where only `D` changed, only by holding that packet under its
/// name.
pub proof fn lemma_packet_entry_stored(s: DrfState, params: Seq<Seq<char>>, rest: Seq<Seq<char>>)
    requires
        s.stack.len() == 1,
        params.len() == 6 || params.len() == 7,
        forall|j: int| 0 <= j < params.len() ==> bracket_free(#[trigger] params[j]),
        key_index(s.drf, params[0]) is Some,
        s.words == seq!["("@] + params + seq![")"@] + rest,
    ensures
        exists|s2: DrfState|
            #![trigger run(DrfMode::Packet { params: seq![] }, s2)]
            run(DrfMode::Packet { params: seq![] }, s) == run(DrfMode::Packet { params: seq![] }, s2)
                && s2.words == rest && s2.stack == s.stack && packet_entry_stored(s.drf, s2.drf, params),
{
    reveal_strlit("(");
    reveal_strlit(")");
    lemma_stack_after_one(s.stack, '(');
    assert("("@ =~= seq!['(']);
    assert(")"@ =~= seq![')']);
    let s1 = advance(s);
    assert(s.words[0] == "("@);
    assert(s1.words =~= params.skip(0) + seq![")"@] + rest);
    assert(params.take(0) =~= Seq::<Seq<char>>::empty());
    lemma_packet_fields_read(s1, params, 0, rest);
    let t = DrfState { drf: s.drf, words: seq![")"@] + rest, stack: s1.stack };
    lemma_stack_after_one(t.stack, ')');
    let t1 = advance(t);
    assert(t.words[0] == ")"@);
    assert(t1.words =~= rest);
    assert(t1.stack =~= s.stack);
    let i = key_index(s.drf, params[0]).unwrap();
    let d = add_packet(s.drf[i].1, packet_from_params(params));
    let s2 = set_display(t1, i, d);
    assert(run(DrfMode::Packet { params: seq![] }, s) == run(DrfMode::Packet { params: seq![] }, s2));
    crate::named_map::lemma_key_index(s.drf, params[0]);
    assert(s.drf[i].0 == params[0]);
    lemma_lookup_after_set(s.drf, i, d);
    lemma_lookup_after_insert(s.drf[i].1.packets, params[1], packet_from_params(params), params[1]);
    assert forall|n: Seq<char>| n != params[1] implies #[trigger] lookup(d.packets, n) == lookup(
        s.drf[i].1.packets,
        n,
    ) by {
        lemma_lookup_after_insert(s.drf[i].1.packets, params[1], packet_from_params(params), n);
    }
    assert(packet_entry_stored(s.drf, s2.drf, params));
}

/// The pattern that the digit words `ds` write: the digits of each word in
/// turn.
pub open spec fn pattern_of_words(ds: Seq<Seq<char>>) -> Seq<u8>
    decreases ds.len(),
{
    if ds.len() == 0 {
        seq![]
    } else {
        pattern_of_words(ds.drop_last()) + Seq::new(
            ds.last().len(),
            |i: int| (ds.last()[i] as int - '0' as int) as u8,
        )
    }
}

/// Whether every character of `w` is a decimal digit.
pub open spec fn digit_word(w: Seq<char>) -> bool {
    forall|i: int| 0 <= i < w.len() ==> '0' <= #[trigger] w[i] && w[i] <= '9'
}

/// Whether the displays `after` are the displays `before` with the line
/// style named `params[1]`, of width `params[2]` and the given pattern,
/// stored in the display that `params[0]` names, and nothing else changed.
pub open spec fn line_style_entry_stored(
    before: Seq<(Seq<char>, DrfView)>,
    after: Seq<(Seq<char>, DrfView)>,
    params: Seq<Seq<char>>,
    pattern: Seq<u8>,
) -> bool {
    &&& forall|e: Seq<char>| e != params[0] ==> #[trigger] lookup(after, e) == lookup(before, e)
    &&& lookup(before, params[0]) is Some
    &&& lookup(after, params[0]) is Some
    &&& {
        let d0 = lookup(before, params[0]).unwrap();
        let d = lookup(after, params[0]).unwrap();
        &&& d.name == d0.name
        &&& d.colors == d0.colors
        &&& d.stipples == d0.stipples
        &&& d.packets == d0.packets
        &&& lookup(d.line_styles, params[1]) matches Some(l) && l.name == params[1] && l.width
            == params[2] && l.pattern == pattern
        &&& forall|n: Seq<char>|
            n != params[1] ==> #[trigger] lookup(d.line_styles, n) == lookup(d0.line_styles, n)
    }
}

proof fn lemma_line_style_fields_read(
    t: DrfState,
    params: Seq<Seq<char>>,
    k: int,
    rest: Seq<Seq<char>>,
)
    requires
        0 <= k <= params.len(),
        t.stack.len() == 2,
        forall|j: int| 0 <= j < params.len() ==> bracket_free(#[trigger] params[j]),
        t.words == params.skip(k) + rest,
        rest.len() > 0,
        rest[0] == "("@,
    ensures
        run(DrfMode::LineStyle { params: params.take(k), pattern: seq![] }, t) == run(
            DrfMode::LineStyle { params, pattern: seq![] },
            DrfState { drf: t.drf, words: rest, stack: t.stack },
        ),
    decreases params.len() - k,
{
    if k == params.len() {
        assert(params.take(k) =~= params);
        assert(t.words =~= rest);
    } else {
        let w = params[k];
        assert(t.words[0] == w);
        lemma_bracket_free_stack(t.stack, w);
        let s1 = advance(t);
        assert(s1.words =~= params.skip(k + 1) + rest);
        assert(params.take(k).push(w) =~= params.take(k + 1));
        lemma_line_style_fields_read(s1, params, k + 1, rest);
    }
}

proof fn lemma_line_style_digits_read(
    t: DrfState,
    params: Seq<Seq<char>>,
    ds: Seq<Seq<char>>,
    k: int,
    rest: Seq<Seq<char>>,
)
    requires
        0 <= k <= ds.len(),
        t.stack.len() == 3,
        forall|j: int| 0 <= j < ds.len() ==> digit_word(#[trigger] ds[j]),
        forall|j: int| 0 <= j < ds.len() ==> bracket_free(#[trigger] ds[j]),
        t.words == ds.skip(k) + rest,
    ensures
        run(DrfMode::LineStyle { params, pattern: pattern_of_words(ds.take(k)) }, t) == run(
            DrfMode::LineStyle { params, pattern: pattern_of_words(ds) },
            DrfState { drf: t.drf, words: rest, stack: t.stack },
        ),
    decreases ds.len() - k,
{
    if k == ds.len() {
        assert(ds.take(k) =~= ds);
        assert(t.words =~= rest);
    } else {
        let w = ds[k];
        assert(t.words[0] == w);
        lemma_bracket_free_stack(t.stack, w);
        let s1 = advance(t);
        assert(s1.words =~= ds.skip(k + 1) + rest);
        assert(digit_word(w));
        assert(ds.take(k + 1).drop_last() =~= ds.take(k));
        assert(ds.take(k + 1).last() == w);
        assert(decimal_digits(w) == Some(Seq::new(w.len(), |i: int| (w[i] as int - '0' as int) as u8)));
        lemma_line_style_digits_read(s1, params, ds, k + 1, rest);
    }
}

/// A line-style entry goes to the display it names: reading the entry
/// `( D name width ( digits ... ) )` inside a `drDefineLineStyle` section,
/// where display `D` was declared, goes on from a state that has the rest
/// of the words, the same bracket stack, and the displays where only `D`
/// changed, only by holding the line style `name` of that width whose
/// pattern is the digits of the digit words in turn.
pub proof fn lemma_line_style_entry_stored(
    s: DrfState,
    params: Seq<Seq<char>>,
    ds: Seq<Seq<char>>,
    rest: Seq<Seq<char>>,
)
    requires
        s.stack.len() == 1,
        params.len() >= 3,
        forall|j: int| 0 <= j < params.len() ==> bracket_free(#[trigger] params[j]),
        forall|j: int| 0 <= j < ds.len() ==> digit_word(#[trigger] ds[j]),
        key_index(s.drf, params[0]) is Some,
        s.words == seq!["("@] + params + seq!["("@] + ds + seq![")"@, ")"@] + rest,
    ensures
        exists|s2: DrfState|
            #![trigger run(DrfMode::LineStyle { params: seq![], pattern: seq![] }, s2)]
            run(DrfMode::LineStyle { params: seq![], pattern: seq![] }, s) == run(
                DrfMode::LineStyle { params: seq![], pattern: seq![] },
                s2,
            ) && s2.words == rest && s2.stack == s.stack && line_style_entry_stored(
                s.drf,
                s2.drf,
                params,
                pattern_of_words(ds),
            ),
{
    reveal_strlit("(");
    reveal_strlit(")");
    assert("("@ =~= seq!['(']);
    assert(")"@ =~= seq![')']);
    assert forall|j: int| 0 <= j < ds.len() implies bracket_free(#[trigger] ds[j]) by {
        assert(digit_word(ds[j]));
        assert forall|i: int| 0 <= i < ds[j].len() implies #[trigger] ds[j][i] != '(' && ds[j][i]
            != ')' && ds[j][i] != '{' && ds[j][i] != '}' && ds[j][i] != '[' && ds[j][i] != ']' by {
            assert('0' <= ds[j][i] && ds[j][i] <= '9');
        }
    }
    let empty_p: Seq<u8> = seq![];
    // The opening bracket of the entry.
    lemma_stack_after_one(s.stack, '(');
    let s1 = advance(s);
    assert(s.words[0] == "("@);
    let tail1 = seq!["("@] + ds + seq![")"@, ")"@] + rest;
    assert(s1.words =~= params.skip(0) + tail1);
    assert(params.take(0) =~= Seq::<Seq<char>>::empty());
    lemma_line_style_fields_read(s1, params, 0, tail1);
    // The opening bracket of the pattern.
    let t = DrfState { drf: s.drf, words: tail1, stack: s1.stack };
    lemma_stack_after_one(t.stack, '(');
    let t1 = advance(t);
    assert(t.words[0] == "("@);
    let tail2 = seq![")"@, ")"@] + rest;
    assert(t1.words =~= ds.skip(0) + tail2);
    assert(ds.take(0) =~= Seq::<Seq<char>>::empty());
    assert(pattern_of_words(ds.take(0)) == empty_p);
    lemma_line_style_digits_read(t1, params, ds, 0, tail2);
    // The closing bracket of the pattern stores the line style.
    let u = DrfState { drf: s.drf, words: tail2, stack: t1.stack };
    lemma_stack_after_one(u.stack, ')');
    let u1 = advance(u);
    assert(u.words[0] == ")"@);
    assert(u1.stack =~= s1.stack);
    let i = key_index(s.drf, params[0]).unwrap();
    let l = line_style_from_params(params, pattern_of_words(ds));
    let d = add_line_style(s.drf[i].1, l);
    let v = set_display(u1, i, d);
    // The closing bracket of the entry.
    lemma_stack_after_one(v.stack, ')');
    let s2 = advance(v);
    assert(v.words =~= seq![")"@] + rest);
    assert(v.words[0] == ")"@);
    assert(s2.words =~= rest);
    assert(s2.stack =~= s.stack);
    assert(run(DrfMode::LineStyle { params: seq![], pattern: seq![] }, v) == run(
        DrfMode::LineStyle { params: seq![], pattern: seq![] },
        s2,
    ));
    assert(run(DrfMode::LineStyle { params: seq![], pattern: seq![] }, s) == run(
        DrfMode::LineStyle { params: seq![], pattern: seq![] },
        s2,
    ));
    crate::named_map::lemma_key_index(s.drf, params[0]);
    assert(s.drf[i].0 == params[0]);
    lemma_lookup_after_set(s.drf, i, d);
    lemma_lookup_after_insert(s.drf[i].1.line_styles, params[1], l, params[1]);
    assert forall|n: Seq<char>| n != params[1] implies #[trigger] lookup(d.line_styles, n) == lookup(
        s.drf[i].1.line_styles,
        n,
    ) by {
        lemma_lookup_after_insert(s.drf[i].1.line_styles, params[1], l, n);
    }
    assert(line_style_entry_stored(s.drf, s2.drf, params, pattern_of_words(ds)));
}

/// Reads the digits of `word` onto `out`; false when a character of `word`
/// is not a decimal digit.
pub(crate) fn push_digits(word: &String, out: &mut Vec<u8>) -> (ok: bool)
    ensures
        ok == decimal_digits(word@) is Some,
        ok ==> final(out)@ == old(out)@ + decimal_digits(word@).unwrap(),
{
    let cs = crate::text::chars_of(word.as_str());
    let ghost start = out@;
    let mut i: usize = 0;
    while i < cs.len()
        invariant
            cs@ == word@,
            i <= cs@.len(),
            forall|j: int| 0 <= j < i ==> '0' <= #[trigger] cs@[j] && cs@[j] <= '9',
            out@ == start + Seq::new(i as nat, |j: int| (cs@[j] as int - '0' as int) as u8),
        decreases cs@.len() - i,
    {
        let c = cs[i];
        if !('0' <= c && c <= '9') {
            assert(!('0' <= word@[i as int] && word@[i as int] <= '9'));
            return false;
        }
        let d = ((c as u32) - 48) as u8;
        out.push(d);
        assert(out@ =~= start + Seq::new((i + 1) as nat, |j: int| (cs@[j] as int - '0' as int) as u8));
        i += 1;
    }
    assert(Seq::new(i as nat, |j: int| (cs@[j] as int - '0' as int) as u8) =~= decimal_digits(
        word@,
    ).unwrap());
    true
}

/// The error of reading a color from `params`, if any (see
/// [`color_fields_error`]).
pub(crate) fn check_color_fields(params: &Vec<String>) -> (res: Option<DrfError>)
    ensures
        res == color_fields_error(views(params@)),
{
    let ghost p = views(params@);
    if params.len() < 3 {
        return Some(DrfError::MissingField);
    }
    assert(p[2] == params@[2]@);
    if parse_u8(&params[2]).is_none() {
        return Some(DrfError::BadNumber);
    }
    if params.len() < 4 {
        return Some(DrfError::MissingField);
    }
    assert(p[3] == params@[3]@);
    if parse_u8(&params[3]).is_none() {
        return Some(DrfError::BadNumber);
    }
    if params.len() < 5 {
        return Some(DrfError::MissingField);
    }
    assert(p[4] == params@[4]@);
    if parse_u8(&params[4]).is_none() {
        return Some(DrfError::BadNumber);
    }
    None
}

/// Sets `c` under its name in display `i`.
pub(crate) fn add_color_at(drfs: &mut NamedMap<Drf>, i: usize, c: Color)
    requires
        i < old(drfs)@.len(),
    ensures
        final(drfs)@ == old(drfs)@.update(
            i as int,
            (old(drfs)@[i as int].0, add_color(old(drfs)@[i as int].1, c@)),
        ),
{
    let mut d = Drf::new(String::new());
    drfs.swap_value(i, &mut d);
    let name = c.name.clone();
    d.colors.insert(name, c);
    drfs.swap_value(i, &mut d);
}

/// Sets `t` under its name in display `i`.
pub(crate) fn add_stipple_at(drfs: &mut NamedMap<Drf>, i: usize, t: Stipple)
    requires
        i < old(drfs)@.len(),
    ensures
        final(drfs)@ == old(drfs)@.update(
            i as int,
            (old(drfs)@[i as int].0, add_stipple(old(drfs)@[i as int].1, t@)),
        ),
{
    let mut d = Drf::new(String::new());
    drfs.swap_value(i, &mut d);
    let name = t.name.clone();
    d.stipples.insert(name, t);
    drfs.swap_value(i, &mut d);
}

/// Sets `l` under its name in display `i`.
fn add_line_style_at(drfs: &mut NamedMap<Drf>, i: usize, l: LineStyle)
    requires
        i < old(drfs)@.len(),
    ensures
        final(drfs)@ == old(drfs)@.update(
            i as int,
            (old(drfs)@[i as int].0, add_line_style(old(drfs)@[i as int].1, l@)),
        ),
{
    let mut d = Drf::new(String::new());
    drfs.swap_value(i, &mut d);
    let name = l.name.clone();
    d.line_styles.insert(name, l);
    drfs.swap_value(i, &mut d);
}

/// Sets `p` under its name in display `i`.
fn add_packet_at(drfs: &mut NamedMap<Drf>, i: usize, p: Packet)
    requires
        i < old(drfs)@.len(),
    ensures
        final(drfs)@ == old(drfs)@.update(
            i as int,
            (old(drfs)@[i as int].0, add_packet(old(drfs)@[i as int].1, p@)),
        ),
{
    let mut d = Drf::new(String::new());
    drfs.swap_value(i, &mut d);
    let name = p.name.clone();
    d.packets.insert(name, p);
    drfs.swap_value(i, &mut d);
}

/// Which definition `w` starts, if any.
fn def_kind_of(w: &String) -> (res: Option<DefKind>)
    ensures
        res == def_kind(w@),
{
    if str_is(w, "drDefineDisplay") {
        Some(DefKind::Display)
    } else if str_is(w, "drDefineColor") {
        Some(DefKind::Color)
    } else if str_is(w, "drDefineStipple") {
        Some(DefKind::Stipple)
    } else if str_is(w, "drDefineLineStyle") {
        Some(DefKind::LineStyle)
    } else if str_is(w, "drDefinePacket") {
        Some(DefKind::Packet)
    } else {
        None
    }
}

/// Reads a display resource file: its displays, and in each display its
/// colors, stipples, line styles and packets.
pub struct DrfParser {
    pub drf: NamedMap<Drf>,
    pub reader: FileStreamReader,
}

impl DrfParser {
    /// The displays read so far, the words left and the bracket stack.
    pub open spec fn state(&self) -> DrfState {
        DrfState { drf: self.drf@, words: self.reader.remaining(), stack: self.reader.stack_seq() }
    }

    /// A parser of the text `content`, where `;` starts a comment.
    pub fn from_string(content: &str) -> (res: Self)
        ensures
            res.reader.wf(),
            res.state() == (DrfState {
                drf: seq![],
                words: content_words(content@, Some(";"@)),
                stack: seq![],
            }),
    {
        DrfParser { drf: NamedMap::new(), reader: FileStreamReader::from_string(content, Some(";")) }
    }

    /// Reads the next word.
    fn next(&mut self) -> (res: Option<String>)
        requires
            old(self).reader.wf(),
        ensures
            final(self).reader.wf(),
            old(self).state().words.len() == 0 ==> res is None && final(self).state()
                == old(self).state(),
            old(self).state().words.len() > 0 ==> (res matches Some(w) && w@ == old(self).state().words[0] && final(self).state() == advance(old(self).state())),
    {
        self.reader.next_word()
    }

    /// Reads the name of a definition and the `(` after it.
    fn open(&mut self) -> (res: Result<(), DrfError>)
        requires
            old(self).reader.wf(),
            old(self).state().words.len() > 0,
        ensures
            final(self).reader.wf(),
            ({
                let s1 = advance(old(self).state());
                match res {
                    Ok(()) => s1.words.len() > 0 && s1.words[0] == "("@ && final(self).state()
                        == advance(s1),
                    Err(e) => if s1.words.len() == 0 {
                        e == DrfError::UnexpectedEnd && final(self).state() == s1
                    } else {
                        s1.words[0] != "("@ && e == DrfError::MissingOpenParen && final(self).state() == advance(s1)
                    },
                }
            }),
    {
        let _header = self.next();
        match self.next() {
            None => Err(DrfError::UnexpectedEnd),
            Some(w) => if str_is(&w, "(") {
                Ok(())
            } else {
                Err(DrfError::MissingOpenParen)
            },
        }
    }

    fn parse_display(&mut self) -> (res: Result<(), DrfError>)
        requires
            old(self).reader.wf(),
            old(self).state().words.len() > 0,
            def_kind(old(self).state().words[0]) == Some(DefKind::Display),
        ensures
            final(self).reader.wf(),
            final(self).state().words.len() < old(self).state().words.len(),
            finishes(res, final(self).state(), run(DrfMode::Top, old(self).state())),
    {
        let ghost target = run(DrfMode::Top, old(self).state());
        proof {
            lemma_def_start(old(self).state(), DefKind::Display);
        }
        match self.open() {
            Err(e) => return Err(e),
            Ok(()) => {},
        }
        while !self.reader.is_stack_empty()
            invariant
                self.reader.wf(),
                target == run(DrfMode::Top, old(self).state()),
                self.state().words.len() < old(self).state().words.len(),
                run(DrfMode::Display, self.state()) == target,
            decreases self.state().words.len(),
        {
            let ghost s = self.state();
            assert(s.stack.len() > 0);
            let next = self.next();
            if next.is_none() {
                return Err(DrfError::UnexpectedEnd);
            }
            let word = next.unwrap();
            if str_is(&word, "(") || str_is(&word, ")") {
                continue;
            }
            let drf = Drf::new(word.clone());
            self.drf.insert(word, drf);
        }
        Ok(())
    }

    /// Reads a `drDefineColor` section. An entry that names a display no
    /// `drDefineDisplay` declared is refused with `UnknownDisplay`, and a
    /// missing or non-numeric component with `MissingField` or `BadNumber`:
    /// such texts are answered with an error, not left out of the inputs.
    fn parse_color(&mut self) -> (res: Result<(), DrfError>)
        requires
            old(self).reader.wf(),
            old(self).state().words.len() > 0,
            def_kind(old(self).state().words[0]) == Some(DefKind::Color),
        ensures
            final(self).reader.wf(),
            final(self).state().words.len() < old(self).state().words.len(),
            finishes(res, final(self).state(), run(DrfMode::Top, old(self).state())),
    {
        let ghost target = run(DrfMode::Top, old(self).state());
        proof {
            lemma_def_start(old(self).state(), DefKind::Color);
        }
        match self.open() {
            Err(e) => return Err(e),
            Ok(()) => {},
        }
        let mut params: Vec<String> = Vec::new();
        assert(views(params@) =~= Seq::<Seq<char>>::empty());
        while self.reader.depth() >= 1
            invariant
                self.reader.wf(),
                target == run(DrfMode::Top, old(self).state()),
                self.state().words.len() < old(self).state().words.len(),
                run(DrfMode::Color { params: views(params@) }, self.state()) == target,
            decreases self.state().words.len(),
        {
            let word = match self.next() {
                None => return Err(DrfError::UnexpectedEnd),
                Some(w) => w,
            };
            if str_is(&word, ")") && self.reader.depth() == 0 {
                return Ok(());
            }
            if str_is(&word, "(") {
                continue;
            }
            if str_is(&word, ")") {
                match check_color_fields(&params) {
                    Some(e) => return Err(e),
                    None => {},
                }
                let color = Color::from_vec(&params);
                assert(views(params@)[0] == params@[0]@);
                match self.drf.index_of(params[0].as_str()) {
                    None => return Err(DrfError::UnknownDisplay),
                    Some(i) => {
                        proof {
                            crate::named_map::lemma_key_index(self.drf@, params@[0]@);
                        }
                        add_color_at(&mut self.drf, i, color);
                    },
                }
                params.clear();
                assert(views(params@) =~= Seq::<Seq<char>>::empty());
                continue;
            }
            let ghost before = views(params@);
            params.push(word);
            assert(views(params@) =~= before.push(word@));
        }
        Ok(())
    }

    /// Reads a `drDefineStipple` section. An entry that names an undeclared
    /// display is refused with `UnknownDisplay`; one without a name or
    /// without a bitmap row, or with a bitmap digit that is no digit, with
    /// `MissingField`, `EmptyBitmap` or `BadDigit`.
    fn parse_stipple(&mut self) -> (res: Result<(), DrfError>)
        requires
            old(self).reader.wf(),
            old(self).state().words.len() > 0,
            def_kind(old(self).state().words[0]) == Some(DefKind::Stipple),
        ensures
            final(self).reader.wf(),
            final(self).state().words.len() < old(self).state().words.len(),
            finishes(res, final(self).state(), run(DrfMode::Top, old(self).state())),
    {
        let ghost target = run(DrfMode::Top, old(self).state());
        proof {
            lemma_def_start(old(self).state(), DefKind::Stipple);
        }
        match self.open() {
            Err(e) => return Err(e),
            Ok(()) => {},
        }
        let mut params: Vec<String> = Vec::new();
        let mut bitmap: Vec<Vec<u8>> = Vec::new();
        let mut bitmap_row: Vec<u8> = Vec::new();
        let mut row: usize = 0;
        assert(views(params@) =~= Seq::<Seq<char>>::empty());
        assert(rows_view(bitmap@) =~= Seq::<Seq<u8>>::empty());
        while self.reader.depth() >= 1
            invariant
                self.reader.wf(),
                target == run(DrfMode::Top, old(self).state()),
                self.state().words.len() < old(self).state().words.len(),
                row == bitmap@.len(),
                run(
                    DrfMode::Stipple {
                        params: views(params@),
                        bitmap: rows_view(bitmap@),
                        row: bitmap_row@,
                    },
                    self.state(),
                ) == target,
            decreases self.state().words.len(),
        {
            let word = match self.next() {
                None => return Err(DrfError::UnexpectedEnd),
                Some(w) => w,
            };
            if str_is(&word, "(") {
                continue;
            }
            if str_is(&word, ")") {
                let depth = self.reader.depth();
                if depth == 3 {
                    let ghost before = rows_view(bitmap@);
                    let ghost r = bitmap_row@;
                    bitmap.push(bitmap_row);
                    bitmap_row = Vec::new();
                    row = bitmap.len();
                    assert(rows_view(bitmap@) =~= before.push(r));
                    continue;
                }
                if depth == 2 {
                    if params.len() < 2 {
                        return Err(DrfError::MissingField);
                    }
                    if bitmap.len() == 0 {
                        return Err(DrfError::EmptyBitmap);
                    }
                    let stipple = Stipple::from_vec(&params, row, bitmap);
                    assert(views(params@)[0] == params@[0]@);
                    match self.drf.index_of(params[0].as_str()) {
                        None => return Err(DrfError::UnknownDisplay),
                        Some(i) => {
                            proof {
                                crate::named_map::lemma_key_index(self.drf@, params@[0]@);
                            }
                            add_stipple_at(&mut self.drf, i, stipple);
                        },
                    }
                    params.clear();
                    bitmap = Vec::new();
                    row = 0;
                    assert(views(params@) =~= Seq::<Seq<char>>::empty());
                    assert(rows_view(bitmap@) =~= Seq::<Seq<u8>>::empty());
                    continue;
                }
                if depth == 0 {
                    return Ok(());
                }
                continue;
            }
            let depth = self.reader.depth();
            if depth == 2 {
                let ghost before = views(params@);
                params.push(word);
                assert(views(params@) =~= before.push(word@));
                continue;
            }
            if depth == 4 {
                if !push_digits(&word, &mut bitmap_row) {
                    return Err(DrfError::BadDigit);
                }
            }
        }
        Ok(())
    }

    /// Reads a `drDefineLineStyle` section. An entry that names an
    /// undeclared display is refused with `UnknownDisplay`; one with fewer
    /// than three fields, or a pattern digit that is no digit, with
    /// `MissingField` or `BadDigit`.
    fn parse_linestyle(&mut self) -> (res: Result<(), DrfError>)
        requires
            old(self).reader.wf(),
            old(self).state().words.len() > 0,
            def_kind(old(self).state().words[0]) == Some(DefKind::LineStyle),
        ensures
            final(self).reader.wf(),
            final(self).state().words.len() < old(self).state().words.len(),
            finishes(res, final(self).state(), run(DrfMode::Top, old(self).state())),
    {
        let ghost target = run(DrfMode::Top, old(self).state());
        proof {
            lemma_def_start(old(self).state(), DefKind::LineStyle);
        }
        match self.open() {
            Err(e) => return Err(e),
            Ok(()) => {},
        }
        let mut params: Vec<String> = Vec::new();
        let mut pattern: Vec<u8> = Vec::new();
        assert(views(params@) =~= Seq::<Seq<char>>::empty());
        while self.reader.depth() >= 1
            invariant
                self.reader.wf(),
                target == run(DrfMode::Top, old(self).state()),
                self.state().words.len() < old(self).state().words.len(),
                run(
                    DrfMode::LineStyle { params: views(params@), pattern: pattern@ },
                    self.state(),
                ) == target,
            decreases self.state().words.len(),
        {
            let word = match self.next() {
                None => return Err(DrfError::UnexpectedEnd),
                Some(w) => w,
            };
            if str_is(&word, "(") {
                continue;
            }
            if str_is(&word, ")") {
                let depth = self.reader.depth();
                if depth == 2 {
                    if params.len() < 3 {
                        return Err(DrfError::MissingField);
                    }
                    let linestyle = LineStyle::from_vec(&params, pattern);
                    assert(views(params@)[0] == params@[0]@);
                    match self.drf.index_of(params[0].as_str()) {
                        None => return Err(DrfError::UnknownDisplay),
                        Some(i) => {
                            proof {
                                crate::named_map::lemma_key_index(self.drf@, params@[0]@);
                            }
                            add_line_style_at(&mut self.drf, i, linestyle);
                        },
                    }
                    params.clear();
                    pattern = Vec::new();
                    assert(views(params@) =~= Seq::<Seq<char>>::empty());
                    continue;
                }
                if depth == 0 {
                    return Ok(());
                }
                continue;
            }
            let depth = self.reader.depth();
            if depth == 2 {
                let ghost before = views(params@);
                params.push(word);
                assert(views(params@) =~= before.push(word@));
                continue;
            }
            if depth == 3 {
                if !push_digits(&word, &mut pattern) {
                    return Err(DrfError::BadDigit);
                }
            }
        }
        Ok(())
    }

    /// Reads a `drDefinePacket` section. An entry that names an undeclared
    /// display is refused with `UnknownDisplay`, and one with neither six
    /// nor seven fields with `BadPacket`.
    fn parse_packet(&mut self) -> (res: Result<(), DrfError>)
        requires
            old(self).reader.wf(),
            old(self).state().words.len() > 0,
            def_kind(old(self).state().words[0]) == Some(DefKind::Packet),
        ensures
            final(self).reader.wf(),
            final(self).state().words.len() < old(self).state().words.len(),
            finishes(res, final(self).state(), run(DrfMode::Top, old(self).state())),
    {
        let ghost target = run(DrfMode::Top, old(self).state());
        proof {
            lemma_def_start(old(self).state(), DefKind::Packet);
        }
        match self.open() {
            Err(e) => return Err(e),
            Ok(()) => {},
        }
        let mut params: Vec<String> = Vec::new();
        assert(views(params@) =~= Seq::<Seq<char>>::empty());
        while self.reader.depth() >= 1
            invariant
                self.reader.wf(),
                target == run(DrfMode::Top, old(self).state()),
                self.state().words.len() < old(self).state().words.len(),
                run(DrfMode::Packet { params: views(params@) }, self.state()) == target,
            decreases self.state().words.len(),
        {
            let word = match self.next() {
                None => return Err(DrfError::UnexpectedEnd),
                Some(w) => w,
            };
            if str_is(&word, "(") {
                continue;
            }
            if str_is(&word, ")") {
                let depth = self.reader.depth();
                if depth == 1 {
                    if !(params.len() == 6 || params.len() == 7) {
                        return Err(DrfError::BadPacket);
                    }
                    let packet = Packet::from_vec(&params);
                    assert(views(params@)[0] == params@[0]@);
                    match self.drf.index_of(params[0].as_str()) {
                        None => return Err(DrfError::UnknownDisplay),
                        Some(i) => {
                            proof {
                                crate::named_map::lemma_key_index(self.drf@, params@[0]@);
                            }
                            add_packet_at(&mut self.drf, i, packet);
                        },
                    }
                    params.clear();
                    assert(views(params@) =~= Seq::<Seq<char>>::empty());
                    continue;
                }
                if depth == 0 {
                    return Ok(());
                }
                continue;
            }
            let ghost before = views(params@);
            params.push(word);
            assert(views(params@) =~= before.push(word@));
        }
        Ok(())
    }

    /// Reads the definitions of the text, from where the reader stands, until
    /// the text ends or a word starts no definition. The result and the
    /// parser afterwards are what [`run`] gives from [`DrfMode::Top`]; an
    /// error is a text that the definitions cannot be read from. Every text
    /// is accepted as input: an entry that names a display no
    /// `drDefineDisplay` declared, a malformed entry or a text that ends
    /// inside a definition stops the reading with the matching [`DrfError`].
    pub fn parse(&mut self) -> (res: Result<(), DrfError>)
        requires
            old(self).reader.wf(),
        ensures
            final(self).reader.wf(),
            (final(self).state(), err_of(res)) == run(DrfMode::Top, old(self).state()),
    {
        let ghost target = run(DrfMode::Top, old(self).state());
        loop
            invariant
                self.reader.wf(),
                target == run(DrfMode::Top, old(self).state()),
                run(DrfMode::Top, self.state()) == target,
            decreases self.state().words.len(),
        {
            let kind = match self.reader.peek_word() {
                None => return Ok(()),
                Some(w) => def_kind_of(w),
            };
            let r = match kind {
                None => return Ok(()),
                Some(DefKind::Display) => self.parse_display(),
                Some(DefKind::Color) => self.parse_color(),
                Some(DefKind::Stipple) => self.parse_stipple(),
                Some(DefKind::LineStyle) => self.parse_linestyle(),
                Some(DefKind::Packet) => self.parse_packet(),
            };
            match r {
                Err(e) => return Err(e),
                Ok(()) => {},
            }
        }
    }
}

} // verus!
