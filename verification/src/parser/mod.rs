pub mod drf;
pub mod layermap;
pub mod lyp;
pub mod reader;

use vstd::prelude::*;
use crate::ast::color::Color;
use crate::ast::drf::Drf;
use crate::ast::stipple::{Stipple, rows_view};
use crate::named_map::{NamedMap, key_index};
use crate::ast::color::color_from_params;
use crate::ast::stipple::stipple_from_params;
use crate::parser::drf::{
    DrfError, DrfState, add_color, add_color_at, add_stipple, add_stipple_at, advance,
    check_color_fields, color_fields_error, decimal_digits, define_display, push_digits, set_display,
};
use crate::parser::reader::{FileStreamReader, all_tokens, content_words, is_token};
use crate::text::{str_is, views};

verus! {

/// The kinds of definition of the older display-file syntax, whose
/// definition names end with their `(`.
#[derive(Debug, Clone, Copy, PartialEq, Eq, Structural)]
pub enum OldDefKind {
    Display,
    Color,
    Stipple,
}

/// The older definition that the word `w` starts, if any.
pub open spec fn old_def_kind(w: Seq<char>) -> Option<OldDefKind> {
    if w == "drDefineDisplay("@ {
        Some(OldDefKind::Display)
    } else if w == "drDefineColor("@ {
        Some(OldDefKind::Color)
    } else if w == "drDefineStipple("@ {
        Some(OldDefKind::Stipple)
    } else {
        None
    }
}

/// Where the older parser is in the text.
pub enum OldMode {
    /// Between definitions.
    Top,
    /// Inside `drDefineDisplay(`.
    Display,
    /// Inside `drDefineColor(`, with the fields of the current entry.
    Color { params: Seq<Seq<char>> },
    /// Inside `drDefineStipple(`, with the fields, the finished bitmap rows
    /// and the row being read.
    Stipple { params: Seq<Seq<char>>, bitmap: Seq<Seq<u8>>, row: Seq<u8> },
}

pub open spec fn old_rank(m: OldMode) -> nat {
    match m {
        OldMode::Top => 0,
        _ => 1,
    }
}

/// What the older parser gives from mode `m` and state `s`: the final state
/// and the error that stopped it, or `None` when it never stops (it waits
/// for more words once the text is read to its end between definitions).
pub open spec fn old_run(m: OldMode, s: DrfState) -> Option<(DrfState, Option<DrfError>)>
    decreases s.words.len(), old_rank(m),
{
    match m {
        OldMode::Top => {
            if s.words.len() == 0 {
                None
            } else {
                match old_def_kind(s.words[0]) {
                    Some(OldDefKind::Display) => old_run(OldMode::Display, advance(s)),
                    Some(OldDefKind::Color) => old_run(OldMode::Color { params: seq![] }, advance(s)),
                    Some(OldDefKind::Stipple) => old_run(
                        OldMode::Stipple { params: seq![], bitmap: seq![], row: seq![] },
                        advance(s),
                    ),
                    None => Some((s, None)),
                }
            }
        },
        OldMode::Display => {
            if s.stack.len() == 0 {
                old_run(OldMode::Top, s)
            } else if s.words.len() == 0 {
                Some((s, Some(DrfError::UnexpectedEnd)))
            } else {
                let w = s.words[0];
                let s1 = advance(s);
                if w == "("@ || w == ")"@ {
                    old_run(OldMode::Display, s1)
                } else {
                    old_run(OldMode::Display, define_display(s1, w))
                }
            }
        },
        OldMode::Color { params } => {
            if s.stack.len() < 1 {
                old_run(OldMode::Top, s)
            } else if s.words.len() == 0 {
                Some((s, Some(DrfError::UnexpectedEnd)))
            } else {
                let w = s.words[0];
                let s1 = advance(s);
                if w == ")"@ && s1.stack.len() == 0 {
                    old_run(OldMode::Top, s1)
                } else if w == "("@ {
                    old_run(OldMode::Color { params }, s1)
                } else if w == ")"@ {
                    match color_fields_error(params) {
                        Some(e) => Some((s1, Some(e))),
                        None => match key_index(s1.drf, params[0]) {
                            None => Some((s1, Some(DrfError::UnknownDisplay))),
                            Some(i) => old_run(
                                OldMode::Color { params: seq![] },
                                set_display(s1, i, add_color(s1.drf[i].1, color_from_params(params))),
                            ),
                        },
                    }
                } else {
                    old_run(OldMode::Color { params: params.push(w) }, s1)
                }
            }
        },
        OldMode::Stipple { params, bitmap, row } => {
            if s.stack.len() < 1 {
                old_run(OldMode::Top, s)
            } else if s.words.len() == 0 {
                Some((s, Some(DrfError::UnexpectedEnd)))
            } else {
                let w = s.words[0];
                let s1 = advance(s);
                let d = s1.stack.len();
                if w == "("@ {
                    old_run(OldMode::Stipple { params, bitmap, row }, s1)
                } else if w == ")"@ && d == 3 {
                    old_run(OldMode::Stipple { params, bitmap: bitmap.push(row), row }, s1)
                } else if w == ")"@ && d == 2 {
                    if params.len() < 2 {
                        Some((s1, Some(DrfError::MissingField)))
                    } else if bitmap.len() == 0 {
                        Some((s1, Some(DrfError::EmptyBitmap)))
                    } else {
                        match key_index(s1.drf, params[0]) {
                            None => Some((s1, Some(DrfError::UnknownDisplay))),
                            Some(i) => old_run(
                                OldMode::Stipple { params: seq![], bitmap: seq![], row },
                                set_display(
                                    s1,
                                    i,
                                    add_stipple(
                                        s1.drf[i].1,
                                        stipple_from_params(params, bitmap.len() as usize, bitmap),
                                    ),
                                ),
                            ),
                        }
                    }
                } else if w == ")"@ && d == 0 {
                    old_run(OldMode::Top, s1)
                } else if d == 2 {
                    old_run(OldMode::Stipple { params: params.push(w), bitmap, row }, s1)
                } else if d == 3 {
                    old_run(OldMode::Stipple { params, bitmap, row: seq![] }, s1)
                } else if d == 4 {
                    match decimal_digits(w) {
                        Some(ds) => old_run(OldMode::Stipple { params, bitmap, row: row + ds }, s1),
                        None => Some((s1, Some(DrfError::BadDigit))),
                    }
                } else {
                    old_run(OldMode::Stipple { params, bitmap, row }, s1)
                }
            }
        },
    }
}

/// Which older definition `w` starts, if any.
fn old_def_kind_of(w: &String) -> (res: Option<OldDefKind>)
    ensures
        res == old_def_kind(w@),
{
    if str_is(w, "drDefineDisplay(") {
        Some(OldDefKind::Display)
    } else if str_is(w, "drDefineColor(") {
        Some(OldDefKind::Color)
    } else if str_is(w, "drDefineStipple(") {
        Some(OldDefKind::Stipple)
    } else {
        None
    }
}

/// The older display-file parser, whose definition names end with `(`:
/// `drDefineDisplay(`, `drDefineColor(` and `drDefineStipple(`.
pub struct Parser {
    pub drf: NamedMap<Drf>,
    pub reader: FileStreamReader,
}

impl Parser {
    /// The displays read so far, the words left and the bracket stack.
    pub open spec fn state(&self) -> DrfState {
        DrfState { drf: self.drf@, words: self.reader.remaining(), stack: self.reader.stack_seq() }
    }

    /// A parser of the text `content`.
    pub fn new(content: &str) -> (res: Self)
        ensures
            res.reader.wf(),
            res.state() == (DrfState { drf: seq![], words: content_words(content@, None), stack: seq![] }),
    {
        Parser { drf: NamedMap::new(), reader: FileStreamReader::new(content, None) }
    }

    fn next(&mut self) -> (res: Option<String>)
        requires
            old(self).reader.wf(),
        ensures
            final(self).reader.wf(),
            old(self).state().words.len() == 0 ==> res is None && final(self).state()
                == old(self).state(),
            old(self).state().words.len() > 0 ==> (res matches Some(w) && w@ == old(self).state().words[0]
                && final(self).state() == advance(old(self).state())),
    {
        self.reader.next_word()
    }

    fn parse_display(&mut self) -> (res: Result<(), DrfError>)
        requires
            old(self).reader.wf(),
            old(self).state().words.len() > 0,
            old_def_kind(old(self).state().words[0]) == Some(OldDefKind::Display),
        ensures
            final(self).reader.wf(),
            final(self).state().words.len() < old(self).state().words.len(),
            match res {
                Ok(()) => old_run(OldMode::Top, final(self).state()) == old_run(
                    OldMode::Top,
                    old(self).state(),
                ),
                Err(e) => old_run(OldMode::Top, old(self).state()) == Some((final(self).state(), Some(e))),
            },
    {
        let ghost target = old_run(OldMode::Top, old(self).state());
        let _header = self.next();
        while !self.reader.is_stack_empty()
            invariant
                self.reader.wf(),
                target == old_run(OldMode::Top, old(self).state()),
                self.state().words.len() < old(self).state().words.len(),
                old_run(OldMode::Display, self.state()) == target,
            decreases self.state().words.len(),
        {
            let next = self.next();
            if next.is_none() {
                return Err(DrfError::UnexpectedEnd);
            }
            let word = next.unwrap();
            if str_is(&word, "(") || str_is(&word, ")") {
                continue;
            }
            let drf = Drf::new(word.clone());
            self.drf.insert(word, drf);
        }
        Ok(())
    }

    fn parse_color(&mut self) -> (res: Result<(), DrfError>)
        requires
            old(self).reader.wf(),
            old(self).state().words.len() > 0,
            old_def_kind(old(self).state().words[0]) == Some(OldDefKind::Color),
        ensures
            final(self).reader.wf(),
            final(self).state().words.len() < old(self).state().words.len(),
            match res {
                Ok(()) => old_run(OldMode::Top, final(self).state()) == old_run(
                    OldMode::Top,
                    old(self).state(),
                ),
                Err(e) => old_run(OldMode::Top, old(self).state()) == Some((final(self).state(), Some(e))),
            },
    {
        let ghost target = old_run(OldMode::Top, old(self).state());
        let _header = self.next();
        let mut params: Vec<String> = Vec::new();
        assert(views(params@) =~= Seq::<Seq<char>>::empty());
        while self.reader.depth() >= 1
            invariant
                self.reader.wf(),
                target == old_run(OldMode::Top, old(self).state()),
                self.state().words.len() < old(self).state().words.len(),
                old_run(OldMode::Color { params: views(params@) }, self.state()) == target,
            decreases self.state().words.len(),
        {
            let next = self.next();
            if next.is_none() {
                return Err(DrfError::UnexpectedEnd);
            }
            let word = next.unwrap();
            if str_is(&word, ")") && self.reader.depth() == 0 {
                return Ok(());
            }
            if str_is(&word, "(") {
                continue;
            }
            if str_is(&word, ")") {
                match check_color_fields(&params) {
                    Some(e) => return Err(e),
                    None => {},
                }
                let color = Color::from_vec(&params);
                assert(views(params@)[0] == params@[0]@);
                match self.drf.index_of(params[0].as_str()) {
                    None => return Err(DrfError::UnknownDisplay),
                    Some(i) => {
                        proof {
                            crate::named_map::lemma_key_index(self.drf@, params@[0]@);
                        }
                        add_color_at(&mut self.drf, i, color);
                    },
                }
                params.clear();
                assert(views(params@) =~= Seq::<Seq<char>>::empty());
                continue;
            }
            let ghost before = views(params@);
            params.push(word);
            assert(views(params@) =~= before.push(word@));
        }
        Ok(())
    }

    fn parse_stipple(&mut self) -> (res: Result<(), DrfError>)
        requires
            old(self).reader.wf(),
            old(self).state().words.len() > 0,
            old_def_kind(old(self).state().words[0]) == Some(OldDefKind::Stipple),
        ensures
            final(self).reader.wf(),
            final(self).state().words.len() < old(self).state().words.len(),
            match res {
                Ok(()) => old_run(OldMode::Top, final(self).state()) == old_run(
                    OldMode::Top,
                    old(self).state(),
                ),
                Err(e) => old_run(OldMode::Top, old(self).state()) == Some((final(self).state(), Some(e))),
            },
    {
        let ghost target = old_run(OldMode::Top, old(self).state());
        let _header = self.next();
        let mut params: Vec<String> = Vec::new();
        let mut bitmap: Vec<Vec<u8>> = Vec::new();
        let mut bitmap_row: Vec<u8> = Vec::new();
        let mut row: usize = 0;
        assert(views(params@) =~= Seq::<Seq<char>>::empty());
        assert(rows_view(bitmap@) =~= Seq::<Seq<u8>>::empty());
        while self.reader.depth() >= 1
            invariant
                self.reader.wf(),
                target == old_run(OldMode::Top, old(self).state()),
                self.state().words.len() < old(self).state().words.len(),
                row == bitmap@.len(),
                old_run(
                    OldMode::Stipple {
                        params: views(params@),
                        bitmap: rows_view(bitmap@),
                        row: bitmap_row@,
                    },
                    self.state(),
                ) == target,
            decreases self.state().words.len(),
        {
            let next = self.next();
            if next.is_none() {
                return Err(DrfError::UnexpectedEnd);
            }
            let word = next.unwrap();
            if str_is(&word, "(") {
                continue;
            }
            if str_is(&word, ")") {
                let depth = self.reader.depth();
                if depth == 3 {
                    let ghost before = rows_view(bitmap@);
                    let copy = copy_row(&bitmap_row);
                    bitmap.push(copy);
                    row = bitmap.len();
                    assert(rows_view(bitmap@) =~= before.push(bitmap_row@));
                    continue;
                }
                if depth == 2 {
                    if params.len() < 2 {
                        return Err(DrfError::MissingField);
                    }
                    if bitmap.len() == 0 {
                        return Err(DrfError::EmptyBitmap);
                    }
                    let stipple = Stipple::from_vec(&params, row, bitmap);
                    assert(views(params@)[0] == params@[0]@);
                    match self.drf.index_of(params[0].as_str()) {
                        None => return Err(DrfError::UnknownDisplay),
                        Some(i) => {
                            proof {
                                crate::named_map::lemma_key_index(self.drf@, params@[0]@);
                            }
                            add_stipple_at(&mut self.drf, i, stipple);
                        },
                    }
                    params.clear();
                    bitmap = Vec::new();
                    row = 0;
                    assert(views(params@) =~= Seq::<Seq<char>>::empty());
                    assert(rows_view(bitmap@) =~= Seq::<Seq<u8>>::empty());
                    continue;
                }
                if depth == 0 {
                    return Ok(());
                }
            }
            let depth = self.reader.depth();
            if depth == 2 {
                let ghost before = views(params@);
                params.push(word);
                assert(views(params@) =~= before.push(word@));
                continue;
            }
            if depth == 3 {
                bitmap_row = Vec::new();
                continue;
            }
            if depth == 4 {
                if !push_digits(&word, &mut bitmap_row) {
                    return Err(DrfError::BadDigit);
                }
            }
        }
        Ok(())
    }

    /// Reads the older definitions of the text until a word starts none, as
    /// [`old_run`] gives it; the parser never stops when the text ends
    /// between definitions, so such texts are left out.
    pub fn parse(&mut self) -> (res: Result<(), DrfError>)
        requires
            old(self).reader.wf(),
            old_run(OldMode::Top, old(self).state()) is Some,
        ensures
            final(self).reader.wf(),
            old_run(OldMode::Top, old(self).state()) == Some((final(self).state(), match res {
                Ok(()) => None,
                Err(e) => Some(e),
            })),
    {
        let ghost target = old_run(OldMode::Top, old(self).state());
        loop
            invariant
                self.reader.wf(),
                target == old_run(OldMode::Top, old(self).state()),
                target is Some,
                old_run(OldMode::Top, self.state()) == target,
            decreases self.state().words.len(),
        {
            let kind = match self.reader.peek_word() {
                Some(word) => old_def_kind_of(word),
                None => {
                    continue;
                },
            };
            let r = match kind {
                Some(OldDefKind::Display) => self.parse_display(),
                Some(OldDefKind::Color) => self.parse_color(),
                Some(OldDefKind::Stipple) => self.parse_stipple(),
                None => return Ok(()),
            };
            match r {
                Err(e) => return Err(e),
                Ok(()) => {},
            }
        }
    }
}

/// A copy of a bitmap row.
fn copy_row(r: &Vec<u8>) -> (res: Vec<u8>)
    ensures
        res@ == r@,
{
    let mut out: Vec<u8> = Vec::new();
    let mut i: usize = 0;
    while i < r.len()
        invariant
            i <= r@.len(),
            out@ == r@.take(i as int),
        decreases r@.len() - i,
    {
        out.push(r[i]);
        assert(r@.take(i + 1) =~= r@.take(i as int).push(r@[i as int]));
        i += 1;
    }
    assert(r@.take(r@.len() as int) =~= r@);
    out
}

/// Read by the word reader, the older definition names never occur: they
/// end with `(`, which is always a word of its own. The older parser then
/// stops at the first word, and never stops on a text without words.
pub proof fn lemma_old_parser_stops_at_first_word(s: DrfState)
    requires
        all_tokens(s.words),
    ensures
        s.words.len() > 0 ==> old_run(OldMode::Top, s) == Some((s, None::<DrfError>)),
        s.words.len() == 0 ==> old_run(OldMode::Top, s) is None,
{
    if s.words.len() > 0 {
        let w = s.words[0];
        assert(is_token(w));
        reveal_strlit("drDefineDisplay(");
        reveal_strlit("drDefineColor(");
        reveal_strlit("drDefineStipple(");
        if w == "drDefineDisplay("@ {
            assert(w[15] == '(');
        }
        if w == "drDefineColor("@ {
            assert(w[13] == '(');
        }
        if w == "drDefineStipple("@ {
            assert(w[15] == '(');
        }
    }
}

} // verus!
