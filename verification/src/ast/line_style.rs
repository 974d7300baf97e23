//! A named line style of a display: a width and a dash pattern of 0s and 1s.

use vstd::prelude::*;

verus! {

/// A line style: its name, its width as the text writes it, and its pattern.
#[derive(Debug, Clone)]
pub struct LineStyle {
    pub name: String,
    pub width: String,
    pub pattern: Vec<u8>,
}

/// What a [`LineStyle`] holds.
pub struct LineStyleView {
    pub name: Seq<char>,
    pub width: Seq<char>,
    pub pattern: Seq<u8>,
}

impl View for LineStyle {
    type V = LineStyleView;

    open spec fn view(&self) -> LineStyleView {
        LineStyleView { name: self.name@, width: self.width@, pattern: self.pattern@ }
    }
}

/// The line style that a line-style definition describes: its name is the
/// second field and its width the third.
pub open spec fn line_style_from_params(params: Seq<Seq<char>>, pattern: Seq<u8>) -> LineStyleView {
    LineStyleView { name: params[1], width: params[2], pattern }
}

impl LineStyle {
    /// The line style `name` with the given width and pattern.
    pub fn new(name: String, width: String, pattern: Vec<u8>) -> (res: Self)
        ensures
            res@ == (LineStyleView { name: name@, width: width@, pattern: pattern@ }),
    {
        LineStyle { name, width, pattern }
    }

    /// The line style described by the fields of a line-style definition and
    /// its pattern.
    pub fn from_vec(params: &Vec<String>, pattern: Vec<u8>) -> (res: Self)
        requires
            params@.len() >= 3,
        ensures
            res@ == line_style_from_params(crate::text::views(params@), pattern@),
    {
        let name = params[1].clone();
        let width = params[2].clone();
        LineStyle::new(name, width, pattern)
    }
}

} // verus!
