//! A named fill pattern of a display: a bitmap of 0s and 1s.

use vstd::prelude::*;

verus! {

/// A stipple: its name, its bitmap (a list of rows), and the number of rows
/// and columns it declares.
#[derive(Debug, Clone)]
pub struct Stipple {
    pub name: String,
    pub bitmap: Vec<Vec<u8>>,
    pub row: usize,
    pub col: usize,
}

/// What a [`Stipple`] holds.
pub struct StippleView {
    pub name: Seq<char>,
    pub bitmap: Seq<Seq<u8>>,
    pub row: usize,
    pub col: usize,
}

/// The rows of a bitmap.
pub open spec fn rows_view(b: Seq<Vec<u8>>) -> Seq<Seq<u8>> {
    b.map_values(|r: Vec<u8>| r@)
}

impl View for Stipple {
    type V = StippleView;

    open spec fn view(&self) -> StippleView {
        StippleView { name: self.name@, bitmap: rows_view(self.bitmap@), row: self.row, col: self.col }
    }
}

/// The stipple that a stipple definition describes: its name is the second
/// field, and its columns are those of the first row.
pub open spec fn stipple_from_params(params: Seq<Seq<char>>, row: usize, bitmap: Seq<Seq<u8>>) -> StippleView {
    StippleView { name: params[1], bitmap, row, col: bitmap[0].len() as usize }
}

impl Stipple {
    /// The stipple `name` with the given bitmap and size.
    pub fn new(name: String, bitmap: Vec<Vec<u8>>, row: usize, col: usize) -> (res: Self)
        ensures
            res@ == (StippleView { name: name@, bitmap: rows_view(bitmap@), row, col }),
    {
        Stipple { name, bitmap, row, col }
    }

    /// The stipple described by the fields of a stipple definition, its row
    /// count and its bitmap.
    pub fn from_vec(params: &Vec<String>, row: usize, bitmap: Vec<Vec<u8>>) -> (res: Self)
        requires
            params@.len() >= 2,
            bitmap@.len() >= 1,
        ensures
            res@ == stipple_from_params(crate::text::views(params@), row, rows_view(bitmap@)),
    {
        let name = params[1].clone();
        let col = bitmap[0].len();
        Stipple::new(name, bitmap, row, col)
    }
}

} // verus!
