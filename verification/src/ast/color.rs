//! A named color of a display.

use vstd::prelude::*;
use crate::num::{parse_u8, parse_uint};

verus! {

/// A color: its name, its red, green and blue components, and whether it
/// blinks.
#[derive(Debug, Clone)]
pub struct Color {
    pub rgb: [u8; 3],
    pub blink: bool,
    pub name: String,
}

/// What a [`Color`] holds.
pub struct ColorView {
    pub name: Seq<char>,
    pub rgb: Seq<u8>,
    pub blink: bool,
}

impl View for Color {
    type V = ColorView;

    open spec fn view(&self) -> ColorView {
        ColorView { name: self.name@, rgb: self.rgb@, blink: self.blink }
    }
}

/// The `u8` that the decimal text `s` writes (meaningful when it is one).
pub open spec fn u8_of(s: Seq<char>) -> u8 {
    match parse_uint(s, 10, 255) {
        Some(n) => n as u8,
        None => 0,
    }
}

/// Whether `s` is the decimal text of a `u8`.
pub open spec fn is_u8_text(s: Seq<char>) -> bool {
    parse_uint(s, 10, 255) is Some
}

/// Whether a color can be read from the fields `params`: a display, a name
/// and three components, each a decimal `u8`.
pub open spec fn color_params_ok(params: Seq<Seq<char>>) -> bool {
    &&& params.len() >= 5
    &&& is_u8_text(params[2])
    &&& is_u8_text(params[3])
    &&& is_u8_text(params[4])
}

/// The color that the fields `params` describe: the name is the second
/// field, the components the next three, and the color blinks when a sixth
/// and last field is `t`.
pub open spec fn color_from_params(params: Seq<Seq<char>>) -> ColorView {
    ColorView {
        name: params[1],
        rgb: seq![u8_of(params[2]), u8_of(params[3]), u8_of(params[4])],
        blink: params.len() == 6 && params[5] == "t"@,
    }
}

impl Color {
    /// The color `name` with components `r`, `g`, `b`.
    pub fn new(name: String, r: u8, g: u8, b: u8, blink: bool) -> (res: Self)
        ensures
            res@ == (ColorView { name: name@, rgb: seq![r, g, b], blink }),
    {
        let rgb = [r, g, b];
        let res = Color { rgb, blink, name };
        assert(res.rgb@ =~= seq![r, g, b]);
        res
    }

    /// The color described by the fields of a color definition.
    pub fn from_vec(params: &Vec<String>) -> (res: Self)
        requires
            color_params_ok(crate::text::views(params@)),
        ensures
            res@ == color_from_params(crate::text::views(params@)),
    {
        let ghost p = crate::text::views(params@);
        assert(p[2] == params@[2]@ && p[3] == params@[3]@ && p[4] == params@[4]@);
        let name = params[1].clone();
        let r = parse_u8(&params[2]).unwrap();
        let g = parse_u8(&params[3]).unwrap();
        let b = parse_u8(&params[4]).unwrap();
        if params.len() == 6 {
            let blink = crate::text::str_is(&params[5], "t");
            Color::new(name, r, g, b, blink)
        } else {
            Color::new(name, r, g, b, false)
        }
    }
}

} // verus!
