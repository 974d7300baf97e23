//! A display: its colors, stipples, line styles and packets, each by name.

use vstd::prelude::*;
use crate::ast::color::{Color, ColorView};
use crate::ast::line_style::{LineStyle, LineStyleView};
use crate::ast::packet::{Packet, PacketView};
use crate::ast::stipple::{Stipple, StippleView};
use crate::named_map::NamedMap;

verus! {

/// A display of a display resource file.
pub struct Drf {
    pub name: String,
    pub colors: NamedMap<Color>,
    pub stipples: NamedMap<Stipple>,
    pub line_styles: NamedMap<LineStyle>,
    pub packets: NamedMap<Packet>,
}

/// What a [`Drf`] holds.
pub struct DrfView {
    pub name: Seq<char>,
    pub colors: Seq<(Seq<char>, ColorView)>,
    pub stipples: Seq<(Seq<char>, StippleView)>,
    pub line_styles: Seq<(Seq<char>, LineStyleView)>,
    pub packets: Seq<(Seq<char>, PacketView)>,
}

impl View for Drf {
    type V = DrfView;

    open spec fn view(&self) -> DrfView {
        DrfView {
            name: self.name@,
            colors: self.colors@,
            stipples: self.stipples@,
            line_styles: self.line_styles@,
            packets: self.packets@,
        }
    }
}

/// A display named `name` that holds nothing yet.
pub open spec fn empty_drf(name: Seq<char>) -> DrfView {
    DrfView {
        name,
        colors: Seq::empty(),
        stipples: Seq::empty(),
        line_styles: Seq::empty(),
        packets: Seq::empty(),
    }
}

impl Drf {
    /// A display named `name` that holds nothing yet.
    pub fn new(name: String) -> (res: Self)
        ensures
            res@ == empty_drf(name@),
    {
        Drf {
            name,
            colors: NamedMap::new(),
            stipples: NamedMap::new(),
            line_styles: NamedMap::new(),
            packets: NamedMap::new(),
        }
    }
}

} // verus!
