//! A packet: how a layer is drawn, by the names of its stipple, line style
//! and colors.

use vstd::prelude::*;

verus! {

/// A packet: its name and the names of what it draws with.
#[derive(Debug, Clone)]
pub struct Packet {
    pub name: String,
    pub stipple: String,
    pub line_style: String,
    pub fill: String,
    pub outline: String,
    pub fill_style: Option<String>,
}

/// What a [`Packet`] holds.
pub struct PacketView {
    pub name: Seq<char>,
    pub stipple: Seq<char>,
    pub line_style: Seq<char>,
    pub fill: Seq<char>,
    pub outline: Seq<char>,
    pub fill_style: Option<Seq<char>>,
}

impl View for Packet {
    type V = PacketView;

    open spec fn view(&self) -> PacketView {
        PacketView {
            name: self.name@,
            stipple: self.stipple@,
            line_style: self.line_style@,
            fill: self.fill@,
            outline: self.outline@,
            fill_style: match self.fill_style {
                Some(s) => Some(s@),
                None => None,
            },
        }
    }
}

/// The packet that a packet definition of six or seven fields describes:
/// after the display come the name, stipple, line style, fill and outline,
/// and the seventh field, when present, is the fill style.
pub open spec fn packet_from_params(params: Seq<Seq<char>>) -> PacketView {
    PacketView {
        name: params[1],
        stipple: params[2],
        line_style: params[3],
        fill: params[4],
        outline: params[5],
        fill_style: if params.len() == 7 {
            Some(params[6])
        } else {
            None
        },
    }
}

impl Packet {
    /// A packet whose names are all empty.
    pub fn new() -> (res: Self)
        ensures
            res@ == (PacketView {
                name: Seq::empty(),
                stipple: Seq::empty(),
                line_style: Seq::empty(),
                fill: Seq::empty(),
                outline: Seq::empty(),
                fill_style: None,
            }),
    {
        Packet {
            name: String::new(),
            stipple: String::new(),
            line_style: String::new(),
            fill: String::new(),
            outline: String::new(),
            fill_style: None,
        }
    }

    /// The packet described by the six or seven fields of a packet
    /// definition.
    pub fn from_vec(params: &Vec<String>) -> (res: Self)
        requires
            params@.len() == 6 || params@.len() == 7,
        ensures
            res@ == packet_from_params(crate::text::views(params@)),
    {
        let fill_style = if params.len() == 7 {
            Some(params[6].clone())
        } else {
            None
        };
        Packet {
            name: params[1].clone(),
            stipple: params[2].clone(),
            line_style: params[3].clone(),
            fill: params[4].clone(),
            outline: params[5].clone(),
            fill_style,
        }
    }
}

} // verus!
