//! The palette: the semantic colour names that styles may refer to, and the
//! RGB triple behind each.

use vstd::prelude::*;
use crate::ascii::bytes_of;
use crate::ascii::lemma_lit;
use crate::ascii::lit;
use crate::ascii::spells;
use crate::color::Color;

verus! {

/// The named colours: sixteen grays from black to white, and the accent.
#[derive(Clone, Copy, Debug, PartialEq, Eq, Structural)]
pub enum ColorPalette {
    Black,
    NearBlack,
    MildBlack,
    DarkGray,
    DimGray,
    DullGray,
    LowerGray,
    MiddleGray,
    UpperGray,
    PaleGray,
    SoftGray,
    LightGray,
    BrightGray,
    MildWhite,
    NearWhite,
    White,
    Accent,
}

impl ColorPalette {
    /// The step of a gray on the scale from 0 (black) to 15 (white); the
    /// accent is no gray.
    pub open spec fn gray_step(self) -> Option<int> {
        match self {
            ColorPalette::Black => Some(0),
            ColorPalette::NearBlack => Some(1),
            ColorPalette::MildBlack => Some(2),
            ColorPalette::DarkGray => Some(3),
            ColorPalette::DimGray => Some(4),
            ColorPalette::DullGray => Some(5),
            ColorPalette::LowerGray => Some(6),
            ColorPalette::MiddleGray => Some(7),
            ColorPalette::UpperGray => Some(8),
            ColorPalette::PaleGray => Some(9),
            ColorPalette::SoftGray => Some(10),
            ColorPalette::LightGray => Some(11),
            ColorPalette::BrightGray => Some(12),
            ColorPalette::MildWhite => Some(13),
            ColorPalette::NearWhite => Some(14),
            ColorPalette::White => Some(15),
            ColorPalette::Accent => None,
        }
    }

    /// The RGB triple of a palette entry. The grays are evenly spaced, 17
    /// apart on every channel; the accent is `#4b79a7`.
    pub open spec fn rgb(self) -> Color {
        match self.gray_step() {
            Some(step) => Color {
                red: (17 * step) as u8,
                green: (17 * step) as u8,
                blue: (17 * step) as u8,
            },
            None => Color { red: 75, green: 121, blue: 167 },
        }
    }

    /// The name under which markup refers to the entry.
    pub open spec fn name(self) -> Seq<u8> {
        match self {
            ColorPalette::Black => lit("Black"),
            ColorPalette::NearBlack => lit("NearBlack"),
            ColorPalette::MildBlack => lit("MildBlack"),
            ColorPalette::DarkGray => lit("DarkGray"),
            ColorPalette::DimGray => lit("DimGray"),
            ColorPalette::DullGray => lit("DullGray"),
            ColorPalette::LowerGray => lit("LowerGray"),
            ColorPalette::MiddleGray => lit("MiddleGray"),
            ColorPalette::UpperGray => lit("UpperGray"),
            ColorPalette::PaleGray => lit("PaleGray"),
            ColorPalette::SoftGray => lit("SoftGray"),
            ColorPalette::LightGray => lit("LightGray"),
            ColorPalette::BrightGray => lit("BrightGray"),
            ColorPalette::MildWhite => lit("MildWhite"),
            ColorPalette::NearWhite => lit("NearWhite"),
            ColorPalette::White => lit("White"),
            ColorPalette::Accent => lit("Accent"),
        }
    }

    /// The entry called `name`, if the palette has one. Names are matched
    /// exactly, case included.
    pub open spec fn named(name: Seq<u8>) -> Option<ColorPalette> {
        if name == lit("Black") {
            Some(ColorPalette::Black)
        } else if name == lit("NearBlack") {
            Some(ColorPalette::NearBlack)
        } else if name == lit("MildBlack") {
            Some(ColorPalette::MildBlack)
        } else if name == lit("DarkGray") {
            Some(ColorPalette::DarkGray)
        } else if name == lit("DimGray") {
            Some(ColorPalette::DimGray)
        } else if name == lit("DullGray") {
            Some(ColorPalette::DullGray)
        } else if name == lit("LowerGray") {
            Some(ColorPalette::LowerGray)
        } else if name == lit("MiddleGray") {
            Some(ColorPalette::MiddleGray)
        } else if name == lit("UpperGray") {
            Some(ColorPalette::UpperGray)
        } else if name == lit("PaleGray") {
            Some(ColorPalette::PaleGray)
        } else if name == lit("SoftGray") {
            Some(ColorPalette::SoftGray)
        } else if name == lit("LightGray") {
            Some(ColorPalette::LightGray)
        } else if name == lit("BrightGray") {
            Some(ColorPalette::BrightGray)
        } else if name == lit("MildWhite") {
            Some(ColorPalette::MildWhite)
        } else if name == lit("NearWhite") {
            Some(ColorPalette::NearWhite)
        } else if name == lit("White") {
            Some(ColorPalette::White)
        } else if name == lit("Accent") {
            Some(ColorPalette::Accent)
        } else {
            None
        }
    }

    /// The name of the entry.
    pub fn name_bytes(self) -> (r: Vec<u8>)
        ensures
            r@ == self.name(),
    {
        match self {
            ColorPalette::Black => bytes_of("Black"),
            ColorPalette::NearBlack => bytes_of("NearBlack"),
            ColorPalette::MildBlack => bytes_of("MildBlack"),
            ColorPalette::DarkGray => bytes_of("DarkGray"),
            ColorPalette::DimGray => bytes_of("DimGray"),
            ColorPalette::DullGray => bytes_of("DullGray"),
            ColorPalette::LowerGray => bytes_of("LowerGray"),
            ColorPalette::MiddleGray => bytes_of("MiddleGray"),
            ColorPalette::UpperGray => bytes_of("UpperGray"),
            ColorPalette::PaleGray => bytes_of("PaleGray"),
            ColorPalette::SoftGray => bytes_of("SoftGray"),
            ColorPalette::LightGray => bytes_of("LightGray"),
            ColorPalette::BrightGray => bytes_of("BrightGray"),
            ColorPalette::MildWhite => bytes_of("MildWhite"),
            ColorPalette::NearWhite => bytes_of("NearWhite"),
            ColorPalette::White => bytes_of("White"),
            ColorPalette::Accent => bytes_of("Accent"),
        }
    }

    /// Looks a semantic colour name up in the palette.
    pub fn lookup_palette_color(name: &[u8]) -> (r: Option<ColorPalette>)
        ensures
            r == ColorPalette::named(name@),
    {
        if spells(name, "Black") {
            Some(ColorPalette::Black)
        } else if spells(name, "NearBlack") {
            Some(ColorPalette::NearBlack)
        } else if spells(name, "MildBlack") {
            Some(ColorPalette::MildBlack)
        } else if spells(name, "DarkGray") {
            Some(ColorPalette::DarkGray)
        } else if spells(name, "DimGray") {
            Some(ColorPalette::DimGray)
        } else if spells(name, "DullGray") {
            Some(ColorPalette::DullGray)
        } else if spells(name, "LowerGray") {
            Some(ColorPalette::LowerGray)
        } else if spells(name, "MiddleGray") {
            Some(ColorPalette::MiddleGray)
        } else if spells(name, "UpperGray") {
            Some(ColorPalette::UpperGray)
        } else if spells(name, "PaleGray") {
            Some(ColorPalette::PaleGray)
        } else if spells(name, "SoftGray") {
            Some(ColorPalette::SoftGray)
        } else if spells(name, "LightGray") {
            Some(ColorPalette::LightGray)
        } else if spells(name, "BrightGray") {
            Some(ColorPalette::BrightGray)
        } else if spells(name, "MildWhite") {
            Some(ColorPalette::MildWhite)
        } else if spells(name, "NearWhite") {
            Some(ColorPalette::NearWhite)
        } else if spells(name, "White") {
            Some(ColorPalette::White)
        } else if spells(name, "Accent") {
            Some(ColorPalette::Accent)
        } else {
            None
        }
    }

    /// The colour of a palette entry.
    pub fn get_color(self) -> (r: Color)
        ensures
            r == self.rgb(),
    {
        let step: u8 = match self {
            ColorPalette::Black => 0,
            ColorPalette::NearBlack => 1,
            ColorPalette::MildBlack => 2,
            ColorPalette::DarkGray => 3,
            ColorPalette::DimGray => 4,
            ColorPalette::DullGray => 5,
            ColorPalette::LowerGray => 6,
            ColorPalette::MiddleGray => 7,
            ColorPalette::UpperGray => 8,
            ColorPalette::PaleGray => 9,
            ColorPalette::SoftGray => 10,
            ColorPalette::LightGray => 11,
            ColorPalette::BrightGray => 12,
            ColorPalette::MildWhite => 13,
            ColorPalette::NearWhite => 14,
            ColorPalette::White => 15,
            ColorPalette::Accent => {
                return Color::new(75, 121, 167);
            },
        };
        Color::gray(17 * step)
    }
}

/// What tells the names of the palette apart: the length, and the bytes at
/// three places. No two names agree in all four.
spec fn mark(name: Seq<u8>) -> (nat, u8, u8, u8) {
    (name.len(), name[0], name[1], name[4])
}

/// Every entry of the palette is found under its own name, and under no
/// other.
pub proof fn lemma_palette_names()
    ensures
        forall|entry: ColorPalette| #[trigger] ColorPalette::named(entry.name()) == Some(entry),
        forall|name: Seq<u8>|
            #[trigger] ColorPalette::named(name) is Some ==> name == ColorPalette::named(
                name,
            )->0.name(),
{
    reveal_strlit("Black");
    lemma_lit("Black");
    reveal_strlit("NearBlack");
    lemma_lit("NearBlack");
    reveal_strlit("MildBlack");
    lemma_lit("MildBlack");
    reveal_strlit("DarkGray");
    lemma_lit("DarkGray");
    reveal_strlit("DimGray");
    lemma_lit("DimGray");
    reveal_strlit("DullGray");
    lemma_lit("DullGray");
    reveal_strlit("LowerGray");
    lemma_lit("LowerGray");
    reveal_strlit("MiddleGray");
    lemma_lit("MiddleGray");
    reveal_strlit("UpperGray");
    lemma_lit("UpperGray");
    reveal_strlit("PaleGray");
    lemma_lit("PaleGray");
    reveal_strlit("SoftGray");
    lemma_lit("SoftGray");
    reveal_strlit("LightGray");
    lemma_lit("LightGray");
    reveal_strlit("BrightGray");
    lemma_lit("BrightGray");
    reveal_strlit("MildWhite");
    lemma_lit("MildWhite");
    reveal_strlit("NearWhite");
    lemma_lit("NearWhite");
    reveal_strlit("White");
    lemma_lit("White");
    reveal_strlit("Accent");
    lemma_lit("Accent");
    assert(mark(lit("Black")) == (5nat, 66u8, 108u8, 107u8));
    assert(mark(lit("NearBlack")) == (9nat, 78u8, 101u8, 66u8));
    assert(mark(lit("MildBlack")) == (9nat, 77u8, 105u8, 66u8));
    assert(mark(lit("DarkGray")) == (8nat, 68u8, 97u8, 71u8));
    assert(mark(lit("DimGray")) == (7nat, 68u8, 105u8, 114u8));
    assert(mark(lit("DullGray")) == (8nat, 68u8, 117u8, 71u8));
    assert(mark(lit("LowerGray")) == (9nat, 76u8, 111u8, 114u8));
    assert(mark(lit("MiddleGray")) == (10nat, 77u8, 105u8, 108u8));
    assert(mark(lit("UpperGray")) == (9nat, 85u8, 112u8, 114u8));
    assert(mark(lit("PaleGray")) == (8nat, 80u8, 97u8, 71u8));
    assert(mark(lit("SoftGray")) == (8nat, 83u8, 111u8, 71u8));
    assert(mark(lit("LightGray")) == (9nat, 76u8, 105u8, 116u8));
    assert(mark(lit("BrightGray")) == (10nat, 66u8, 114u8, 104u8));
    assert(mark(lit("MildWhite")) == (9nat, 77u8, 105u8, 87u8));
    assert(mark(lit("NearWhite")) == (9nat, 78u8, 101u8, 87u8));
    assert(mark(lit("White")) == (5nat, 87u8, 104u8, 101u8));
    assert(mark(lit("Accent")) == (6nat, 65u8, 99u8, 110u8));
    assert forall|entry: ColorPalette| #[trigger]
        ColorPalette::named(entry.name()) == Some(entry) by {
        match entry {
            ColorPalette::Black => {},
            ColorPalette::NearBlack => {},
            ColorPalette::MildBlack => {},
            ColorPalette::DarkGray => {},
            ColorPalette::DimGray => {},
            ColorPalette::DullGray => {},
            ColorPalette::LowerGray => {},
            ColorPalette::MiddleGray => {},
            ColorPalette::UpperGray => {},
            ColorPalette::PaleGray => {},
            ColorPalette::SoftGray => {},
            ColorPalette::LightGray => {},
            ColorPalette::BrightGray => {},
            ColorPalette::MildWhite => {},
            ColorPalette::NearWhite => {},
            ColorPalette::White => {},
            ColorPalette::Accent => {},
        }
    }
}

} // verus!
