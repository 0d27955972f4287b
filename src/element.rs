use vstd::prelude::*;

verus! {

/// The material held by one cell of the grid.
#[derive(Copy, Clone, Debug, PartialEq, Eq, Structural)]
pub enum Element {
    Air,
    Sand,
    Water,
    Lava,
    Stone,
    WinArea,
    Grass,
}

/// The colour that the renderer shows for each material.
pub open spec fn palette(m: Element) -> (u8, u8, u8) {
    match m {
        Element::Sand => (159, 83, 0),
        Element::WinArea => (255, 255, 0),
        Element::Water => (0, 0, 255),
        Element::Lava => (255, 0, 0),
        Element::Grass => (0, 255, 85),
        Element::Stone => (0, 0, 0),
        Element::Air => (102, 102, 102),
    }
}

/// Maps a material to its red, green and blue components.
pub fn color_for(m: Element) -> (r: (u8, u8, u8))
    ensures
        r == palette(m),
{
    match m {
        Element::Sand => (159, 83, 0),
        Element::WinArea => (255, 255, 0),
        Element::Water => (0, 0, 255),
        Element::Lava => (255, 0, 0),
        Element::Grass => (0, 255, 85),
        Element::Stone => (0, 0, 0),
        Element::Air => (102, 102, 102),
    }
}

} // verus!
