//! A falling-sand cellular automaton: a fixed-size grid of materials, a brush
//! that paints strokes onto it, and a per-frame update pass that moves sand and
//! liquids under simple local rules.

pub mod element;
pub mod grid;
pub mod clock;
pub mod random;
pub mod physics;
pub mod brush;
