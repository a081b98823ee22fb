//! Tabletop dice notation: parse expressions such as `2d6 + 3 + d4 + -1`,
//! render them back in a canonical form, and roll them for a total.

pub mod dice;
pub mod laws;
pub mod grammar;
pub mod numerals;
pub mod text;
