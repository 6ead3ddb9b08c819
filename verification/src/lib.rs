//! Extra casing patterns on top of a string-case-conversion facility:
//! toggle case, alternating case and random case, together with the case
//! presets that bundle each pattern with its word boundaries and delimiter.

pub mod case;
pub mod chars;
pub mod pattern;
