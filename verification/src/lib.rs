//! A reflow engine for long-form structured text. It merges the lines of a
//! paragraph, wraps the result to a column width with indentation that
//! follows the structure of lists and definitions, and can keep to the
//! lines that a diff names. Every function is verified against a contract
//! over sequences of characters.

pub mod branch;
pub mod carryover;
pub mod diff;
pub mod exempt;
pub mod line;
pub mod paragraph;
pub mod patterns;
pub mod rewrap;
pub mod settled;
pub mod text;
pub mod unwrap;
pub mod wrap;
