//! The data files of a Meadow package that finds where lines of text may be
//! broken, with the Unicode line breaking algorithm (UAX #14) as the crate
//! unicode-linebreak implements it: the class of every code point and the
//! pair table that drives the algorithm (module `tables`), and test strings
//! with the break opportunities that the crate finds in them (module
//! `cases`).
//!
//! Every table is a string of fixed-width records of base-64 digits (see
//! [`encode::digits`]) inside one string literal (see
//! [`encode::long_literal`]).

pub mod cases;
pub mod classes;
pub mod encode;
pub mod fnv;
pub mod order;
pub mod pool;
pub mod rng;
pub mod source;
pub mod tables;
