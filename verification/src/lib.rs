//! Conversion of screenplay page text into Fountain markup.
//!
//! The pages' positioned text runs ([`geom`]) are merged into lines, the column margins of
//! the script are learned from them ([`calibrate`]), the lines are read as screenplay
//! elements ([`fsm`]) and the elements are rendered as Fountain ([`fountain`]).

pub mod text;
pub mod geom;
pub mod calibrate;
pub mod fsm;
pub mod fountain;
pub mod convert;
