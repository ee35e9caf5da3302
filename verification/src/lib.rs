//! Move encoding, bitboards, standard algebraic notation and the opening
//! tree of an antichess tree server, with their contracts.
#![allow(non_camel_case_types)]
#![allow(non_snake_case)]
#![allow(non_upper_case_globals)]

pub mod bits;
pub mod decimal;
pub mod board;
pub mod moves;
pub mod san;
pub mod tree;
pub mod query;
