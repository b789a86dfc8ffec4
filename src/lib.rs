//! A block cipher whose key stream comes from two-dimensional cellular automata on a toroidal
//! grid: the automata's grids permute and mask each 256-bit block of the message.
pub mod automata;
pub mod bit_matrix;
pub mod bool_matrix;
pub mod encrypt;
pub mod matrix;
pub mod parse;
pub mod schedule;
