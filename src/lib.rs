//! A proto3 wire-format codec over byte slices: tags, varints, fixed-width
//! values, length-delimited records, and the presence rules that decide what an
//! encoder emits.
pub mod container;
pub mod decode;
pub mod encode;
pub mod field;
pub mod laws;
pub mod presence;
pub mod varint;
pub mod wire;
