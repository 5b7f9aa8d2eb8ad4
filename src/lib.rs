//! Reconstruction of nested columnar arrays from repetition and definition
//! levels, together with the small kernels and writers that surround it.
pub mod array;
pub mod datatypes;
pub mod div;
pub mod error;
pub mod nested_utils;
pub mod read;
pub mod write;
