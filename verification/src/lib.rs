//! Content-based image similarity search over wavelet signatures.
//!
//! A picture is decoded and scaled to a square grid ([`decode`]), separated
//! into a luma and two chroma planes ([`image`]) and decomposed by a
//! two-dimensional Haar wavelet transform ([`wavelet`]). Its
//! [`signature::Signature`] keeps, for each plane, an average and the forty
//! coefficients of largest magnitude. The [`index::Index`] files every image
//! under the grid positions and signs of its coefficients, and ranks the
//! stored images against the signature of a query by the [`score`] of each.
//!
//! Samples, averages and scores are IEEE 754 binary32 numbers, carried as
//! their bit patterns (`u32`) and computed in integers ([`binary32`],
//! [`order`]), so that signatures and scores are the same on every machine.
//!
//! What holds of every index and every query is stated and proved in
//! [`laws`], [`filing`], [`bounds`] and [`mirror`], and beside the functions
//! concerned.

pub mod binary32;
pub mod bounds;
pub mod decode;
pub mod filing;
pub mod image;
pub mod index;
pub mod laws;
pub mod mirror;
pub mod order;
pub mod sample;
pub mod score;
pub mod select;
pub mod signature;
pub mod wavelet;
pub mod weights;
