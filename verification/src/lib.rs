//! Distance-spectrum analysis of high-rate feedback convolutional encoders.
//!
//! The analysis runs in five stages, each on the result of the one before:
//! [`trellis`] builds the state-transition tables of an encoder and the
//! sequences that terminate it; [`find_irreducible_error_event`] searches
//! the trellis for the paths that leave state zero and come back to it once;
//! [`compute_ztcc_weight_spectrum`] counts the terminated paths by weight;
//! [`reconstruct_ztps`] puts the terminated paths themselves together from
//! the error events; and [`dso_crc_polynomial_search`] looks among the CRC
//! polynomials of a degree for the one that detects the most of them.
//!
//! Arithmetic on polynomials over GF(2), bit vectors, queues and big
//! integers is done by other crates; [`gf2`], [`bitpath`], [`fifo`] and
//! [`poly_wrapper`] state what is taken for granted of them.

pub mod bitpath;
pub mod compute_ztcc_weight_spectrum;
pub mod dso_crc_polynomial_search;
pub mod fifo;
pub mod find_dominant_error_event_fast;
pub mod find_irreducible_error_event;
pub mod gf2;
pub mod poly_wrapper;
pub mod reconstruct_ztps;
pub mod termination;
pub mod trellis;
pub mod vec2d;
