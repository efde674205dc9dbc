//! Digits of pi by the Chudnovsky series, evaluated exactly by binary
//! splitting over arbitrary-precision integers.
pub mod bigint;
pub mod digit_spec;
pub mod format;
pub mod plan;
pub mod series;
