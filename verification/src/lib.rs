//! # ternary_quantize
//!
//! Ternary quantization and dequantization for neural network weights.
//!
//! Single-precision numbers become trits, the ternary values `-1`, `0` and `+1`, by
//! a fixed threshold, by stochastic rounding, by a learned threshold, or row by row
//! with a scale for each row; trits become numbers again; and metrics tell what was
//! lost on the way.
//!
//! All arithmetic is that of [`Binary32`], single precision rounded to nearest with
//! ties to even, computed with integers and proved against its definition in
//! [`rounding`]; the laws in [`exact`] say what it means in whole numbers. So every
//! function has a contract that fixes its result to the bit. The public proof functions
//! whose names begin with `law_` state what holds of several functions together.
pub mod binary32;
pub mod channel;
pub mod decimal;
pub mod exact;
pub mod learn;
pub mod metrics;
pub mod powers;
pub mod quantize;
pub mod report;
pub mod rng;
pub mod rounding;
pub mod trit;
pub use binary32::Binary32;
pub use channel::{per_channel_dequantize, per_channel_quantize};
pub use learn::learn_threshold;
pub use metrics::{distribution_shift, max_error, mean_squared_error, trit_distribution};
pub use quantize::{
    dequantize_ternary_to_f32, quantize_f32_to_ternary, stochastic_quantize, QuantizeConfig,
};
pub use report::{quantization_report, QuantizationReport};
pub use rng::SimpleRng;
pub use trit::Trit;
