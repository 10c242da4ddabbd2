//! Multiplication of binary64 values rounded toward negative infinity,
//! computed from the exact product of the significands.
//!
//! Values are handled as their IEEE-754 bit patterns (`u64` for binary64,
//! `u32` for binary32); `f64::to_bits` and `f64::from_bits` convert.
pub mod codec;
pub mod laws;
pub mod model;
pub mod modes;
pub mod multiply;
pub mod successor;

pub use codec::{from_sign_exp_mant_f64, sign_exp_mant_f64};
pub use modes::{ensure_state_restored, rounding_mode_from_mxcsr, Round};
pub use multiply::{multiply_mantissas, multiply_round_down, multiply_round_up};
pub use successor::{predecessor_f32, predecessor_f64, successor_f32, successor_f64};
