//! Threshold secret sharing over the integers modulo a prime.
//!
//! - [`field`]: the field element `ModInt`, with its arithmetic.
//! - [`modcom`]: tabulated factorials for binomial coefficients.
//! - [`player`]: a participant with its sharing polynomial and the shares
//!   it has received.
//! - [`lagrange`]: the weights of interpolation at zero.
//! - [`protocol`]: reductions of share tables, and reconstruction.
//! - [`simulation`]: three-party sessions of addition and multiplication.
//! - [`arith`], [`fermat`], [`fold`], [`interpolation`]: the mathematics
//!   that the contracts of the others are stated in, with its theorems.

pub mod arith;
pub mod error;
pub mod fermat;
pub mod field;
pub mod fold;
pub mod interpolation;
pub mod lagrange;
pub mod modcom;
pub mod player;
pub mod protocol;
pub mod simulation;
