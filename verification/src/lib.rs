//! A 3D colour look-up table engine.
//!
//! A cube of colour samples is read from its textual description
//! ([`cube`]), colours are read through it by taking the nearest sample or
//! by blending the eight samples around them ([`lut3d`]), and the answer for
//! every 24-bit colour can be laid out in a table and looked up there
//! ([`table`]).
//!
//! The numbers of a cube are IEEE 754 single precision numbers. The engine
//! holds them as bit patterns and computes with them in integer arithmetic
//! ([`ieee`], [`pack`], [`arith`], [`convert`], [`decimal`], [`bignat`]),
//! rounding to nearest, ties to even, so that every result is a
//! mathematical function of its inputs, the same on every machine.
//! [`laws`] states what holds of the parts together.

pub mod arith;
pub mod bignat;
pub mod convert;
pub mod cube;
pub mod decimal;
pub mod error;
pub mod ieee;
pub mod laws;
pub mod lut3d;
pub mod pack;
pub mod table;
