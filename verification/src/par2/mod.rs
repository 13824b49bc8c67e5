//! PAR2 recovery data: field arithmetic, buffer layouts and the encoder.

pub mod altmap;
pub mod bits;
pub mod encoder;
pub mod field;
pub mod gf16;
pub mod kernel;
pub mod layout;
pub mod packet;
pub mod parallel;
pub mod repair;
pub mod shuffle2x;
