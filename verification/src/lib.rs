//! Arbitrary-precision integers of a fixed bit width.
//!
//! An [`ApInt`] holds `N` bits, where `N` is chosen when the value is made and
//! never changes. Arithmetic wraps modulo `2^N`, binary operations ask for
//! equal widths, and whether a bit pattern is read as signed or unsigned is
//! decided by the operation, not by the value.
//!
//! Every executable function of this crate carries a contract that is proved
//! against a mathematical model: a value is a pair of a width and a natural
//! number below `2^width`, held as little-endian 64-bit digits.

pub mod apint;
pub mod bitwidth;
pub mod checks;
pub mod digit;
pub mod errors;
pub mod laws;
pub mod limbs;
pub mod ll;
pub mod model;
pub mod radix;
pub mod small_apint;
pub mod std_specs;
pub mod storage;
pub mod text;

pub use crate::apint::shift::ShiftAmount;
pub use crate::apint::ApInt;
pub use crate::bitwidth::BitWidth;
pub use crate::digit::Bit;
pub use crate::digit::Digit;
pub use crate::errors::DivOp;
pub use crate::errors::Error;
pub use crate::errors::ErrorKind;
pub use crate::radix::Radix;
pub use crate::storage::Storage;
