//! Fixed-width, multi-digit unsigned integer arithmetic.
//!
//! A value of [`uint::Uint`] is a sequence of `N` machine-word digits,
//! least significant first, standing for an integer modulo `2^(64*N)`.
//! Addition, subtraction and multiplication sequence the digit-level
//! carry/borrow primitives of [`digit`] across all digits, discarding the
//! final carry or borrow, so the arithmetic wraps silently.

pub mod digit;
pub mod hex;
pub mod laws;
pub mod uint;

pub use uint::Uint;
pub use uint::Uint256;
pub use uint::Digit;
pub use digit::adc;
pub use digit::sbb;
pub use digit::mac;
