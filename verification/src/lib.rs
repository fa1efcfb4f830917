//! Rail fence transposition cipher.
//!
//! A message is written in a zig-zag pattern across a fixed number of
//! rails and read back rail by rail.  With four rails the message
//! `RUSTISGREAT` is laid out as
//!
//! ```text
//! R - - - - - G - - - -
//! - U - - - S - R - - -
//! - - S - I - - - E - T
//! - - - T - - - - - A -
//! ```
//!
//! and reads out as `RGUSRSIETTA`.  Decoding arranges the cipher text on
//! the rails again and walks the zig-zag pattern to recover the message.
//!
//! The module [`model`] defines the mathematical meaning of both
//! directions and proves the laws that relate them; [`cipher`] holds the
//! executable [`RailFence`] transform, verified against that model.

pub mod cipher;
pub mod model;

pub use cipher::RailFence;
