//! Bounded and growable collections whose behaviour is stated in contracts and proved.

pub mod collection;
pub mod collections;
pub mod crypto;
mod error;

pub use error::Error;
