//! Conversion of CERN ROOT trees to the Vortex columnar format: the
//! decisions and the byte-level decoding that the conversion rests on.

pub mod rcompress;

pub mod converter;
pub mod error;
pub mod info;

pub use converter::plan_conversion;
pub use error::Result;
pub use info::tree_info;
