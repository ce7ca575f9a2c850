//! Fixed-size decimal numbers with verified formatting and arithmetic.
pub mod ascii;
pub mod round;
pub mod format;
pub mod num;
pub mod parse;
pub mod laws;
pub mod readback;
pub mod quot;
pub mod sint;
pub mod fixed;
pub mod fused;
pub mod root;
pub mod udec;
pub mod uint;
pub mod powers;
pub mod context;
pub mod decimal;
