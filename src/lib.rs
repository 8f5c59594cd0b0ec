//! A platform agnostic driver for the HX711 load cell amplifier and 24-bit ADC.
//!
//! The chip talks over two digital lines: a clock line driven by the host and
//! a data line read by the host. The lines and the delay provider have ghost
//! models of the calls they receive; the driver's contracts say exactly which
//! calls each operation makes, in which order, and what it returns.

mod convert;
mod line;
mod mode;
pub mod protocol;
mod driver;

pub use convert::{i24_to_i32, sign_extend_24, MAX_VALUE, MIN_VALUE};
pub use line::{DelayUs, Delays, Drives, InputLine, Levels, OutputLine};
pub use mode::Mode;
pub use driver::Hx711;
pub use protocol::LineOp;
