pub mod distributions;
pub mod harness;
pub mod sorts;
