//! Fan-curve interpolation engine for a PWM-controlled fan.
//!
//! The library maps a CPU temperature reading to a fan duty cycle through a
//! piecewise-linear curve given by matched temperature/speed breakpoint
//! arrays, with an optional manual override.  It also parses the textual
//! inputs the curve is fed from: a millidegree-Celsius temperature reading
//! and percentage arguments.

pub mod curve;
pub mod parse;
