//! Relay state store for a 32-relay controller (4 banks of 8) and the
//! coil-addressed request layer that drives it.

pub mod relays;
pub mod output;
pub mod modbus;
pub mod control;
