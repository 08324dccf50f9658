//! Master-mode driver for the two-wire serial bus (I²C) peripheral of the Raspberry Pi.
//!
//! - `regs`: the register map, the `I2cPort` through which the registers are reached, and
//!   the record of every access the driver makes.
//! - `poll`: the completion poller, bounded waits on status bits.
//! - `fifo`: the FIFO streamer, fill and drain cycles of at most the FIFO's depth.
//! - `interface`: the transaction driver, the register sequence of each bus operation,
//!   stated over that record.
//! - `field`: bit fields of 8-bit device registers.
//! - `i2c`: the bus controller, which refuses every operation before initialization.
//! - `laws`: properties of the operations that hold whatever the hardware answers.
pub mod error;
pub mod fifo;
pub mod field;
pub mod i2c;
pub mod interface;
pub mod laws;
pub mod poll;
pub mod regs;

pub use error::{I2cError, I2cResult};
pub use field::{RegisterField, RegisterFieldValue};
pub use i2c::I2cImpl;
pub use regs::I2cPort;
