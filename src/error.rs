use vstd::prelude::*;

verus! {

/// What can go wrong on the bus.
#[derive(Clone, Copy, Debug, PartialEq, Eq, Structural)]
pub enum I2cError {
    /// An operation was attempted before the bus was initialized.
    NotInitialized,
    /// The slave did not acknowledge its address or data.
    NotAcknowledged,
    /// The awaited hardware condition was not observed within the retry budget.
    TimedOut,
    /// The bus pins could not be reserved during initialization.
    PinUnavailable,
}

pub type I2cResult<T> = Result<T, I2cError>;

impl I2cError {
    /// A short human-readable description of the error.
    pub fn message(&self) -> (r: &'static str)
        ensures
            *self == I2cError::NotInitialized ==> r@ == "I2C Bus not initialized"@,
            *self == I2cError::NotAcknowledged ==> r@ == "I2C transmit not acknowledged"@,
            *self == I2cError::TimedOut ==> r@ == "time out waiting for I2C transmit"@,
            *self == I2cError::PinUnavailable ==> r@ == "I2C bus pins already in use"@,
    {
        match self {
            I2cError::NotInitialized => "I2C Bus not initialized",
            I2cError::NotAcknowledged => "I2C transmit not acknowledged",
            I2cError::TimedOut => "time out waiting for I2C transmit",
            I2cError::PinUnavailable => "I2C bus pins already in use",
        }
    }
}

} // verus!
