use vstd::prelude::*;

verus! {

/// The channel and gain that the chip uses for its next conversion.
///
/// The chip learns the mode from the number of clock pulses that follow the
/// 24 data bits of a read.
#[derive(Copy, Clone, Debug, PartialEq, Eq, Structural)]
pub enum Mode {
    /// Channel A with factor 128 gain: one trailing pulse.
    ChAGain128,
    /// Channel B with factor 64 gain: two trailing pulses.
    ChBGain32,
    /// Channel B with factor 32 gain: three trailing pulses.
    ChBGain64,
}

impl Mode {
    /// The number of clock pulses after the data bits that select this mode.
    pub open spec fn spec_pulses(self) -> nat {
        match self {
            Mode::ChAGain128 => 1,
            Mode::ChBGain32 => 2,
            Mode::ChBGain64 => 3,
        }
    }

    /// The number of clock pulses after the data bits that select this mode.
    pub fn pulses(self) -> (r: u16)
        ensures
            r == self.spec_pulses(),
            1 <= r <= 3,
    {
        match self {
            Mode::ChAGain128 => 1,
            Mode::ChBGain32 => 2,
            Mode::ChBGain64 => 3,
        }
    }
}

} // verus!
