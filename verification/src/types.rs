//! Shared descriptive enums for the decoded stream configuration.

use vstd::prelude::*;

verus! {

/// Number of audio channels carried by a packet.
#[derive(Copy, Clone, Debug, PartialEq, Eq, Structural)]
pub enum Channels {
    Mono,
    Stereo,
}

/// Sampling rates the format can signal.
#[derive(Copy, Clone, Debug, PartialEq, Eq, Structural)]
pub enum SampleRate {
    Khz8,
    Khz12,
    Khz16,
    Khz24,
    Khz48,
}

/// Audio bandwidth of the coded signal.
#[derive(Copy, Clone, Debug, PartialEq, Eq, Structural)]
pub enum Bandwidth {
    /// 4 kHz
    Narrow,
    /// 6 kHz
    Medium,
    /// 8 kHz
    Wide,
    /// 12 kHz
    SuperWide,
    /// 20 kHz
    Full,
}

/// Duration of one elementary frame.
#[derive(Copy, Clone, Debug, PartialEq, Eq, Structural)]
pub enum FrameSize {
    Ms2_5,
    Ms5,
    Ms10,
    Ms20,
    Ms40,
    Ms60,
}

/// Encoder complexity setting.
#[derive(Copy, Clone, Debug, PartialEq, Eq, Structural)]
pub enum Complexity {
    C0,
    C1,
    C2,
    C3,
    C4,
    C5,
    C6,
    C7,
    C8,
    C9,
    C10,
}

} // verus!
