//! Layout of the MFCC feature matrix: one 1.2 s window at 16 kHz, cut into
//! 40 frames of 30 ms, 20 coefficients per frame.
use vstd::prelude::*;

verus! {

/// Sample rate of the whole data set, in Hz.
pub const SAMPLE_RATE: usize = 16_000;

/// Samples per frame: 30 ms at 16 kHz.
pub const FRAME_SIZE: usize = 480;

/// Step between frames: frames follow each other without overlap.
pub const HOP_SIZE: usize = 480;

/// FFT length: the nearest power of two at or above `FRAME_SIZE`.
pub const FFT_SIZE: usize = 512;

/// Number of mel filters.
pub const N_MELS: usize = 20;

/// Coefficients kept after the DCT.
pub const N_MFCC: usize = 20;

/// Frames per window: 19200 / 480.
pub const NUM_FRAMES: usize = 40;

/// Samples per window: 1.2 s at 16 kHz.
pub const WINDOW_SAMPLES: usize = 19_200;

} // verus!
