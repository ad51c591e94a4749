//! Dataset preparation logic for a wake-word detector.
pub mod text;
pub mod order;
pub mod rng;
pub mod shuffle;
pub mod paths;
pub mod dataset;
pub mod augment;
pub mod check;
pub mod tts;
pub mod metrics;
pub mod mfcc;
