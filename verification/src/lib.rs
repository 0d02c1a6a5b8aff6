pub mod api;
pub mod args;
pub mod audio;
pub mod bend;
pub mod flags;
pub mod resampler;
pub mod util;
pub mod vocoder;
