//! The decision logic of a command line tool that turns speech into prompts.

pub mod binary;
pub mod single;
pub mod resample;
pub mod resample_laws;
pub mod downmix;
pub mod text;
pub mod json;
pub mod transcript;
pub mod http;
pub mod refine;
pub mod credentials;
pub mod audio;
pub mod device;
pub mod telemetry;
pub mod output;
pub mod float_mix;
