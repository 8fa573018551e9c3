//! The decisions behind a small clip editor: what FFmpeg is asked to do for an edit, how its
//! answers are read, and which build of the app is offered next.

pub mod base64;
pub mod calendar;
pub mod command;
pub mod debug;
pub mod download;
pub mod estimate;
pub mod export;
pub mod expression;
pub mod ffmpeg_install;
pub mod filters;
pub mod frame;
pub mod hunt;
pub mod job;
pub mod json;
pub mod number;
pub mod probe;
pub mod progress;
pub mod ramp;
pub mod rates;
pub mod reading;
pub mod settings;
pub mod sysutil;
pub mod tempo;
pub mod text;
pub mod timing;
pub mod tools;
pub mod updater;
pub mod version;
pub mod wording;
