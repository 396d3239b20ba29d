//! Just-in-time watermarking of HLS video: the part that decides.
//!
//! A video is cut into segments on its keyframes, a playlist lists the segments,
//! and each segment is rendered on demand with the viewer's name drawn on it.
//! This crate holds the rules: how a video is cut, what the playlist says, how
//! keyframes are stored, which command lines are run, and what each request is
//! answered. Reading, sending and running processes is left to its callers.
//!
//! Times are whole milliseconds unless a name says otherwise.

pub mod ffprobe;
pub mod m3u8;
pub mod segment;
pub mod segmentation;
pub mod session;
pub mod text;
pub mod video_metadata;
