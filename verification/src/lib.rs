//! Core logic of a screen-recording editor: the adaptive virtual camera's
//! click gating and timing rules, plus the pure helpers shared by the
//! recording, project and export pipelines (time mapping, range bookkeeping,
//! byte-level cursor-file parsing, FFmpeg log parsing, and the string
//! formatting used to build filter expressions).
//!
//! Everything here is free of I/O and floating point: the surrounding
//! application resolves devices, reads files and runs the floating-point
//! camera simulation, handing this crate plain values.

pub mod audio;
pub mod capture;
pub mod cursor_asset;
pub mod events;
pub mod export_expr;
pub mod ffmpeg_log;
pub mod gate;
pub mod project;
pub mod text;
