//! Small text tools as a library: each tool is a function from its options
//! and the bytes of its inputs to the text it writes and its exit code.

pub mod common;
pub mod libcat;
pub mod libcomm;
pub mod libcut;
pub mod libfind;
pub mod libgrep;
pub mod libhead;
pub mod libtail;
pub mod libuniq;
pub mod libwc;
pub mod line_laws;
pub mod number;
pub mod pattern;
pub mod stream;
pub mod text;
