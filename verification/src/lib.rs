//! Decoding, segmentation and mapping rules of a 32-channel spinning LiDAR.
//!
//! Every rule in this crate works on plain integers and bytes. A
//! single-precision number travels as its 32-bit pattern, a double-precision
//! one as its 64-bit pattern; the numbers themselves are computed by the
//! program around the library.

pub mod angle;
pub mod bytes;
pub mod calibration;
pub mod capture;
pub mod cloud;
pub mod config;
pub mod decoder;
pub mod distance;
pub mod double;
pub mod ethernet;
pub mod flood;
pub mod grid;
pub mod history;
pub mod lifecycle;
pub mod packet;
pub mod params;
pub mod publish;
pub mod range_graph;
pub mod set_graph;
pub mod single;
pub mod sync;
pub mod text;
pub mod view;
