//! Decoder for the ELO serial touch-panel protocol.
//!
//! The panel reports every touch as a packet of five bytes: a flags byte,
//! then the X and the Y coordinate as big-endian 16-bit integers. The
//! protocol has no start-of-frame marker, so the decoder finds the start of
//! a packet by the fixed bits of the flags byte, and finds it again after
//! line noise.

pub mod decoder;
pub mod framing;
pub mod laws;
pub mod machine;
pub mod protocol;
pub mod stream;
