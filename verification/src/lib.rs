//! Host-side core of a proof-of-space-time label initializer.
//!
//! The library covers the logic that surrounds an OpenCL scrypt back-end:
//! sizing the label buffers, converting the commitment into the form the
//! kernel consumes, truncating the 32-byte canonical labels to their stored
//! 16-byte form, scanning for the smallest label under a VRF difficulty
//! threshold, and scaling proof-of-work difficulty targets by the number of
//! space units.  Device dispatch itself stays outside the library.

pub mod init;
pub mod order;
pub mod pow;
