//! Camera and screen capture plus hardware HEVC encode/decode for macOS.
//!
//! The capture and codec frameworks themselves — AVFoundation, ScreenCaptureKit
//! and VideoToolbox — are called from outside this library. Here stands what is
//! decided and computed around them: [`hevc`], a portable HEVC bitstream module;
//! the state of a decoder and of an encoder ([`videotoolbox`]); which device,
//! format and display a capture uses ([`camera`], [`screen`]); and the copying of
//! frames ([`slot`]).
//!
//! Frames cross the API boundary as [`BgraFrame`], a tightly packed 32-bit BGRA
//! buffer: the pixel format Apple's capture and codec hardware works in
//! natively, so no conversion pass is hidden inside the library.
//!
//! # Permissions
//!
//! Camera capture requires the Camera privacy permission, screen capture
//! requires Screen Recording (System Settings → Privacy & Security). Both are
//! requested by the OS on first use of the corresponding framework; without
//! them, opening a capture fails.
//!
//! # What is proved
//!
//! Each function states in its contract what it returns or changes; public proof
//! functions named `law_...` state what holds across several of them.

use vstd::prelude::*;

pub mod camera;
pub mod hevc;
pub mod permission;
pub mod screen;
pub mod slot;
pub mod videotoolbox;

pub use permission::Authorization;

verus! {

/// A tightly packed 32-bit BGRA frame (no row padding).
#[derive(Debug, Clone, PartialEq, Eq)]
pub struct BgraFrame {
    /// `width * height * 4` bytes of BGRA pixels, top row first.
    pub bgra: Vec<u8>,
    /// Frame width in pixels.
    pub width: u32,
    /// Frame height in pixels.
    pub height: u32,
}

} // verus!
