//! Hardware HEVC encode and decode backed by Apple VideoToolbox.
//!
//! The wire format is HEVC Annex B with in-band VPS/SPS/PPS on keyframes,
//! interoperable with NVIDIA's NVENC/NVDEC codecs. Both directions run
//! synchronously with a single frame in flight. [`HevcDecoder`] and
//! [`HevcEncoder`] hold the state of each direction and say what to hand to the
//! hardware session; the session itself belongs to the caller.
//!
//! The decoder additionally repairs slices whose reference picture set names
//! pictures it never decoded — see the [`hevc`](crate::hevc) module docs for
//! why that is needed to interoperate with NVDEC over a lossy link.

pub mod conceal;
pub mod decoder;
pub mod encoder;

pub use decoder::{
    DecodeError, DecodedFrame, DecoderConfig, HevcDecoder, Repair, RepairLog, Submission,
};
pub use encoder::{EncodeError, EncodedFrame, FramePlan, HevcEncoder};
