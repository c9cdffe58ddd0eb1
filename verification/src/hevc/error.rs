//! Why a bitstream could not be parsed, reframed or rewritten.

use vstd::prelude::*;

verus! {

/// Why an HEVC operation failed.
#[derive(Debug, Clone, Copy, PartialEq, Eq)]
pub enum HevcError {
    /// A bit field wider than 32 bits was requested.
    BitReadTooWide,
    /// The bitstream ended inside a syntax element.
    BitstreamExhausted,
    /// An Exp-Golomb code has more than 31 leading zero bits.
    UePrefixTooLong,
    /// A reference picture set lists more than 16 pictures on one side.
    ImplausibleRpsSize,
    /// The SPS NAL unit has no payload.
    SpsTooShort,
    /// `log2_max_pic_order_cnt_lsb` is outside `4..=16`.
    BadPocLsbBits,
    /// The SPS carries scaling list data.
    SpsScalingList,
    /// The SPS announces more than 64 short-term reference picture sets.
    ImplausibleRpsCount,
    /// An SPS reference picture set is predicted from another one.
    PredictedSpsRps,
    /// The PPS NAL unit has no payload.
    PpsTooShort,
    /// The PPS enables tiles.
    TiledPps,
    /// The PPS carries scaling list data.
    PpsScalingList,
    /// The slice NAL unit has no payload.
    SliceTooShort,
    /// The NAL unit type is not that of a slice.
    NotASlice,
    /// The slice segment is not the first one of its picture.
    NonFirstSlice,
    /// The PPS enables dependent slice segments.
    DependentSlices,
    /// The slice is neither a P nor an I slice.
    UnsupportedSliceType,
    /// The slice selects an SPS reference picture set that does not exist.
    MissingSpsRps(u32),
    /// The slice's reference picture set is predicted from another one.
    PredictedSliceRps,
    /// The slice uses long-term references from the SPS.
    LongTermSpsReference,
    /// The slice carries long-term references of its own.
    LongTermSliceReference,
    /// The replacement set has more than one used reference where the source
    /// set has at most one.
    AddedUsedReference,
    /// The slice modifies its reference picture list.
    ListModification,
    /// The slice has more than one active reference.
    MultipleReferences,
    /// The PPS enables weighted prediction.
    WeightedPrediction,
    /// The entry point offsets are wider than 32 bits.
    BadEntryPointOffset,
    /// The PPS announces slice header extensions.
    HeaderExtension,
    /// The slice header is not followed by a set alignment bit.
    MissingAlignmentBit,
    /// A slice header padding bit is set.
    NonzeroAlignmentBit,
    /// Fewer than four bytes are left where a length prefix should stand.
    TruncatedLengthPrefix {
        /// The bytes that are left.
        trailing: usize,
    },
    /// A length prefix announces more bytes than are left.
    TruncatedNalUnit {
        /// The bytes that are left.
        available: usize,
        /// The announced length.
        announced: usize,
    },
}

} // verus!
