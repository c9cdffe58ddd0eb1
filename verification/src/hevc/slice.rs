//! Slice segment headers: parsing them, and replacing the short-term RPS that
//! they carry.

use super::bits::{self, BitReader, BitWriter, Cursor};
use super::bitstream::{self, is_irap, type_in_header};
use super::emulation::{self, escape_rbsp, unescape_rbsp};
use super::error::HevcError;
use super::headers::{self, PpsInfo, SpsFields, SpsInfo};
use super::rps::{self, count_used, parse_direct_st_rps, put_rps, RpsEntry};
use vstd::prelude::*;
use vstd::slice::slice_subrange;

verus! {

broadcast use super::bits::group_failed;

/// Summary of one parsed slice header.
#[derive(Debug, Clone, PartialEq, Eq)]
pub struct SliceInfo {
    /// `slice_pic_order_cnt_lsb`; `None` for IDR slices (their POC is 0).
    pub poc_lsb: Option<u32>,
    /// The slice's short-term RPS resolved to absolute POC deltas.
    pub rps: Vec<RpsEntry>,
}

/// What a [`SliceInfo`] says.
#[verifier::ext_equal]
pub struct SliceFields {
    pub poc_lsb: Option<u32>,
    pub rps: Seq<RpsEntry>,
}

impl View for SliceInfo {
    type V = SliceFields;

    open spec fn view(&self) -> SliceFields {
        SliceFields { poc_lsb: self.poc_lsb, rps: self.rps@ }
    }
}

/// What the parser should do with the slice's short-term RPS.
#[derive(Clone, Copy)]
pub enum RpsAction<'a> {
    /// Parse only; echo nothing.
    Inspect,
    /// Re-emit the header with this exact inline RPS (deltas relative to the
    /// current picture; negatives first, matching HEVC ordering rules).
    Replace(&'a [RpsEntry]),
}

impl<'a> RpsAction<'a> {
    /// The entries to put in place of the parsed ones.
    pub open spec fn replacement(&self) -> Option<Seq<RpsEntry>> {
        match self {
            RpsAction::Inspect => None,
            RpsAction::Replace(entries) => Some(entries@),
        }
    }
}

/// Whether a NAL unit type is an IDR slice.
pub open spec fn idr(nal_type: u8) -> bool {
    nal_type == 19 || nal_type == 20
}

/// Whether `nal_type` is an IDR slice (POC is inferred as 0, no RPS).
fn is_idr(nal_type: u8) -> (res: bool)
    ensures
        res == idr(nal_type),
{
    nal_type == 19 || nal_type == 20
}

/// Reads a slice header from its start to the colour plane. The result is
/// whether the slice is a P slice.
pub open spec fn slice_prefix(c: Cursor, nal_type: u8, sps: SpsFields, pps: PpsInfo) -> (
    bool,
    Cursor,
) {
    let (first_slice, c) = c.flag();
    let c = c.ensure(first_slice, HevcError::NonFirstSlice);
    let c = if bitstream::irap(nal_type) {
        c.skip_u(1)
    } else {
        c
    };
    let c = c.skip_ue();
    let c = c.ensure(!pps.dependent_slice_segments, HevcError::DependentSlices);
    let c = c.skip_u_times(1, pps.num_extra_slice_header_bits as nat);
    let (slice_type, c) = c.ue();
    let c = c.ensure(slice_type == 1 || slice_type == 2, HevcError::UnsupportedSliceType);
    let c = if pps.output_flag_present {
        c.skip_u(1)
    } else {
        c
    };
    let c = if sps.separate_colour_plane {
        c.skip_u(2)
    } else {
        c
    };
    (slice_type == 1, c)
}

/// The short-term RPS of a slice.
pub struct SliceRps {
    /// Its entries.
    pub entries: Seq<RpsEntry>,
    /// Whether the slice spells it out, rather than pointing into the SPS.
    pub inline: bool,
    /// How many of the entries an inline set codes as preceding pictures.
    pub negatives: nat,
}

/// Reads the short-term RPS of a slice: an index into the `sets` of the SPS, or
/// an inline set.
pub open spec fn slice_rps(c: Cursor, sets: Seq<Seq<RpsEntry>>) -> (SliceRps, Cursor) {
    let num_sets = sets.len() as u32;
    let (sps_flag, c) = c.flag();
    if sps_flag {
        let (idx, c) = if num_sets > 1 {
            c.u(bits::bit_width((num_sets - 1) as nat) as u32)
        } else {
            (0u32, c)
        };
        let c = c.ensure(idx < sets.len(), HevcError::MissingSpsRps(idx));
        (SliceRps { entries: sets[idx as int], inline: false, negatives: 0 }, c)
    } else {
        let c = if num_sets > 0 {
            let (predicted, c) = c.flag();
            c.ensure(!predicted, HevcError::PredictedSliceRps)
        } else {
            c
        };
        let (set, c) = rps::direct_st_rps(c);
        (SliceRps { entries: set.entries, inline: true, negatives: set.negatives }, c)
    }
}

/// Reads what stands behind the short-term RPS of a slice: no long-term
/// references, and the temporal MVP flag.
pub open spec fn slice_long_term(c: Cursor, sps: SpsFields) -> Cursor {
    let c = if sps.long_term_ref_pics_present {
        let c = if sps.num_long_term_ref_pics_sps > 0 {
            let (num_long_term_sps, c) = c.ue();
            c.ensure(num_long_term_sps == 0, HevcError::LongTermSpsReference)
        } else {
            c
        };
        let (num_long_term_pics, c) = c.ue();
        c.ensure(num_long_term_pics == 0, HevcError::LongTermSliceReference)
    } else {
        c
    };
    if sps.temporal_mvp {
        c.skip_u(1)
    } else {
        c
    }
}

/// Reads the sample adaptive offset flags: whether either is set.
pub open spec fn slice_sao(c: Cursor, sps: SpsFields) -> (bool, Cursor) {
    if sps.sao {
        let (luma, c) = c.flag();
        let (chroma, c) = c.flag();
        (luma || chroma, c)
    } else {
        (false, c)
    }
}

/// Reads the number of active references of a P slice, less one.
pub open spec fn slice_active_refs(c: Cursor, pps: PpsInfo) -> (u32, Cursor) {
    let (override_flag, c) = c.flag();
    if override_flag {
        c.ue()
    } else {
        (pps.num_ref_idx_l0_default_minus1, c)
    }
}

/// Reads the list modification flag of a P slice, which is there if the slice
/// predicts from more than one of `src_total` pictures. The re-emitted header
/// has it if `out_total` is more than one, and it cannot come to have one.
pub open spec fn slice_list_modification(
    c: Cursor,
    pps: PpsInfo,
    src_total: u32,
    out_total: u32,
) -> Cursor {
    if pps.lists_modification_present {
        let c = c.ensure(src_total > 1 || out_total <= 1, HevcError::AddedUsedReference);
        if src_total > 1 {
            let (modification, c) = c.flag();
            c.ensure(!modification, HevcError::ListModification)
        } else {
            c
        }
    } else {
        c
    }
}

/// Reads the rest of what only P slices have.
pub open spec fn slice_prediction(c: Cursor, pps: PpsInfo, active_refs_minus1: u32) -> Cursor {
    let c = if pps.cabac_init_present {
        c.skip_u(1)
    } else {
        c
    };
    let c = c.ensure(active_refs_minus1 == 0, HevcError::MultipleReferences);
    let c = c.ensure(!pps.weighted_pred, HevcError::WeightedPrediction);
    c.skip_ue()
}

/// Reads the QP deltas.
pub open spec fn slice_qp(c: Cursor, pps: PpsInfo) -> Cursor {
    let c = c.skip_ue();
    if pps.chroma_qp_offsets_present {
        c.skip_ue().skip_ue()
    } else {
        c
    }
}

/// Reads the deblocking filter override: whether the filter is disabled.
pub open spec fn slice_deblocking(c: Cursor, pps: PpsInfo) -> (bool, Cursor) {
    if pps.deblocking_filter_override_enabled {
        let (override_flag, c) = c.flag();
        if override_flag {
            let (disabled, c) = c.flag();
            if disabled {
                (true, c)
            } else {
                (false, c.skip_ue().skip_ue())
            }
        } else {
            (pps.pps_deblocking_disabled, c)
        }
    } else {
        (pps.pps_deblocking_disabled, c)
    }
}

/// Reads the entry points.
pub open spec fn slice_entry_points(c: Cursor, pps: PpsInfo) -> Cursor {
    if pps.tiles || pps.entropy_coding_sync {
        let (num_entry_points, c) = c.ue();
        if num_entry_points > 0 {
            let (offset_len_minus1, c) = c.ue();
            let c = c.ensure(offset_len_minus1 < 32, HevcError::BadEntryPointOffset);
            c.skip_u_times((offset_len_minus1 + 1) as u32, num_entry_points as nat)
        } else {
            c
        }
    } else {
        c
    }
}

/// Reads a slice header from the QP deltas to its end.
pub open spec fn slice_tail(c: Cursor, pps: PpsInfo, sao: bool) -> Cursor {
    let c = slice_qp(c, pps);
    let (deblocking_disabled, c) = slice_deblocking(c, pps);
    let c = if pps.loop_filter_across_slices && (sao || !deblocking_disabled) {
        c.skip_u(1)
    } else {
        c
    };
    let c = slice_entry_points(c, pps);
    c.ensure(!pps.slice_header_extension, HevcError::HeaderExtension)
}

/// What a slice header says, and where its changeable parts stand.
pub struct SliceSyntax {
    pub poc_lsb: Option<u32>,
    pub rps: SliceRps,
    /// Where the syntax of the short-term RPS begins and ends.
    pub rps_at: int,
    pub rps_end: int,
    /// Where the list modification flag, if any, begins and ends.
    pub list_at: int,
    pub list_end: int,
    /// Where the header ends.
    pub end: int,
}

/// What a slice header says of the picture order and the references.
pub struct SliceRefs {
    pub poc_lsb: Option<u32>,
    pub rps: SliceRps,
    pub rps_at: int,
    pub rps_end: int,
}

/// Reads the picture order count and the references of a slice. An IDR slice
/// has neither.
pub open spec fn slice_refs(c: Cursor, nal_type: u8, sps: SpsFields) -> (SliceRefs, Cursor) {
    if idr(nal_type) {
        let rps = SliceRps { entries: Seq::empty(), inline: false, negatives: 0 };
        (SliceRefs { poc_lsb: None, rps, rps_at: c.pos, rps_end: c.pos }, c)
    } else {
        let (poc_lsb, c) = c.u(sps.poc_lsb_bits);
        let rps_at = c.pos;
        let (rps, c) = slice_rps(c, sps.short_term_rps);
        let rps_end = c.pos;
        (SliceRefs { poc_lsb: Some(poc_lsb), rps, rps_at, rps_end }, slice_long_term(c, sps))
    }
}

/// Reads what stands between the sample adaptive offset flags and the QP deltas,
/// given the number of pictures that the slice predicts from, and that it will
/// predict from. The result says where the list modification flag stands.
pub open spec fn slice_p_part(
    c: Cursor,
    pps: PpsInfo,
    is_p: bool,
    src_total: u32,
    out_total: u32,
) -> ((int, int), Cursor) {
    if is_p {
        let (active_refs_minus1, c) = slice_active_refs(c, pps);
        let list_at = c.pos;
        let c = slice_list_modification(c, pps, src_total, out_total);
        let list_end = c.pos;
        ((list_at, list_end), slice_prediction(c, pps, active_refs_minus1))
    } else {
        ((c.pos, c.pos), c)
    }
}

/// How many pictures a slice predicts from once `replacement`, if any, stands in
/// place of its `rps`. An IDR slice keeps having none.
pub open spec fn out_total(
    refs: SliceRefs,
    replacement: Option<Seq<RpsEntry>>,
) -> u32 {
    if refs.poc_lsb is None {
        0
    } else {
        match replacement {
            Some(entries) => rps::used_count(entries) as u32,
            None => rps::used_count(refs.rps.entries) as u32,
        }
    }
}

/// Reads a slice header whose RPS is to be replaced, if `replacement` is given.
#[verifier::opaque]
pub open spec fn slice_syntax(
    c: Cursor,
    nal_type: u8,
    sps: SpsFields,
    pps: PpsInfo,
    replacement: Option<Seq<RpsEntry>>,
) -> (SliceSyntax, Cursor) {
    let (is_p, c) = slice_prefix(c, nal_type, sps, pps);
    let (refs, c) = slice_refs(c, nal_type, sps);
    let (sao, c) = slice_sao(c, sps);
    let src_total = rps::used_count(refs.rps.entries) as u32;
    let (list, c) = slice_p_part(c, pps, is_p, src_total, out_total(refs, replacement));
    let c = slice_tail(c, pps, sao);
    (
        SliceSyntax {
            poc_lsb: refs.poc_lsb,
            rps: refs.rps,
            rps_at: refs.rps_at,
            rps_end: refs.rps_end,
            list_at: list.0,
            list_end: list.1,
            end: c.pos,
        },
        c,
    )
}

/// How many bits `n` bits are short of a whole number of bytes.
pub open spec fn padding(n: int) -> nat {
    ((8 - n % 8) % 8) as nat
}

/// Reads `n` zero bits.
pub open spec fn zero_alignment(c: Cursor, n: nat) -> Cursor
    decreases n,
{
    if n == 0 {
        c
    } else {
        let (bit, c) = c.flag();
        zero_alignment(c.ensure(!bit, HevcError::NonzeroAlignmentBit), (n - 1) as nat)
    }
}

/// Reads byte_alignment(): a one bit, then zero bits up to the next byte.
pub open spec fn alignment(c: Cursor) -> Cursor {
    let (bit, c) = c.flag();
    let c = c.ensure(bit, HevcError::MissingAlignmentBit);
    zero_alignment(c, padding(c.pos))
}

/// The bits filled up with byte_alignment().
pub open spec fn aligned(b: Seq<bool>) -> Seq<bool> {
    b.push(true) + bits::zero_bits(padding(b.len() as int + 1))
}

/// The syntax of `entries` as the inline RPS of a slice whose SPS has `num_sets`
/// sets: not from the SPS, not predicted from one of its sets if it has any,
/// then the entries.
pub open spec fn inline_rps_bits(num_sets: u32, entries: Seq<RpsEntry>) -> Seq<bool> {
    bits::zero_bits(if num_sets > 0 { 2 } else { 1 }) + rps::rps_bits(
        rps::side_of(entries, true),
        rps::side_of(entries, false),
    )
}

/// The header bits of a slice with its RPS replaced by `entries`: everything else
/// is copied from the bits `src` that the header was parsed from, except that the
/// list modification flag is left out if at most one reference is used.
pub open spec fn rewritten_header(
    src: Seq<bool>,
    s: SliceSyntax,
    num_sets: u32,
    entries: Seq<RpsEntry>,
) -> Seq<bool> {
    let rps = if s.poc_lsb is None {
        Seq::empty()
    } else {
        inline_rps_bits(num_sets, entries)
    };
    let list = if s.list_at < s.list_end && rps::used_count(entries) as u32 > 1 {
        seq![false]
    } else {
        Seq::empty()
    };
    src.take(s.rps_at) + rps + src.subrange(s.rps_end, s.list_at) + list + src.subrange(
        s.list_end,
        s.end,
    )
}

/// The RBSP with the aligned `header` in front of the payload, which begins at
/// bit `payload_at` of `rbsp`.
pub open spec fn reassembled(rbsp: Seq<u8>, header: Seq<bool>, payload_at: int) -> Seq<u8> {
    bits::bytes_of(aligned(header)) + rbsp.skip(payload_at / 8)
}

/// What a slice NAL unit says and, if `replacement` is given, the NAL unit with
/// this RPS in place of its own; or what is wrong with it.
pub open spec fn processed(
    nal: Seq<u8>,
    sps: SpsFields,
    pps: PpsInfo,
    replacement: Option<Seq<RpsEntry>>,
) -> Result<(SliceFields, Option<Seq<u8>>), HevcError> {
    if nal.len() <= 2 {
        Err(HevcError::SliceTooShort)
    } else if bitstream::header_type(nal[0]) >= 32 {
        Err(HevcError::NotASlice)
    } else {
        let rbsp = emulation::unescaped(nal.skip(2));
        let src = bits::bits_of(rbsp);
        let (s, c) = slice_syntax(
            Cursor::start(src),
            bitstream::header_type(nal[0]),
            sps,
            pps,
            replacement,
        );
        let info = SliceFields { poc_lsb: s.poc_lsb, rps: s.rps.entries };
        match replacement {
            None => c.finish((info, None)),
            Some(entries) => {
                let c = alignment(c);
                let header = rewritten_header(src, s, sps.short_term_rps.len() as u32, entries);
                c.finish(
                    (
                        info,
                        Some(nal.take(2) + emulation::escaped(reassembled(rbsp, header, c.pos))),
                    ),
                )
            },
        }
    }
}

/// Whether the header of a slice NAL unit parses up to the end of its short-term
/// RPS, and it has one.
pub open spec fn reaches_rps(nal: Seq<u8>, sps: SpsFields, pps: PpsInfo) -> bool {
    let ty = bitstream::header_type(nal[0]);
    &&& nal.len() > 2
    &&& ty < 32
    &&& !idr(ty)
    &&& {
        let c = slice_prefix(Cursor::start(headers::payload_bits(nal)), ty, sps, pps).1;
        slice_rps(c.skip_u(sps.poc_lsb_bits), sps.short_term_rps).1.ok()
    }
}

/// What the slice NAL unit `nal` says, or what is wrong with it.
pub open spec fn slice_of(nal: Seq<u8>, sps: SpsFields, pps: PpsInfo) -> Result<
    SliceFields,
    HevcError,
> {
    match processed(nal, sps, pps, None) {
        Ok((info, _)) => Ok(info),
        Err(e) => Err(e),
    }
}

/// The slice NAL unit `nal` with its RPS replaced by `entries`, or what is wrong
/// with `nal`.
pub open spec fn rewritten(
    nal: Seq<u8>,
    sps: SpsFields,
    pps: PpsInfo,
    entries: Seq<RpsEntry>,
) -> Result<Seq<u8>, HevcError> {
    match processed(nal, sps, pps, Some(entries)) {
        Ok((_, out)) => Ok(out->0),
        Err(e) => Err(e),
    }
}

/// Parse a slice header from its start to the colour plane.
fn parse_slice_prefix(
    r: &mut BitReader<'_>,
    nal_type: u8,
    sps: &SpsInfo,
    pps: &PpsInfo,
) -> (res: Result<bool, HevcError>)
    ensures
        final(r).bytes() == old(r).bytes(),
        match res {
            Ok(is_p) => slice_prefix(old(r).cursor(), nal_type, sps@, *pps) == (
                is_p,
                final(r).cursor(),
            ),
            Err(e) => slice_prefix(old(r).cursor(), nal_type, sps@, *pps).1.err == Some(e),
        },
{
    if !r.flag()? {
        return Err(HevcError::NonFirstSlice);
    }
    if is_irap(nal_type) {
        r.u(1)?;  // no_output_of_prior_pics_flag
    }
    r.ue()?;  // slice_pic_parameter_set_id
    if pps.dependent_slice_segments {
        return Err(HevcError::DependentSlices);
    }
    r.skip_u_times(1, pps.num_extra_slice_header_bits)?;
    let slice_type: u32 = r.ue()?;
    if slice_type != 1 && slice_type != 2 {
        return Err(HevcError::UnsupportedSliceType);
    }
    if pps.output_flag_present {
        r.u(1)?;
    }
    if sps.separate_colour_plane {
        r.u(2)?;
    }
    Ok(slice_type == 1)
}

/// Parse the short-term RPS of a slice.
fn parse_slice_rps(r: &mut BitReader<'_>, sps: &SpsInfo) -> (res: Result<Vec<RpsEntry>, HevcError>)
    ensures
        final(r).bytes() == old(r).bytes(),
        match res {
            Ok(entries) => {
                let (rps, c) = slice_rps(old(r).cursor(), sps@.short_term_rps);
                rps.entries == entries@ && c == final(r).cursor()
            },
            Err(e) => slice_rps(old(r).cursor(), sps@.short_term_rps).1.err == Some(e),
        },
{
    broadcast use rps::lemma_direct_st_rps_failed;

    let num_sets: u32 = #[verifier::truncate] (sps.short_term_rps.len() as u32);
    if r.flag()? {
        // short_term_ref_pic_set_sps_flag
        let idx: u32 = if num_sets > 1 {
            r.u(bits::bit_length(num_sets - 1))?
        } else {
            0
        };
        if idx as usize >= sps.short_term_rps.len() {
            return Err(HevcError::MissingSpsRps(idx));
        }
        let set: &Vec<RpsEntry> = &sps.short_term_rps[idx as usize];
        Ok(vstd::slice::slice_to_vec(set.as_slice()))
    } else {
        if num_sets > 0 {
            if r.flag()? {
                return Err(HevcError::PredictedSliceRps);
            }
        }
        parse_direct_st_rps(r)
    }
}

/// Parse what stands behind the short-term RPS of a slice.
fn parse_slice_long_term(r: &mut BitReader<'_>, sps: &SpsInfo) -> (res: Result<(), HevcError>)
    ensures
        final(r).bytes() == old(r).bytes(),
        match res {
            Ok(_) => slice_long_term(old(r).cursor(), sps@) == final(r).cursor(),
            Err(e) => slice_long_term(old(r).cursor(), sps@).err == Some(e),
        },
{
    if sps.long_term_ref_pics_present {
        if sps.num_long_term_ref_pics_sps > 0 {
            if r.ue()? != 0 {
                return Err(HevcError::LongTermSpsReference);
            }
        }
        if r.ue()? != 0 {
            return Err(HevcError::LongTermSliceReference);
        }
    }
    if sps.temporal_mvp {
        r.u(1)?;  // slice_temporal_mvp_enabled_flag
    }
    Ok(())
}

/// Parse the sample adaptive offset flags.
fn parse_slice_sao(r: &mut BitReader<'_>, sps: &SpsInfo) -> (res: Result<bool, HevcError>)
    ensures
        final(r).bytes() == old(r).bytes(),
        match res {
            Ok(sao) => slice_sao(old(r).cursor(), sps@) == (sao, final(r).cursor()),
            Err(e) => slice_sao(old(r).cursor(), sps@).1.err == Some(e),
        },
{
    if sps.sao {
        let luma: bool = r.flag()?;
        let chroma: bool = r.flag()?;
        Ok(luma || chroma)
    } else {
        Ok(false)
    }
}

/// Parse the number of active references of a P slice, less one.
fn parse_slice_active_refs(r: &mut BitReader<'_>, pps: &PpsInfo) -> (res: Result<u32, HevcError>)
    ensures
        final(r).bytes() == old(r).bytes(),
        match res {
            Ok(minus1) => slice_active_refs(old(r).cursor(), *pps) == (minus1, final(r).cursor()),
            Err(e) => slice_active_refs(old(r).cursor(), *pps).1.err == Some(e),
        },
{
    if r.flag()? {
        r.ue()
    } else {
        Ok(pps.num_ref_idx_l0_default_minus1)
    }
}

/// Parse the list modification flag of a P slice.
fn parse_slice_list_modification(
    r: &mut BitReader<'_>,
    pps: &PpsInfo,
    src_total: u32,
    out_total: u32,
) -> (res: Result<(), HevcError>)
    ensures
        final(r).bytes() == old(r).bytes(),
        match res {
            Ok(_) => slice_list_modification(old(r).cursor(), *pps, src_total, out_total)
                == final(r).cursor(),
            Err(e) => slice_list_modification(
                old(r).cursor(),
                *pps,
                src_total,
                out_total,
            ).err == Some(e),
        },
{
    if pps.lists_modification_present {
        // A repair only drops used references, so out-present without
        // src-present is impossible.
        if !(src_total > 1) && out_total > 1 {
            return Err(HevcError::AddedUsedReference);
        }
        if src_total > 1 {
            if r.flag()? {
                return Err(HevcError::ListModification);
            }
        }
    }
    Ok(())
}

/// Parse the rest of what only P slices have.
fn parse_slice_prediction(
    r: &mut BitReader<'_>,
    pps: &PpsInfo,
    active_refs_minus1: u32,
) -> (res: Result<(), HevcError>)
    ensures
        final(r).bytes() == old(r).bytes(),
        match res {
            Ok(_) => slice_prediction(old(r).cursor(), *pps, active_refs_minus1)
                == final(r).cursor(),
            Err(e) => slice_prediction(old(r).cursor(), *pps, active_refs_minus1).err == Some(e),
        },
{
    if pps.cabac_init_present {
        r.u(1)?;
    }
    // collocated_ref_idx is present only when the slice enables temporal
    // MVP and more than one reference is active. The low-latency encoders
    // covered here use a single active reference
    // (num_ref_idx_l0_active_minus1 = 0), so the field is never present;
    // reject anything else rather than mis-parse.
    if active_refs_minus1 != 0 {
        return Err(HevcError::MultipleReferences);
    }
    if pps.weighted_pred {
        return Err(HevcError::WeightedPrediction);
    }
    r.ue()?;  // five_minus_max_num_merge_cand
    Ok(())
}

/// Parse the QP deltas.
fn parse_slice_qp(r: &mut BitReader<'_>, pps: &PpsInfo) -> (res: Result<(), HevcError>)
    ensures
        final(r).bytes() == old(r).bytes(),
        match res {
            Ok(_) => slice_qp(old(r).cursor(), *pps) == final(r).cursor(),
            Err(e) => slice_qp(old(r).cursor(), *pps).err == Some(e),
        },
{
    r.ue()?;  // slice_qp_delta
    if pps.chroma_qp_offsets_present {
        r.ue()?;
        r.ue()?;
    }
    Ok(())
}

/// Parse the deblocking filter override.
fn parse_slice_deblocking(r: &mut BitReader<'_>, pps: &PpsInfo) -> (res: Result<bool, HevcError>)
    ensures
        final(r).bytes() == old(r).bytes(),
        match res {
            Ok(disabled) => slice_deblocking(old(r).cursor(), *pps) == (
                disabled,
                final(r).cursor(),
            ),
            Err(e) => slice_deblocking(old(r).cursor(), *pps).1.err == Some(e),
        },
{
    let mut disabled: bool = pps.pps_deblocking_disabled;
    if pps.deblocking_filter_override_enabled {
        if r.flag()? {
            disabled = r.flag()?;
            if !disabled {
                r.ue()?;
                r.ue()?;
            }
        }
    }
    Ok(disabled)
}

/// Parse the entry points.
fn parse_slice_entry_points(r: &mut BitReader<'_>, pps: &PpsInfo) -> (res: Result<(), HevcError>)
    ensures
        final(r).bytes() == old(r).bytes(),
        match res {
            Ok(_) => slice_entry_points(old(r).cursor(), *pps) == final(r).cursor(),
            Err(e) => slice_entry_points(old(r).cursor(), *pps).err == Some(e),
        },
{
    if pps.tiles || pps.entropy_coding_sync {
        let num_entry_points: u32 = r.ue()?;
        if num_entry_points > 0 {
            let offset_len_minus1: u32 = r.ue()?;
            if offset_len_minus1 >= 32 {
                return Err(HevcError::BadEntryPointOffset);
            }
            r.skip_u_times(offset_len_minus1 + 1, num_entry_points)?;
        }
    }
    Ok(())
}

/// Parse a slice header from the QP deltas to its end.
fn parse_slice_tail(r: &mut BitReader<'_>, pps: &PpsInfo, sao: bool) -> (res: Result<
    (),
    HevcError,
>)
    ensures
        final(r).bytes() == old(r).bytes(),
        match res {
            Ok(_) => slice_tail(old(r).cursor(), *pps, sao) == final(r).cursor(),
            Err(e) => slice_tail(old(r).cursor(), *pps, sao).err == Some(e),
        },
{
    broadcast use group_slice_failed;

    parse_slice_qp(r, pps)?;
    let deblocking_disabled: bool = parse_slice_deblocking(r, pps)?;
    if pps.loop_filter_across_slices && (sao || !deblocking_disabled) {
        r.u(1)?;  // slice_loop_filter_across_slices_enabled_flag
    }
    parse_slice_entry_points(r, pps)?;
    if pps.slice_header_extension {
        return Err(HevcError::HeaderExtension);
    }
    Ok(())
}

/// A failed cursor stays failed.
pub broadcast proof fn lemma_slice_prefix_failed(
    c: Cursor,
    nal_type: u8,
    sps: SpsFields,
    pps: PpsInfo,
)
    ensures
        !c.ok() ==> (#[trigger] slice_prefix(c, nal_type, sps, pps)).1 == c,
{
}

/// Reading moves the cursor forward, inside the bits.
pub broadcast proof fn lemma_slice_prefix_moves(
    c: Cursor,
    nal_type: u8,
    sps: SpsFields,
    pps: PpsInfo,
)
    ensures
        bits::moved(c, (#[trigger] slice_prefix(c, nal_type, sps, pps)).1),
{
    broadcast use bits::group_moves;

}

/// A failed cursor stays failed.
pub broadcast proof fn lemma_slice_rps_failed(c: Cursor, sets: Seq<Seq<RpsEntry>>)
    ensures
        !c.ok() ==> (#[trigger] slice_rps(c, sets)).1 == c,
{
    broadcast use rps::lemma_direct_st_rps_failed;

}

/// Reading moves the cursor forward, inside the bits.
pub broadcast proof fn lemma_slice_rps_moves(c: Cursor, sets: Seq<Seq<RpsEntry>>)
    ensures
        bits::moved(c, (#[trigger] slice_rps(c, sets)).1),
{
    broadcast use bits::group_moves;

    broadcast use rps::lemma_direct_st_rps_moves;

}

/// A failed cursor stays failed.
pub broadcast proof fn lemma_slice_long_term_failed(c: Cursor, sps: SpsFields)
    ensures
        !c.ok() ==> #[trigger] slice_long_term(c, sps) == c,
{
}

/// Reading moves the cursor forward, inside the bits.
pub broadcast proof fn lemma_slice_long_term_moves(c: Cursor, sps: SpsFields)
    ensures
        bits::moved(c, #[trigger] slice_long_term(c, sps)),
{
    broadcast use bits::group_moves;

}

/// A failed cursor stays failed.
pub broadcast proof fn lemma_slice_refs_failed(c: Cursor, nal_type: u8, sps: SpsFields)
    ensures
        !c.ok() ==> (#[trigger] slice_refs(c, nal_type, sps)).1 == c,
{
    broadcast use {
        lemma_slice_rps_failed,
        lemma_slice_long_term_failed,
    };

}

/// Reading moves the cursor forward, inside the bits.
pub broadcast proof fn lemma_slice_refs_moves(c: Cursor, nal_type: u8, sps: SpsFields)
    ensures
        bits::moved(c, (#[trigger] slice_refs(c, nal_type, sps)).1),
{
    broadcast use bits::group_moves;

    broadcast use {
        lemma_slice_rps_moves,
        lemma_slice_long_term_moves,
    };

}

/// A failed cursor stays failed.
pub broadcast proof fn lemma_slice_sao_failed(c: Cursor, sps: SpsFields)
    ensures
        !c.ok() ==> (#[trigger] slice_sao(c, sps)).1 == c,
{
}

/// Reading moves the cursor forward, inside the bits.
pub broadcast proof fn lemma_slice_sao_moves(c: Cursor, sps: SpsFields)
    ensures
        bits::moved(c, (#[trigger] slice_sao(c, sps)).1),
{
    broadcast use bits::group_moves;

}

/// A failed cursor stays failed.
pub broadcast proof fn lemma_slice_active_refs_failed(c: Cursor, pps: PpsInfo)
    ensures
        !c.ok() ==> (#[trigger] slice_active_refs(c, pps)).1 == c,
{
}

/// Reading moves the cursor forward, inside the bits.
pub broadcast proof fn lemma_slice_active_refs_moves(c: Cursor, pps: PpsInfo)
    ensures
        bits::moved(c, (#[trigger] slice_active_refs(c, pps)).1),
{
    broadcast use bits::group_moves;

}

/// A failed cursor stays failed.
pub broadcast proof fn lemma_slice_list_modification_failed(
    c: Cursor,
    pps: PpsInfo,
    src_total: u32,
    out_total: u32,
)
    ensures
        !c.ok() ==> #[trigger] slice_list_modification(c, pps, src_total, out_total) == c,
{
}

/// Reading moves the cursor forward, inside the bits.
pub broadcast proof fn lemma_slice_list_modification_moves(
    c: Cursor,
    pps: PpsInfo,
    src_total: u32,
    out_total: u32,
)
    ensures
        bits::moved(c, #[trigger] slice_list_modification(c, pps, src_total, out_total)),
{
    broadcast use bits::group_moves;

}

/// A failed cursor stays failed.
pub broadcast proof fn lemma_slice_prediction_failed(
    c: Cursor,
    pps: PpsInfo,
    active_refs_minus1: u32,
)
    ensures
        !c.ok() ==> #[trigger] slice_prediction(c, pps, active_refs_minus1) == c,
{
}

/// Reading moves the cursor forward, inside the bits.
pub broadcast proof fn lemma_slice_prediction_moves(
    c: Cursor,
    pps: PpsInfo,
    active_refs_minus1: u32,
)
    ensures
        bits::moved(c, #[trigger] slice_prediction(c, pps, active_refs_minus1)),
{
    broadcast use bits::group_moves;

}

/// A failed cursor stays failed.
pub broadcast proof fn lemma_slice_p_part_failed(
    c: Cursor,
    pps: PpsInfo,
    is_p: bool,
    src_total: u32,
    out_total: u32,
)
    ensures
        !c.ok() ==> (#[trigger] slice_p_part(c, pps, is_p, src_total, out_total)).1 == c,
{
    broadcast use {
        lemma_slice_active_refs_failed,
        lemma_slice_list_modification_failed,
        lemma_slice_prediction_failed,
    };

}

/// Reading moves the cursor forward, inside the bits.
pub broadcast proof fn lemma_slice_p_part_moves(
    c: Cursor,
    pps: PpsInfo,
    is_p: bool,
    src_total: u32,
    out_total: u32,
)
    ensures
        bits::moved(c, (#[trigger] slice_p_part(c, pps, is_p, src_total, out_total)).1),
{
    broadcast use bits::group_moves;

    broadcast use {
        lemma_slice_active_refs_moves,
        lemma_slice_list_modification_moves,
        lemma_slice_prediction_moves,
    };

}

/// A failed cursor stays failed.
pub broadcast proof fn lemma_slice_qp_failed(c: Cursor, pps: PpsInfo)
    ensures
        !c.ok() ==> #[trigger] slice_qp(c, pps) == c,
{
}

/// Reading moves the cursor forward, inside the bits.
pub broadcast proof fn lemma_slice_qp_moves(c: Cursor, pps: PpsInfo)
    ensures
        bits::moved(c, #[trigger] slice_qp(c, pps)),
{
    broadcast use bits::group_moves;

}

/// A failed cursor stays failed.
pub broadcast proof fn lemma_slice_deblocking_failed(c: Cursor, pps: PpsInfo)
    ensures
        !c.ok() ==> (#[trigger] slice_deblocking(c, pps)).1 == c,
{
}

/// Reading moves the cursor forward, inside the bits.
pub broadcast proof fn lemma_slice_deblocking_moves(c: Cursor, pps: PpsInfo)
    ensures
        bits::moved(c, (#[trigger] slice_deblocking(c, pps)).1),
{
    broadcast use bits::group_moves;

}

/// A failed cursor stays failed.
pub broadcast proof fn lemma_slice_entry_points_failed(c: Cursor, pps: PpsInfo)
    ensures
        !c.ok() ==> #[trigger] slice_entry_points(c, pps) == c,
{
}

/// Reading moves the cursor forward, inside the bits.
pub broadcast proof fn lemma_slice_entry_points_moves(c: Cursor, pps: PpsInfo)
    ensures
        bits::moved(c, #[trigger] slice_entry_points(c, pps)),
{
    broadcast use bits::group_moves;

}

/// A failed cursor stays failed.
pub broadcast proof fn lemma_slice_tail_failed(c: Cursor, pps: PpsInfo, sao: bool)
    ensures
        !c.ok() ==> #[trigger] slice_tail(c, pps, sao) == c,
{
    broadcast use {
        lemma_slice_qp_failed,
        lemma_slice_deblocking_failed,
        lemma_slice_entry_points_failed,
    };

}

/// Reading moves the cursor forward, inside the bits.
pub broadcast proof fn lemma_slice_tail_moves(c: Cursor, pps: PpsInfo, sao: bool)
    ensures
        bits::moved(c, #[trigger] slice_tail(c, pps, sao)),
{
    broadcast use bits::group_moves;

    broadcast use {
        lemma_slice_qp_moves,
        lemma_slice_deblocking_moves,
        lemma_slice_entry_points_moves,
    };

}

/// What is failed stays failed, whatever part of a slice header is read.
pub broadcast group group_slice_failed {
    lemma_slice_prefix_failed,
    lemma_slice_rps_failed,
    lemma_slice_long_term_failed,
    lemma_slice_refs_failed,
    lemma_slice_sao_failed,
    lemma_slice_active_refs_failed,
    lemma_slice_list_modification_failed,
    lemma_slice_prediction_failed,
    lemma_slice_p_part_failed,
    lemma_slice_qp_failed,
    lemma_slice_deblocking_failed,
    lemma_slice_entry_points_failed,
    lemma_slice_tail_failed,
}

/// Reading a part of a slice header moves the cursor forward.
pub broadcast group group_slice_moves {
    lemma_slice_prefix_moves,
    lemma_slice_rps_moves,
    lemma_slice_long_term_moves,
    lemma_slice_refs_moves,
    lemma_slice_sao_moves,
    lemma_slice_active_refs_moves,
    lemma_slice_list_modification_moves,
    lemma_slice_prediction_moves,
    lemma_slice_p_part_moves,
    lemma_slice_qp_moves,
    lemma_slice_deblocking_moves,
    lemma_slice_entry_points_moves,
    lemma_slice_tail_moves,
}

/// A failed cursor stays failed.
pub broadcast proof fn lemma_zero_alignment_failed(c: Cursor, n: nat)
    ensures
        !c.ok() ==> #[trigger] zero_alignment(c, n) == c,
    decreases n,
{
    if n > 0 {
        lemma_zero_alignment_failed(c, (n - 1) as nat);
    }
}

/// Parse byte_alignment().
fn parse_alignment(r: &mut BitReader<'_>) -> (res: Result<(), HevcError>)
    ensures
        final(r).bytes() == old(r).bytes(),
        match res {
            Ok(_) => {
                &&& alignment(old(r).cursor()) == final(r).cursor()
                &&& final(r).pos() % 8 == 0
            },
            Err(e) => alignment(old(r).cursor()).err == Some(e),
        },
{
    proof {
        let c = r.cursor().flag().1.ensure(r.cursor().flag().0, HevcError::MissingAlignmentBit);
        lemma_zero_alignment_failed(c, padding(c.pos));
    }
    if !r.flag()? {
        return Err(HevcError::MissingAlignmentBit);
    }
    let ghost start = r.cursor();
    let n: usize = r.bits_to_byte();
    assert(n == padding(start.pos));
    let mut i: usize = 0;
    while i < n
        invariant
            r.bytes() == old(r).bytes(),
            i <= n,
            n == padding(start.pos),
            r.pos() == start.pos + i,
            alignment(old(r).cursor()) == zero_alignment(start, n as nat),
            zero_alignment(start, n as nat) == zero_alignment(r.cursor(), (n - i) as nat),
        decreases n - i,
    {
        proof {
            let (bit, c1) = r.cursor().flag();
            let c2 = c1.ensure(!bit, HevcError::NonzeroAlignmentBit);
            lemma_zero_alignment_failed(c2, (n - i - 1) as nat);
            bits::lemma_u_moves(r.cursor(), 1);
        }
        if r.flag()? {
            return Err(HevcError::NonzeroAlignmentBit);
        }
        i = i + 1;
    }
    Ok(())
}

/// Append byte_alignment().
fn put_alignment(w: &mut BitWriter)
    ensures
        final(w)@ == aligned(old(w)@),
{
    let ghost given = w@;
    w.put_flag(true);
    let ghost start = w@;
    assert(w@ + bits::zero_bits(padding(w@.len() as int)) =~= start + bits::zero_bits(
        padding(start.len() as int),
    ));
    while !w.byte_aligned()
        invariant
            w@ + bits::zero_bits(padding(w@.len() as int)) == start + bits::zero_bits(
                padding(start.len() as int),
            ),
        decreases padding(w@.len() as int),
    {
        let ghost before = w@;
        w.put_flag(false);
        proof {
            assert(padding(w@.len() as int) == padding(before.len() as int) - 1);
            assert(w@ + bits::zero_bits(padding(w@.len() as int)) =~= before + bits::zero_bits(
                padding(before.len() as int),
            ));
        }
    }
    assert(w@ =~= w@ + bits::zero_bits(0));
    assert(w@ =~= aligned(given));
}

/// A parsed slice header, with readers at its changeable parts.
struct ParsedSlice<'a> {
    info: SliceInfo,
    rps_at: BitReader<'a>,
    rps_end: BitReader<'a>,
    list_at: BitReader<'a>,
    list_end: BitReader<'a>,
}

impl<'a> ParsedSlice<'a> {
    /// Whether the readers stand in order at places inside `data`, up to `end`.
    spec fn wf(&self, data: Seq<u8>, end: int) -> bool {
        &&& self.rps_at.bytes() == data
        &&& self.rps_end.bytes() == data
        &&& self.list_at.bytes() == data
        &&& self.list_end.bytes() == data
        &&& self.rps_at.pos() <= self.rps_end.pos() <= self.list_at.pos()
        &&& self.list_at.pos() <= self.list_end.pos() <= end
    }

    /// Whether this is what `s` says.
    spec fn matches_syntax(&self, s: SliceSyntax) -> bool {
        &&& s.poc_lsb == self.info.poc_lsb
        &&& s.rps.entries == self.info.rps@
        &&& s.rps_at == self.rps_at.pos()
        &&& s.rps_end == self.rps_end.pos()
        &&& s.list_at == self.list_at.pos()
        &&& s.list_end == self.list_end.pos()
    }
}

/// Parse the picture order count and the references of a slice; the result also
/// says where its RPS begins and ends.
#[verifier::rlimit(40)]
fn parse_slice_refs<'a>(r: &mut BitReader<'a>, nal_type: u8, sps: &SpsInfo) -> (res: Result<
    (SliceInfo, BitReader<'a>, BitReader<'a>),
    HevcError,
>)
    ensures
        final(r).bytes() == old(r).bytes(),
        match res {
            Ok((info, rps_at, rps_end)) => {
                let (refs, c) = slice_refs(old(r).cursor(), nal_type, sps@);
                &&& c == final(r).cursor()
                &&& refs.poc_lsb == info.poc_lsb
                &&& refs.rps.entries == info.rps@
                &&& refs.rps_at == rps_at.pos() && rps_at.bytes() == old(r).bytes()
                &&& refs.rps_end == rps_end.pos() && rps_end.bytes() == old(r).bytes()
                &&& old(r).pos() <= rps_at.pos() <= rps_end.pos() <= final(r).pos()
            },
            Err(e) => slice_refs(old(r).cursor(), nal_type, sps@).1.err == Some(e),
        },
{
    broadcast use {bits::group_moves, group_slice_moves, group_slice_failed};

    if is_idr(nal_type) {
        let rps: Vec<RpsEntry> = Vec::new();
        return Ok((SliceInfo { poc_lsb: None, rps }, *r, *r));
    }
    let poc_lsb: u32 = r.u(sps.poc_lsb_bits)?;
    let rps_at: BitReader<'a> = *r;
    let rps = parse_slice_rps(r, sps)?;
    let rps_end: BitReader<'a> = *r;
    parse_slice_long_term(r, sps)?;
    Ok((SliceInfo { poc_lsb: Some(poc_lsb), rps }, rps_at, rps_end))
}

/// Parse what stands between the sample adaptive offset flags and the QP deltas;
/// the result says where the list modification flag begins and ends.
fn parse_slice_p_part<'a>(
    r: &mut BitReader<'a>,
    pps: &PpsInfo,
    is_p: bool,
    src_total: u32,
    out_total: u32,
) -> (res: Result<(BitReader<'a>, BitReader<'a>), HevcError>)
    ensures
        final(r).bytes() == old(r).bytes(),
        match res {
            Ok((at, end)) => {
                &&& slice_p_part(old(r).cursor(), *pps, is_p, src_total, out_total) == (
                    (at.pos(), end.pos()),
                    final(r).cursor(),
                )
                &&& at.bytes() == old(r).bytes()
                &&& end.bytes() == old(r).bytes()
                &&& old(r).pos() <= at.pos() <= end.pos() <= final(r).pos()
            },
            Err(e) => slice_p_part(
                old(r).cursor(),
                *pps,
                is_p,
                src_total,
                out_total,
            ).1.err == Some(e),
        },
{
    broadcast use {group_slice_moves, group_slice_failed};

    if !is_p {
        return Ok((*r, *r));
    }
    let active_refs_minus1: u32 = parse_slice_active_refs(r, pps)?;
    let at: BitReader<'a> = *r;
    parse_slice_list_modification(r, pps, src_total, out_total)?;
    let end: BitReader<'a> = *r;
    parse_slice_prediction(r, pps, active_refs_minus1)?;
    Ok((at, end))
}

/// How many pictures a slice will predict from.
fn out_pic_total(info: &SliceInfo, action: RpsAction<'_>) -> (res: u32)
    ensures
        forall|refs: SliceRefs|
            refs.poc_lsb == info.poc_lsb && refs.rps.entries == info.rps@ ==> res
                == #[trigger] out_total(refs, action.replacement()),
{
    if info.poc_lsb.is_none() {
        return 0;
    }
    let total: usize = match action {
        RpsAction::Replace(entries) => count_used(entries),
        RpsAction::Inspect => count_used(info.rps.as_slice()),
    };
    #[verifier::truncate]
    (total as u32)
}

/// Parse a slice header.
#[verifier::rlimit(40)]
fn parse_slice_header<'a>(
    r: &mut BitReader<'a>,
    nal_type: u8,
    sps: &SpsInfo,
    pps: &PpsInfo,
    action: RpsAction<'_>,
) -> (res: Result<ParsedSlice<'a>, HevcError>)
    ensures
        final(r).bytes() == old(r).bytes(),
        match res {
            Ok(parsed) => {
                let (s, c) = slice_syntax(
                    old(r).cursor(),
                    nal_type,
                    sps@,
                    *pps,
                    action.replacement(),
                );
                &&& c == final(r).cursor()
                &&& s.end == final(r).pos()
                &&& parsed.matches_syntax(s)
                &&& parsed.wf(old(r).bytes(), final(r).pos())
            },
            Err(e) => slice_syntax(
                old(r).cursor(),
                nal_type,
                sps@,
                *pps,
                action.replacement(),
            ).1.err == Some(e),
        },
{
    broadcast use {group_slice_moves, group_slice_failed};

    proof {
        reveal(slice_syntax);
    }
    let is_p: bool = parse_slice_prefix(r, nal_type, sps, pps)?;
    let (info, rps_at, rps_end) = parse_slice_refs(r, nal_type, sps)?;
    let sao: bool = parse_slice_sao(r, sps)?;
    // NumPicTotalCurr drives whether the optional `ref_pic_list_modification`
    // syntax is present. It must be tracked separately for the source header
    // (whose bits are read) and the output header (whose bits are written): a
    // repair that drops a missing used reference can cross the > 1 threshold,
    // so the source may carry the flag while the output must omit it.
    let src_total: u32 = #[verifier::truncate] (count_used(info.rps.as_slice()) as u32);
    let out_total: u32 = out_pic_total(&info, action);
    let (list_at, list_end) = parse_slice_p_part(r, pps, is_p, src_total, out_total)?;
    parse_slice_tail(r, pps, sao)?;
    Ok(ParsedSlice { info, rps_at, rps_end, list_at, list_end })
}

/// Write the header of a parsed slice, its RPS replaced by `entries`, and the
/// alignment behind it.
#[verifier::rlimit(40)]
fn put_slice_header(
    parsed: &ParsedSlice<'_>,
    start: BitReader<'_>,
    end: BitReader<'_>,
    num_sets: u32,
    entries: &[RpsEntry],
    s: Ghost<SliceSyntax>,
) -> (out: Vec<u8>)
    requires
        start.pos() == 0,
        start.bytes() == end.bytes(),
        parsed.wf(end.bytes(), end.pos()),
        parsed.matches_syntax(s@),
        s@.end == end.pos(),
        s@.poc_lsb is Some ==> rps::encodable(entries@),
    ensures
        out@ == bits::bytes_of(
            aligned(rewritten_header(bits::bits_of(end.bytes()), s@, num_sets, entries@)),
        ),
{
    let ghost src = bits::bits_of(end.bytes());
    let ghost s = s@;
    proof {
        use_type_invariant(&parsed.rps_at);
        bits::lemma_reader_in_range(parsed.rps_at);
    }
    let mut w = BitWriter::default();
    w.put_copied(start, parsed.rps_at);
    assert(w@ =~= src.take(s.rps_at));
    let ghost rps_part = if s.poc_lsb is None {
        Seq::empty()
    } else {
        inline_rps_bits(num_sets, entries@)
    };
    if parsed.info.poc_lsb.is_some() {
        let ghost before = w@;
        w.put_flag(false);  // short_term_ref_pic_set_sps_flag = 0
        if num_sets > 0 {
            w.put_flag(false);  // inter_ref_pic_set_prediction_flag = 0
        }
        assert(w@ =~= before + bits::zero_bits(if num_sets > 0 { 2 } else { 1 }));
        // HEVC orders RPS entries by increasing distance from the current
        // picture; they are sorted so callers can pass them in any order.
        put_rps(&mut w, entries);
    }
    assert(w@ =~= src.take(s.rps_at) + rps_part);
    w.put_copied(parsed.rps_end, parsed.list_at);
    let ghost list_part = if s.list_at < s.list_end && rps::used_count(entries@) as u32 > 1 {
        seq![false]
    } else {
        Seq::empty()
    };
    // Written per the output count, though read per the source count.
    let out_total: u32 = #[verifier::truncate] (count_used(entries) as u32);
    if !parsed.list_at.at_position_of(&parsed.list_end) && out_total > 1 {
        w.put_flag(false);
    }
    assert(w@ =~= src.take(s.rps_at) + rps_part + src.subrange(s.rps_end, s.list_at) + list_part);
    w.put_copied(parsed.list_end, end);
    assert(w@ =~= rewritten_header(src, s, num_sets, entries@));
    put_alignment(&mut w);
    let ghost all = w@;
    let out = w.into_bytes();
    proof {
        assert(bits::bits_of(out@) =~= all);
        bits::lemma_bytes_of_bits(out@);
    }
    out
}

/// Parse (and optionally rewrite) a slice segment header.
///
/// `nal` is the full NAL unit (2-byte header + escaped payload, no start
/// code). Returns the parsed [`SliceInfo`] and, when `action` is `Replace`,
/// the rewritten NAL with the slice payload copied verbatim (re-aligned and
/// re-escaped).
#[verifier::rlimit(40)]
pub fn process_slice(
    nal: &[u8],
    sps: &SpsInfo,
    pps: &PpsInfo,
    action: RpsAction<'_>,
) -> (res: Result<(SliceInfo, Option<Vec<u8>>), HevcError>)
    requires
        action.replacement() is Some && reaches_rps(nal@, sps@, *pps) ==> rps::encodable(
            action.replacement()->0,
        ),
    ensures
        match (res, processed(nal@, sps@, *pps, action.replacement())) {
            (Ok((info, out)), Ok((fields, bytes))) => {
                &&& info@ == fields
                &&& out is Some <==> bytes is Some
                &&& out is Some ==> out->0@ == bytes->0
            },
            (Err(e), Err(expected)) => e == expected,
            _ => false,
        },
{
    broadcast use {group_slice_moves, group_slice_failed};

    if nal.len() <= 2 {
        return Err(HevcError::SliceTooShort);
    }
    let nal_type: u8 = type_in_header(nal[0]);
    if nal_type >= 32 {
        return Err(HevcError::NotASlice);
    }
    let rbsp = unescape_rbsp(slice_subrange(nal, 2, nal.len()));
    let start = BitReader::new(rbsp.as_slice());
    let mut r: BitReader<'_> = start;
    assert(nal@.subrange(2, nal@.len() as int) =~= nal@.skip(2));
    let ghost syntax = slice_syntax(r.cursor(), nal_type, sps@, *pps, action.replacement());
    proof {
        lemma_alignment_failed(syntax.1);
        if action.replacement() is Some && syntax.1.ok() && syntax.0.poc_lsb is Some {
            reveal(slice_syntax);
            assert(reaches_rps(nal@, sps@, *pps));
        }
    }
    let parsed = parse_slice_header(&mut r, nal_type, sps, pps, action)?;
    match action {
        RpsAction::Inspect => Ok((parsed.info, None)),
        RpsAction::Replace(entries) => {
            // byte_alignment(): consume the source's alignment, emit our own, then
            // copy the (byte-aligned) slice payload verbatim.
            let end: BitReader<'_> = r;
            parse_alignment(&mut r)?;
            let num_sets: u32 = #[verifier::truncate] (sps.short_term_rps.len() as u32);
            let mut out_rbsp = put_slice_header(
                &parsed,
                start,
                end,
                num_sets,
                entries,
                Ghost(syntax.0),
            );
            let payload_at: usize = r.byte_index();
            out_rbsp.extend_from_slice(slice_subrange(rbsp.as_slice(), payload_at, rbsp.len()));
            assert(rbsp@.subrange(payload_at as int, rbsp@.len() as int) =~= rbsp@.skip(
                payload_at as int,
            ));

            let mut out: Vec<u8> = Vec::new();
            out.extend_from_slice(slice_subrange(nal, 0, 2));
            out.extend_from_slice(escape_rbsp(out_rbsp.as_slice()).as_slice());
            assert(nal@.subrange(0, 2) =~= nal@.take(2));
            assert(out@ =~= nal@.take(2) + emulation::escaped(out_rbsp@));
            proof {
                let header = rewritten_header(
                    bits::bits_of(rbsp@),
                    syntax.0,
                    sps@.short_term_rps.len() as u32,
                    entries@,
                );
                assert(alignment(syntax.1) == r.cursor());
                assert(out_rbsp@ =~= reassembled(rbsp@, header, r.pos()));
                assert(parsed.info@ =~= SliceFields {
                    poc_lsb: syntax.0.poc_lsb,
                    rps: syntax.0.rps.entries,
                });
            }
            Ok((parsed.info, Some(out)))
        },
    }
}

/// A failed cursor stays failed.
pub proof fn lemma_alignment_failed(c: Cursor)
    ensures
        !c.ok() ==> alignment(c) == c,
{
    lemma_zero_alignment_failed(c, padding(c.pos));
}

/// Parse a slice header without modifying it.
pub fn parse_slice(nal: &[u8], sps: &SpsInfo, pps: &PpsInfo) -> (res: Result<
    SliceInfo,
    HevcError,
>)
    ensures
        match (res, slice_of(nal@, sps@, *pps)) {
            (Ok(info), Ok(fields)) => info@ == fields,
            (Err(e), Err(expected)) => e == expected,
            _ => false,
        },
{
    let (info, _) = process_slice(nal, sps, pps, RpsAction::Inspect)?;
    Ok(info)
}

/// Rewrite a slice header's short-term RPS to exactly `entries` (in any
/// order; they are re-sorted per HEVC ordering rules), leaving every other
/// header field and the slice payload byte-for-byte intact. The RPS is always
/// re-emitted as an inline (non-SPS-indexed) set, which is semantically
/// equivalent.
pub fn rewrite_rps(
    nal: &[u8],
    sps: &SpsInfo,
    pps: &PpsInfo,
    entries: &[RpsEntry],
) -> (res: Result<Vec<u8>, HevcError>)
    requires
        reaches_rps(nal@, sps@, *pps) ==> rps::encodable(entries@),
    ensures
        match (res, rewritten(nal@, sps@, *pps, entries@)) {
            (Ok(out), Ok(bytes)) => out@ == bytes,
            (Err(e), Err(expected)) => e == expected,
            _ => false,
        },
{
    let (_, out) = process_slice(nal, sps, pps, RpsAction::Replace(entries))?;
    Ok(out.unwrap())
}

} // verus!
