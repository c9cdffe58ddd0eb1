//! The syntax of a PPS as an encoder writes it, field by field, and that parsing gives
//! the values back.

use super::bits::{self, Cursor};
use super::emulation;
use super::error::HevcError;
use super::headers::{self, PpsInfo};
use super::written::{self, Written};
use vstd::arithmetic::power2;
use vstd::prelude::*;

verus! {

broadcast use super::bits::group_failed;

/// Whether a signed Exp-Golomb code can hold a value.
pub open spec fn fits_se(v: int) -> bool {
    -0x7FFF_FFFF <= v <= 0x7FFF_FFFF
}

/// Whether an Exp-Golomb code can hold a value.
pub open spec fn fits_ue(v: nat) -> bool {
    v < u32::MAX
}

/// What a PPS says of the deblocking filter, if it says anything.
pub struct DeblockingControl {
    pub override_enabled: bool,
    /// `pps_beta_offset_div2` and `pps_tc_offset_div2`; `None` disables the filter.
    pub offsets: Option<(int, int)>,
}

/// The values of the fields of a PPS.
pub struct PpsSyntax {
    pub pic_parameter_set_id: nat,
    pub seq_parameter_set_id: nat,
    pub dependent_slice_segments_enabled: bool,
    pub output_flag_present: bool,
    pub num_extra_slice_header_bits: nat,
    pub sign_data_hiding_enabled: bool,
    pub cabac_init_present: bool,
    pub num_ref_idx_l0_default_active_minus1: nat,
    pub num_ref_idx_l1_default_active_minus1: nat,
    pub init_qp_minus26: int,
    pub constrained_intra_pred: bool,
    pub transform_skip_enabled: bool,
    /// `diff_cu_qp_delta_depth`, if `cu_qp_delta_enabled_flag` is set.
    pub diff_cu_qp_delta_depth: Option<nat>,
    pub cb_qp_offset: int,
    pub cr_qp_offset: int,
    pub slice_chroma_qp_offsets_present: bool,
    pub weighted_pred: bool,
    pub weighted_bipred: bool,
    pub transquant_bypass_enabled: bool,
    pub tiles_enabled: bool,
    pub entropy_coding_sync_enabled: bool,
    pub loop_filter_across_slices_enabled: bool,
    pub deblocking: Option<DeblockingControl>,
    pub scaling_list_data_present: bool,
    pub lists_modification_present: bool,
    pub log2_parallel_merge_level_minus2: nat,
    pub slice_segment_header_extension_present: bool,
}

impl PpsSyntax {
    /// Whether the fields can hold the values.
    pub open spec fn in_range(self) -> bool {
        &&& fits_ue(self.pic_parameter_set_id)
        &&& fits_ue(self.seq_parameter_set_id)
        &&& self.num_extra_slice_header_bits < 8
        &&& fits_ue(self.num_ref_idx_l0_default_active_minus1)
        &&& fits_ue(self.num_ref_idx_l1_default_active_minus1)
        &&& fits_se(self.init_qp_minus26)
        &&& self.diff_cu_qp_delta_depth is Some ==> fits_ue(self.diff_cu_qp_delta_depth->0)
        &&& fits_se(self.cb_qp_offset)
        &&& fits_se(self.cr_qp_offset)
        &&& self.deblocking matches Some(control) ==> match control.offsets {
            Some((beta, tc)) => fits_se(beta) && fits_se(tc),
            None => true,
        }
        &&& fits_ue(self.log2_parallel_merge_level_minus2)
    }

    /// Writes the fields up to the initial QP.
    pub open spec fn put_start(self, w: Written) -> Written {
        let w = w.ue(self.pic_parameter_set_id).ue(self.seq_parameter_set_id);
        let w = w.flag(self.dependent_slice_segments_enabled);
        let w = w.flag(self.output_flag_present);
        let w = w.u(3, self.num_extra_slice_header_bits);
        let w = w.flag(self.sign_data_hiding_enabled);
        let w = w.flag(self.cabac_init_present);
        let w = w.ue(self.num_ref_idx_l0_default_active_minus1);
        let w = w.ue(self.num_ref_idx_l1_default_active_minus1);
        w.se(self.init_qp_minus26)
    }

    /// Writes the fields up to the transquant bypass flag.
    pub open spec fn put_head(self, w: Written) -> Written {
        self.put_prediction(self.put_start(w))
    }

    /// Writes the fields from the intra prediction to the transquant bypass flag.
    pub open spec fn put_prediction(self, w: Written) -> Written {
        let w = w.flag(self.constrained_intra_pred);
        let w = w.flag(self.transform_skip_enabled);
        let w = w.flag(self.diff_cu_qp_delta_depth is Some);
        let w = match self.diff_cu_qp_delta_depth {
            Some(depth) => w.ue(depth),
            None => w,
        };
        let w = w.se(self.cb_qp_offset).se(self.cr_qp_offset);
        let w = w.flag(self.slice_chroma_qp_offsets_present);
        let w = w.flag(self.weighted_pred).flag(self.weighted_bipred);
        w.flag(self.transquant_bypass_enabled)
    }

    /// Writes the deblocking filter control.
    pub open spec fn put_deblocking(self, w: Written) -> Written {
        let w = w.flag(self.deblocking is Some);
        match self.deblocking {
            Some(control) => {
                let w = w.flag(control.override_enabled);
                let w = w.flag(control.offsets is None);
                match control.offsets {
                    Some((beta, tc)) => w.se(beta).se(tc),
                    None => w,
                }
            },
            None => w,
        }
    }

    /// Writes the fields from the tiles flag to the slice header extension flag. (What
    /// an enabled tiling or a scaling list adds is not written.)
    pub open spec fn put_tail(self, w: Written) -> Written {
        let w = w.flag(self.tiles_enabled);
        let w = w.flag(self.entropy_coding_sync_enabled);
        let w = w.flag(self.loop_filter_across_slices_enabled);
        let w = self.put_deblocking(w);
        let w = w.flag(self.scaling_list_data_present);
        let w = w.flag(self.lists_modification_present);
        let w = w.ue(self.log2_parallel_merge_level_minus2);
        w.flag(self.slice_segment_header_extension_present)
    }

    /// The PPS as it is written.
    pub open spec fn written(self) -> Written {
        self.put_tail(self.put_head(Written::nothing()))
    }

    /// What is reported of these values.
    pub open spec fn reported(self) -> PpsInfo {
        PpsInfo {
            dependent_slice_segments: self.dependent_slice_segments_enabled,
            output_flag_present: self.output_flag_present,
            num_extra_slice_header_bits: self.num_extra_slice_header_bits as u32,
            cabac_init_present: self.cabac_init_present,
            num_ref_idx_l0_default_minus1: self.num_ref_idx_l0_default_active_minus1 as u32,
            lists_modification_present: self.lists_modification_present,
            weighted_pred: self.weighted_pred,
            tiles: self.tiles_enabled,
            entropy_coding_sync: self.entropy_coding_sync_enabled,
            loop_filter_across_slices: self.loop_filter_across_slices_enabled,
            deblocking_filter_override_enabled: self.deblocking matches Some(control)
                && control.override_enabled,
            pps_deblocking_disabled: self.deblocking matches Some(control)
                && control.offsets is None,
            chroma_qp_offsets_present: self.slice_chroma_qp_offsets_present,
            slice_header_extension: self.slice_segment_header_extension_present,
        }
    }
}

/// The first part of a PPS reads back.
#[verifier::rlimit(40)]
proof fn lemma_head_reads(src: Seq<bool>, w: Written, s: PpsSyntax)
    requires
        s.in_range(),
        written::begins(src, s.put_head(w)),
    ensures
        written::begins(src, w),
        ({
            let (head, c) = headers::pps_head(written::behind(src, w));
            &&& c == written::behind(src, s.put_head(w))
            &&& head == PpsInfo {
                lists_modification_present: false,
                tiles: false,
                entropy_coding_sync: false,
                loop_filter_across_slices: false,
                deblocking_filter_override_enabled: false,
                pps_deblocking_disabled: false,
                slice_header_extension: false,
                ..s.reported()
            }
        }),
{
    broadcast use written::group_reads_back;

    power2::lemma2_to64();
}

/// The deblocking filter control reads back.
proof fn lemma_deblocking_reads(src: Seq<bool>, w: Written, s: PpsSyntax)
    requires
        s.in_range(),
        written::begins(src, s.put_deblocking(w)),
    ensures
        written::begins(src, w),
        headers::deblocking_control(written::behind(src, w)) == (
            (
                s.reported().deblocking_filter_override_enabled,
                s.reported().pps_deblocking_disabled,
            ),
            written::behind(src, s.put_deblocking(w)),
        ),
{
    broadcast use written::group_reads_back;

}

/// The last part of a PPS reads back.
#[verifier::rlimit(40)]
proof fn lemma_tail_reads(src: Seq<bool>, w: Written, s: PpsSyntax, head: PpsInfo)
    requires
        s.in_range(),
        written::begins(src, s.put_tail(w)),
    ensures
        written::begins(src, w),
        ({
            let (pps, c) = headers::pps_tail(written::behind(src, w), head);
            if s.tiles_enabled {
                c.err == Some(HevcError::TiledPps)
            } else if s.scaling_list_data_present {
                c.err == Some(HevcError::PpsScalingList)
            } else {
                &&& c == written::behind(src, s.put_tail(w))
                &&& pps == PpsInfo {
                    dependent_slice_segments: head.dependent_slice_segments,
                    output_flag_present: head.output_flag_present,
                    num_extra_slice_header_bits: head.num_extra_slice_header_bits,
                    cabac_init_present: head.cabac_init_present,
                    num_ref_idx_l0_default_minus1: head.num_ref_idx_l0_default_minus1,
                    weighted_pred: head.weighted_pred,
                    chroma_qp_offsets_present: head.chroma_qp_offsets_present,
                    ..s.reported()
                }
            }
        }),
{
    broadcast use written::group_reads_back;

    let w1 = w.flag(s.tiles_enabled).flag(s.entropy_coding_sync_enabled).flag(
        s.loop_filter_across_slices_enabled,
    );
    assert(written::begins(src, s.put_deblocking(w1)));
    lemma_deblocking_reads(src, w1, s);
}

/// Whatever values a PPS is written from, field by field, and whatever follows them:
/// parsing gives back each reported field's own value. Tiles and scaling lists are
/// refused.
pub proof fn law_written_pps_reads_back(s: PpsSyntax, header: Seq<u8>, rbsp: Seq<u8>)
    requires
        s.in_range(),
        header.len() == 2,
        written::begins(bits::bits_of(rbsp), s.written()),
    ensures
        headers::pps_of(header + emulation::escaped(rbsp)) == if s.tiles_enabled {
            Err(HevcError::TiledPps)
        } else if s.scaling_list_data_present {
            Err(HevcError::PpsScalingList)
        } else {
            Ok(s.reported())
        },
{
    broadcast use written::group_reads_back;

    let src = bits::bits_of(rbsp);
    let w = s.put_head(Written::nothing());
    let head = headers::pps_head(Cursor::start(src)).0;
    written::lemma_nothing(src);
    lemma_tail_reads(src, w, s, head);
    lemma_head_reads(src, Written::nothing(), s);
    written::lemma_unit(header, rbsp, s.put_tail(w));
}

/// The code point of the number that se(v) maps to a code point is that code point.
pub proof fn lemma_se_code(w: Written, k: nat)
    ensures
        w.se(bits::se_value(k)) == w.ue(k),
        k < u32::MAX ==> fits_se(bits::se_value(k)),
{
}

/// The cursor behind the initial QP.
spec fn behind_start(c: Cursor) -> Cursor {
    let c = c.skip_ue().skip_ue().skip_u(1).skip_u(1).skip_u(3).skip_u(1).skip_u(1);
    c.skip_ue().skip_ue().skip_ue()
}

/// The start of a PPS that parses was written from some values.
#[verifier::rlimit(40)]
proof fn lemma_start_spelled(src: Seq<bool>, w: Written) -> (t: PpsSyntax)
    requires
        written::begins(src, w),
        behind_start(written::behind(src, w)).ok(),
    ensures
        fits_ue(t.pic_parameter_set_id),
        fits_ue(t.seq_parameter_set_id),
        t.num_extra_slice_header_bits < 8,
        fits_ue(t.num_ref_idx_l0_default_active_minus1),
        fits_ue(t.num_ref_idx_l1_default_active_minus1),
        fits_se(t.init_qp_minus26),
        written::begins(src, t.put_start(w)),
        written::behind(src, t.put_start(w)) == behind_start(written::behind(src, w)),
{
    broadcast use written::group_spelled;

    power2::lemma2_to64();
    let c = written::behind(src, w);
    let (pic_id, c) = c.ue();
    let (seq_id, c) = c.ue();
    let (dependent, c) = c.flag();
    let (output, c) = c.flag();
    let w0 = w.ue(pic_id as nat).ue(seq_id as nat).flag(dependent).flag(output);
    written::lemma_u_spelled(src, w0, 3);
    let (extra, c) = c.u(3);
    let (hiding, c) = c.flag();
    let (cabac, c) = c.flag();
    let (l0, c) = c.ue();
    let (l1, c) = c.ue();
    let (qp, c) = c.ue();
    let w1 = w0.u(3, extra as nat).flag(hiding).flag(cabac).ue(l0 as nat).ue(l1 as nat);
    lemma_se_code(w1, qp as nat);
    PpsSyntax {
        pic_parameter_set_id: pic_id as nat,
        seq_parameter_set_id: seq_id as nat,
        dependent_slice_segments_enabled: dependent,
        output_flag_present: output,
        num_extra_slice_header_bits: extra as nat,
        sign_data_hiding_enabled: hiding,
        cabac_init_present: cabac,
        num_ref_idx_l0_default_active_minus1: l0 as nat,
        num_ref_idx_l1_default_active_minus1: l1 as nat,
        init_qp_minus26: bits::se_value(qp as nat),
        ..arbitrary()
    }
}

/// The cursor behind the transquant bypass flag, from behind the initial QP on.
spec fn behind_prediction(c: Cursor) -> Cursor {
    let c = c.skip_u(1).skip_u(1);
    let (cu_qp, c) = c.flag();
    let c = if cu_qp {
        c.skip_ue()
    } else {
        c
    };
    c.skip_ue().skip_ue().skip_u(1).skip_u(1).skip_u(1).skip_u(1)
}

/// The fields from the intra prediction on, if they parse, were written from some values.
#[verifier::rlimit(40)]
proof fn lemma_prediction_spelled(src: Seq<bool>, w: Written) -> (t: PpsSyntax)
    requires
        written::begins(src, w),
        behind_prediction(written::behind(src, w)).ok(),
    ensures
        t.diff_cu_qp_delta_depth is Some ==> fits_ue(t.diff_cu_qp_delta_depth->0),
        fits_se(t.cb_qp_offset),
        fits_se(t.cr_qp_offset),
        written::begins(src, t.put_prediction(w)),
        written::behind(src, t.put_prediction(w)) == behind_prediction(written::behind(src, w)),
{
    broadcast use written::group_spelled;

    let c1 = written::behind(src, w);
    let (intra, c2) = c1.flag();
    let (skip, c3) = c2.flag();
    let (cu_qp, c4) = c3.flag();
    let (depth, c5) = if cu_qp {
        c4.ue()
    } else {
        (0u32, c4)
    };
    let (cb, c6) = c5.ue();
    let (cr, c7) = c6.ue();
    let (chroma, c8) = c7.flag();
    let (weighted, c9) = c8.flag();
    let (bipred, c10) = c9.flag();
    let (bypass, c11) = c10.flag();
    assert(c11 == behind_prediction(c1));
    assert(c5.ok() && c4.ok());
    let w2 = w.flag(intra).flag(skip).flag(cu_qp);
    let w3 = if cu_qp {
        w2.ue(depth as nat)
    } else {
        w2
    };
    assert(written::begins(src, w3) && written::behind(src, w3) == c5);
    lemma_se_code(w3, cb as nat);
    let w4 = w3.se(bits::se_value(cb as nat));
    lemma_se_code(w4, cr as nat);
    PpsSyntax {
        constrained_intra_pred: intra,
        transform_skip_enabled: skip,
        diff_cu_qp_delta_depth: if cu_qp {
            Some(depth as nat)
        } else {
            None
        },
        cb_qp_offset: bits::se_value(cb as nat),
        cr_qp_offset: bits::se_value(cr as nat),
        slice_chroma_qp_offsets_present: chroma,
        weighted_pred: weighted,
        weighted_bipred: bipred,
        transquant_bypass_enabled: bypass,
        ..arbitrary()
    }
}

/// The first part of a PPS that parses was written from some values; the others are as
/// in `s`.
proof fn lemma_head_spelled(src: Seq<bool>, w: Written, s: PpsSyntax) -> (t: PpsSyntax)
    requires
        written::begins(src, w),
        headers::pps_head(written::behind(src, w)).1.ok(),
        s.in_range(),
    ensures
        t.in_range(),
        written::begins(src, t.put_head(w)),
        written::behind(src, t.put_head(w)) == headers::pps_head(written::behind(src, w)).1,
{
    let c = written::behind(src, w);
    let end = behind_prediction(behind_start(c));
    assert(end == headers::pps_head(c).1);
    assert(behind_start(c).ok());
    let a = lemma_start_spelled(src, w);
    let w1 = a.put_start(w);
    let b = lemma_prediction_spelled(src, w1);
    let t = PpsSyntax {
        pic_parameter_set_id: a.pic_parameter_set_id,
        seq_parameter_set_id: a.seq_parameter_set_id,
        dependent_slice_segments_enabled: a.dependent_slice_segments_enabled,
        output_flag_present: a.output_flag_present,
        num_extra_slice_header_bits: a.num_extra_slice_header_bits,
        sign_data_hiding_enabled: a.sign_data_hiding_enabled,
        cabac_init_present: a.cabac_init_present,
        num_ref_idx_l0_default_active_minus1: a.num_ref_idx_l0_default_active_minus1,
        num_ref_idx_l1_default_active_minus1: a.num_ref_idx_l1_default_active_minus1,
        init_qp_minus26: a.init_qp_minus26,
        constrained_intra_pred: b.constrained_intra_pred,
        transform_skip_enabled: b.transform_skip_enabled,
        diff_cu_qp_delta_depth: b.diff_cu_qp_delta_depth,
        cb_qp_offset: b.cb_qp_offset,
        cr_qp_offset: b.cr_qp_offset,
        slice_chroma_qp_offsets_present: b.slice_chroma_qp_offsets_present,
        weighted_pred: b.weighted_pred,
        weighted_bipred: b.weighted_bipred,
        transquant_bypass_enabled: b.transquant_bypass_enabled,
        ..s
    };
    assert(t.put_start(w) == w1);
    assert(t.put_prediction(w1) == b.put_prediction(w1));
    t
}

/// The last part of a PPS that parses was written from some values; the others are as
/// in `s`.
#[verifier::rlimit(40)]
proof fn lemma_tail_spelled(src: Seq<bool>, w: Written, s: PpsSyntax, head: PpsInfo) -> (t:
    PpsSyntax)
    requires
        written::begins(src, w),
        headers::pps_tail(written::behind(src, w), head).1.ok(),
        s.in_range(),
    ensures
        t.in_range(),
        !t.tiles_enabled,
        !t.scaling_list_data_present,
        written::begins(src, t.put_tail(w)),
        t == (PpsSyntax {
            tiles_enabled: t.tiles_enabled,
            entropy_coding_sync_enabled: t.entropy_coding_sync_enabled,
            loop_filter_across_slices_enabled: t.loop_filter_across_slices_enabled,
            deblocking: t.deblocking,
            scaling_list_data_present: t.scaling_list_data_present,
            lists_modification_present: t.lists_modification_present,
            log2_parallel_merge_level_minus2: t.log2_parallel_merge_level_minus2,
            slice_segment_header_extension_present: t.slice_segment_header_extension_present,
            ..s
        }),
{
    broadcast use written::group_spelled;

    let c = written::behind(src, w);
    let (tiles, c) = c.flag();
    let (sync, c) = c.flag();
    let (filter, c) = c.flag();
    let (present, c) = c.flag();
    let (enabled, c) = if present {
        c.flag()
    } else {
        (false, c)
    };
    let (disabled, c) = if present {
        c.flag()
    } else {
        (false, c)
    };
    let (beta, c) = if present && !disabled {
        c.ue()
    } else {
        (0u32, c)
    };
    let (tc, c) = if present && !disabled {
        c.ue()
    } else {
        (0u32, c)
    };
    let (scaling, c) = c.flag();
    let (lists, c) = c.flag();
    let (merge, c) = c.ue();
    let (extension, c) = c.flag();
    let t = PpsSyntax {
        tiles_enabled: tiles,
        entropy_coding_sync_enabled: sync,
        loop_filter_across_slices_enabled: filter,
        deblocking: if present {
            Some(
                DeblockingControl {
                    override_enabled: enabled,
                    offsets: if disabled {
                        None
                    } else {
                        Some((bits::se_value(beta as nat), bits::se_value(tc as nat)))
                    },
                },
            )
        } else {
            None
        },
        scaling_list_data_present: scaling,
        lists_modification_present: lists,
        log2_parallel_merge_level_minus2: merge as nat,
        slice_segment_header_extension_present: extension,
        ..s
    };
    let w1 = w.flag(tiles).flag(sync).flag(filter).flag(present);
    if present && !disabled {
        let w2 = w1.flag(enabled).flag(disabled);
        lemma_se_code(w2, beta as nat);
        lemma_se_code(w2.se(bits::se_value(beta as nat)), tc as nat);
    }
    t
}

/// Nothing else parses: every PPS that does begins with what is written from some values,
/// without tiles and scaling lists, and these values are reported.
pub proof fn law_parsed_pps_was_written(nal: Seq<u8>) -> (s: PpsSyntax)
    requires
        headers::pps_of(nal) is Ok,
    ensures
        s.in_range(),
        !s.tiles_enabled,
        !s.scaling_list_data_present,
        written::begins(headers::payload_bits(nal), s.written()),
        headers::pps_of(nal) == Ok::<PpsInfo, HevcError>(s.reported()),
{
    let src = headers::payload_bits(nal);
    let blank = PpsSyntax {
        pic_parameter_set_id: 0,
        seq_parameter_set_id: 0,
        dependent_slice_segments_enabled: false,
        output_flag_present: false,
        num_extra_slice_header_bits: 0,
        sign_data_hiding_enabled: false,
        cabac_init_present: false,
        num_ref_idx_l0_default_active_minus1: 0,
        num_ref_idx_l1_default_active_minus1: 0,
        init_qp_minus26: 0,
        constrained_intra_pred: false,
        transform_skip_enabled: false,
        diff_cu_qp_delta_depth: None,
        cb_qp_offset: 0,
        cr_qp_offset: 0,
        slice_chroma_qp_offsets_present: false,
        weighted_pred: false,
        weighted_bipred: false,
        transquant_bypass_enabled: false,
        tiles_enabled: false,
        entropy_coding_sync_enabled: false,
        loop_filter_across_slices_enabled: false,
        deblocking: None,
        scaling_list_data_present: false,
        lists_modification_present: false,
        log2_parallel_merge_level_minus2: 0,
        slice_segment_header_extension_present: false,
    };
    written::lemma_nothing(src);
    let nothing = Written::nothing();
    let (head, c) = headers::pps_head(Cursor::start(src));
    assert(c.ok());
    let t = lemma_head_spelled(src, nothing, blank);
    let s = lemma_tail_spelled(src, t.put_head(nothing), t, head);
    assert(s.put_head(nothing) == t.put_head(nothing));
    lemma_tail_reads(src, s.put_head(nothing), s, head);
    lemma_head_reads(src, nothing, s);
    s
}

} // verus!
