//! That only what an encoder can write parses as a slice header: every header that is
//! read was written from some values.

use super::bits::{self, Cursor};
use super::bitstream;
use super::emulation;
use super::headers::{self, PpsInfo, SpsFields};
use super::pps_syntax;
use super::rps;
use super::set_syntax::{self, StRefPicSet};
use super::slice;
use super::slice_laws;
use super::slice_values::{self, ShortTerm, SliceHeader};
use super::written::{self, Written};
use vstd::arithmetic::power2;
use vstd::prelude::*;

verus! {

broadcast use super::bits::group_failed;

/// Flags behind another one are written alike behind it and alone.
proof fn lemma_flags_shift(w: Written, first: bool, rest: Seq<bool>, i: int)
    requires
        0 <= i <= rest.len(),
    ensures
        slice_values::put_flags(w, seq![first] + rest, i + 1) == slice_values::put_flags(
            w,
            rest,
            i,
        ),
    decreases rest.len() - i,
{
    if i < rest.len() {
        assert((seq![first] + rest)[i + 1] == rest[i]);
        lemma_flags_shift(w.flag(rest[i]), first, rest, i + 1);
    }
}

/// Flags that were skipped were written.
proof fn lemma_flags_spelled(src: Seq<bool>, w: Written, n: nat) -> (flags: Seq<bool>)
    requires
        written::begins(src, w),
        written::behind(src, w).skip_u_times(1, n).ok(),
    ensures
        flags.len() == n,
        written::begins(src, slice_values::put_flags(w, flags, 0)),
        written::behind(src, slice_values::put_flags(w, flags, 0)) == written::behind(
            src,
            w,
        ).skip_u_times(1, n),
    decreases n,
{
    broadcast use written::group_spelled;

    if n == 0 {
        Seq::empty()
    } else {
        let (first, c1) = written::behind(src, w).flag();
        bits::lemma_skip_u_times_failed(c1, 1, (n - 1) as nat);
        assert(c1.ok());
        let rest = lemma_flags_spelled(src, w.flag(first), (n - 1) as nat);
        lemma_flags_shift(w.flag(first), first, rest, 0);
        seq![first] + rest
    }
}

/// Numbers behind another one are written alike behind it and alone.
proof fn lemma_numbers_shift(w: Written, n: u32, first: nat, rest: Seq<nat>, i: int)
    requires
        0 <= i <= rest.len(),
    ensures
        slice_values::put_numbers(w, n, seq![first] + rest, i + 1) == slice_values::put_numbers(
            w,
            n,
            rest,
            i,
        ),
    decreases rest.len() - i,
{
    if i < rest.len() {
        assert((seq![first] + rest)[i + 1] == rest[i]);
        lemma_numbers_shift(w.u(n, rest[i]), n, first, rest, i + 1);
    }
}

/// Numbers that were skipped were written.
proof fn lemma_numbers_spelled(src: Seq<bool>, w: Written, n: u32, count: nat) -> (numbers: Seq<
    nat,
>)
    requires
        written::begins(src, w),
        written::behind(src, w).skip_u_times(n, count).ok(),
    ensures
        numbers.len() == count,
        written::begins(src, slice_values::put_numbers(w, n, numbers, 0)),
        written::behind(src, slice_values::put_numbers(w, n, numbers, 0)) == written::behind(
            src,
            w,
        ).skip_u_times(n, count),
    decreases count,
{
    if count == 0 {
        Seq::empty()
    } else {
        let (v, c1) = written::behind(src, w).u(n);
        bits::lemma_skip_u_times_failed(c1, n, (count - 1) as nat);
        assert(c1.ok());
        written::lemma_u_spelled(src, w, n);
        let first = v as nat;
        let rest = lemma_numbers_spelled(src, w.u(n, first), n, (count - 1) as nat);
        lemma_numbers_shift(w.u(n, first), n, first, rest, 0);
        seq![first] + rest
    }
}

/// This part of a header that was read was written.
#[verifier::rlimit(40)]
proof fn lemma_prefix_spelled(
    src: Seq<bool>,
    w: Written,
    nal_type: u8,
    sps: SpsFields,
    pps: PpsInfo,
) -> (t: SliceHeader)
    requires
        written::begins(src, w),
        slice::slice_prefix(written::behind(src, w), nal_type, sps, pps).1.ok(),
    ensures
        !pps.dependent_slice_segments,
        pps_syntax::fits_ue(t.pic_parameter_set_id),
        t.reserved_flags.len() == pps.num_extra_slice_header_bits,
        t.colour_plane_id < 4,
        t.predicted == slice::slice_prefix(written::behind(src, w), nal_type, sps, pps).0,
        written::begins(src, t.put_prefix(w, nal_type, sps, pps)),
        written::behind(src, t.put_prefix(w, nal_type, sps, pps)) == slice::slice_prefix(
            written::behind(src, w),
            nal_type,
            sps,
            pps,
        ).1,
{
    broadcast use written::group_spelled;

    power2::lemma2_to64();
    let c = written::behind(src, w);
    let (first, c1) = c.flag();
    let irap = 16 <= nal_type <= 23;
    let (no_output, c2) = if irap {
        c1.flag()
    } else {
        (false, c1)
    };
    let (id, c3) = c2.ue();
    let w1 = w.flag(first);
    let w2 = if irap {
        w1.flag(no_output)
    } else {
        w1
    };
    let w3 = w2.ue(id as nat);
    let extra = pps.num_extra_slice_header_bits as nat;
    let c4 = c3.skip_u_times(1, extra);
    assert(c4.ok() && c3.ok() && c2.ok() && c1.ok());
    assert(first && !pps.dependent_slice_segments);
    assert(written::begins(src, w3) && written::behind(src, w3) == c3);
    let flags = lemma_flags_spelled(src, w3, extra);
    let w4 = slice_values::put_flags(w3, flags, 0);
    let (slice_type, c5) = c4.ue();
    assert(c5.ok());
    let w5 = w4.ue(slice_type as nat);
    let (output, c6) = if pps.output_flag_present {
        c5.flag()
    } else {
        (false, c5)
    };
    let w6 = if pps.output_flag_present {
        w5.flag(output)
    } else {
        w5
    };
    assert(written::begins(src, w6) && written::behind(src, w6) == c6);
    let plane = if sps.separate_colour_plane {
        c6.u(2).0
    } else {
        0
    };
    if sps.separate_colour_plane {
        written::lemma_u_spelled(src, w6, 2);
    }
    SliceHeader {
        no_output_of_prior_pics: no_output,
        pic_parameter_set_id: id as nat,
        reserved_flags: flags,
        predicted: slice_type == 1,
        pic_output: output,
        colour_plane_id: plane as nat,
        ..arbitrary()
    }
}

/// Short-term references that were read were written.
#[verifier::rlimit(40)]
proof fn lemma_short_term_spelled(src: Seq<bool>, w: Written, sps: SpsFields) -> (t: SliceHeader)
    requires
        slice_values::plausible(sps),
        written::begins(src, w),
        slice::slice_rps(written::behind(src, w), sps.short_term_rps).1.ok(),
    ensures
        match t.short_term {
            ShortTerm::Candidate { idx } => idx < sps.short_term_rps.len(),
            ShortTerm::Own { set } => set.coded(),
        },
        ({
            let n = sps.short_term_rps.len();
            let (read, c) = slice::slice_rps(written::behind(src, w), sps.short_term_rps);
            &&& written::begins(src, t.put_short_term(w, n))
            &&& written::behind(src, t.put_short_term(w, n)) == c
            &&& slice_values::several_used(t.entries(sps)) <==> rps::used_count(read.entries)
                as u32 > 1
        }),
{
    broadcast use written::group_spelled;
    broadcast use rps::lemma_direct_st_rps_failed;

    let n = sps.short_term_rps.len();
    let c = written::behind(src, w);
    let (read, end) = slice::slice_rps(c, sps.short_term_rps);
    let (chosen, c1) = c.flag();
    assert(c1.ok());
    let t = if chosen {
        let w1 = w.flag(true);
        let idx = if n > 1 {
            slice_values::lemma_ceil_log2(n);
            written::lemma_u_spelled(src, w1, slice_values::ceil_log2(n) as u32);
            c1.u(slice_values::ceil_log2(n) as u32).0 as nat
        } else {
            0
        };
        SliceHeader { short_term: ShortTerm::Candidate { idx }, ..arbitrary() }
    } else {
        let w1 = w.flag(false);
        let (predicted, c2) = if n > 0 {
            c1.flag()
        } else {
            (false, c1)
        };
        let w2 = if n > 0 {
            w1.flag(predicted)
        } else {
            w1
        };
        assert(c2.ok() && !predicted);
        assert(written::begins(src, w2) && written::behind(src, w2) == c2);
        let set = set_syntax::lemma_set_spelled(src, w2);
        SliceHeader { short_term: ShortTerm::Own { set }, ..arbitrary() }
    };
    let named = t.entries(sps);
    assert(named.len() == read.entries.len());
    assert forall|k: int| 0 <= k < named.len() implies (#[trigger] named[k]).used
        == read.entries[k].used by {
        if !chosen {
            assert(read.entries[k].used == named[k].used);
        }
    }
    lemma_same_use(named, read.entries);
    slice_values::lemma_several_used(read.entries);
    t
}

/// Whether several entries are used depends on the flags alone.
proof fn lemma_same_use(a: Seq<rps::RpsEntry>, b: Seq<rps::RpsEntry>)
    requires
        a.len() == b.len(),
        forall|k: int| 0 <= k < a.len() ==> (#[trigger] a[k]).used == b[k].used,
    ensures
        slice_values::several_used(a) == slice_values::several_used(b),
{
    if slice_values::several_used(a) {
        let (i, j) = choose|i: int, j: int|
            0 <= i < j < a.len() && (#[trigger] a[i]).used && (#[trigger] a[j]).used;
        assert(b[i].used && b[j].used);
    }
    if slice_values::several_used(b) {
        let (i, j) = choose|i: int, j: int|
            0 <= i < j < b.len() && (#[trigger] b[i]).used && (#[trigger] b[j]).used;
        assert(a[i].used && a[j].used);
    }
}

/// What was read behind the short-term references was written.
proof fn lemma_long_term_spelled(src: Seq<bool>, w: Written, sps: SpsFields) -> (t: SliceHeader)
    requires
        written::begins(src, w),
        slice::slice_long_term(written::behind(src, w), sps).ok(),
    ensures
        written::begins(src, t.put_long_term(w, sps)),
        written::behind(src, t.put_long_term(w, sps)) == slice::slice_long_term(
            written::behind(src, w),
            sps,
        ),
{
    broadcast use written::group_spelled;

    let c = written::behind(src, w);
    let present = sps.long_term_ref_pics_present;
    let (num_sps, c1) = if present && sps.num_long_term_ref_pics_sps > 0 {
        c.ue()
    } else {
        (0u32, c)
    };
    let (num_pics, c2) = if present {
        c1.ue()
    } else {
        (0u32, c1)
    };
    assert(c2.ok() && c1.ok() && num_sps == 0 && num_pics == 0);
    let mvp = c2.flag().0;
    SliceHeader { temporal_mvp_enabled: mvp, ..arbitrary() }
}

/// What a P slice says of its prediction, if it was read, was written.
proof fn lemma_prediction_spelled(
    src: Seq<bool>,
    w: Written,
    pps: PpsInfo,
    active_refs_minus1: u32,
) -> (t: SliceHeader)
    requires
        written::begins(src, w),
        slice::slice_prediction(written::behind(src, w), pps, active_refs_minus1).ok(),
    ensures
        active_refs_minus1 == 0,
        !pps.weighted_pred,
        pps_syntax::fits_ue(t.five_minus_max_num_merge_cand),
        written::begins(src, t.put_prediction(w, pps)),
        written::behind(src, t.put_prediction(w, pps)) == slice::slice_prediction(
            written::behind(src, w),
            pps,
            active_refs_minus1,
        ),
{
    broadcast use written::group_spelled;

    let c = written::behind(src, w);
    let (init, c1) = if pps.cabac_init_present {
        c.flag()
    } else {
        (false, c)
    };
    let (merge, c2) = c1.ue();
    SliceHeader { cabac_init: init, five_minus_max_num_merge_cand: merge as nat, ..arbitrary() }
}

/// QP deltas that were read were written.
proof fn lemma_qp_spelled(src: Seq<bool>, w: Written, pps: PpsInfo) -> (t: SliceHeader)
    requires
        written::begins(src, w),
        slice::slice_qp(written::behind(src, w), pps).ok(),
    ensures
        pps_syntax::fits_se(t.qp_delta),
        pps_syntax::fits_se(t.cb_qp_offset),
        pps_syntax::fits_se(t.cr_qp_offset),
        written::begins(src, t.put_qp(w, pps)),
        written::behind(src, t.put_qp(w, pps)) == slice::slice_qp(written::behind(src, w), pps),
{
    broadcast use written::group_spelled;

    let c = written::behind(src, w);
    let (qp, c1) = c.ue();
    assert(c1.ok());
    let (cb, c2) = if pps.chroma_qp_offsets_present {
        c1.ue()
    } else {
        (0u32, c1)
    };
    let (cr, c3) = if pps.chroma_qp_offsets_present {
        c2.ue()
    } else {
        (0u32, c2)
    };
    assert(c3.ok() && c2.ok());
    pps_syntax::lemma_se_code(w, qp as nat);
    let w1 = w.se(bits::se_value(qp as nat));
    pps_syntax::lemma_se_code(w1, cb as nat);
    pps_syntax::lemma_se_code(w1.se(bits::se_value(cb as nat)), cr as nat);
    SliceHeader {
        qp_delta: bits::se_value(qp as nat),
        cb_qp_offset: bits::se_value(cb as nat),
        cr_qp_offset: bits::se_value(cr as nat),
        ..arbitrary()
    }
}

/// A deblocking filter override that was read was written.
proof fn lemma_deblocking_spelled(src: Seq<bool>, w: Written, pps: PpsInfo) -> (t: SliceHeader)
    requires
        written::begins(src, w),
        slice::slice_deblocking(written::behind(src, w), pps).1.ok(),
    ensures
        t.deblocking_override matches Some(offsets) ==> match offsets {
            Some((beta, tc)) => pps_syntax::fits_se(beta) && pps_syntax::fits_se(tc),
            None => true,
        },
        written::begins(src, t.put_deblocking(w, pps)),
        slice::slice_deblocking(written::behind(src, w), pps) == (
            t.deblocking_disabled(pps),
            written::behind(src, t.put_deblocking(w, pps)),
        ),
{
    broadcast use written::group_spelled;

    let c = written::behind(src, w);
    if !pps.deblocking_filter_override_enabled {
        SliceHeader { deblocking_override: None, ..arbitrary() }
    } else {
        let (overridden, c1) = c.flag();
        assert(c1.ok());
        if !overridden {
            SliceHeader { deblocking_override: None, ..arbitrary() }
        } else {
            let (disabled, c2) = c1.flag();
            assert(c2.ok());
            if disabled {
                SliceHeader { deblocking_override: Some(None), ..arbitrary() }
            } else {
                let (beta, c3) = c2.ue();
                assert(c3.ok());
                let (tc, c4) = c3.ue();
                let w1 = w.flag(true).flag(false);
                pps_syntax::lemma_se_code(w1, beta as nat);
                pps_syntax::lemma_se_code(w1.se(bits::se_value(beta as nat)), tc as nat);
                SliceHeader {
                    deblocking_override: Some(
                        Some((bits::se_value(beta as nat), bits::se_value(tc as nat))),
                    ),
                    ..arbitrary()
                }
            }
        }
    }
}

/// Entry points that were read were written.
proof fn lemma_entry_points_spelled(src: Seq<bool>, w: Written, pps: PpsInfo) -> (t: SliceHeader)
    requires
        written::begins(src, w),
        slice::slice_entry_points(written::behind(src, w), pps).ok(),
    ensures
        t.offset_len_minus1 < 32,
        t.entry_points.len() < u32::MAX,
        written::begins(src, t.put_entry_points(w, pps)),
        written::behind(src, t.put_entry_points(w, pps)) == slice::slice_entry_points(
            written::behind(src, w),
            pps,
        ),
{
    broadcast use written::group_spelled;

    let c = written::behind(src, w);
    if pps.tiles || pps.entropy_coding_sync {
        let (count, c1) = c.ue();
        assert(c1.ok());
        if count > 0 {
            let (len_minus1, c2) = c1.ue();
            assert(c2.ok() && len_minus1 < 32);
            let w1 = w.ue(count as nat).ue(len_minus1 as nat);
            let points = lemma_numbers_spelled(src, w1, (len_minus1 + 1) as u32, count as nat);
            SliceHeader {
                offset_len_minus1: len_minus1 as nat,
                entry_points: points,
                ..arbitrary()
            }
        } else {
            SliceHeader { offset_len_minus1: 0, entry_points: Seq::empty(), ..arbitrary() }
        }
    } else {
        SliceHeader { offset_len_minus1: 0, entry_points: Seq::empty(), ..arbitrary() }
    }
}

/// What a P slice says in front of the QP deltas, if it was read, was written.
#[verifier::rlimit(40)]
proof fn lemma_p_part_spelled(
    src: Seq<bool>,
    w: Written,
    nal_type: u8,
    sps: SpsFields,
    pps: PpsInfo,
    short_term: ShortTerm,
    src_total: u32,
    out_total: u32,
) -> (t: SliceHeader)
    requires
        written::begins(src, w),
        slice::slice_p_part(written::behind(src, w), pps, true, src_total, out_total).1.ok(),
        ({
            let h = SliceHeader { short_term, ..arbitrary() };
            src_total > 1 <==> !slice_values::is_idr_type(nal_type) && slice_values::several_used(
                h.entries(sps),
            )
        }),
    ensures
        t.predicted,
        t.short_term == short_term,
        !pps.weighted_pred,
        !t.num_ref_idx_active_override ==> pps.num_ref_idx_l0_default_minus1 == 0,
        pps_syntax::fits_ue(t.five_minus_max_num_merge_cand),
        ({
            let w1 = t.put_list(t.put_active(w), nal_type, sps, pps);
            let c = slice::slice_p_part(
                written::behind(src, w),
                pps,
                true,
                src_total,
                out_total,
            ).1;
            &&& written::begins(src, t.put_prediction(w1, pps))
            &&& written::behind(src, t.put_prediction(w1, pps)) == c
        }),
{
    broadcast use written::group_spelled;
    broadcast use slice::group_slice_failed;

    let c = written::behind(src, w);
    let (overridden, c1) = c.flag();
    let (active, c2) = slice::slice_active_refs(c, pps);
    let c3 = slice::slice_list_modification(c2, pps, src_total, out_total);
    assert(c3.ok() && c2.ok() && c1.ok());
    let w1 = if overridden {
        w.flag(true).ue(active as nat)
    } else {
        w.flag(false)
    };
    assert(written::begins(src, w1) && written::behind(src, w1) == c2);
    let w2 = if pps.lists_modification_present && src_total > 1 {
        w1.flag(false)
    } else {
        w1
    };
    assert(written::begins(src, w2) && written::behind(src, w2) == c3);
    let p = lemma_prediction_spelled(src, w2, pps, active);
    let t = SliceHeader {
        predicted: true,
        short_term,
        num_ref_idx_active_override: overridden,
        cabac_init: p.cabac_init,
        five_minus_max_num_merge_cand: p.five_minus_max_num_merge_cand,
        ..arbitrary()
    };
    assert(t.put_active(w) == w1);
    assert(t.put_list(w1, nal_type, sps, pps) == w2);
    assert(t.put_prediction(w2, pps) == p.put_prediction(w2, pps));
    t
}

/// The end of a header, if it was read, was written.
#[verifier::rlimit(40)]
proof fn lemma_tail_spelled(
    src: Seq<bool>,
    w: Written,
    sps: SpsFields,
    pps: PpsInfo,
    sao_luma: bool,
    sao_chroma: bool,
) -> (t: SliceHeader)
    requires
        written::begins(src, w),
        slice::slice_tail(
            written::behind(src, w),
            pps,
            sps.sao && (sao_luma || sao_chroma),
        ).ok(),
    ensures
        !pps.slice_header_extension,
        t.sao_luma == sao_luma,
        t.sao_chroma == sao_chroma,
        pps_syntax::fits_se(t.qp_delta),
        pps_syntax::fits_se(t.cb_qp_offset),
        pps_syntax::fits_se(t.cr_qp_offset),
        t.deblocking_override matches Some(offsets) ==> match offsets {
            Some((beta, tc)) => pps_syntax::fits_se(beta) && pps_syntax::fits_se(tc),
            None => true,
        },
        t.offset_len_minus1 < 32,
        t.entry_points.len() < u32::MAX,
        ({
            let w1 = t.put_deblocking(t.put_qp(w, pps), pps);
            let w2 = t.put_entry_points(t.put_loop_filter(w1, sps, pps), pps);
            let sao = sps.sao && (sao_luma || sao_chroma);
            &&& written::begins(src, w2)
            &&& written::behind(src, w2) == slice::slice_tail(written::behind(src, w), pps, sao)
        }),
{
    broadcast use written::group_spelled;
    broadcast use slice::group_slice_failed;

    let sao = sps.sao && (sao_luma || sao_chroma);
    let c = written::behind(src, w);
    let c1 = slice::slice_qp(c, pps);
    let (disabled, c2) = slice::slice_deblocking(c1, pps);
    let filtered = pps.loop_filter_across_slices && (sao || !disabled);
    let (filter, c3) = if filtered {
        c2.flag()
    } else {
        (false, c2)
    };
    let c4 = slice::slice_entry_points(c3, pps);
    assert(c4.ok() && c3.ok() && c2.ok() && c1.ok());
    let a = lemma_qp_spelled(src, w, pps);
    let w1 = a.put_qp(w, pps);
    let b = lemma_deblocking_spelled(src, w1, pps);
    let w2 = b.put_deblocking(w1, pps);
    let w3 = if filtered {
        w2.flag(filter)
    } else {
        w2
    };
    assert(written::begins(src, w3) && written::behind(src, w3) == c3);
    let e = lemma_entry_points_spelled(src, w3, pps);
    let t = SliceHeader {
        sao_luma,
        sao_chroma,
        qp_delta: a.qp_delta,
        cb_qp_offset: a.cb_qp_offset,
        cr_qp_offset: a.cr_qp_offset,
        deblocking_override: b.deblocking_override,
        loop_filter_across_slices_enabled: filter,
        offset_len_minus1: e.offset_len_minus1,
        entry_points: e.entry_points,
        ..arbitrary()
    };
    assert(t.put_qp(w, pps) == w1);
    assert(t.put_deblocking(w1, pps) == w2);
    assert(t.deblocking_disabled(pps) == disabled);
    assert(t.put_loop_filter(w2, sps, pps) == w3);
    assert(t.put_entry_points(w3, pps) == e.put_entry_points(w3, pps));
    t
}

/// A slice that parses was written, and ends where it was read up to.
#[verifier::rlimit(60)]
proof fn lemma_slice_spelled(nal: Seq<u8>, sps: SpsFields, pps: PpsInfo) -> (h: SliceHeader)
    requires
        slice_values::plausible(sps),
        slice::slice_of(nal, sps, pps) is Ok,
    ensures
        nal.len() > 2,
        ({
            let nal_type = (nal[0] / 2) % 64;
            &&& nal_type < 32
            &&& h.coded(sps, pps)
            &&& slice_values::supported(h, sps, pps)
            &&& written::begins(headers::payload_bits(nal), h.written(nal_type, sps, pps))
            &&& slice::slice_of(nal, sps, pps)->Ok_0.poc_lsb == if slice_values::is_idr_type(
                nal_type,
            ) {
                None
            } else {
                Some(h.pic_order_cnt_lsb as u32)
            }
            &&& slice::slice_syntax(
                Cursor::start(headers::payload_bits(nal)),
                nal_type,
                sps,
                pps,
                None,
            ).1.pos == h.written(nal_type, sps, pps).bits.len()
        }),
{
    broadcast use written::group_spelled;
    broadcast use slice::group_slice_failed;

    reveal(slice::slice_syntax);
    let nal_type = bitstream::header_type(nal[0]);
    let idr = slice_values::is_idr_type(nal_type);
    let src = headers::payload_bits(nal);
    let nothing = Written::nothing();
    written::lemma_nothing(src);
    let c = Cursor::start(src);
    let (is_p, c1) = slice::slice_prefix(c, nal_type, sps, pps);
    let (refs, c2) = slice::slice_refs(c1, nal_type, sps);
    let (sao, c3) = slice::slice_sao(c2, sps);
    let src_total = rps::used_count(refs.rps.entries) as u32;
    let out_total = slice::out_total(refs, None);
    let (_, c4) = slice::slice_p_part(c3, pps, is_p, src_total, out_total);
    let c5 = slice::slice_tail(c4, pps, sao);
    assert(c5.ok() && c4.ok() && c3.ok() && c2.ok() && c1.ok());
    let a = lemma_prefix_spelled(src, nothing, nal_type, sps, pps);
    let w0 = a.put_prefix(nothing, nal_type, sps, pps);
    power2::lemma_pow2_pos(sps.poc_lsb_bits as nat);
    let lsb = if idr {
        0
    } else {
        c1.u(sps.poc_lsb_bits).0 as nat
    };
    let w1 = if idr {
        w0
    } else {
        w0.u(sps.poc_lsb_bits, lsb)
    };
    if !idr {
        assert(c1.u(sps.poc_lsb_bits).1.ok());
        written::lemma_u_spelled(src, w0, sps.poc_lsb_bits);
    }
    let c1b = if idr {
        c1
    } else {
        c1.u(sps.poc_lsb_bits).1
    };
    assert(written::begins(src, w1) && written::behind(src, w1) == c1b);
    let b = if idr {
        let set = StRefPicSet { negative: Seq::empty(), positive: Seq::empty() };
        SliceHeader { short_term: ShortTerm::Own { set }, ..arbitrary() }
    } else {
        assert(slice::slice_rps(c1b, sps.short_term_rps).1.ok());
        lemma_short_term_spelled(src, w1, sps)
    };
    let w2 = if idr {
        w1
    } else {
        b.put_short_term(w1, sps.short_term_rps.len())
    };
    let l = if idr {
        b
    } else {
        lemma_long_term_spelled(src, w2, sps)
    };
    let w2b = if idr {
        w2
    } else {
        l.put_long_term(w2, sps)
    };
    assert(written::begins(src, w2b) && written::behind(src, w2b) == c2);
    let (luma, d1) = if sps.sao {
        c2.flag()
    } else {
        (false, c2)
    };
    let (chroma, d2) = if sps.sao {
        d1.flag()
    } else {
        (false, d1)
    };
    assert(d1.ok());
    let w2c = if sps.sao {
        w2b.flag(luma).flag(chroma)
    } else {
        w2b
    };
    assert(written::begins(src, w2c) && written::behind(src, w2c) == c3);
    assert(sao == (sps.sao && (luma || chroma)));
    if idr {
        reveal(Seq::filter);
    }
    let s = SliceHeader { short_term: b.short_term, ..arbitrary() };
    assert(s.entries(sps) == b.entries(sps));
    let p = if is_p {
        lemma_p_part_spelled(
            src,
            w2c,
            nal_type,
            sps,
            pps,
            b.short_term,
            src_total,
            out_total,
        )
    } else {
        SliceHeader { five_minus_max_num_merge_cand: 0, ..arbitrary() }
    };
    let w3 = if is_p {
        p.put_active(w2c)
    } else {
        w2c
    };
    let w4 = if is_p {
        p.put_list(w3, nal_type, sps, pps)
    } else {
        w3
    };
    let w5 = if is_p {
        p.put_prediction(w4, pps)
    } else {
        w4
    };
    assert(written::begins(src, w5) && written::behind(src, w5) == c4);
    let t = lemma_tail_spelled(src, w5, sps, pps, luma, chroma);
    let h = SliceHeader {
        no_output_of_prior_pics: a.no_output_of_prior_pics,
        pic_parameter_set_id: a.pic_parameter_set_id,
        reserved_flags: a.reserved_flags,
        predicted: is_p,
        pic_output: a.pic_output,
        colour_plane_id: a.colour_plane_id,
        pic_order_cnt_lsb: lsb,
        short_term: b.short_term,
        temporal_mvp_enabled: l.temporal_mvp_enabled,
        sao_luma: luma,
        sao_chroma: chroma,
        num_ref_idx_active_override: p.num_ref_idx_active_override,
        cabac_init: p.cabac_init,
        five_minus_max_num_merge_cand: p.five_minus_max_num_merge_cand,
        qp_delta: t.qp_delta,
        cb_qp_offset: t.cb_qp_offset,
        cr_qp_offset: t.cr_qp_offset,
        deblocking_override: t.deblocking_override,
        loop_filter_across_slices_enabled: t.loop_filter_across_slices_enabled,
        offset_len_minus1: t.offset_len_minus1,
        entry_points: t.entry_points,
    };
    assert(h.put_prefix(nothing, nal_type, sps, pps) == w0);
    assert(h.put_to_references(nal_type, sps, pps) == w1);
    assert(h.put_references(w1, nal_type, sps) == w2);
    assert(h.put_to_list(w2, nal_type, sps) == w3);
    assert(h.put_list(w3, nal_type, sps, pps) == w4);
    let w6 = t.put_deblocking(t.put_qp(w5, pps), pps);
    assert(h.put_deblocking(h.put_qp(w5, pps), pps) == w6);
    assert(h.deblocking_disabled(pps) == t.deblocking_disabled(pps));
    let w7 = t.put_loop_filter(w6, sps, pps);
    assert(h.put_loop_filter(w6, sps, pps) == w7);
    assert(h.put_entry_points(w7, pps) == t.put_entry_points(w7, pps));
    assert(h.put_rest(w4, sps, pps) == t.put_entry_points(w7, pps));
    assert(written::behind(src, h.written(nal_type, sps, pps)) == c5);
    reveal(written::behind);
    h
}

/// Nothing else parses: every slice that does begins with a header written from some
/// values, in a stream that is supported, and its POC lsb is the one written there. It is
/// a first slice segment, of type I or P, without long-term references, list
/// modification and weighted prediction, and with one active reference.
pub proof fn law_parsed_slice_was_written(nal: Seq<u8>, sps: SpsFields, pps: PpsInfo) -> (h:
    SliceHeader)
    requires
        slice_values::plausible(sps),
        slice::slice_of(nal, sps, pps) is Ok,
    ensures
        nal.len() > 2,
        ({
            let nal_type = (nal[0] / 2) % 64;
            &&& nal_type < 32
            &&& h.coded(sps, pps)
            &&& slice_values::supported(h, sps, pps)
            &&& written::begins(headers::payload_bits(nal), h.written(nal_type, sps, pps))
            &&& slice::slice_of(nal, sps, pps)->Ok_0.poc_lsb == if slice_values::is_idr_type(
                nal_type,
            ) {
                None
            } else {
                Some(h.pic_order_cnt_lsb as u32)
            }
        }),
{
    lemma_slice_spelled(nal, sps, pps)
}

/// A slice can be rewritten only if its header is filled up to whole bytes by a one bit and
/// zero bits: the front part of its RBSP is such a header.
pub proof fn law_rewritten_slice_was_aligned(
    nal: Seq<u8>,
    sps: SpsFields,
    pps: PpsInfo,
    entries: Seq<rps::RpsEntry>,
) -> (parts: (SliceHeader, Seq<u8>, nat, Seq<u8>))
    requires
        slice_values::plausible(sps),
        slice::rewritten(nal, sps, pps, entries) is Ok,
    ensures
        ({
            let (h, front, zeros, payload) = parts;
            let nal_type = (nal[0] / 2) % 64;
            &&& h.coded(sps, pps)
            &&& slice_values::supported(h, sps, pps)
            &&& emulation::unescaped(nal.skip(2)) == front + payload
            &&& zeros < 8
            &&& written::begins(bits::bits_of(front), h.written(nal_type, sps, pps))
            &&& exists|at: int|
                0 <= at < bits::bits_of(front).len() && bits::bits_of(front).len() == at + 1
                    + zeros && #[trigger] bits::bits_of(front).skip(at) == seq![true]
                    + bits::zero_bits(zeros)
        }),
{
    let (front, zeros) = slice_laws::lemma_rewritten_front(nal, sps, pps, entries);
    let h = lemma_slice_spelled(nal, sps, pps);
    let nal_type = bitstream::header_type(nal[0]);
    let rbsp = emulation::unescaped(nal.skip(2));
    let src = bits::bits_of(rbsp);
    let c = slice::slice_syntax(Cursor::start(src), nal_type, sps, pps, None).1;
    let payload = rbsp.skip(front.len() as int);
    assert(front + payload =~= rbsp);
    let w = h.written(nal_type, sps, pps);
    assert(w.bits.len() == c.pos);
    assert(written::begins(bits::bits_of(front), w)) by {
        reveal(written::begins);
        assert(bits::bits_of(front) =~= src.take((front.len() * 8) as int));
        assert(bits::bits_of(front).take(w.bits.len() as int) =~= src.take(w.bits.len() as int));
    }
    assert(bits::bits_of(front).skip(c.pos) == seq![true] + bits::zero_bits(zeros));
    (h, front, zeros, payload)
}

} // verus!
