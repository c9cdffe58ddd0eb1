//! The syntax of a slice header as an encoder writes it, field by field, and that
//! parsing gives the values back.

use super::bits::{self, Cursor};
use super::bitstream;
use super::emulation;
use super::error::HevcError;
use super::headers::{self, PpsInfo, SpsFields};
use super::pps_syntax;
use super::rps::{self, RpsEntry};
use super::set_syntax::{self, StRefPicSet};
use super::slice::{self, SliceFields};
use super::slice_laws;
use super::written::{self, Written};
use vstd::arithmetic::power2;
use vstd::prelude::*;

verus! {

broadcast use super::bits::group_failed;

/// Where a slice has its short-term references from.
pub enum ShortTerm {
    /// From this one of the sets of the SPS.
    Candidate { idx: nat },
    /// From a set of its own.
    Own { set: StRefPicSet },
}

/// The values of the fields of a slice header that has one active reference, no
/// long-term references and no list modification. Whether a field is there depends on
/// the NAL unit type, the SPS and the PPS.
pub struct SliceHeader {
    pub no_output_of_prior_pics: bool,
    pub pic_parameter_set_id: nat,
    pub reserved_flags: Seq<bool>,
    /// Whether this is a P slice; else it is an I slice.
    pub predicted: bool,
    pub pic_output: bool,
    pub colour_plane_id: nat,
    pub pic_order_cnt_lsb: nat,
    pub short_term: ShortTerm,
    pub temporal_mvp_enabled: bool,
    pub sao_luma: bool,
    pub sao_chroma: bool,
    pub num_ref_idx_active_override: bool,
    pub cabac_init: bool,
    pub five_minus_max_num_merge_cand: nat,
    pub qp_delta: int,
    pub cb_qp_offset: int,
    pub cr_qp_offset: int,
    /// What overrides the deblocking filter of the PPS, if anything does: the offsets,
    /// or nothing to disable the filter.
    pub deblocking_override: Option<Option<(int, int)>>,
    pub loop_filter_across_slices_enabled: bool,
    pub offset_len_minus1: nat,
    pub entry_points: Seq<nat>,
}

/// Whether `w` is Ceil(Log2(n)): `n` values can be told apart by `w` bits, and not by
/// fewer.
pub open spec fn tells_apart(n: nat, w: nat) -> bool {
    &&& n <= power2::pow2(w)
    &&& forall|v: nat| v < w ==> #[trigger] power2::pow2(v) < n
}

/// Ceil(Log2(n)).
pub open spec fn ceil_log2(n: nat) -> nat {
    choose|w: nat| tells_apart(n, w)
}

/// Whether more than one of the entries is used.
pub open spec fn several_used(entries: Seq<RpsEntry>) -> bool {
    exists|i: int, j: int|
        0 <= i < j < entries.len() && (#[trigger] entries[i]).used && (#[trigger] entries[j]).used
}

/// Whether a NAL unit type is that of an IDR slice, which has no references.
pub open spec fn is_idr_type(nal_type: u8) -> bool {
    nal_type == 19 || nal_type == 20
}

/// Writes flags from `i` on.
pub open spec fn put_flags(w: Written, flags: Seq<bool>, i: int) -> Written
    decreases flags.len() - i,
{
    if i < 0 || i >= flags.len() {
        w
    } else {
        put_flags(w.flag(flags[i]), flags, i + 1)
    }
}

/// Writes numbers of `n` bits from `i` on.
pub open spec fn put_numbers(w: Written, n: u32, numbers: Seq<nat>, i: int) -> Written
    decreases numbers.len() - i,
{
    if i < 0 || i >= numbers.len() {
        w
    } else {
        put_numbers(w.u(n, numbers[i]), n, numbers, i + 1)
    }
}

impl SliceHeader {
    /// The short-term references.
    pub open spec fn entries(self, sps: SpsFields) -> Seq<RpsEntry> {
        match self.short_term {
            ShortTerm::Candidate { idx } => sps.short_term_rps[idx as int],
            ShortTerm::Own { set } => set.entries(),
        }
    }

    /// Whether the deblocking filter is off.
    pub open spec fn deblocking_disabled(self, pps: PpsInfo) -> bool {
        match self.deblocking_override {
            Some(offsets) if pps.deblocking_filter_override_enabled => offsets is None,
            _ => pps.pps_deblocking_disabled,
        }
    }

    /// Whether the fields can hold the values, and POC deltas the distances.
    pub open spec fn in_range(self, sps: SpsFields, pps: PpsInfo) -> bool {
        &&& self.others_coded(sps, pps)
        &&& match self.short_term {
            ShortTerm::Candidate { idx } => idx < sps.short_term_rps.len(),
            ShortTerm::Own { set } => set.in_range(),
        }
    }

    /// Whether the fields can hold the values.
    pub open spec fn coded(self, sps: SpsFields, pps: PpsInfo) -> bool {
        &&& self.others_coded(sps, pps)
        &&& match self.short_term {
            ShortTerm::Candidate { idx } => idx < sps.short_term_rps.len(),
            ShortTerm::Own { set } => set.coded(),
        }
    }

    /// Whether the fields other than those of the references can hold the values.
    pub open spec fn others_coded(self, sps: SpsFields, pps: PpsInfo) -> bool {
        &&& pps_syntax::fits_ue(self.pic_parameter_set_id)
        &&& self.reserved_flags.len() == pps.num_extra_slice_header_bits
        &&& self.colour_plane_id < 4
        &&& self.pic_order_cnt_lsb < power2::pow2(sps.poc_lsb_bits as nat)
        &&& pps_syntax::fits_ue(self.five_minus_max_num_merge_cand)
        &&& pps_syntax::fits_se(self.qp_delta)
        &&& pps_syntax::fits_se(self.cb_qp_offset)
        &&& pps_syntax::fits_se(self.cr_qp_offset)
        &&& self.deblocking_override matches Some(offsets) ==> match offsets {
            Some((beta, tc)) => pps_syntax::fits_se(beta) && pps_syntax::fits_se(tc),
            None => true,
        }
        &&& self.offset_len_minus1 < 32
        &&& self.entry_points.len() < u32::MAX
    }

    /// Writes the header from its start to the colour plane.
    pub open spec fn put_prefix(
        self,
        w: Written,
        nal_type: u8,
        sps: SpsFields,
        pps: PpsInfo,
    ) -> Written {
        let w = w.flag(true);
        let w = if 16 <= nal_type <= 23 {
            w.flag(self.no_output_of_prior_pics)
        } else {
            w
        };
        let w = w.ue(self.pic_parameter_set_id);
        let w = put_flags(w, self.reserved_flags, 0);
        let w = w.ue(if self.predicted { 1 } else { 2 });
        let w = if pps.output_flag_present {
            w.flag(self.pic_output)
        } else {
            w
        };
        if sps.separate_colour_plane {
            w.u(2, self.colour_plane_id)
        } else {
            w
        }
    }

    /// Writes the short-term references.
    pub open spec fn put_short_term(self, w: Written, num_sets: nat) -> Written {
        match self.short_term {
            ShortTerm::Candidate { idx } => {
                let w = w.flag(true);
                if num_sets > 1 {
                    w.u(ceil_log2(num_sets) as u32, idx)
                } else {
                    w
                }
            },
            ShortTerm::Own { set } => set.put(w.flag(false), num_sets),
        }
    }

    /// Writes that there are no long-term references, and the temporal MVP flag.
    pub open spec fn put_long_term(self, w: Written, sps: SpsFields) -> Written {
        let w = if sps.long_term_ref_pics_present && sps.num_long_term_ref_pics_sps > 0 {
            w.ue(0)
        } else {
            w
        };
        let w = if sps.long_term_ref_pics_present {
            w.ue(0)
        } else {
            w
        };
        if sps.temporal_mvp {
            w.flag(self.temporal_mvp_enabled)
        } else {
            w
        }
    }

    /// Writes the sample adaptive offset flags.
    pub open spec fn put_sao(self, w: Written, sps: SpsFields) -> Written {
        if sps.sao {
            w.flag(self.sao_luma).flag(self.sao_chroma)
        } else {
            w
        }
    }

    /// Writes the number of active references of a P slice.
    pub open spec fn put_active(self, w: Written) -> Written {
        let w = w.flag(self.num_ref_idx_active_override);
        if self.num_ref_idx_active_override {
            w.ue(0)
        } else {
            w
        }
    }

    /// Writes the rest of what only P slices have.
    pub open spec fn put_prediction(self, w: Written, pps: PpsInfo) -> Written {
        let w = if pps.cabac_init_present {
            w.flag(self.cabac_init)
        } else {
            w
        };
        w.ue(self.five_minus_max_num_merge_cand)
    }

    /// Writes the QP deltas.
    pub open spec fn put_qp(self, w: Written, pps: PpsInfo) -> Written {
        let w = w.se(self.qp_delta);
        if pps.chroma_qp_offsets_present {
            w.se(self.cb_qp_offset).se(self.cr_qp_offset)
        } else {
            w
        }
    }

    /// Writes the deblocking filter override.
    pub open spec fn put_deblocking(self, w: Written, pps: PpsInfo) -> Written {
        if pps.deblocking_filter_override_enabled {
            let w = w.flag(self.deblocking_override is Some);
            match self.deblocking_override {
                Some(offsets) => {
                    let w = w.flag(offsets is None);
                    match offsets {
                        Some((beta, tc)) => w.se(beta).se(tc),
                        None => w,
                    }
                },
                None => w,
            }
        } else {
            w
        }
    }

    /// Writes whether the loop filter crosses slices, if there is anything to filter.
    pub open spec fn put_loop_filter(self, w: Written, sps: SpsFields, pps: PpsInfo) -> Written {
        let sao = sps.sao && (self.sao_luma || self.sao_chroma);
        if pps.loop_filter_across_slices && (sao || !self.deblocking_disabled(pps)) {
            w.flag(self.loop_filter_across_slices_enabled)
        } else {
            w
        }
    }

    /// Writes the entry points.
    pub open spec fn put_entry_points(self, w: Written, pps: PpsInfo) -> Written {
        if pps.tiles || pps.entropy_coding_sync {
            let w = w.ue(self.entry_points.len());
            if self.entry_points.len() > 0 {
                let n = (self.offset_len_minus1 + 1) as u32;
                put_numbers(w.ue(self.offset_len_minus1), n, self.entry_points, 0)
            } else {
                w
            }
        } else {
            w
        }
    }

    /// Writes the header up to the short-term references.
    pub open spec fn put_to_references(
        self,
        nal_type: u8,
        sps: SpsFields,
        pps: PpsInfo,
    ) -> Written {
        let w = self.put_prefix(Written::nothing(), nal_type, sps, pps);
        if is_idr_type(nal_type) {
            w
        } else {
            w.u(sps.poc_lsb_bits, self.pic_order_cnt_lsb)
        }
    }

    /// Writes the short-term references, if there are any.
    pub open spec fn put_references(self, w: Written, nal_type: u8, sps: SpsFields) -> Written {
        if is_idr_type(nal_type) {
            w
        } else {
            self.put_short_term(w, sps.short_term_rps.len())
        }
    }

    /// Writes what stands between the short-term references and the list modification
    /// flag.
    pub open spec fn put_to_list(self, w: Written, nal_type: u8, sps: SpsFields) -> Written {
        let w = if is_idr_type(nal_type) {
            w
        } else {
            self.put_long_term(w, sps)
        };
        let w = self.put_sao(w, sps);
        if self.predicted {
            self.put_active(w)
        } else {
            w
        }
    }

    /// Writes that the reference list is not modified, which a P slice with several
    /// used references says if the PPS allows for it.
    pub open spec fn put_list(
        self,
        w: Written,
        nal_type: u8,
        sps: SpsFields,
        pps: PpsInfo,
    ) -> Written {
        if self.predicted && pps.lists_modification_present && !is_idr_type(nal_type)
            && several_used(self.entries(sps)) {
            w.flag(false)
        } else {
            w
        }
    }

    /// Writes what stands behind the list modification flag.
    pub open spec fn put_rest(self, w: Written, sps: SpsFields, pps: PpsInfo) -> Written {
        let w = if self.predicted {
            self.put_prediction(w, pps)
        } else {
            w
        };
        let w = self.put_deblocking(self.put_qp(w, pps), pps);
        self.put_entry_points(self.put_loop_filter(w, sps, pps), pps)
    }

    /// The header as it is written.
    pub open spec fn written(self, nal_type: u8, sps: SpsFields, pps: PpsInfo) -> Written {
        let w = self.put_to_references(nal_type, sps, pps);
        let w = self.put_references(w, nal_type, sps);
        let w = self.put_to_list(w, nal_type, sps);
        let w = self.put_list(w, nal_type, sps, pps);
        self.put_rest(w, sps, pps)
    }
}

/// Whether an SPS has as many sets and entries as one that parses can have.
pub open spec fn plausible(sps: SpsFields) -> bool {
    &&& sps.poc_lsb_bits <= 32
    &&& sps.short_term_rps.len() <= 64
    &&& forall|i: int|
        0 <= i < sps.short_term_rps.len() ==> (#[trigger] sps.short_term_rps[i]).len() <= 32
}

/// Whether slices of a stream with these parameter sets can be parsed: no dependent
/// slice segments, no weighted prediction in a P slice, one active reference by
/// default unless the slice says so itself, and no header extension.
pub open spec fn supported(h: SliceHeader, sps: SpsFields, pps: PpsInfo) -> bool {
    &&& plausible(sps)
    &&& !pps.dependent_slice_segments
    &&& h.predicted ==> !pps.weighted_pred
    &&& h.predicted && !h.num_ref_idx_active_override ==> pps.num_ref_idx_l0_default_minus1 == 0
    &&& !pps.slice_header_extension
}

/// Ceil(Log2(n)) is the number of bits in the binary representation of `n - 1`.
pub proof fn lemma_ceil_log2(n: nat)
    requires
        1 < n <= 64,
    ensures
        tells_apart(n, ceil_log2(n)),
        ceil_log2(n) == bits::bit_width((n - 1) as nat),
        0 < ceil_log2(n) <= 6,
{
    let m = (n - 1) as nat;
    let width = bits::bit_width(m);
    bits::lemma_bit_width(m);
    power2::lemma2_to64();
    bits::lemma_bit_width_bound(m, 6);
    assert forall|v: nat| v < width implies #[trigger] power2::pow2(v) < n by {
        if v + 1 < width {
            power2::lemma_pow2_strictly_increases(v, (width - 1) as nat);
        }
    }
    assert(tells_apart(n, width));
    let w = ceil_log2(n);
    if w < width {
        assert(power2::pow2(w) < n);
    }
    if width < w {
        assert(power2::pow2(width) < n);
    }
}

/// More than one entry is used exactly if more than one is counted.
pub proof fn lemma_several_used(entries: Seq<RpsEntry>)
    ensures
        several_used(entries) <==> rps::used_count(entries) > 1,
        rps::used_count(entries) == 0 <==> forall|i: int|
            0 <= i < entries.len() ==> !(#[trigger] entries[i]).used,
        rps::used_count(entries) <= entries.len(),
    decreases entries.len(),
{
    reveal(Seq::filter);
    if entries.len() > 0 {
        let rest = entries.drop_last();
        let last = entries.len() - 1;
        lemma_several_used(rest);
        if rps::used_count(rest) > 0 && entries[last].used {
            let i = choose|i: int| 0 <= i < rest.len() && (#[trigger] rest[i]).used;
            assert(entries[i].used && entries[last].used);
        }
        if several_used(rest) {
            let (i, j) = choose|i: int, j: int|
                0 <= i < j < rest.len() && (#[trigger] rest[i]).used && (
                #[trigger] rest[j]).used;
            assert(entries[i].used && entries[j].used);
        }
        if several_used(entries) {
            let (i, j) = choose|i: int, j: int|
                0 <= i < j < entries.len() && (#[trigger] entries[i]).used && (
                #[trigger] entries[j]).used;
            assert(rest[i].used);
            if j < last {
                assert(rest[j].used);
            }
        }
        assert forall|i: int| 0 <= i < rest.len() implies rest[i] == #[trigger] entries[i] by {}
        if rps::used_count(entries) == 0 {
            assert forall|i: int| 0 <= i < entries.len() implies !(#[trigger] entries[i]).used by {
                if i < last {
                    assert(!rest[i].used);
                }
            }
        }
    }
}

/// Flags are skipped.
proof fn lemma_flags_read(src: Seq<bool>, w: Written, flags: Seq<bool>, i: int)
    requires
        0 <= i <= flags.len(),
        written::begins(src, put_flags(w, flags, i)),
    ensures
        written::begins(src, w),
        written::behind(src, w).skip_u_times(1, (flags.len() - i) as nat) == written::behind(
            src,
            put_flags(w, flags, i),
        ),
    decreases flags.len() - i,
{
    broadcast use written::group_reads_back;

    if i < flags.len() {
        lemma_flags_read(src, w.flag(flags[i]), flags, i + 1);
    }
}

/// Numbers are skipped.
proof fn lemma_numbers_read(src: Seq<bool>, w: Written, n: u32, numbers: Seq<nat>, i: int)
    requires
        n <= 32,
        0 <= i <= numbers.len(),
        written::begins(src, put_numbers(w, n, numbers, i)),
    ensures
        written::begins(src, w),
        written::behind(src, w).skip_u_times(n, (numbers.len() - i) as nat) == written::behind(
            src,
            put_numbers(w, n, numbers, i),
        ),
    decreases numbers.len() - i,
{
    broadcast use written::group_reads_back;

    if i < numbers.len() {
        lemma_numbers_read(src, w.u(n, numbers[i]), n, numbers, i + 1);
    }
}

/// This part of a header reads back.
#[verifier::rlimit(40)]
proof fn lemma_prefix_reads(
    src: Seq<bool>,
    w: Written,
    h: SliceHeader,
    nal_type: u8,
    sps: SpsFields,
    pps: PpsInfo,
)
    requires
        h.in_range(sps, pps),
        supported(h, sps, pps),
        written::begins(src, h.put_prefix(w, nal_type, sps, pps)),
    ensures
        written::begins(src, w),
        slice::slice_prefix(written::behind(src, w), nal_type, sps, pps) == (
            h.predicted,
            written::behind(src, h.put_prefix(w, nal_type, sps, pps)),
        ),
{
    broadcast use written::group_reads_back;

    let w1 = w.flag(true);
    let w2 = if 16 <= nal_type <= 23 {
        w1.flag(h.no_output_of_prior_pics)
    } else {
        w1
    };
    let w3 = w2.ue(h.pic_parameter_set_id);
    let w4 = put_flags(w3, h.reserved_flags, 0);
    assert(written::begins(src, w4.ue(if h.predicted { 1 } else { 2 })));
    lemma_flags_read(src, w3, h.reserved_flags, 0);
}

/// The short-term references read back.
#[verifier::rlimit(40)]
proof fn lemma_short_term_reads(
    src: Seq<bool>,
    w: Written,
    h: SliceHeader,
    sps: SpsFields,
    pps: PpsInfo,
)
    requires
        h.in_range(sps, pps),
        supported(h, sps, pps),
        written::begins(src, h.put_short_term(w, sps.short_term_rps.len())),
    ensures
        written::begins(src, w),
        ({
            let (set, c) = slice::slice_rps(written::behind(src, w), sps.short_term_rps);
            &&& set.entries == h.entries(sps)
            &&& c == written::behind(src, h.put_short_term(w, sps.short_term_rps.len()))
        }),
{
    broadcast use written::group_reads_back;

    let n = sps.short_term_rps.len();
    match h.short_term {
        ShortTerm::Candidate { idx } => {
            if n > 1 {
                lemma_ceil_log2(n);
                assert(idx < power2::pow2(ceil_log2(n)));
            }
        },
        ShortTerm::Own { set } => {
            let w1 = w.flag(false);
            let w2 = if n > 0 {
                w1.flag(false)
            } else {
                w1
            };
            set_syntax::lemma_set_reads(src, w2, set);
        },
    }
}

/// What stands behind the short-term references reads back.
proof fn lemma_long_term_reads(src: Seq<bool>, w: Written, h: SliceHeader, sps: SpsFields)
    requires
        written::begins(src, h.put_long_term(w, sps)),
    ensures
        written::begins(src, w),
        slice::slice_long_term(written::behind(src, w), sps) == written::behind(
            src,
            h.put_long_term(w, sps),
        ),
{
    broadcast use written::group_reads_back;

}

/// The rest of what only P slices have reads back.
proof fn lemma_prediction_reads(
    src: Seq<bool>,
    w: Written,
    h: SliceHeader,
    sps: SpsFields,
    pps: PpsInfo,
)
    requires
        h.predicted,
        h.in_range(sps, pps),
        supported(h, sps, pps),
        written::begins(src, h.put_prediction(w, pps)),
    ensures
        written::begins(src, w),
        slice::slice_prediction(written::behind(src, w), pps, 0) == written::behind(
            src,
            h.put_prediction(w, pps),
        ),
{
    broadcast use written::group_reads_back;

}

/// The QP deltas read back.
proof fn lemma_qp_reads(src: Seq<bool>, w: Written, h: SliceHeader, sps: SpsFields, pps: PpsInfo)
    requires
        h.in_range(sps, pps),
        written::begins(src, h.put_qp(w, pps)),
    ensures
        written::begins(src, w),
        slice::slice_qp(written::behind(src, w), pps) == written::behind(src, h.put_qp(w, pps)),
{
    broadcast use written::group_reads_back;

}

/// The deblocking filter override reads back.
proof fn lemma_deblocking_reads(
    src: Seq<bool>,
    w: Written,
    h: SliceHeader,
    sps: SpsFields,
    pps: PpsInfo,
)
    requires
        h.in_range(sps, pps),
        written::begins(src, h.put_deblocking(w, pps)),
    ensures
        written::begins(src, w),
        slice::slice_deblocking(written::behind(src, w), pps) == (
            h.deblocking_disabled(pps),
            written::behind(src, h.put_deblocking(w, pps)),
        ),
{
    broadcast use written::group_reads_back;

}

/// The entry points read back.
proof fn lemma_entry_points_read(
    src: Seq<bool>,
    w: Written,
    h: SliceHeader,
    sps: SpsFields,
    pps: PpsInfo,
)
    requires
        h.in_range(sps, pps),
        written::begins(src, h.put_entry_points(w, pps)),
    ensures
        written::begins(src, w),
        slice::slice_entry_points(written::behind(src, w), pps) == written::behind(
            src,
            h.put_entry_points(w, pps),
        ),
{
    broadcast use written::group_reads_back;

    if (pps.tiles || pps.entropy_coding_sync) && h.entry_points.len() > 0 {
        let n = (h.offset_len_minus1 + 1) as u32;
        let w1 = w.ue(h.entry_points.len()).ue(h.offset_len_minus1);
        lemma_numbers_read(src, w1, n, h.entry_points, 0);
    }
}

/// The header behind the QP deltas reads back.
proof fn lemma_tail_reads(src: Seq<bool>, w: Written, h: SliceHeader, sps: SpsFields, pps: PpsInfo)
    requires
        h.in_range(sps, pps),
        supported(h, sps, pps),
        ({
            let w1 = h.put_deblocking(h.put_qp(w, pps), pps);
            written::begins(src, h.put_entry_points(h.put_loop_filter(w1, sps, pps), pps))
        }),
    ensures
        written::begins(src, w),
        ({
            let sao = sps.sao && (h.sao_luma || h.sao_chroma);
            let w1 = h.put_deblocking(h.put_qp(w, pps), pps);
            slice::slice_tail(written::behind(src, w), pps, sao) == written::behind(
                src,
                h.put_entry_points(h.put_loop_filter(w1, sps, pps), pps),
            )
        }),
{
    broadcast use written::group_reads_back;

    let w1 = h.put_qp(w, pps);
    let w2 = h.put_deblocking(w1, pps);
    let w3 = h.put_loop_filter(w2, sps, pps);
    lemma_entry_points_read(src, w3, h, sps, pps);
    assert(written::begins(src, w2));
    lemma_deblocking_reads(src, w1, h, sps, pps);
    lemma_qp_reads(src, w, h, sps, pps);
}

/// The P slice part reads back.
#[verifier::rlimit(40)]
proof fn lemma_p_part_reads(
    src: Seq<bool>,
    w: Written,
    h: SliceHeader,
    nal_type: u8,
    sps: SpsFields,
    pps: PpsInfo,
    src_total: u32,
    out_total: u32,
)
    requires
        h.predicted,
        h.in_range(sps, pps),
        supported(h, sps, pps),
        src_total > 1 <==> !is_idr_type(nal_type) && several_used(h.entries(sps)),
        pps.lists_modification_present ==> src_total > 1 || out_total <= 1,
        ({
            let w1 = h.put_list(h.put_active(w), nal_type, sps, pps);
            written::begins(src, h.put_prediction(w1, pps))
        }),
    ensures
        written::begins(src, w),
        ({
            let w1 = h.put_active(w);
            let w2 = h.put_list(w1, nal_type, sps, pps);
            slice::slice_p_part(written::behind(src, w), pps, true, src_total, out_total) == (
                (w1.bits.len() as int, w2.bits.len() as int),
                written::behind(src, h.put_prediction(w2, pps)),
            )
        }),
{
    broadcast use written::group_reads_back;

    let w1 = h.put_active(w);
    let w2 = h.put_list(w1, nal_type, sps, pps);
    lemma_prediction_reads(src, w2, h, sps, pps);
    assert(written::begins(src, w1));
    assert(slice::slice_active_refs(written::behind(src, w), pps) == (
        0u32,
        written::behind(src, w1),
    ));
    assert(slice::slice_list_modification(written::behind(src, w1), pps, src_total, out_total)
        == written::behind(src, w2));
    reveal(written::behind);
}

/// Whether the RPS of the slice may be replaced by `entries`: not if they are the
/// first to call for a list modification flag.
pub open spec fn replaceable(
    h: SliceHeader,
    nal_type: u8,
    sps: SpsFields,
    pps: PpsInfo,
    entries: Seq<RpsEntry>,
) -> bool {
    h.predicted && pps.lists_modification_present && !is_idr_type(nal_type) && several_used(
        entries,
    ) ==> several_used(h.entries(sps))
}

/// What the parts of the header are, and where they stand.
spec fn syntax_of(
    h: SliceHeader,
    nal_type: u8,
    sps: SpsFields,
    pps: PpsInfo,
    s: slice::SliceSyntax,
) -> bool {
    let w1 = h.put_to_references(nal_type, sps, pps);
    let w2 = h.put_references(w1, nal_type, sps);
    let w3 = h.put_to_list(w2, nal_type, sps);
    let w4 = h.put_list(w3, nal_type, sps, pps);
    &&& s.poc_lsb == if is_idr_type(nal_type) {
        None
    } else {
        Some(h.pic_order_cnt_lsb as u32)
    }
    &&& s.rps.entries == if is_idr_type(nal_type) {
        Seq::empty()
    } else {
        h.entries(sps)
    }
    &&& s.rps_at == w1.bits.len()
    &&& s.rps_end == w2.bits.len()
    &&& s.list_at == w3.bits.len()
    &&& s.list_end == w4.bits.len()
    &&& s.end == h.written(nal_type, sps, pps).bits.len()
}

/// The references read back.
#[verifier::rlimit(40)]
proof fn lemma_refs_read(
    src: Seq<bool>,
    w: Written,
    h: SliceHeader,
    nal_type: u8,
    sps: SpsFields,
    pps: PpsInfo,
)
    requires
        h.in_range(sps, pps),
        supported(h, sps, pps),
        !is_idr_type(nal_type),
        ({
            let w1 = w.u(sps.poc_lsb_bits, h.pic_order_cnt_lsb);
            let w2 = h.put_short_term(w1, sps.short_term_rps.len());
            written::begins(src, h.put_long_term(w2, sps))
        }),
    ensures
        written::begins(src, w),
        ({
            let w1 = w.u(sps.poc_lsb_bits, h.pic_order_cnt_lsb);
            let w2 = h.put_short_term(w1, sps.short_term_rps.len());
            let (refs, c) = slice::slice_refs(written::behind(src, w), nal_type, sps);
            &&& refs.poc_lsb == Some(h.pic_order_cnt_lsb as u32)
            &&& refs.rps.entries == h.entries(sps)
            &&& refs.rps_at == w1.bits.len()
            &&& refs.rps_end == w2.bits.len()
            &&& c == written::behind(src, h.put_long_term(w2, sps))
        }),
{
    broadcast use written::group_reads_back;

    let w1 = w.u(sps.poc_lsb_bits, h.pic_order_cnt_lsb);
    let w2 = h.put_short_term(w1, sps.short_term_rps.len());
    lemma_long_term_reads(src, w2, h, sps);
    lemma_short_term_reads(src, w1, h, sps, pps);
    power2::lemma2_to64();
    if sps.poc_lsb_bits < 32 {
        power2::lemma_pow2_strictly_increases(sps.poc_lsb_bits as nat, 32);
    }
    assert(written::behind(src, w).u(sps.poc_lsb_bits) == (
        h.pic_order_cnt_lsb as u32,
        written::behind(src, w1),
    ));
    reveal(written::behind);
}

/// A written header reads back.
#[verifier::rlimit(40)]
proof fn lemma_header_reads(
    src: Seq<bool>,
    h: SliceHeader,
    nal_type: u8,
    sps: SpsFields,
    pps: PpsInfo,
    replacement: Option<Seq<RpsEntry>>,
)
    requires
        h.in_range(sps, pps),
        supported(h, sps, pps),
        replacement matches Some(entries) ==> replaceable(h, nal_type, sps, pps, entries)
            && entries.len() <= 32,
        written::begins(src, h.written(nal_type, sps, pps)),
    ensures
        ({
            let (s, c) = slice::slice_syntax(
                Cursor::start(src),
                nal_type,
                sps,
                pps,
                replacement,
            );
            &&& syntax_of(h, nal_type, sps, pps, s)
            &&& c == written::behind(src, h.written(nal_type, sps, pps))
        }),
{
    broadcast use written::group_reads_back;

    reveal(slice::slice_syntax);
    let w0 = h.put_prefix(Written::nothing(), nal_type, sps, pps);
    let w1 = h.put_to_references(nal_type, sps, pps);
    let w2 = h.put_references(w1, nal_type, sps);
    let w2b = if is_idr_type(nal_type) {
        w2
    } else {
        h.put_long_term(w2, sps)
    };
    let w2c = h.put_sao(w2b, sps);
    let w3 = h.put_to_list(w2, nal_type, sps);
    let w4 = h.put_list(w3, nal_type, sps, pps);
    let w5 = if h.predicted {
        h.put_prediction(w4, pps)
    } else {
        w4
    };
    let sao = sps.sao && (h.sao_luma || h.sao_chroma);
    lemma_tail_reads(src, w5, h, sps, pps);
    let refs = slice::slice_refs(written::behind(src, w0), nal_type, sps).0;
    let src_total = rps::used_count(refs.rps.entries) as u32;
    let out_total = slice::out_total(refs, replacement);
    let named = if is_idr_type(nal_type) {
        Seq::empty()
    } else {
        h.entries(sps)
    };
    lemma_several_used(named);
    if let Some(entries) = replacement {
        lemma_several_used(entries);
    }
    assert(named.len() <= 32);
    if h.predicted {
        // The cursor before this part is read, and so known, later on.
        assert(written::begins(src, h.put_prediction(w4, pps)));
        assert(written::begins(src, w4)) by {
            lemma_prediction_reads(src, w4, h, sps, pps);
        }
    }
    assert(written::begins(src, w3));
    assert(written::begins(src, w2c));
    assert(written::begins(src, w2b));
    if !is_idr_type(nal_type) {
        lemma_refs_read(src, w0, h, nal_type, sps, pps);
    }
    assert(written::begins(src, w0));
    written::lemma_nothing(src);
    lemma_prefix_reads(src, Written::nothing(), h, nal_type, sps, pps);
    assert(refs.rps.entries == named);
    assert(slice::slice_sao(written::behind(src, w2b), sps) == (sao, written::behind(src, w2c)));
    if h.predicted {
        lemma_p_part_reads(src, w2c, h, nal_type, sps, pps, src_total, out_total);
    }
    reveal(written::behind);
}

/// The header is not empty.
proof fn lemma_header_not_empty(
    h: SliceHeader,
    src: Seq<bool>,
    nal_type: u8,
    sps: SpsFields,
    pps: PpsInfo,
)
    requires
        h.in_range(sps, pps),
        supported(h, sps, pps),
        written::begins(src, h.written(nal_type, sps, pps)),
    ensures
        h.written(nal_type, sps, pps).bits.len() > 0,
{
    broadcast use bits::group_moves;

    lemma_header_reads(src, h, nal_type, sps, pps, None);
    reveal(slice::slice_syntax);
    reveal(written::behind);
    let c = Cursor::start(src);
    broadcast use slice::group_slice_moves;
    broadcast use slice::group_slice_failed;

    let c1 = slice::slice_prefix(c, nal_type, sps, pps).1;
    assert(c1.ok());
    assert(c1.pos > 0);
}

/// Whatever values a slice header is written from, field by field, and whatever follows
/// them: parsing gives back the POC lsb and the short-term references. If they are those
/// of a set of the SPS, its index is written in as few bits as tell the sets apart.
pub proof fn law_written_slice_reads_back(
    h: SliceHeader,
    nal_type: u8,
    header: Seq<u8>,
    rbsp: Seq<u8>,
    sps: SpsFields,
    pps: PpsInfo,
)
    requires
        h.in_range(sps, pps),
        supported(h, sps, pps),
        nal_type < 32,
        header.len() == 2,
        header[0] / 2 == nal_type,
        written::begins(bits::bits_of(rbsp), h.written(nal_type, sps, pps)),
    ensures
        slice::slice_of(header + emulation::escaped(rbsp), sps, pps) == Ok::<
            SliceFields,
            HevcError,
        >(
            SliceFields {
                poc_lsb: if is_idr_type(nal_type) {
                    None
                } else {
                    Some(h.pic_order_cnt_lsb as u32)
                },
                rps: if is_idr_type(nal_type) {
                    Seq::empty()
                } else {
                    h.entries(sps)
                },
            },
        ),
{
    broadcast use written::group_reads_back;

    let src = bits::bits_of(rbsp);
    lemma_header_reads(src, h, nal_type, sps, pps, None);
    lemma_header_not_empty(h, src, nal_type, sps, pps);
    written::lemma_unit(header, rbsp, h.written(nal_type, sps, pps));
    let nal = header + emulation::escaped(rbsp);
    assert(nal[0] == header[0]);
    assert(bitstream::header_type(nal[0]) == nal_type);
}

/// Numbers are added alike.
proof fn lemma_numbers_alike(
    w1: Written,
    w2: Written,
    x1: Written,
    x2: Written,
    n: u32,
    numbers: Seq<nat>,
    i: int,
)
    requires
        written::adds_alike(w1, w2, x1, x2),
        0 <= i <= numbers.len(),
    ensures
        written::adds_alike(
            w1,
            put_numbers(w2, n, numbers, i),
            x1,
            put_numbers(x2, n, numbers, i),
        ),
    decreases numbers.len() - i,
{
    broadcast use written::group_alike;

    if i < numbers.len() {
        lemma_numbers_alike(
            w1,
            w2.u(n, numbers[i]),
            x1,
            x2.u(n, numbers[i]),
            n,
            numbers,
            i + 1,
        );
    }
}

/// The header with a set of its own for short-term references.
pub open spec fn with_set(h: SliceHeader, set: StRefPicSet) -> SliceHeader {
    SliceHeader { short_term: ShortTerm::Own { set }, ..h }
}

/// What stands between the short-term references and the list modification flag does
/// not depend on the references.
proof fn lemma_to_list_alike(
    w: Written,
    x: Written,
    h: SliceHeader,
    set: StRefPicSet,
    nal_type: u8,
    sps: SpsFields,
)
    ensures
        written::adds_alike(
            w,
            h.put_to_list(w, nal_type, sps),
            x,
            with_set(h, set).put_to_list(x, nal_type, sps),
        ),
{
    broadcast use written::group_alike;

}

/// What stands behind the list modification flag does not depend on the references.
#[verifier::rlimit(40)]
proof fn lemma_rest_alike(
    w: Written,
    x: Written,
    h: SliceHeader,
    set: StRefPicSet,
    sps: SpsFields,
    pps: PpsInfo,
)
    ensures
        written::adds_alike(w, h.put_rest(w, sps, pps), x, with_set(h, set).put_rest(x, sps, pps)),
{
    broadcast use written::group_alike;

    let g = with_set(h, set);
    let (w1, x1) = if h.predicted {
        (h.put_prediction(w, pps), g.put_prediction(x, pps))
    } else {
        (w, x)
    };
    assert(written::adds_alike(w, w1, x, x1));
    let w2 = h.put_qp(w1, pps);
    let x2 = g.put_qp(x1, pps);
    assert(written::adds_alike(w, w2, x, x2));
    let w3 = h.put_deblocking(w2, pps);
    let x3 = g.put_deblocking(x2, pps);
    assert(written::adds_alike(w, w3, x, x3));
    let w4 = h.put_loop_filter(w3, sps, pps);
    let x4 = g.put_loop_filter(x3, sps, pps);
    assert(written::adds_alike(w, w4, x, x4));
    if (pps.tiles || pps.entropy_coding_sync) && h.entry_points.len() > 0 {
        let n = (h.offset_len_minus1 + 1) as u32;
        let w5 = w4.ue(h.entry_points.len()).ue(h.offset_len_minus1);
        let x5 = x4.ue(h.entry_points.len()).ue(h.offset_len_minus1);
        assert(written::adds_alike(w, w5, x, x5));
        lemma_numbers_alike(w, w5, x, x5, n, h.entry_points, 0);
    }
    assert(written::adds_alike(w, h.put_entry_points(w4, pps), x, g.put_entry_points(x4, pps)));
}

/// The references of a header that has a set of its own.
proof fn lemma_own_set_bits(
    w: Written,
    h: SliceHeader,
    set: StRefPicSet,
    entries: Seq<RpsEntry>,
    num_sets: nat,
)
    requires
        set.in_range(),
        entries.to_multiset() == set.entries().to_multiset(),
        num_sets <= 64,
    ensures
        with_set(h, set).put_short_term(w, num_sets).bits == w.bits + slice::inline_rps_bits(
            num_sets as u32,
            entries,
        ),
{
    reveal(Written::flag);
    let w1 = w.flag(false);
    let w2 = if num_sets > 0 {
        w1.flag(false)
    } else {
        w1
    };
    let zeros = bits::zero_bits(
        if num_sets > 0 {
            2
        } else {
            1
        },
    );
    set_syntax::lemma_set_bits(w2, set, entries);
    assert(w2.bits =~= w.bits + zeros);
    let part = rps::rps_bits(rps::side_of(entries, true), rps::side_of(entries, false));
    assert(w.bits + zeros + part =~= w.bits + (zeros + part));
}

/// Rewriting a written header gives the header written from the same values with the
/// new references.
#[verifier::rlimit(40)]
proof fn lemma_header_rewrites(
    src: Seq<bool>,
    h: SliceHeader,
    set: StRefPicSet,
    entries: Seq<RpsEntry>,
    nal_type: u8,
    sps: SpsFields,
    pps: PpsInfo,
)
    requires
        h.in_range(sps, pps),
        supported(h, sps, pps),
        set.in_range(),
        entries.to_multiset() == set.entries().to_multiset(),
        replaceable(h, nal_type, sps, pps, set.entries()),
        written::begins(src, h.written(nal_type, sps, pps)),
    ensures
        ({
            let (s, c) = slice::slice_syntax(
                Cursor::start(src),
                nal_type,
                sps,
                pps,
                Some(entries),
            );
            &&& c == written::behind(src, h.written(nal_type, sps, pps))
            &&& slice::rewritten_header(src, s, sps.short_term_rps.len() as u32, entries)
                == with_set(h, set).written(nal_type, sps, pps).bits
        }),
{
    broadcast use vstd::seq_lib::group_to_multiset_ensures;

    let n = sps.short_term_rps.len();
    let g = with_set(h, set);
    set_syntax::lemma_set_bits(Written::nothing(), set, entries);
    lemma_several_used(entries);
    lemma_several_used(set.entries());
    assert(entries.len() == entries.to_multiset().len());
    assert(set.entries().len() == set.entries().to_multiset().len());
    lemma_header_reads(src, h, nal_type, sps, pps, Some(entries));
    let s = slice::slice_syntax(Cursor::start(src), nal_type, sps, pps, Some(entries)).0;
    let w1 = h.put_to_references(nal_type, sps, pps);
    let w2 = h.put_references(w1, nal_type, sps);
    let w3 = h.put_to_list(w2, nal_type, sps);
    let w4 = h.put_list(w3, nal_type, sps, pps);
    let w5 = h.put_rest(w4, sps, pps);
    let x2 = g.put_references(w1, nal_type, sps);
    let x3 = g.put_to_list(x2, nal_type, sps);
    let x4 = g.put_list(x3, nal_type, sps, pps);
    let x5 = g.put_rest(x4, sps, pps);
    assert(g.put_to_references(nal_type, sps, pps) == w1);
    assert(g.written(nal_type, sps, pps) == x5);
    lemma_rest_alike(w4, x4, h, set, sps, pps);
    lemma_to_list_alike(w2, x2, h, set, nal_type, sps);
    lemma_begins_parts(src, h, nal_type, sps, pps);
    written::lemma_alike_bits(src, w4, w5, x4, x5);
    written::lemma_alike_bits(src, w2, w3, x2, x3);
    let rps_part = if is_idr_type(nal_type) {
        Seq::empty()
    } else {
        slice::inline_rps_bits(n as u32, entries)
    };
    if is_idr_type(nal_type) {
        assert(x2.bits =~= w1.bits + rps_part);
    } else {
        lemma_own_set_bits(w1, h, set, entries, n);
    }
    assert(src.take(s.rps_at) == w1.bits) by {
        reveal(written::begins);
    }
    reveal(Written::flag);
    let list_part: Seq<bool> = if s.list_at < s.list_end && rps::used_count(entries) as u32 > 1 {
        seq![false]
    } else {
        Seq::empty()
    };
    assert(x4.bits =~= x3.bits + list_part);
    assert(x5.bits =~= w1.bits + rps_part + src.subrange(s.rps_end, s.list_at) + list_part
        + src.subrange(s.list_end, s.end));
}

/// The parts of a written header stand at the beginning, too.
proof fn lemma_begins_parts(
    src: Seq<bool>,
    h: SliceHeader,
    nal_type: u8,
    sps: SpsFields,
    pps: PpsInfo,
)
    requires
        h.in_range(sps, pps),
        supported(h, sps, pps),
        written::begins(src, h.written(nal_type, sps, pps)),
    ensures
        ({
            let w1 = h.put_to_references(nal_type, sps, pps);
            let w2 = h.put_references(w1, nal_type, sps);
            let w3 = h.put_to_list(w2, nal_type, sps);
            let w4 = h.put_list(w3, nal_type, sps, pps);
            &&& written::begins(src, w1)
            &&& written::begins(src, w3)
            &&& written::begins(src, w4)
        }),
{
    broadcast use written::group_reads_back;

    let w1 = h.put_to_references(nal_type, sps, pps);
    let w2 = h.put_references(w1, nal_type, sps);
    let w3 = h.put_to_list(w2, nal_type, sps);
    let w4 = h.put_list(w3, nal_type, sps, pps);
    let w5 = if h.predicted {
        h.put_prediction(w4, pps)
    } else {
        w4
    };
    lemma_tail_reads(src, w5, h, sps, pps);
    if h.predicted {
        lemma_prediction_reads(src, w4, h, sps, pps);
    }
    assert(written::begins(src, w3));
    let w2b = if is_idr_type(nal_type) {
        w2
    } else {
        h.put_long_term(w2, sps)
    };
    assert(written::begins(src, h.put_sao(w2b, sps)));
    assert(written::begins(src, w2b));
    if !is_idr_type(nal_type) {
        lemma_long_term_reads(src, w2, h, sps);
        lemma_short_term_reads(src, w1, h, sps, pps);
    }
}

/// Bits that are filled up with a one bit and zero bits, to whole bytes.
pub open spec fn fills_bytes(front: Seq<u8>, w: Written, zeros: nat) -> bool {
    zeros < 8 && bits::bits_of(front) == w.bits.push(true) + bits::zero_bits(zeros)
}

/// Whole bytes are filled up in one way only.
proof fn lemma_fills_bytes(front: Seq<u8>, w: Written, zeros: nat)
    requires
        fills_bytes(front, w, zeros),
    ensures
        slice::aligned(w.bits) == bits::bits_of(front),
        bits::bytes_of(slice::aligned(w.bits)) == front,
        zeros == slice::padding(w.bits.len() as int + 1),
{
    assert(bits::bits_of(front).len() == front.len() * 8);
    assert(w.bits.len() + 1 + zeros == front.len() * 8);
    assert(zeros == slice::padding(w.bits.len() as int + 1));
    bits::lemma_bytes_of_bits(front);
}

/// Rewriting a slice replaces its short-term references and nothing else. Whatever
/// values its header is written from, field by field, and whatever its payload: the
/// result is the slice whose header is written from the same values with the new set,
/// filled up to whole bytes, in front of the same payload. The references may be given
/// in any order. The only slice that is refused is one that would have to come to have a
/// list modification flag. An IDR slice, which has no references, stays as it is.
#[verifier::rlimit(40)]
pub proof fn law_rewriting_replaces_the_references_only(
    h: SliceHeader,
    set: StRefPicSet,
    entries: Seq<RpsEntry>,
    nal_type: u8,
    header: Seq<u8>,
    front: Seq<u8>,
    new_front: Seq<u8>,
    zeros: nat,
    new_zeros: nat,
    payload: Seq<u8>,
    sps: SpsFields,
    pps: PpsInfo,
)
    requires
        h.in_range(sps, pps),
        supported(h, sps, pps),
        set.in_range(),
        entries.to_multiset() == set.entries().to_multiset(),
        nal_type < 32,
        header.len() == 2,
        header[0] / 2 == nal_type,
        replaceable(h, nal_type, sps, pps, set.entries()),
        fills_bytes(front, h.written(nal_type, sps, pps), zeros),
        fills_bytes(new_front, with_set(h, set).written(nal_type, sps, pps), new_zeros),
    ensures
        slice::rewritten(header + emulation::escaped(front + payload), sps, pps, entries)
            == Ok::<Seq<u8>, HevcError>(header + emulation::escaped(new_front + payload)),
{
    broadcast use written::group_reads_back;

    let w = h.written(nal_type, sps, pps);
    let x = with_set(h, set).written(nal_type, sps, pps);
    let rbsp = front + payload;
    let src = bits::bits_of(rbsp);
    lemma_fills_bytes(front, w, zeros);
    lemma_fills_bytes(new_front, x, new_zeros);
    slice_laws::lemma_bits_of_concat(front, payload);
    assert(written::begins(src, w)) by {
        reveal(written::begins);
        assert(src.take(w.bits.len() as int) =~= w.bits);
    }
    lemma_header_not_empty(h, src, nal_type, sps, pps);
    written::lemma_unit(header, rbsp, w);
    let nal = header + emulation::escaped(rbsp);
    assert(nal[0] == header[0]);
    assert(bitstream::header_type(nal[0]) == nal_type);
    assert(nal.skip(2) =~= emulation::escaped(rbsp));
    emulation::law_unescape_undoes_escape(rbsp);
    lemma_header_rewrites(src, h, set, entries, nal_type, sps, pps);
    let c = written::behind(src, w);
    reveal(written::behind);
    slice_laws::lemma_alignment_reads(c, w.bits, bits::bits_of(payload));
    assert(slice::alignment(c).pos / 8 == front.len());
    assert(rbsp.skip(front.len() as int) =~= payload);
    assert(nal.take(2) =~= header);
}

/// What is written stands at the beginning of the bits, whatever the payload.
pub proof fn lemma_written_unit(
    h: SliceHeader,
    nal_type: u8,
    front: Seq<u8>,
    zeros: nat,
    payload: Seq<u8>,
    sps: SpsFields,
    pps: PpsInfo,
)
    requires
        fills_bytes(front, h.written(nal_type, sps, pps), zeros),
    ensures
        written::begins(bits::bits_of(front + payload), h.written(nal_type, sps, pps)),
{
    let w = h.written(nal_type, sps, pps);
    let src = bits::bits_of(front + payload);
    lemma_fills_bytes(front, w, zeros);
    slice_laws::lemma_bits_of_concat(front, payload);
    reveal(written::begins);
    assert(src.take(w.bits.len() as int) =~= w.bits);
}

/// The entries of a set that can be written, in whatever order, fit into a slice.
pub proof fn lemma_set_fits(set: StRefPicSet, entries: Seq<RpsEntry>, pps: PpsInfo)
    requires
        set.in_range(),
        entries.to_multiset() == set.entries().to_multiset(),
    ensures
        slice_laws::fits_inline(entries),
        slice_laws::counts_agree(pps, entries),
{
    set_syntax::lemma_set_distinct(set, entries);
    rps::lemma_used_count_canonical(entries);
}

/// Rewriting is refused exactly where a P slice with at most one used reference would
/// come to have several, and so a list modification flag that it has no room for.
pub proof fn law_rewriting_adds_no_list_modification_flag(
    h: SliceHeader,
    entries: Seq<RpsEntry>,
    nal_type: u8,
    header: Seq<u8>,
    rbsp: Seq<u8>,
    sps: SpsFields,
    pps: PpsInfo,
)
    requires
        h.in_range(sps, pps),
        supported(h, sps, pps),
        entries.len() <= 32,
        nal_type < 32,
        header.len() == 2,
        header[0] / 2 == nal_type,
        written::begins(bits::bits_of(rbsp), h.written(nal_type, sps, pps)),
    ensures
        h.predicted && pps.lists_modification_present && !is_idr_type(nal_type) && several_used(
            entries,
        ) && !several_used(h.entries(sps)) <==> slice::rewritten(
            header + emulation::escaped(rbsp),
            sps,
            pps,
            entries,
        ) == Err::<Seq<u8>, HevcError>(HevcError::AddedUsedReference),
{
    broadcast use written::group_reads_back;

    let src = bits::bits_of(rbsp);
    lemma_header_reads(src, h, nal_type, sps, pps, None);
    lemma_header_not_empty(h, src, nal_type, sps, pps);
    written::lemma_unit(header, rbsp, h.written(nal_type, sps, pps));
    let nal = header + emulation::escaped(rbsp);
    assert(nal[0] == header[0]);
    assert(bitstream::header_type(nal[0]) == nal_type);
    lemma_several_used(entries);
    lemma_several_used(h.entries(sps));
    let c = Cursor::start(src);
    if replaceable(h, nal_type, sps, pps, entries) {
        lemma_header_reads(src, h, nal_type, sps, pps, Some(entries));
        let end = slice::slice_syntax(c, nal_type, sps, pps, Some(entries)).1;
        lemma_alignment_errors(end);
    } else {
        written::lemma_nothing(src);
        lemma_begins_prefix(src, h, nal_type, sps, pps);
        lemma_prefix_reads(src, Written::nothing(), h, nal_type, sps, pps);
        slice_laws::lemma_added_reference_refused(c, nal_type, sps, pps, entries);
        slice::lemma_alignment_failed(
            slice::slice_syntax(c, nal_type, sps, pps, Some(entries)).1,
        );
    }
}

/// The first part of a written header stands at the beginning, too.
proof fn lemma_begins_prefix(
    src: Seq<bool>,
    h: SliceHeader,
    nal_type: u8,
    sps: SpsFields,
    pps: PpsInfo,
)
    requires
        h.in_range(sps, pps),
        supported(h, sps, pps),
        written::begins(src, h.written(nal_type, sps, pps)),
    ensures
        written::begins(src, h.put_prefix(Written::nothing(), nal_type, sps, pps)),
{
    broadcast use written::group_reads_back;

    lemma_begins_parts(src, h, nal_type, sps, pps);
}

/// Reading the alignment has errors of its own.
proof fn lemma_alignment_errors(c: Cursor)
    requires
        c.ok(),
    ensures
        slice::alignment(c).err != Some(HevcError::AddedUsedReference),
{
    reveal(Cursor::u);
    let (bit, c1) = c.flag();
    let c2 = c1.ensure(bit, HevcError::MissingAlignmentBit);
    lemma_zero_alignment_errors(c2, slice::padding(c2.pos));
}

/// Reading zero bits has errors of its own.
proof fn lemma_zero_alignment_errors(c: Cursor, n: nat)
    requires
        c.err != Some(HevcError::AddedUsedReference),
    ensures
        slice::zero_alignment(c, n).err != Some(HevcError::AddedUsedReference),
    decreases n,
{
    reveal(Cursor::u);
    if n > 0 {
        let (bit, c1) = c.flag();
        lemma_zero_alignment_errors(
            c1.ensure(!bit, HevcError::NonzeroAlignmentBit),
            (n - 1) as nat,
        );
    }
}

} // verus!
