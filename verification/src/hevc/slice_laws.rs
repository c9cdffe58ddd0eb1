//! Laws of slice headers: what they depend on, and what a rewritten slice says and
//! keeps.

use super::bits::{self, Cursor};
use super::bitstream;
use super::emulation;
use super::header_laws;
use super::headers::{self, PpsInfo, SpsFields};
use super::rps::{self, RpsEntry};
use super::slice::{self, SliceFields};
use vstd::arithmetic::power2;
use vstd::prelude::*;

verus! {

broadcast use super::bits::group_failed;

/// This part of a header depends only on its own bits.
proof fn lemma_slice_prefix_agree(
    a: Cursor,
    b: Cursor,
    end: int,
    nal_type: u8,
    sps: SpsFields,
    pps: PpsInfo,
)
    requires
        bits::agree(a, b, end),
        slice::slice_prefix(a, nal_type, sps, pps).1.ok(),
        slice::slice_prefix(a, nal_type, sps, pps).1.pos <= end,
    ensures
        slice::slice_prefix(b, nal_type, sps, pps).0 == slice::slice_prefix(
            a,
            nal_type,
            sps,
            pps,
        ).0,
        bits::in_step(
            a,
            b,
            end,
            slice::slice_prefix(a, nal_type, sps, pps).1,
            slice::slice_prefix(b, nal_type, sps, pps).1,
        ),
{
    broadcast use {bits::group_moves, bits::group_agree};

}

/// This part of a header depends only on its own bits.
proof fn lemma_slice_long_term_agree(
    a: Cursor,
    b: Cursor,
    end: int,
    sps: SpsFields,
)
    requires
        bits::agree(a, b, end),
        slice::slice_long_term(a, sps).ok(),
        slice::slice_long_term(a, sps).pos <= end,
    ensures
        bits::in_step(
            a,
            b,
            end,
            slice::slice_long_term(a, sps),
            slice::slice_long_term(b, sps),
        ),
{
    broadcast use {bits::group_moves, bits::group_agree};

}

/// This part of a header depends only on its own bits.
proof fn lemma_slice_sao_agree(
    a: Cursor,
    b: Cursor,
    end: int,
    sps: SpsFields,
)
    requires
        bits::agree(a, b, end),
        slice::slice_sao(a, sps).1.ok(),
        slice::slice_sao(a, sps).1.pos <= end,
    ensures
        slice::slice_sao(b, sps).0 == slice::slice_sao(a, sps).0,
        bits::in_step(
            a,
            b,
            end,
            slice::slice_sao(a, sps).1,
            slice::slice_sao(b, sps).1,
        ),
{
    broadcast use {bits::group_moves, bits::group_agree};

}

/// This part of a header depends only on its own bits.
proof fn lemma_slice_active_refs_agree(
    a: Cursor,
    b: Cursor,
    end: int,
    pps: PpsInfo,
)
    requires
        bits::agree(a, b, end),
        slice::slice_active_refs(a, pps).1.ok(),
        slice::slice_active_refs(a, pps).1.pos <= end,
    ensures
        slice::slice_active_refs(b, pps).0 == slice::slice_active_refs(a, pps).0,
        bits::in_step(
            a,
            b,
            end,
            slice::slice_active_refs(a, pps).1,
            slice::slice_active_refs(b, pps).1,
        ),
{
    broadcast use {bits::group_moves, bits::group_agree};

}

/// This part of a header depends only on its own bits.
proof fn lemma_slice_prediction_agree(
    a: Cursor,
    b: Cursor,
    end: int,
    pps: PpsInfo,
    active_refs_minus1: u32,
)
    requires
        bits::agree(a, b, end),
        slice::slice_prediction(a, pps, active_refs_minus1).ok(),
        slice::slice_prediction(a, pps, active_refs_minus1).pos <= end,
    ensures
        bits::in_step(
            a,
            b,
            end,
            slice::slice_prediction(a, pps, active_refs_minus1),
            slice::slice_prediction(b, pps, active_refs_minus1),
        ),
{
    broadcast use {bits::group_moves, bits::group_agree};

}

/// This part of a header depends only on its own bits.
proof fn lemma_slice_qp_agree(
    a: Cursor,
    b: Cursor,
    end: int,
    pps: PpsInfo,
)
    requires
        bits::agree(a, b, end),
        slice::slice_qp(a, pps).ok(),
        slice::slice_qp(a, pps).pos <= end,
    ensures
        bits::in_step(
            a,
            b,
            end,
            slice::slice_qp(a, pps),
            slice::slice_qp(b, pps),
        ),
{
    broadcast use {bits::group_moves, bits::group_agree};

}

/// This part of a header depends only on its own bits.
proof fn lemma_slice_deblocking_agree(
    a: Cursor,
    b: Cursor,
    end: int,
    pps: PpsInfo,
)
    requires
        bits::agree(a, b, end),
        slice::slice_deblocking(a, pps).1.ok(),
        slice::slice_deblocking(a, pps).1.pos <= end,
    ensures
        slice::slice_deblocking(b, pps).0 == slice::slice_deblocking(a, pps).0,
        bits::in_step(
            a,
            b,
            end,
            slice::slice_deblocking(a, pps).1,
            slice::slice_deblocking(b, pps).1,
        ),
{
    broadcast use {bits::group_moves, bits::group_agree};

}

/// This part of a header depends only on its own bits.
proof fn lemma_slice_entry_points_agree(
    a: Cursor,
    b: Cursor,
    end: int,
    pps: PpsInfo,
)
    requires
        bits::agree(a, b, end),
        slice::slice_entry_points(a, pps).ok(),
        slice::slice_entry_points(a, pps).pos <= end,
    ensures
        bits::in_step(
            a,
            b,
            end,
            slice::slice_entry_points(a, pps),
            slice::slice_entry_points(b, pps),
        ),
{
    broadcast use {bits::group_moves, bits::group_agree};

}

/// The tail of a header depends only on its own bits.
#[verifier::rlimit(40)]
proof fn lemma_slice_tail_agree(a: Cursor, b: Cursor, end: int, pps: PpsInfo, sao: bool)
    requires
        bits::agree(a, b, end),
        slice::slice_tail(a, pps, sao).ok(),
        slice::slice_tail(a, pps, sao).pos <= end,
    ensures
        bits::in_step(
            a,
            b,
            end,
            slice::slice_tail(a, pps, sao),
            slice::slice_tail(b, pps, sao),
        ),
{
    broadcast use {
        bits::group_moves,
        bits::group_agree,
        slice::group_slice_moves,
        slice::group_slice_failed,
    };

    let a1 = slice::slice_qp(a, pps);
    let b1 = slice::slice_qp(b, pps);
    let (disabled, a2) = slice::slice_deblocking(a1, pps);
    let b2 = slice::slice_deblocking(b1, pps).1;
    let filter = pps.loop_filter_across_slices && (sao || !disabled);
    let a3 = if filter {
        a2.skip_u(1)
    } else {
        a2
    };
    let b3 = if filter {
        b2.skip_u(1)
    } else {
        b2
    };
    assert(a3.ok() && a2.ok() && a1.ok());
    lemma_slice_qp_agree(a, b, end, pps);
    lemma_slice_deblocking_agree(a1, b1, end, pps);
    lemma_slice_entry_points_agree(a3, b3, end, pps);
}

/// The RPS of a slice depends only on its own bits.
proof fn lemma_slice_rps_agree(a: Cursor, b: Cursor, end: int, sets: Seq<Seq<RpsEntry>>)
    requires
        bits::agree(a, b, end),
        slice::slice_rps(a, sets).1.ok(),
        slice::slice_rps(a, sets).1.pos <= end,
    ensures
        slice::slice_rps(b, sets).0 == slice::slice_rps(a, sets).0,
        bits::in_step(a, b, end, slice::slice_rps(a, sets).1, slice::slice_rps(b, sets).1),
{
    broadcast use {bits::group_moves, bits::group_agree};
    broadcast use rps::lemma_direct_st_rps_failed;

    let num_sets = sets.len() as u32;
    let (sps_flag, a1) = a.flag();
    let b1 = b.flag().1;
    if !sps_flag {
        let a2 = if num_sets > 0 {
            a1.flag().1.ensure(!a1.flag().0, super::error::HevcError::PredictedSliceRps)
        } else {
            a1
        };
        let b2 = if num_sets > 0 {
            b1.flag().1.ensure(!b1.flag().0, super::error::HevcError::PredictedSliceRps)
        } else {
            b1
        };
        rps::lemma_direct_st_rps_moves(a2);
        rps::lemma_direct_st_rps_agree(a2, b2, end);
    }
}

/// The references of a slice depend only on their own bits.
proof fn lemma_slice_refs_agree(a: Cursor, b: Cursor, end: int, nal_type: u8, sps: SpsFields)
    requires
        a.pos == b.pos,
        bits::agree(a, b, end),
        slice::slice_refs(a, nal_type, sps).1.ok(),
        slice::slice_refs(a, nal_type, sps).1.pos <= end,
    ensures
        slice::slice_refs(b, nal_type, sps).0 == slice::slice_refs(a, nal_type, sps).0,
        bits::in_step(
            a,
            b,
            end,
            slice::slice_refs(a, nal_type, sps).1,
            slice::slice_refs(b, nal_type, sps).1,
        ),
{
    broadcast use {
        bits::group_moves,
        bits::group_agree,
        slice::group_slice_moves,
        slice::group_slice_failed,
    };

    if slice::idr(nal_type) {
        reveal(bits::agree);
    } else {
        let a1 = a.u(sps.poc_lsb_bits).1;
        let b1 = b.u(sps.poc_lsb_bits).1;
        let a2 = slice::slice_rps(a1, sps.short_term_rps).1;
        let b2 = slice::slice_rps(b1, sps.short_term_rps).1;
        assert(a2.ok());
        lemma_slice_rps_agree(a1, b1, end, sps.short_term_rps);
        lemma_slice_long_term_agree(a2, b2, end, sps);
    }
}

/// The P slice part of a header depends only on its own bits.
proof fn lemma_slice_p_part_agree(
    a: Cursor,
    b: Cursor,
    end: int,
    pps: PpsInfo,
    is_p: bool,
    src_total: u32,
    out_total: u32,
)
    requires
        a.pos == b.pos,
        bits::agree(a, b, end),
        slice::slice_p_part(a, pps, is_p, src_total, out_total).1.ok(),
        slice::slice_p_part(a, pps, is_p, src_total, out_total).1.pos <= end,
    ensures
        slice::slice_p_part(b, pps, is_p, src_total, out_total).0 == slice::slice_p_part(
            a,
            pps,
            is_p,
            src_total,
            out_total,
        ).0,
        bits::in_step(
            a,
            b,
            end,
            slice::slice_p_part(a, pps, is_p, src_total, out_total).1,
            slice::slice_p_part(b, pps, is_p, src_total, out_total).1,
        ),
{
    broadcast use {
        bits::group_moves,
        bits::group_agree,
        slice::group_slice_moves,
        slice::group_slice_failed,
    };

    if is_p {
        let (active, a1) = slice::slice_active_refs(a, pps);
        let b1 = slice::slice_active_refs(b, pps).1;
        let a2 = slice::slice_list_modification(a1, pps, src_total, out_total);
        let b2 = slice::slice_list_modification(b1, pps, src_total, out_total);
        assert(a2.ok());
        lemma_slice_active_refs_agree(a, b, end, pps);
        lemma_slice_prediction_agree(a2, b2, end, pps, active);
    } else {
        reveal(bits::agree);
    }
}

/// A slice header depends only on its own bits.
#[verifier::rlimit(40)]
proof fn lemma_slice_syntax_agree(
    a: Cursor,
    b: Cursor,
    end: int,
    nal_type: u8,
    sps: SpsFields,
    pps: PpsInfo,
    replacement: Option<Seq<RpsEntry>>,
)
    requires
        a.ok(),
        0 <= a.pos <= a.bits.len(),
        a.pos == b.pos,
        bits::agree(a, b, end),
        slice::slice_syntax(a, nal_type, sps, pps, replacement).1.ok(),
        slice::slice_syntax(a, nal_type, sps, pps, replacement).1.pos <= end,
    ensures
        slice::slice_syntax(b, nal_type, sps, pps, replacement).0 == slice::slice_syntax(
            a,
            nal_type,
            sps,
            pps,
            replacement,
        ).0,
        slice::slice_syntax(b, nal_type, sps, pps, replacement).1 == b.at(
            slice::slice_syntax(a, nal_type, sps, pps, replacement).1.pos,
        ),
{
    lemma_syntax_order(a, nal_type, sps, pps, replacement);
    reveal(slice::slice_syntax);
    let (is_p, a1) = slice::slice_prefix(a, nal_type, sps, pps);
    let b1 = slice::slice_prefix(b, nal_type, sps, pps).1;
    let (refs, a2) = slice::slice_refs(a1, nal_type, sps);
    let b2 = slice::slice_refs(b1, nal_type, sps).1;
    let (sao, a3) = slice::slice_sao(a2, sps);
    let b3 = slice::slice_sao(b2, sps).1;
    let src_total = rps::used_count(refs.rps.entries) as u32;
    let out = slice::out_total(refs, replacement);
    let a4 = slice::slice_p_part(a3, pps, is_p, src_total, out).1;
    let b4 = slice::slice_p_part(b3, pps, is_p, src_total, out).1;
    lemma_slice_prefix_agree(a, b, end, nal_type, sps, pps);
    lemma_slice_refs_agree(a1, b1, end, nal_type, sps);
    lemma_slice_sao_agree(a2, b2, end, sps);
    lemma_slice_p_part_agree(a3, b3, end, pps, is_p, src_total, out);
    lemma_slice_tail_agree(a4, b4, end, pps, sao);
}

/// What a slice says does not change when bytes are appended to it.
pub proof fn law_slice_depends_on_its_own_bits(
    nal: Seq<u8>,
    tail: Seq<u8>,
    sps: SpsFields,
    pps: PpsInfo,
)
    requires
        slice::slice_of(nal, sps, pps) is Ok,
    ensures
        slice::slice_of(nal + tail, sps, pps) == slice::slice_of(nal, sps, pps),
{
    let ty = bitstream::header_type(nal[0]);
    let a = Cursor::start(headers::payload_bits(nal));
    let b = Cursor::start(headers::payload_bits(nal + tail));
    header_laws::lemma_payload_appended(nal, tail);
    lemma_syntax_order(a, ty, sps, pps, None);
    lemma_slice_syntax_agree(a, b, a.bits.len() as int, ty, sps, pps, None);
    assert((nal + tail)[0] == nal[0]);
}

/// The syntax of an inline RPS reads back as the entries in canonical order.
proof fn lemma_inline_rps_reads(c: Cursor, sets: Seq<Seq<RpsEntry>>, entries: Seq<RpsEntry>)
    requires
        rps::encodable(entries),
        rps::side_of(entries, true).len() <= 16,
        rps::side_of(entries, false).len() <= 16,
        bits::follows(c, slice::inline_rps_bits(sets.len() as u32, entries)),
    ensures
        slice::slice_rps(c, sets) == (
            slice::SliceRps {
                entries: rps::canonical_rps(entries),
                inline: true,
                negatives: rps::side_of(entries, true).len(),
            },
            c.at(c.pos + slice::inline_rps_bits(sets.len() as u32, entries).len()),
        ),
{
    let num_sets = sets.len() as u32;
    let before = rps::side_of(entries, true);
    let after = rps::side_of(entries, false);
    let set_bits = rps::rps_bits(before, after);
    rps::lemma_side_ordered(entries, true);
    rps::lemma_side_ordered(entries, false);
    let one = seq![false];
    if num_sets > 0 {
        assert(slice::inline_rps_bits(num_sets, entries) =~= one + (one + set_bits));
        bits::lemma_follows_split(c, one, one + set_bits);
        let c1 = c.at(c.pos + 1);
        bits::lemma_follows_split(c1, one, set_bits);
        bits::lemma_flag_reads(c, false);
        bits::lemma_flag_reads(c1, false);
        rps::lemma_rps_reads(c1.at(c1.pos + 1), before, after);
    } else {
        assert(slice::inline_rps_bits(num_sets, entries) =~= one + set_bits);
        bits::lemma_follows_split(c, one, set_bits);
        bits::lemma_flag_reads(c, false);
        rps::lemma_rps_reads(c.at(c.pos + 1), before, after);
    }
}

/// What stands in a rewritten header in place of the RPS.
pub open spec fn rps_part(nal_type: u8, num_sets: u32, entries: Seq<RpsEntry>) -> Seq<bool> {
    if slice::idr(nal_type) {
        Seq::empty()
    } else {
        slice::inline_rps_bits(num_sets, entries)
    }
}

/// Whether an inline RPS of a slice can hold the entries: none twice, at most 16 on
/// each side.
pub open spec fn fits_inline(entries: Seq<RpsEntry>) -> bool {
    &&& rps::encodable(entries)
    &&& rps::side_of(entries, true).len() <= 16
    &&& rps::side_of(entries, false).len() <= 16
}

/// Whether the entries call for a list modification flag, if there is such a flag,
/// exactly if those that have a place in a set do. (An entry for the current picture
/// itself has none, but counts if it is marked as used.)
pub open spec fn counts_agree(pps: PpsInfo, entries: Seq<RpsEntry>) -> bool {
    pps.lists_modification_present ==> (rps::used_count(entries) as u32 > 1) == (
    rps::used_count(rps::canonical_rps(entries)) as u32 > 1)
}

/// Whether a slice with the header bits `src` can be read back once `entries` stand in
/// place of its RPS: they fit, and a P slice has a list modification flag exactly if
/// it is taken to have one. (An IDR slice has no RPS.)
pub open spec fn reads_back(
    src: Seq<bool>,
    nal_type: u8,
    sps: SpsFields,
    pps: PpsInfo,
    entries: Seq<RpsEntry>,
) -> bool {
    let is_p = slice::slice_prefix(Cursor::start(src), nal_type, sps, pps).0;
    !slice::idr(nal_type) ==> fits_inline(entries) && (is_p ==> counts_agree(pps, entries))
}

/// The references of a rewritten header are the new ones.
#[verifier::rlimit(40)]
proof fn lemma_refs_rewritten(
    a: Cursor,
    b: Cursor,
    end: int,
    nal_type: u8,
    sps: SpsFields,
    entries: Seq<RpsEntry>,
)
    requires
        slice::slice_refs(a, nal_type, sps).1.ok(),
        slice::slice_refs(a, nal_type, sps).1.pos <= end,
        !slice::idr(nal_type) ==> fits_inline(entries),
        ({
            let refs = slice::slice_refs(a, nal_type, sps).0;
            let part = rps_part(nal_type, sps.short_term_rps.len() as u32, entries);
            let at = b.pos + (refs.rps_at - a.pos);
            &&& bits::agree(a, b, refs.rps_at)
            &&& bits::follows(b.at(at), part)
            &&& bits::agree(a.at(refs.rps_end), b.at(at + part.len()), end)
        }),
    ensures
        ({
            let (refs, a1) = slice::slice_refs(a, nal_type, sps);
            let (new_refs, b1) = slice::slice_refs(b, nal_type, sps);
            let part = rps_part(nal_type, sps.short_term_rps.len() as u32, entries);
            &&& new_refs.poc_lsb == refs.poc_lsb
            &&& new_refs.rps.entries == if slice::idr(nal_type) {
                Seq::empty()
            } else {
                rps::canonical_rps(entries)
            }
            &&& new_refs.rps_at == b.pos + (refs.rps_at - a.pos)
            &&& new_refs.rps_end == new_refs.rps_at + part.len()
            &&& bits::agree(a1, b1, end)
            &&& b1 == b.at(new_refs.rps_end + (a1.pos - refs.rps_end))
        }),
{
    broadcast use {
        bits::group_moves,
        bits::group_agree,
        slice::group_slice_moves,
        slice::group_slice_failed,
    };

    let (refs, a1) = slice::slice_refs(a, nal_type, sps);
    let part = rps_part(nal_type, sps.short_term_rps.len() as u32, entries);
    let at = b.pos + (refs.rps_at - a.pos);
    if slice::idr(nal_type) {
        assert(b.at(at) == b);
    } else {
        let a_rps = a.u(sps.poc_lsb_bits).1;
        let b_rps = b.u(sps.poc_lsb_bits).1;
        assert(a_rps.ok());
        bits::lemma_agree_u(a, b, refs.rps_at, sps.poc_lsb_bits);
        assert(b_rps == b.at(at));
        lemma_inline_rps_reads(b_rps, sps.short_term_rps, entries);
        let a_end = slice::slice_rps(a_rps, sps.short_term_rps).1;
        assert(a_end == a.at(refs.rps_end));
        let b_end = slice::slice_rps(b_rps, sps.short_term_rps).1;
        assert(b_end == b.at(at + part.len()));
        lemma_slice_long_term_agree(a_end, b_end, end, sps);
    }
}

/// What stands in a rewritten header in place of the list modification flag.
pub open spec fn list_part(list: (int, int), total: u32) -> Seq<bool> {
    if list.0 < list.1 && total > 1 {
        seq![false]
    } else {
        Seq::empty()
    }
}

/// The P slice part of a rewritten header reads as one for `total` references.
#[verifier::rlimit(40)]
proof fn lemma_p_part_rewritten(
    a: Cursor,
    b: Cursor,
    end: int,
    pps: PpsInfo,
    is_p: bool,
    src_total: u32,
    total: u32,
)
    requires
        slice::slice_p_part(a, pps, is_p, src_total, total).1.ok(),
        slice::slice_p_part(a, pps, is_p, src_total, total).1.pos <= end,
        ({
            let list = slice::slice_p_part(a, pps, is_p, src_total, total).0;
            let part = list_part(list, total);
            let at = b.pos + (list.0 - a.pos);
            &&& bits::agree(a, b, list.0)
            &&& bits::follows(b.at(at), part)
            &&& bits::agree(a.at(list.1), b.at(at + part.len()), end)
        }),
    ensures
        ({
            let (list, a1) = slice::slice_p_part(a, pps, is_p, src_total, total);
            let (new_list, b1) = slice::slice_p_part(b, pps, is_p, total, total);
            let part = list_part(list, total);
            &&& new_list.0 == b.pos + (list.0 - a.pos)
            &&& new_list.1 == new_list.0 + part.len()
            &&& bits::agree(a1, b1, end)
            &&& b1 == b.at(new_list.1 + (a1.pos - list.1))
        }),
{
    broadcast use {
        bits::group_moves,
        slice::group_slice_moves,
        slice::group_slice_failed,
    };

    let (list, a1) = slice::slice_p_part(a, pps, is_p, src_total, total);
    let part = list_part(list, total);
    let at = b.pos + (list.0 - a.pos);
    if is_p {
        let (active, a_list) = slice::slice_active_refs(a, pps);
        let b_list = slice::slice_active_refs(b, pps).1;
        assert(a_list.ok());
        lemma_slice_active_refs_agree(a, b, list.0, pps);
        assert(b_list == b.at(at));
        let a_end = slice::slice_list_modification(a_list, pps, src_total, total);
        let b_end = slice::slice_list_modification(b_list, pps, total, total);
        assert(a_end == a.at(list.1));
        if pps.lists_modification_present && total > 1 {
            assert(part == seq![false]);
            bits::lemma_flag_reads(b_list, false);
        } else {
            assert(part == Seq::<bool>::empty());
        }
        assert(b_end == b.at(at + part.len()));
        lemma_slice_prediction_agree(a_end, b_end, end, pps, active);
    } else {
        assert(part == Seq::<bool>::empty());
        assert(b.at(at) == b);
    }
}

/// The alignment behind a rewritten header reads back.
pub proof fn lemma_alignment_reads(c: Cursor, header: Seq<bool>, rest: Seq<bool>)
    requires
        c.ok(),
        c.bits == slice::aligned(header) + rest,
        c.pos == header.len(),
    ensures
        slice::alignment(c) == c.at(slice::aligned(header).len() as int),
{
    let n = slice::padding(header.len() as int + 1);
    let one = seq![true];
    let zeros = bits::zero_bits(n);
    assert(c.bits.subrange(c.pos, c.pos + (one + zeros).len()) =~= one + zeros);
    bits::lemma_follows_split(c, one, zeros);
    bits::lemma_flag_reads(c, true);
    lemma_zero_alignment_reads(c.at(c.pos + 1), n);
}

/// Zero bits read as zero bits.
proof fn lemma_zero_alignment_reads(c: Cursor, n: nat)
    requires
        bits::follows(c, bits::zero_bits(n)),
    ensures
        slice::zero_alignment(c, n) == c.at(c.pos + n),
    decreases n,
{
    if n > 0 {
        let rest = bits::zero_bits((n - 1) as nat);
        assert(bits::zero_bits(n) =~= seq![false] + rest);
        bits::lemma_follows_split(c, seq![false], rest);
        bits::lemma_flag_reads(c, false);
        lemma_zero_alignment_reads(c.at(c.pos + 1), (n - 1) as nat);
    }
}

/// The bits of a concatenation.
pub proof fn lemma_bits_of_concat(x: Seq<u8>, y: Seq<u8>)
    ensures
        bits::bits_of(x + y) == bits::bits_of(x) + bits::bits_of(y),
{
    let all = bits::bits_of(x + y);
    let parts = bits::bits_of(x) + bits::bits_of(y);
    assert forall|i: int| 0 <= i < all.len() implies #[trigger] all[i] == parts[i] by {
        if i >= x.len() * 8 {
            let j = i - x.len() * 8;
            assert(i / 8 == x.len() + j / 8 && i % 8 == j % 8);
        }
    }
    assert(all =~= parts);
}

/// Where the parts of a parsed header stand, and where reading each part ends.
proof fn lemma_syntax_order(
    c: Cursor,
    nal_type: u8,
    sps: SpsFields,
    pps: PpsInfo,
    replacement: Option<Seq<RpsEntry>>,
)
    requires
        c.ok(),
        0 <= c.pos <= c.bits.len(),
        slice::slice_syntax(c, nal_type, sps, pps, replacement).1.ok(),
    ensures
        ({
            let (s, end) = slice::slice_syntax(c, nal_type, sps, pps, replacement);
            let (is_p, c1) = slice::slice_prefix(c, nal_type, sps, pps);
            let (refs, c2) = slice::slice_refs(c1, nal_type, sps);
            let (sao, c3) = slice::slice_sao(c2, sps);
            let src_total = rps::used_count(refs.rps.entries) as u32;
            let out = slice::out_total(refs, replacement);
            let (list, c4) = slice::slice_p_part(c3, pps, is_p, src_total, out);
            &&& c1 == c.at(c1.pos) && c2 == c.at(c2.pos) && c3 == c.at(c3.pos)
            &&& c4 == c.at(c4.pos) && end == c.at(s.end)
            &&& c.pos <= c1.pos <= s.rps_at <= s.rps_end <= c2.pos <= c3.pos <= s.list_at
            &&& s.list_at <= s.list_end <= c4.pos <= s.end <= c.bits.len()
            &&& s.poc_lsb is None <==> slice::idr(nal_type)
        }),
{
    broadcast use {
        bits::group_moves,
        slice::group_slice_moves,
        slice::group_slice_failed,
    };

    reveal(slice::slice_syntax);
}

/// The rewritten header of `src` with `entries`, followed by `rest`.
spec fn rewritten_bits(
    src: Seq<bool>,
    rest: Seq<bool>,
    nal_type: u8,
    sps: SpsFields,
    pps: PpsInfo,
    entries: Seq<RpsEntry>,
) -> Seq<bool> {
    let s = slice::slice_syntax(Cursor::start(src), nal_type, sps, pps, Some(entries)).0;
    slice::rewritten_header(src, s, sps.short_term_rps.len() as u32, entries) + rest
}

/// In bits made of three pieces of `src` with `x` and `y` between them, the pieces
/// agree with where they came from, and `x` and `y` follow at their places.
proof fn lemma_spliced(
    src: Seq<bool>,
    p1: int,
    x: Seq<bool>,
    p2: int,
    p3: int,
    y: Seq<bool>,
    p4: int,
    p5: int,
    rest: Seq<bool>,
)
    requires
        0 <= p1 <= p2 <= p3 <= p4 <= p5 <= src.len(),
    ensures
        ({
            let a = Cursor::start(src);
            let b = Cursor::start(
                src.take(p1) + x + src.subrange(p2, p3) + y + src.subrange(p4, p5) + rest,
            );
            let at2 = p1 + x.len();
            let at3 = at2 + (p3 - p2);
            let at4 = at3 + y.len();
            &&& bits::agree(a, b, p1)
            &&& bits::follows(b.at(p1), x)
            &&& bits::agree(a.at(p2), b.at(at2), p3)
            &&& bits::follows(b.at(at3), y)
            &&& bits::agree(a.at(p4), b.at(at4), p5)
            &&& b.bits.len() == at4 + (p5 - p4) + rest.len()
        }),
{
    let a = Cursor::start(src);
    let s0 = src.take(p1);
    let s1 = src.subrange(p2, p3);
    let s2 = src.subrange(p4, p5);
    let out = s0 + x + s1 + y + s2 + rest;
    let after0 = x + s1 + y + s2 + rest;
    let after1 = y + s2 + rest;
    assert(out =~= Seq::<bool>::empty() + src.subrange(0, p1) + after0);
    bits::lemma_agree_copied(src, 0, p1, Seq::empty(), after0);
    assert(a.at(0) == a);
    assert(out =~= (s0 + x) + s1 + after1);
    bits::lemma_agree_copied(src, p2, p3, s0 + x, after1);
    bits::lemma_agree_copied(src, p4, p5, s0 + x + s1 + y, rest);
    let at3 = p1 + x.len() + (p3 - p2);
    assert(out.subrange(p1, p1 + x.len()) =~= x);
    assert(out.subrange(at3, at3 + y.len()) =~= y);
}

/// The parts of a rewritten header that were copied agree with where they came
/// from, and the others follow at their places.
proof fn lemma_parts_rewritten(
    src: Seq<bool>,
    rest: Seq<bool>,
    nal_type: u8,
    sps: SpsFields,
    pps: PpsInfo,
    entries: Seq<RpsEntry>,
)
    requires
        slice::slice_syntax(Cursor::start(src), nal_type, sps, pps, Some(entries)).1.ok(),
    ensures
        ({
            let a = Cursor::start(src);
            let s = slice::slice_syntax(a, nal_type, sps, pps, Some(entries)).0;
            let b = Cursor::start(rewritten_bits(src, rest, nal_type, sps, pps, entries));
            let r_part = rps_part(nal_type, sps.short_term_rps.len() as u32, entries);
            let l_part = list_part((s.list_at, s.list_end), rps::used_count(entries) as u32);
            let at2 = s.rps_at + r_part.len();
            let at3 = at2 + (s.list_at - s.rps_end);
            let at4 = at3 + l_part.len();
            &&& bits::agree(a, b, s.rps_at)
            &&& bits::follows(b.at(s.rps_at), r_part)
            &&& bits::agree(a.at(s.rps_end), b.at(at2), s.list_at)
            &&& bits::follows(b.at(at3), l_part)
            &&& bits::agree(a.at(s.list_end), b.at(at4), s.end)
            &&& b.bits.len() == at4 + (s.end - s.list_end) + rest.len()
        }),
{
    let s = slice::slice_syntax(Cursor::start(src), nal_type, sps, pps, Some(entries)).0;
    lemma_syntax_order(Cursor::start(src), nal_type, sps, pps, Some(entries));
    let r_part = rps_part(nal_type, sps.short_term_rps.len() as u32, entries);
    let l_part = list_part((s.list_at, s.list_end), rps::used_count(entries) as u32);
    assert(rewritten_bits(src, rest, nal_type, sps, pps, entries) == src.take(s.rps_at) + r_part
        + src.subrange(s.rps_end, s.list_at) + l_part + src.subrange(s.list_end, s.end) + rest);
    lemma_spliced(
        src,
        s.rps_at,
        r_part,
        s.rps_end,
        s.list_at,
        l_part,
        s.list_end,
        s.end,
        rest,
    );
}

/// A slice that has no references has no list modification flag.
proof fn lemma_no_list_flag(c: Cursor, pps: PpsInfo, is_p: bool, src_total: u32, out_total: u32)
    requires
        src_total <= 1,
    ensures
        ({
            let list = slice::slice_p_part(c, pps, is_p, src_total, out_total).0;
            list.0 == list.1
        }),
{
}

/// Of the number of references, only whether it is more than one matters, and that
/// only to P slices, if there are list modification flags.
proof fn lemma_p_part_totals(c: Cursor, pps: PpsInfo, is_p: bool, a: u32, b: u32)
    requires
        is_p && pps.lists_modification_present ==> (a > 1) == (b > 1),
    ensures
        slice::slice_p_part(c, pps, is_p, a, a) == slice::slice_p_part(c, pps, is_p, b, b),
{
}

/// A rewritten header, followed by anything, reads as the source header with the
/// new references.
#[verifier::rlimit(40)]
proof fn lemma_header_rewritten(
    src: Seq<bool>,
    rest: Seq<bool>,
    nal_type: u8,
    sps: SpsFields,
    pps: PpsInfo,
    entries: Seq<RpsEntry>,
)
    requires
        slice::slice_syntax(Cursor::start(src), nal_type, sps, pps, Some(entries)).1.ok(),
        reads_back(src, nal_type, sps, pps, entries),
    ensures
        ({
            let a = Cursor::start(src);
            let s = slice::slice_syntax(a, nal_type, sps, pps, Some(entries)).0;
            let b = Cursor::start(rewritten_bits(src, rest, nal_type, sps, pps, entries));
            let (t, c) = slice::slice_syntax(b, nal_type, sps, pps, None);
            let r_part = rps_part(nal_type, sps.short_term_rps.len() as u32, entries);
            let l_part = list_part((s.list_at, s.list_end), rps::used_count(entries) as u32);
            &&& slice::slice_prefix(b, nal_type, sps, pps).0 == slice::slice_prefix(
                a,
                nal_type,
                sps,
                pps,
            ).0
            &&& t.rps_at == s.rps_at
            &&& t.rps_end == t.rps_at + r_part.len()
            &&& t.list_at == t.rps_end + (s.list_at - s.rps_end)
            &&& t.list_end == t.list_at + l_part.len()
            &&& t.end == t.list_end + (s.end - s.list_end)
            &&& t.poc_lsb == s.poc_lsb
            &&& t.rps.entries == if slice::idr(nal_type) {
                Seq::empty()
            } else {
                rps::canonical_rps(entries)
            }
            &&& c == b.at(b.bits.len() - rest.len())
        }),
{
    reveal(slice::slice_syntax);
    let a = Cursor::start(src);
    let (s, _) = slice::slice_syntax(a, nal_type, sps, pps, Some(entries));
    lemma_syntax_order(a, nal_type, sps, pps, Some(entries));
    lemma_parts_rewritten(src, rest, nal_type, sps, pps, entries);
    let r_part = rps_part(nal_type, sps.short_term_rps.len() as u32, entries);
    let total = rps::used_count(entries) as u32;
    let (is_p, a1) = slice::slice_prefix(a, nal_type, sps, pps);
    let (refs, a2) = slice::slice_refs(a1, nal_type, sps);
    let (sao, a3) = slice::slice_sao(a2, sps);
    let src_total = rps::used_count(refs.rps.entries) as u32;
    let out = slice::out_total(refs, Some(entries));
    let (list, a4) = slice::slice_p_part(a3, pps, is_p, src_total, out);
    let a5 = slice::slice_tail(a4, pps, sao);
    assert(list == (s.list_at, s.list_end));
    if slice::idr(nal_type) {
        reveal(Seq::filter);
        lemma_no_list_flag(a3, pps, is_p, src_total, out);
    } else {
        assert(out == total);
    }
    let l_part = list_part(list, out);
    assert(l_part == list_part(list, total));
    let b = Cursor::start(rewritten_bits(src, rest, nal_type, sps, pps, entries));
    let at2 = s.rps_at + r_part.len();
    let at4 = at2 + (s.list_at - s.rps_end) + l_part.len();
    lemma_slice_prefix_agree(a, b, s.rps_at, nal_type, sps, pps);
    let b1 = slice::slice_prefix(b, nal_type, sps, pps).1;
    assert(b1 == b.at(a1.pos));
    assert(b1.at(s.rps_at) == b.at(s.rps_at) && b1.at(at2) == b.at(at2));
    assert(a1.at(s.rps_end) == a.at(s.rps_end));
    lemma_refs_rewritten(a1, b1, s.list_at, nal_type, sps, entries);
    let (new_refs, b2) = slice::slice_refs(b1, nal_type, sps);
    lemma_slice_sao_agree(a2, b2, s.list_at, sps);
    let b3 = slice::slice_sao(b2, sps).1;
    assert(b3 == b.at(at2 + (a3.pos - s.rps_end)));
    let new_total = rps::used_count(new_refs.rps.entries) as u32;
    assert(slice::out_total(new_refs, None) == new_total);
    lemma_p_part_totals(b3, pps, is_p, new_total, out);
    assert(a3.at(s.list_end) == a.at(s.list_end));
    let at3 = b3.pos + (list.0 - a3.pos);
    assert(b3.at(at3) == b.at(at3) && b3.at(at4) == b.at(at4));
    lemma_p_part_rewritten(a3, b3, s.end, pps, is_p, src_total, out);
    let b4 = slice::slice_p_part(b3, pps, is_p, out, out).1;
    assert(b4 == b.at(at4 + (a4.pos - s.list_end)));
    lemma_slice_tail_agree(a4, b4, s.end, pps, sao);
    assert(slice::slice_tail(b4, pps, sao) == b.at(at4 + (s.end - s.list_end)));
}

/// A header that can be rewritten can be inspected, with the same outcome.
proof fn lemma_inspected(
    c: Cursor,
    nal_type: u8,
    sps: SpsFields,
    pps: PpsInfo,
    entries: Seq<RpsEntry>,
)
    requires
        slice::slice_syntax(c, nal_type, sps, pps, Some(entries)).1.ok(),
    ensures
        slice::slice_syntax(c, nal_type, sps, pps, None) == slice::slice_syntax(
            c,
            nal_type,
            sps,
            pps,
            Some(entries),
        ),
{
    broadcast use slice::group_slice_failed;

    reveal(slice::slice_syntax);
    let (is_p, c1) = slice::slice_prefix(c, nal_type, sps, pps);
    let (refs, c2) = slice::slice_refs(c1, nal_type, sps);
    let (sao, c3) = slice::slice_sao(c2, sps);
    let src_total = rps::used_count(refs.rps.entries) as u32;
    let out = slice::out_total(refs, Some(entries));
    let c4 = slice::slice_p_part(c3, pps, is_p, src_total, out).1;
    assert(c4.ok());
    if is_p {
        let c5 = slice::slice_active_refs(c3, pps).1;
        assert(slice::slice_list_modification(c5, pps, src_total, out).ok());
    }
    if slice::idr(nal_type) {
        reveal(Seq::filter);
    }
    assert(slice::slice_p_part(c3, pps, is_p, src_total, slice::out_total(refs, None))
        == slice::slice_p_part(c3, pps, is_p, src_total, out));
}

/// The payload of a slice: the bytes behind its aligned header, without emulation
/// prevention.
pub open spec fn slice_payload(nal: Seq<u8>, sps: SpsFields, pps: PpsInfo) -> Seq<u8> {
    let ty = bitstream::header_type(nal[0]);
    let c = slice::slice_syntax(Cursor::start(headers::payload_bits(nal)), ty, sps, pps, None).1;
    emulation::unescaped(nal.skip(2)).skip(slice::alignment(c).pos / 8)
}

/// What the RBSP of a rewritten slice is made of.
#[verifier::rlimit(40)]
proof fn lemma_rewritten_rbsp(
    nal: Seq<u8>,
    sps: SpsFields,
    pps: PpsInfo,
    entries: Seq<RpsEntry>,
)
    requires
        slice::rewritten(nal, sps, pps, entries) is Ok,
    ensures
        ({
            let ty = bitstream::header_type(nal[0]);
            let rbsp = emulation::unescaped(nal.skip(2));
            let src = bits::bits_of(rbsp);
            let (s, c) = slice::slice_syntax(Cursor::start(src), ty, sps, pps, Some(entries));
            let header = slice::rewritten_header(
                src,
                s,
                sps.short_term_rps.len() as u32,
                entries,
            );
            let payload = rbsp.skip(slice::alignment(c).pos / 8);
            let out = slice::rewritten(nal, sps, pps, entries)->Ok_0;
            &&& nal.len() > 2 && ty < 32
            &&& c.ok() && slice::alignment(c).ok()
            &&& out.len() > 2
            &&& out[0] == nal[0]
            &&& out.take(2) == nal.take(2)
            &&& emulation::unescaped(out.skip(2)) == bits::bytes_of(slice::aligned(header))
                + payload
            &&& headers::payload_bits(out) == slice::aligned(header) + bits::bits_of(payload)
        }),
{
    let ty = bitstream::header_type(nal[0]);
    let rbsp = emulation::unescaped(nal.skip(2));
    let src = bits::bits_of(rbsp);
    let (s, c) = slice::slice_syntax(Cursor::start(src), ty, sps, pps, Some(entries));
    slice::lemma_alignment_failed(c);
    let header = slice::rewritten_header(src, s, sps.short_term_rps.len() as u32, entries);
    let at = slice::alignment(c).pos;
    let payload = rbsp.skip(at / 8);
    let out_rbsp = slice::reassembled(rbsp, header, at);
    let out = nal.take(2) + emulation::escaped(out_rbsp);
    assert(out == slice::rewritten(nal, sps, pps, entries)->Ok_0);
    assert(out.skip(2) =~= emulation::escaped(out_rbsp));
    assert(out.take(2) =~= nal.take(2));
    emulation::law_unescape_undoes_escape(out_rbsp);
    let all = slice::aligned(header);
    bits::lemma_bits_of_bytes(all);
    lemma_bits_of_concat(bits::bytes_of(all), payload);
    assert(all.len() >= 8);
    assert(out_rbsp.len() > 0);
    assert(out.len() > 2);
    assert(out[0] == nal[0]);
}

/// A slice that has been rewritten says what it said before, except that its
/// RPS is now made of `entries`, in HEVC's order. An IDR slice, which has no
/// RPS, says what it said before. Both slices have the same payload.
#[verifier::rlimit(40)]
pub proof fn law_rewritten_slice_says_entries(
    nal: Seq<u8>,
    sps: SpsFields,
    pps: PpsInfo,
    entries: Seq<RpsEntry>,
)
    requires
        slice::rewritten(nal, sps, pps, entries) is Ok,
        reads_back(
            headers::payload_bits(nal),
            bitstream::header_type(nal[0]),
            sps,
            pps,
            entries,
        ),
    ensures
        ({
            let out = slice::rewritten(nal, sps, pps, entries)->Ok_0;
            &&& slice::slice_of(nal, sps, pps) is Ok
            &&& slice::slice_of(out, sps, pps) == Ok::<SliceFields, super::error::HevcError>(
                SliceFields {
                    poc_lsb: slice::slice_of(nal, sps, pps)->Ok_0.poc_lsb,
                    rps: if slice::idr(bitstream::header_type(nal[0])) {
                        Seq::empty()
                    } else {
                        rps::canonical_rps(entries)
                    },
                },
            )
            &&& out.take(2) == nal.take(2)
            &&& slice_payload(out, sps, pps) == slice_payload(nal, sps, pps)
        }),
{
    lemma_rewritten_rbsp(nal, sps, pps, entries);
    let ty = bitstream::header_type(nal[0]);
    let rbsp = emulation::unescaped(nal.skip(2));
    let src = bits::bits_of(rbsp);
    let a = Cursor::start(src);
    let (s, c) = slice::slice_syntax(a, ty, sps, pps, Some(entries));
    lemma_inspected(a, ty, sps, pps, entries);
    let header = slice::rewritten_header(src, s, sps.short_term_rps.len() as u32, entries);
    let payload = rbsp.skip(slice::alignment(c).pos / 8);
    let out = slice::rewritten(nal, sps, pps, entries)->Ok_0;
    let all = slice::aligned(header);
    let rest = seq![true] + bits::zero_bits(slice::padding(header.len() as int + 1))
        + bits::bits_of(payload);
    assert(all + bits::bits_of(payload) =~= header + rest);
    lemma_header_rewritten(src, rest, ty, sps, pps, entries);
    let b = Cursor::start(header + rest);
    let c2 = slice::slice_syntax(b, ty, sps, pps, None).1;
    lemma_alignment_reads(c2, header, bits::bits_of(payload));
    let front = bits::bytes_of(all);
    assert(slice::alignment(c2).pos / 8 == front.len());
    assert((front + payload).skip(front.len() as int) =~= payload);
}

/// Whether the RPS of a header may be replaced by `entries`: not if they are the
/// first to call for a list modification flag.
spec fn admits(
    c: Cursor,
    nal_type: u8,
    sps: SpsFields,
    pps: PpsInfo,
    entries: Seq<RpsEntry>,
) -> bool {
    let is_p = slice::slice_prefix(c, nal_type, sps, pps).0;
    let s = slice::slice_syntax(c, nal_type, sps, pps, None).0;
    !slice::idr(nal_type) && is_p && pps.lists_modification_present && rps::used_count(
        entries,
    ) as u32 > 1 ==> rps::used_count(s.rps.entries) as u32 > 1
}

/// A header that can be inspected can be rewritten if it admits the entries, and
/// only then.
proof fn lemma_admitted(
    c: Cursor,
    nal_type: u8,
    sps: SpsFields,
    pps: PpsInfo,
    entries: Seq<RpsEntry>,
)
    requires
        slice::slice_syntax(c, nal_type, sps, pps, None).1.ok(),
    ensures
        slice::slice_syntax(c, nal_type, sps, pps, Some(entries)).1.ok() <==> admits(
            c,
            nal_type,
            sps,
            pps,
            entries,
        ),
        admits(c, nal_type, sps, pps, entries) ==> slice::slice_syntax(
            c,
            nal_type,
            sps,
            pps,
            Some(entries),
        ) == slice::slice_syntax(c, nal_type, sps, pps, None),
{
    broadcast use slice::group_slice_failed;

    reveal(slice::slice_syntax);
    let (is_p, c1) = slice::slice_prefix(c, nal_type, sps, pps);
    let (refs, c2) = slice::slice_refs(c1, nal_type, sps);
    let (sao, c3) = slice::slice_sao(c2, sps);
    let src_total = rps::used_count(refs.rps.entries) as u32;
    let out = slice::out_total(refs, Some(entries));
    let c4 = slice::slice_p_part(c3, pps, is_p, src_total, out).1;
    if slice::idr(nal_type) {
        reveal(Seq::filter);
    }
    if is_p {
        let c5 = slice::slice_active_refs(c3, pps).1;
        let c6 = slice::slice_list_modification(c5, pps, src_total, out);
        if !admits(c, nal_type, sps, pps, entries) {
            assert(!c6.ok());
            assert(!c4.ok());
        }
    }
}

/// The list modification flag stands only in a P slice that has references.
proof fn lemma_list_flag_of_p_slice(
    c: Cursor,
    nal_type: u8,
    sps: SpsFields,
    pps: PpsInfo,
    replacement: Option<Seq<RpsEntry>>,
)
    requires
        c.ok(),
        0 <= c.pos <= c.bits.len(),
        slice::slice_syntax(c, nal_type, sps, pps, replacement).1.ok(),
    ensures
        ({
            let s = slice::slice_syntax(c, nal_type, sps, pps, replacement).0;
            s.list_at < s.list_end ==> {
                &&& !slice::idr(nal_type)
                &&& slice::slice_prefix(c, nal_type, sps, pps).0
                &&& pps.lists_modification_present
            }
        }),
{
    lemma_syntax_order(c, nal_type, sps, pps, replacement);
    reveal(slice::slice_syntax);
    reveal(Seq::filter);
}

/// Rewriting a rewritten header gives what rewriting the source header gives.
#[verifier::rlimit(40)]
proof fn lemma_header_rewritten_again(
    src: Seq<bool>,
    rest: Seq<bool>,
    nal_type: u8,
    sps: SpsFields,
    pps: PpsInfo,
    first: Seq<RpsEntry>,
    last: Seq<RpsEntry>,
)
    requires
        slice::slice_syntax(Cursor::start(src), nal_type, sps, pps, Some(first)).1.ok(),
        reads_back(src, nal_type, sps, pps, first),
        ({
            let b = Cursor::start(rewritten_bits(src, rest, nal_type, sps, pps, first));
            slice::slice_syntax(b, nal_type, sps, pps, Some(last)).1.ok()
        }),
    ensures
        ({
            let a = Cursor::start(src);
            let (s, end) = slice::slice_syntax(a, nal_type, sps, pps, Some(last));
            let b = Cursor::start(rewritten_bits(src, rest, nal_type, sps, pps, first));
            let t = slice::slice_syntax(b, nal_type, sps, pps, Some(last)).0;
            let num_sets = sps.short_term_rps.len() as u32;
            &&& slice::slice_syntax(a, nal_type, sps, pps, Some(last)) == slice::slice_syntax(
                a,
                nal_type,
                sps,
                pps,
                None,
            )
            &&& end.ok()
            &&& slice::rewritten_header(b.bits, t, num_sets, last) == slice::rewritten_header(
                src,
                s,
                num_sets,
                last,
            )
        }),
{
    let a = Cursor::start(src);
    let s = slice::slice_syntax(a, nal_type, sps, pps, Some(first)).0;
    let out = rewritten_bits(src, rest, nal_type, sps, pps, first);
    let b = Cursor::start(out);
    let t = slice::slice_syntax(b, nal_type, sps, pps, Some(last)).0;
    lemma_syntax_order(a, nal_type, sps, pps, Some(first));
    lemma_inspected(a, nal_type, sps, pps, first);
    lemma_inspected(b, nal_type, sps, pps, last);
    lemma_header_rewritten(src, rest, nal_type, sps, pps, first);
    lemma_admitted(a, nal_type, sps, pps, first);
    lemma_admitted(a, nal_type, sps, pps, last);
    lemma_admitted(b, nal_type, sps, pps, last);
    lemma_list_flag_of_p_slice(a, nal_type, sps, pps, Some(first));
    assert(admits(a, nal_type, sps, pps, last));
    let r_part = rps_part(nal_type, sps.short_term_rps.len() as u32, first);
    let l_part = list_part((s.list_at, s.list_end), rps::used_count(first) as u32);
    let p0 = src.take(s.rps_at);
    let p1 = src.subrange(s.rps_end, s.list_at);
    let p2 = src.subrange(s.list_end, s.end);
    assert(out == p0 + r_part + p1 + l_part + p2 + rest);
    assert(out.take(t.rps_at) =~= p0);
    assert(out.subrange(t.rps_end, t.list_at) =~= p1);
    assert(out.subrange(t.list_end, t.end) =~= p2);
}

/// The last of two rewrites wins: rewriting a slice that has been rewritten gives
/// what rewriting the slice at first hand gives.
#[verifier::rlimit(40)]
pub proof fn law_last_rewrite_wins(
    nal: Seq<u8>,
    sps: SpsFields,
    pps: PpsInfo,
    first: Seq<RpsEntry>,
    last: Seq<RpsEntry>,
)
    requires
        slice::rewritten(nal, sps, pps, first) is Ok,
        slice::rewritten(slice::rewritten(nal, sps, pps, first)->Ok_0, sps, pps, last) is Ok,
        reads_back(
            headers::payload_bits(nal),
            bitstream::header_type(nal[0]),
            sps,
            pps,
            first,
        ),
    ensures
        slice::rewritten(nal, sps, pps, last) == slice::rewritten(
            slice::rewritten(nal, sps, pps, first)->Ok_0,
            sps,
            pps,
            last,
        ),
{
    let once = slice::rewritten(nal, sps, pps, first)->Ok_0;
    law_rewritten_slice_says_entries(nal, sps, pps, first);
    lemma_rewritten_rbsp(nal, sps, pps, first);
    lemma_rewritten_rbsp(once, sps, pps, last);
    let ty = bitstream::header_type(nal[0]);
    let num_sets = sps.short_term_rps.len() as u32;
    let rbsp = emulation::unescaped(nal.skip(2));
    let src = bits::bits_of(rbsp);
    let a = Cursor::start(src);
    let (s, c) = slice::slice_syntax(a, ty, sps, pps, Some(first));
    let header = slice::rewritten_header(src, s, num_sets, first);
    let payload = rbsp.skip(slice::alignment(c).pos / 8);
    let all = slice::aligned(header);
    let rest = seq![true] + bits::zero_bits(slice::padding(header.len() as int + 1))
        + bits::bits_of(payload);
    assert(all + bits::bits_of(payload) =~= header + rest);
    let b = Cursor::start(headers::payload_bits(once));
    assert(b.bits == rewritten_bits(src, rest, ty, sps, pps, first));
    lemma_inspected(a, ty, sps, pps, first);
    lemma_inspected(b, ty, sps, pps, last);
    lemma_header_rewritten_again(src, rest, ty, sps, pps, first, last);
    assert(nal.take(2) == once.take(2));
}

/// Rewriting a slice twice with the same entries gives what rewriting it once gives.
#[verifier::rlimit(40)]
pub proof fn law_rewriting_again_changes_nothing(
    nal: Seq<u8>,
    sps: SpsFields,
    pps: PpsInfo,
    entries: Seq<RpsEntry>,
)
    requires
        slice::rewritten(nal, sps, pps, entries) is Ok,
        reads_back(
            headers::payload_bits(nal),
            bitstream::header_type(nal[0]),
            sps,
            pps,
            entries,
        ),
    ensures
        slice::rewritten(slice::rewritten(nal, sps, pps, entries)->Ok_0, sps, pps, entries)
            == slice::rewritten(nal, sps, pps, entries),
{
    let once = slice::rewritten(nal, sps, pps, entries)->Ok_0;
    law_rewritten_slice_says_entries(nal, sps, pps, entries);
    lemma_rewritten_rbsp(nal, sps, pps, entries);
    let ty = bitstream::header_type(nal[0]);
    let rbsp = emulation::unescaped(nal.skip(2));
    let src = bits::bits_of(rbsp);
    let a = Cursor::start(src);
    let (s, c) = slice::slice_syntax(a, ty, sps, pps, Some(entries));
    let header = slice::rewritten_header(src, s, sps.short_term_rps.len() as u32, entries);
    let payload = rbsp.skip(slice::alignment(c).pos / 8);
    let all = slice::aligned(header);
    let rest = seq![true] + bits::zero_bits(slice::padding(header.len() as int + 1))
        + bits::bits_of(payload);
    assert(all + bits::bits_of(payload) =~= header + rest);
    let b = Cursor::start(header + rest);
    lemma_header_rewritten(src, rest, ty, sps, pps, entries);
    lemma_admitted(b, ty, sps, pps, entries);
    let c2 = slice::slice_syntax(b, ty, sps, pps, None).1;
    lemma_alignment_reads(c2, header, bits::bits_of(payload));
    assert(slice::rewritten(once, sps, pps, entries) is Ok);
    law_last_rewrite_wins(nal, sps, pps, entries, entries);
}

/// Whether the deltas of an RPS are those of its coded distances: the preceding
/// pictures grow more distant one by one, and so do the following ones. (The sum
/// of the coded distances leaves the range of a delta only in a broken set.)
pub open spec fn unwrapped(set: slice::SliceRps) -> bool {
    &&& rps::ordered_from(set.entries.take(set.negatives as int), 0, true)
    &&& rps::ordered_from(set.entries.skip(set.negatives as int), 0, false)
}

/// The syntax of an inline RPS is the one that its entries are written as.
proof fn lemma_inline_rps_canonical(c: Cursor, sets: Seq<Seq<RpsEntry>>)
    requires
        0 <= c.pos <= c.bits.len(),
        slice::slice_rps(c, sets).1.ok(),
        slice::slice_rps(c, sets).0.inline,
        unwrapped(slice::slice_rps(c, sets).0),
    ensures
        c.bits.subrange(c.pos, slice::slice_rps(c, sets).1.pos) == slice::inline_rps_bits(
            sets.len() as u32,
            slice::slice_rps(c, sets).0.entries,
        ),
{
    broadcast use {bits::group_moves, rps::lemma_direct_st_rps_failed};
    broadcast use rps::lemma_direct_st_rps_moves;

    let num_sets = sets.len() as u32;
    let (set, end) = slice::slice_rps(c, sets);
    let c1 = c.flag().1;
    lemma_flag_bit(c);
    let c2 = if num_sets > 0 {
        c1.flag().1.ensure(!c1.flag().0, super::error::HevcError::PredictedSliceRps)
    } else {
        c1
    };
    if num_sets > 0 {
        lemma_flag_bit(c1);
    }
    rps::lemma_rps_canonical(c2);
    assert(c.bits.subrange(c.pos, end.pos) =~= bits::zero_bits(
        if num_sets > 0 {
            2
        } else {
            1
        },
    ) + c.bits.subrange(c2.pos, end.pos));
}

/// A flag that was read is the bit it was read from.
proof fn lemma_flag_bit(c: Cursor)
    requires
        0 <= c.pos,
        c.flag().1.ok(),
    ensures
        c.pos < c.bits.len(),
        c.flag() == (c.bits[c.pos], c.at(c.pos + 1)),
{
    bits::lemma_u_moves(c, 1);
    reveal(Cursor::u);
    bits::lemma_bits_value_single(c.bits, c.pos);
}

/// A list modification flag that was read is a zero bit.
proof fn lemma_list_flag_canonical(
    c: Cursor,
    pps: PpsInfo,
    is_p: bool,
    src_total: u32,
    out_total: u32,
)
    requires
        0 <= c.pos <= c.bits.len(),
        slice::slice_p_part(c, pps, is_p, src_total, out_total).1.ok(),
    ensures
        ({
            let list = slice::slice_p_part(c, pps, is_p, src_total, out_total).0;
            c.bits.subrange(list.0, list.1) == list_part(list, src_total)
        }),
{
    broadcast use {
        bits::group_moves,
        slice::group_slice_moves,
        slice::group_slice_failed,
    };

    let list = slice::slice_p_part(c, pps, is_p, src_total, out_total).0;
    if is_p {
        let c1 = slice::slice_active_refs(c, pps).1;
        if pps.lists_modification_present && src_total > 1 {
            lemma_flag_bit(c1);
            assert(c.bits.subrange(list.0, list.1) =~= seq![false]);
        } else {
            assert(c.bits.subrange(list.0, list.1) =~= Seq::empty());
        }
    } else {
        assert(c.bits.subrange(list.0, list.1) =~= Seq::empty());
    }
}

/// Zero bits that were read are zero bits.
proof fn lemma_zero_alignment_canonical(c: Cursor, n: nat)
    requires
        0 <= c.pos,
        c.pos <= c.bits.len(),
        slice::zero_alignment(c, n).ok(),
    ensures
        c.ok(),
        slice::zero_alignment(c, n) == c.at(c.pos + n),
        c.pos + n <= c.bits.len(),
        c.bits.subrange(c.pos, c.pos + n) == bits::zero_bits(n),
    decreases n,
{
    if !c.ok() {
        slice::lemma_zero_alignment_failed(c, n);
    }
    if n > 0 {
        let (bit, c1) = c.flag();
        let c2 = c1.ensure(!bit, super::error::HevcError::NonzeroAlignmentBit);
        if !c2.ok() {
            slice::lemma_zero_alignment_failed(c2, (n - 1) as nat);
        }
        lemma_flag_bit(c);
        lemma_zero_alignment_canonical(c2, (n - 1) as nat);
        assert(c.bits.subrange(c.pos, c.pos + n) =~= seq![false] + c.bits.subrange(
            c.pos + 1,
            c.pos + n,
        ));
        assert(bits::zero_bits(n) =~= seq![false] + bits::zero_bits((n - 1) as nat));
    } else {
        assert(c.bits.subrange(c.pos, c.pos + n) =~= bits::zero_bits(n));
    }
}

/// The alignment that was read behind a header is the one that is written there.
proof fn lemma_alignment_canonical(c: Cursor)
    requires
        0 <= c.pos <= c.bits.len(),
        slice::alignment(c).ok(),
    ensures
        c.pos < slice::alignment(c).pos <= c.bits.len(),
        slice::alignment(c).pos % 8 == 0,
        slice::aligned(c.bits.take(c.pos)) == c.bits.take(slice::alignment(c).pos),
{
    let (bit, c1) = c.flag();
    let c2 = c1.ensure(bit, super::error::HevcError::MissingAlignmentBit);
    let n = slice::padding(c2.pos);
    if !c2.ok() {
        slice::lemma_zero_alignment_failed(c2, n);
    }
    lemma_flag_bit(c);
    lemma_zero_alignment_canonical(c2, n);
    assert(c.bits.take(c2.pos + n) =~= c.bits.take(c.pos).push(true) + c.bits.subrange(
        c2.pos,
        c2.pos + n,
    ));
}

/// Rewriting a header with the RPS that it spells out changes no bit.
#[verifier::rlimit(40)]
proof fn lemma_header_unchanged(
    src: Seq<bool>,
    nal_type: u8,
    sps: SpsFields,
    pps: PpsInfo,
    entries: Seq<RpsEntry>,
)
    requires
        slice::slice_syntax(Cursor::start(src), nal_type, sps, pps, Some(entries)).1.ok(),
        ({
            let s = slice::slice_syntax(Cursor::start(src), nal_type, sps, pps, Some(entries)).0;
            &&& entries == s.rps.entries
            &&& slice::idr(nal_type) || s.rps.inline && unwrapped(s.rps)
        }),
    ensures
        ({
            let s = slice::slice_syntax(Cursor::start(src), nal_type, sps, pps, Some(entries)).0;
            slice::rewritten_header(src, s, sps.short_term_rps.len() as u32, entries) == src.take(
                s.end,
            )
        }),
{
    let a = Cursor::start(src);
    let s = slice::slice_syntax(a, nal_type, sps, pps, Some(entries)).0;
    lemma_syntax_order(a, nal_type, sps, pps, Some(entries));
    reveal(slice::slice_syntax);
    let (is_p, a1) = slice::slice_prefix(a, nal_type, sps, pps);
    let (refs, a2) = slice::slice_refs(a1, nal_type, sps);
    let (sao, a3) = slice::slice_sao(a2, sps);
    let total = rps::used_count(entries) as u32;
    let out = slice::out_total(refs, Some(entries));
    let (list, a4) = slice::slice_p_part(a3, pps, is_p, total, out);
    let r_part = rps_part(nal_type, sps.short_term_rps.len() as u32, entries);
    assert(src.subrange(s.rps_at, s.rps_end) =~= r_part) by {
        if !slice::idr(nal_type) {
            broadcast use {
                bits::group_moves,
                slice::group_slice_moves,
                slice::group_slice_failed,
            };

            let a_rps = a1.u(sps.poc_lsb_bits).1;
            lemma_inline_rps_canonical(a_rps, sps.short_term_rps);
        }
    }
    assert(list == (s.list_at, s.list_end));
    assert(a4.ok() && a3.ok());
    lemma_list_flag_canonical(a3, pps, is_p, total, out);
    let l_part = list_part(list, total);
    let p0 = src.take(s.rps_at);
    let p1 = src.subrange(s.rps_end, s.list_at);
    let p2 = src.subrange(s.list_end, s.end);
    assert(p0 + src.subrange(s.rps_at, s.rps_end) + p1 + src.subrange(s.list_at, s.list_end) + p2
        =~= src.take(s.end));
}

/// Rewriting a slice with the RPS that it already spells out gives back the same
/// bytes, if its payload is escaped as an encoder escapes it. The same holds of an
/// IDR slice.
#[verifier::rlimit(40)]
pub proof fn law_rewriting_unchanged_rps_is_identity(
    nal: Seq<u8>,
    sps: SpsFields,
    pps: PpsInfo,
    entries: Seq<RpsEntry>,
)
    requires
        slice::rewritten(nal, sps, pps, entries) is Ok,
        emulation::escaped(emulation::unescaped(nal.skip(2))) == nal.skip(2),
        ({
            let ty = bitstream::header_type(nal[0]);
            let s = slice::slice_syntax(
                Cursor::start(headers::payload_bits(nal)),
                ty,
                sps,
                pps,
                None,
            ).0;
            &&& entries == s.rps.entries
            &&& slice::idr(ty) || s.rps.inline && unwrapped(s.rps)
        }),
    ensures
        slice::rewritten(nal, sps, pps, entries)->Ok_0 == nal,
{
    lemma_rewritten_rbsp(nal, sps, pps, entries);
    let ty = bitstream::header_type(nal[0]);
    let rbsp = emulation::unescaped(nal.skip(2));
    let src = bits::bits_of(rbsp);
    let a = Cursor::start(src);
    let (s, c) = slice::slice_syntax(a, ty, sps, pps, Some(entries));
    lemma_inspected(a, ty, sps, pps, entries);
    lemma_syntax_order(a, ty, sps, pps, Some(entries));
    lemma_header_unchanged(src, ty, sps, pps, entries);
    lemma_alignment_canonical(c);
    let at = slice::alignment(c).pos;
    let header = slice::rewritten_header(src, s, sps.short_term_rps.len() as u32, entries);
    assert(slice::aligned(header) == src.take(at));
    let front = rbsp.take(at / 8);
    assert(bits::bits_of(front) =~= src.take(at));
    bits::lemma_bytes_of_bits(front);
    assert(front + rbsp.skip(at / 8) =~= rbsp);
    assert(slice::reassembled(rbsp, header, at) == rbsp);
    assert(nal.take(2) + nal.skip(2) =~= nal);
}

/// An IDR slice has no references.
pub proof fn lemma_idr_has_no_rps(nal: Seq<u8>, sps: SpsFields, pps: PpsInfo)
    requires
        slice::slice_of(nal, sps, pps) is Ok,
        slice::idr(bitstream::header_type(nal[0])),
    ensures
        slice::slice_of(nal, sps, pps)->Ok_0.rps == Seq::<RpsEntry>::empty(),
{
    reveal(slice::slice_syntax);
}

/// The POC lsb that a slice carries is one of those that the SPS allows for.
pub proof fn lemma_poc_lsb_bound(nal: Seq<u8>, sps: SpsFields, pps: PpsInfo)
    requires
        slice::slice_of(nal, sps, pps) is Ok,
        sps.poc_lsb_bits <= 32,
    ensures
        slice::slice_of(nal, sps, pps)->Ok_0.poc_lsb matches Some(lsb) ==> lsb < power2::pow2(
            sps.poc_lsb_bits as nat,
        ),
{
    let ty = bitstream::header_type(nal[0]);
    let a = Cursor::start(headers::payload_bits(nal));
    lemma_syntax_order(a, ty, sps, pps, None);
    reveal(slice::slice_syntax);
    let a1 = slice::slice_prefix(a, ty, sps, pps).1;
    bits::lemma_u_bound(a1, sps.poc_lsb_bits);
}

/// Spelling out the RPS that a slice has, wherever it has it from, changes nothing
/// that the slice says, if its entries are in HEVC's order.
pub proof fn law_own_rps_spelled_out_says_the_same(nal: Seq<u8>, sps: SpsFields, pps: PpsInfo)
    requires
        slice::slice_of(nal, sps, pps) is Ok,
        ({
            let entries = slice::slice_of(nal, sps, pps)->Ok_0.rps;
            &&& slice::rewritten(nal, sps, pps, entries) is Ok
            &&& fits_inline(entries)
            &&& rps::canonical_rps(entries) == entries
        }),
    ensures
        ({
            let entries = slice::slice_of(nal, sps, pps)->Ok_0.rps;
            let out = slice::rewritten(nal, sps, pps, entries)->Ok_0;
            slice::slice_of(out, sps, pps) == slice::slice_of(nal, sps, pps)
        }),
{
    let entries = slice::slice_of(nal, sps, pps)->Ok_0.rps;
    law_rewritten_slice_says_entries(nal, sps, pps, entries);
    if slice::idr(bitstream::header_type(nal[0])) {
        lemma_idr_has_no_rps(nal, sps, pps);
    }
}

/// Up to 16 entries that name different pictures, none of them the current one, can be
/// written into any slice and read back.
pub proof fn law_distinct_entries_fit(entries: Seq<RpsEntry>, pps: PpsInfo)
    requires
        entries.len() <= 16,
        forall|i: int|
            0 <= i < entries.len() ==> (#[trigger] entries[i]).delta_poc != 0
                && entries[i].delta_poc != i32::MIN,
        forall|i: int, j: int|
            0 <= i < j < entries.len() ==> (#[trigger] entries[i]).delta_poc != (
            #[trigger] entries[j]).delta_poc,
    ensures
        rps::encodable(entries),
        fits_inline(entries),
        counts_agree(pps, entries),
{
    rps::lemma_side_len(entries, true);
    rps::lemma_side_len(entries, false);
    rps::lemma_used_count_canonical(entries);
}

/// The front part of a slice that can be rewritten: its header, filled up to whole bytes.
pub proof fn lemma_rewritten_front(
    nal: Seq<u8>,
    sps: SpsFields,
    pps: PpsInfo,
    entries: Seq<RpsEntry>,
) -> (parts: (Seq<u8>, nat))
    requires
        slice::rewritten(nal, sps, pps, entries) is Ok,
    ensures
        slice::slice_of(nal, sps, pps) is Ok,
        ({
            let (front, zeros) = parts;
            let rbsp = emulation::unescaped(nal.skip(2));
            let c = slice::slice_syntax(
                Cursor::start(bits::bits_of(rbsp)),
                bitstream::header_type(nal[0]),
                sps,
                pps,
                None,
            ).1;
            &&& front.len() <= rbsp.len() && front == rbsp.take(front.len() as int)
            &&& zeros < 8
            &&& 0 <= c.pos
            &&& bits::bits_of(front).len() == c.pos + 1 + zeros
            &&& bits::bits_of(front).skip(c.pos) == seq![true] + bits::zero_bits(zeros)
        }),
{
    lemma_rewritten_rbsp(nal, sps, pps, entries);
    let ty = bitstream::header_type(nal[0]);
    let rbsp = emulation::unescaped(nal.skip(2));
    let src = bits::bits_of(rbsp);
    let a = Cursor::start(src);
    let c = slice::slice_syntax(a, ty, sps, pps, Some(entries)).1;
    lemma_inspected(a, ty, sps, pps, entries);
    lemma_syntax_order(a, ty, sps, pps, Some(entries));
    lemma_alignment_canonical(c);
    let at = slice::alignment(c).pos;
    let front = rbsp.take(at / 8);
    let zeros = slice::padding(c.pos + 1);
    assert(bits::bits_of(front) =~= src.take(at));
    assert(slice::aligned(src.take(c.pos)) == src.take(at));
    assert(src.take(at).skip(c.pos) =~= seq![true] + bits::zero_bits(zeros));
    (front, zeros)
}

/// Entries that would be the first to call for a list modification flag are refused.
pub proof fn lemma_added_reference_refused(
    c: Cursor,
    nal_type: u8,
    sps: SpsFields,
    pps: PpsInfo,
    entries: Seq<RpsEntry>,
)
    requires
        slice::slice_syntax(c, nal_type, sps, pps, None).1.ok(),
        !slice::idr(nal_type),
        slice::slice_prefix(c, nal_type, sps, pps).0,
        pps.lists_modification_present,
        rps::used_count(entries) as u32 > 1,
        rps::used_count(
            slice::slice_syntax(c, nal_type, sps, pps, None).0.rps.entries,
        ) as u32 <= 1,
    ensures
        slice::slice_syntax(c, nal_type, sps, pps, Some(entries)).1.err == Some(
            super::error::HevcError::AddedUsedReference,
        ),
{
    broadcast use slice::group_slice_failed;

    reveal(slice::slice_syntax);
    let (is_p, c1) = slice::slice_prefix(c, nal_type, sps, pps);
    let (refs, c2) = slice::slice_refs(c1, nal_type, sps);
    let (sao, c3) = slice::slice_sao(c2, sps);
    let src_total = rps::used_count(refs.rps.entries) as u32;
    let out = slice::out_total(refs, Some(entries));
    let (active, c5) = slice::slice_active_refs(c3, pps);
    let kept = slice::slice_p_part(c3, pps, is_p, src_total, slice::out_total(refs, None)).1;
    assert(kept.ok());
    assert(c5.ok());
    let c6 = slice::slice_list_modification(c5, pps, src_total, out);
    assert(c6.err == Some(super::error::HevcError::AddedUsedReference));
    assert(slice::slice_p_part(c3, pps, is_p, src_total, out).1 == c6);
}

} // verus!
