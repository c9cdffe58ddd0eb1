//! Laws of parameter sets: what a parsed one says depends only on its own bits.

use super::bits::{self, Cursor};
use super::emulation;
use super::error::HevcError;
use super::headers::{self, PpsInfo};
use super::rps;
use vstd::prelude::*;

verus! {

broadcast use super::bits::group_failed;

/// The payload bits of a NAL unit stay where they are when bytes are appended.
pub proof fn lemma_payload_appended(nal: Seq<u8>, tail: Seq<u8>)
    requires
        nal.len() >= 2,
    ensures
        bits::agree(
            Cursor::start(headers::payload_bits(nal)),
            Cursor::start(headers::payload_bits(nal + tail)),
            headers::payload_bits(nal).len() as int,
        ),
{
    assert((nal + tail).skip(2) =~= nal.skip(2) + tail);
    emulation::lemma_unescaped_prefix(nal.skip(2), tail);
    bits::lemma_agree_appended(
        emulation::unescaped(nal.skip(2)),
        emulation::unescaped((nal + tail).skip(2)),
    );
}

proof fn lemma_sub_layer_flags_moves(c: Cursor, n: nat)
    ensures
        bits::moved(c, headers::sub_layer_flags(c, n).1),
    decreases n,
{
    broadcast use bits::group_moves;

    if n > 0 {
        lemma_sub_layer_flags_moves(c.flag().1.flag().1, (n - 1) as nat);
    }
}

proof fn lemma_sub_layer_flags_agree(a: Cursor, b: Cursor, end: int, n: nat)
    requires
        bits::agree(a, b, end),
        headers::sub_layer_flags(a, n).1.ok(),
        headers::sub_layer_flags(a, n).1.pos <= end,
    ensures
        headers::sub_layer_flags(b, n).0 == headers::sub_layer_flags(a, n).0,
        bits::in_step(
            a,
            b,
            end,
            headers::sub_layer_flags(a, n).1,
            headers::sub_layer_flags(b, n).1,
        ),
    decreases n,
{
    broadcast use {bits::group_moves, bits::group_agree};

    if n > 0 {
        let a2 = a.flag().1.flag().1;
        let b2 = b.flag().1.flag().1;
        lemma_sub_layer_flags_moves(a2, (n - 1) as nat);
        lemma_sub_layer_flags_agree(a2, b2, end, (n - 1) as nat);
    } else {
        reveal(bits::agree);
    }
}

/// Skips what one sub-layer has.
spec fn skip_sub_layer(c: Cursor, flags: (bool, bool)) -> Cursor {
    let c = if flags.0 {
        c.skip_u(32).skip_u(32).skip_u(24)
    } else {
        c
    };
    if flags.1 {
        c.skip_u(8)
    } else {
        c
    }
}

proof fn lemma_skip_sub_layers_moves(c: Cursor, flags: Seq<(bool, bool)>)
    ensures
        bits::moved(c, headers::skip_sub_layers(c, flags)),
    decreases flags.len(),
{
    broadcast use bits::group_moves;

    if flags.len() > 0 {
        lemma_skip_sub_layers_moves(skip_sub_layer(c, flags[0]), flags.drop_first());
    }
}

proof fn lemma_skip_sub_layers_agree(a: Cursor, b: Cursor, end: int, flags: Seq<(bool, bool)>)
    requires
        bits::agree(a, b, end),
        headers::skip_sub_layers(a, flags).ok(),
        headers::skip_sub_layers(a, flags).pos <= end,
    ensures
        bits::in_step(
            a,
            b,
            end,
            headers::skip_sub_layers(a, flags),
            headers::skip_sub_layers(b, flags),
        ),
    decreases flags.len(),
{
    broadcast use {bits::group_moves, bits::group_agree};

    if flags.len() > 0 {
        let a1 = skip_sub_layer(a, flags[0]);
        let b1 = skip_sub_layer(b, flags[0]);
        lemma_skip_sub_layers_moves(a1, flags.drop_first());
        lemma_skip_sub_layers_agree(a1, b1, end, flags.drop_first());
    } else {
        reveal(bits::agree);
    }
}

proof fn lemma_profile_moves(c: Cursor, n: u32)
    ensures
        bits::moved(c, headers::profile_tier_level(c, n)),
{
    broadcast use bits::group_moves;

    let c1 = general_profile(c);
    let (flags, c2) = headers::sub_layer_flags(c1, n as nat);
    let c3 = if 0 < n < 8 {
        c2.skip_u_times(2, (8 - n) as nat)
    } else {
        c2
    };
    lemma_sub_layer_flags_moves(c1, n as nat);
    lemma_skip_sub_layers_moves(c3, flags);
}

/// Skips the general profile and level.
spec fn general_profile(c: Cursor) -> Cursor {
    let c = c.skip_u(2).skip_u(1).skip_u(5);
    c.skip_u(32).skip_u(4).skip_u(32).skip_u(12).skip_u(8)
}

proof fn lemma_profile_agree(a: Cursor, b: Cursor, end: int, n: u32)
    requires
        bits::agree(a, b, end),
        headers::profile_tier_level(a, n).ok(),
        headers::profile_tier_level(a, n).pos <= end,
    ensures
        bits::in_step(
            a,
            b,
            end,
            headers::profile_tier_level(a, n),
            headers::profile_tier_level(b, n),
        ),
{
    broadcast use {bits::group_moves, bits::group_agree};

    let a1 = general_profile(a);
    let b1 = general_profile(b);
    let (flags, a2) = headers::sub_layer_flags(a1, n as nat);
    let b2 = headers::sub_layer_flags(b1, n as nat).1;
    let a3 = if 0 < n < 8 {
        a2.skip_u_times(2, (8 - n) as nat)
    } else {
        a2
    };
    let b3 = if 0 < n < 8 {
        b2.skip_u_times(2, (8 - n) as nat)
    } else {
        b2
    };
    lemma_sub_layer_flags_moves(a1, n as nat);
    lemma_skip_sub_layers_moves(a3, flags);
    lemma_sub_layer_flags_agree(a1, b1, end, n as nat);
    lemma_skip_sub_layers_agree(a3, b3, end, flags);
}

proof fn lemma_sps_head_moves(c: Cursor)
    ensures
        bits::moved(c, headers::sps_head(c).1),
{
    broadcast use bits::group_moves;

    let c1 = c.skip_u(4);
    let (n, c2) = c1.u(3);
    lemma_profile_moves(c2.skip_u(1), n);
}

#[verifier::rlimit(40)]
proof fn lemma_sps_head_agree(a: Cursor, b: Cursor, end: int)
    requires
        bits::agree(a, b, end),
        headers::sps_head(a).1.ok(),
        headers::sps_head(a).1.pos <= end,
    ensures
        headers::sps_head(b).0 == headers::sps_head(a).0,
        bits::in_step(a, b, end, headers::sps_head(a).1, headers::sps_head(b).1),
{
    broadcast use {bits::group_moves, bits::group_agree};

    let (n, a2) = a.skip_u(4).u(3);
    let b2 = b.skip_u(4).u(3).1;
    let a3 = a2.skip_u(1);
    let b3 = b2.skip_u(1);
    lemma_profile_moves(a3, n);
    assert(headers::profile_tier_level(a3, n).ok());
    lemma_profile_agree(a3, b3, end, n);
}

proof fn lemma_sps_coding_moves(c: Cursor, n: u32)
    ensures
        bits::moved(c, headers::sps_coding(c, n).1),
{
    broadcast use bits::group_moves;

}

#[verifier::rlimit(40)]
proof fn lemma_sps_coding_agree(a: Cursor, b: Cursor, end: int, n: u32)
    requires
        bits::agree(a, b, end),
        headers::sps_coding(a, n).1.ok(),
        headers::sps_coding(a, n).1.pos <= end,
    ensures
        headers::sps_coding(b, n).0 == headers::sps_coding(a, n).0,
        bits::in_step(a, b, end, headers::sps_coding(a, n).1, headers::sps_coding(b, n).1),
{
    broadcast use {bits::group_moves, bits::group_agree};

}

/// Reads whether a set is predicted.
spec fn set_start(c: Cursor, i: nat) -> Cursor {
    if i > 0 {
        let (predicted, c) = c.flag();
        c.ensure(!predicted, HevcError::PredictedSpsRps)
    } else {
        c
    }
}

proof fn lemma_sps_sets_moves(c: Cursor, i: nat, n: nat)
    ensures
        bits::moved(c, headers::sps_sets(c, i, n).1),
    decreases n - i,
{
    broadcast use bits::group_moves;

    if i < n {
        let c1 = set_start(c, i);
        rps::lemma_direct_st_rps_moves(c1);
        lemma_sps_sets_moves(rps::direct_st_rps(c1).1, i + 1, n);
    }
}

proof fn lemma_sps_sets_agree(a: Cursor, b: Cursor, end: int, i: nat, n: nat)
    requires
        bits::agree(a, b, end),
        headers::sps_sets(a, i, n).1.ok(),
        headers::sps_sets(a, i, n).1.pos <= end,
    ensures
        headers::sps_sets(b, i, n).0 == headers::sps_sets(a, i, n).0,
        bits::in_step(a, b, end, headers::sps_sets(a, i, n).1, headers::sps_sets(b, i, n).1),
    decreases n - i,
{
    broadcast use {bits::group_moves, bits::group_agree};

    if i < n {
        let a1 = set_start(a, i);
        let b1 = set_start(b, i);
        let a2 = rps::direct_st_rps(a1).1;
        let b2 = rps::direct_st_rps(b1).1;
        rps::lemma_direct_st_rps_moves(a1);
        lemma_sps_sets_moves(a2, i + 1, n);
        rps::lemma_direct_st_rps_agree(a1, b1, end);
        lemma_sps_sets_agree(a2, b2, end, i + 1, n);
    } else {
        reveal(bits::agree);
    }
}

proof fn lemma_skip_long_term_moves(c: Cursor, poc_lsb_bits: u32, count: nat)
    ensures
        bits::moved(c, headers::skip_long_term(c, poc_lsb_bits, count)),
    decreases count,
{
    broadcast use bits::group_moves;

    if count > 0 {
        let c1 = c.skip_u(poc_lsb_bits).skip_u(1);
        lemma_skip_long_term_moves(c1, poc_lsb_bits, (count - 1) as nat);
    }
}

proof fn lemma_skip_long_term_agree(
    a: Cursor,
    b: Cursor,
    end: int,
    poc_lsb_bits: u32,
    count: nat,
)
    requires
        bits::agree(a, b, end),
        headers::skip_long_term(a, poc_lsb_bits, count).ok(),
        headers::skip_long_term(a, poc_lsb_bits, count).pos <= end,
    ensures
        bits::in_step(
            a,
            b,
            end,
            headers::skip_long_term(a, poc_lsb_bits, count),
            headers::skip_long_term(b, poc_lsb_bits, count),
        ),
    decreases count,
{
    broadcast use {bits::group_moves, bits::group_agree};

    if count > 0 {
        let a1 = a.skip_u(poc_lsb_bits).skip_u(1);
        let b1 = b.skip_u(poc_lsb_bits).skip_u(1);
        lemma_skip_long_term_moves(a1, poc_lsb_bits, (count - 1) as nat);
        lemma_skip_long_term_agree(a1, b1, end, poc_lsb_bits, (count - 1) as nat);
    } else {
        reveal(bits::agree);
    }
}

proof fn lemma_sps_references_moves(c: Cursor, poc_lsb_bits: u32)
    ensures
        bits::moved(c, headers::sps_references(c, poc_lsb_bits).1),
{
    broadcast use bits::group_moves;

    let (n, c1) = c.ue();
    let c2 = c1.ensure(n <= 64, HevcError::ImplausibleRpsCount);
    lemma_sps_sets_moves(c2, 0, n as nat);
    let (present, c4) = headers::sps_sets(c2, 0, n as nat).1.flag();
    let (num, c5) = c4.ue();
    lemma_skip_long_term_moves(c5, poc_lsb_bits, num as nat);
}

#[verifier::rlimit(40)]
proof fn lemma_sps_references_agree(a: Cursor, b: Cursor, end: int, poc_lsb_bits: u32)
    requires
        bits::agree(a, b, end),
        headers::sps_references(a, poc_lsb_bits).1.ok(),
        headers::sps_references(a, poc_lsb_bits).1.pos <= end,
    ensures
        headers::sps_references(b, poc_lsb_bits).0 == headers::sps_references(a, poc_lsb_bits).0,
        bits::in_step(
            a,
            b,
            end,
            headers::sps_references(a, poc_lsb_bits).1,
            headers::sps_references(b, poc_lsb_bits).1,
        ),
{
    broadcast use {bits::group_moves, bits::group_agree};

    let (n, a1) = a.ue();
    let b1 = b.ue().1;
    let a2 = a1.ensure(n <= 64, HevcError::ImplausibleRpsCount);
    let b2 = b1.ensure(n <= 64, HevcError::ImplausibleRpsCount);
    let a3 = headers::sps_sets(a2, 0, n as nat).1;
    let b3 = headers::sps_sets(b2, 0, n as nat).1;
    let (present, a4) = a3.flag();
    let b4 = b3.flag().1;
    let (num, a5) = a4.ue();
    let b5 = b4.ue().1;
    let a6 = headers::skip_long_term(a5, poc_lsb_bits, num as nat);
    lemma_sps_sets_moves(a2, 0, n as nat);
    lemma_skip_long_term_moves(a5, poc_lsb_bits, num as nat);
    lemma_sps_sets_agree(a2, b2, end, 0, n as nat);
    if present {
        lemma_skip_long_term_agree(a5, b5, end, poc_lsb_bits, num as nat);
    }
}

/// What an SPS says does not change when bytes are appended to it.
pub proof fn law_sps_depends_on_its_own_bits(nal: Seq<u8>, tail: Seq<u8>)
    requires
        headers::sps_of(nal) is Ok,
    ensures
        headers::sps_of(nal + tail) == headers::sps_of(nal),
{
    let a = Cursor::start(headers::payload_bits(nal));
    let b = Cursor::start(headers::payload_bits(nal + tail));
    let end = headers::payload_bits(nal).len() as int;
    lemma_payload_appended(nal, tail);
    let (head, a1) = headers::sps_head(a);
    let b1 = headers::sps_head(b).1;
    let n = head.max_sub_layers_minus1;
    let (coding, a2) = headers::sps_coding(a1, n);
    let b2 = headers::sps_coding(b1, n).1;
    let a3 = headers::sps_references(a2, coding.poc_lsb_bits).1;
    lemma_sps_head_moves(a);
    lemma_sps_coding_moves(a1, n);
    lemma_sps_references_moves(a2, coding.poc_lsb_bits);
    lemma_sps_head_agree(a, b, end);
    lemma_sps_coding_agree(a1, b1, end, n);
    lemma_sps_references_agree(a2, b2, end, coding.poc_lsb_bits);
    assert((nal + tail).len() > 2);
}

proof fn lemma_pps_head_moves(c: Cursor)
    ensures
        bits::moved(c, headers::pps_head(c).1),
{
    broadcast use bits::group_moves;

}

#[verifier::rlimit(40)]
proof fn lemma_pps_head_agree(a: Cursor, b: Cursor, end: int)
    requires
        bits::agree(a, b, end),
        headers::pps_head(a).1.ok(),
        headers::pps_head(a).1.pos <= end,
    ensures
        headers::pps_head(b).0 == headers::pps_head(a).0,
        bits::in_step(a, b, end, headers::pps_head(a).1, headers::pps_head(b).1),
{
    broadcast use {bits::group_moves, bits::group_agree};

}

proof fn lemma_pps_tail_moves(c: Cursor, head: PpsInfo)
    ensures
        bits::moved(c, headers::pps_tail(c, head).1),
{
    broadcast use bits::group_moves;

}

#[verifier::rlimit(40)]
proof fn lemma_pps_tail_agree(a: Cursor, b: Cursor, end: int, head: PpsInfo)
    requires
        bits::agree(a, b, end),
        headers::pps_tail(a, head).1.ok(),
        headers::pps_tail(a, head).1.pos <= end,
    ensures
        headers::pps_tail(b, head).0 == headers::pps_tail(a, head).0,
        bits::in_step(a, b, end, headers::pps_tail(a, head).1, headers::pps_tail(b, head).1),
{
    broadcast use {bits::group_moves, bits::group_agree};

}

/// What a PPS says does not change when bytes are appended to it.
pub proof fn law_pps_depends_on_its_own_bits(nal: Seq<u8>, tail: Seq<u8>)
    requires
        headers::pps_of(nal) is Ok,
    ensures
        headers::pps_of(nal + tail) == headers::pps_of(nal),
{
    let a = Cursor::start(headers::payload_bits(nal));
    let b = Cursor::start(headers::payload_bits(nal + tail));
    let end = headers::payload_bits(nal).len() as int;
    lemma_payload_appended(nal, tail);
    let (head, a1) = headers::pps_head(a);
    let b1 = headers::pps_head(b).1;
    lemma_pps_head_moves(a);
    lemma_pps_tail_moves(a1, head);
    lemma_pps_head_agree(a, b, end);
    lemma_pps_tail_agree(a1, b1, end, head);
    assert((nal + tail).len() > 2);
}

} // verus!
