//! Concealment of missing references: which reference picture set to submit for
//! a slice whose own one names pictures that were never decoded.

use crate::hevc::headers::PpsInfo;
use crate::hevc::rps::{self, RpsEntry};
use crate::hevc::slice_laws;
use vstd::prelude::*;

verus! {

/// POC lsb of the picture `delta` away from `poc`, wrapping at `poc_max`.
pub open spec fn poc_lsb_at(poc: int, delta: int, poc_max: int) -> u32 {
    ((poc + delta) % poc_max) as u32
}

/// Whether an entry names a picture in the decoded picture buffer (DPB).
pub open spec fn in_dpb(decoded: Seq<u32>, poc: int, poc_max: int) -> spec_fn(RpsEntry) -> bool {
    |e: RpsEntry| decoded.contains(poc_lsb_at(poc, e.delta_poc as int, poc_max))
}

/// Whether a used entry names a picture that is not in the DPB.
pub open spec fn misses_used(
    rps: Seq<RpsEntry>,
    poc: int,
    poc_max: int,
    decoded: Seq<u32>,
) -> bool {
    exists|i: int|
        0 <= i < rps.len() && (#[trigger] rps[i]).used && !in_dpb(decoded, poc, poc_max)(rps[i])
}

/// How far the picture with POC lsb `lsb` lies behind `poc`, wrapping at `poc_max`.
pub open spec fn distance_behind(poc: int, lsb: u32, poc_max: int) -> int {
    (poc - lsb) % poc_max
}

/// How far the newest picture of the DPB, other than the current one, lies behind
/// `poc`.
pub open spec fn newest_distance(decoded: Seq<u32>, poc: int, poc_max: int) -> Option<int>
    decreases decoded.len(),
{
    if decoded.len() == 0 {
        None
    } else {
        let nearest = newest_distance(decoded.drop_last(), poc, poc_max);
        let d = distance_behind(poc, decoded.last(), poc_max);
        if d > 0 && (nearest is None || d < nearest->0) {
            Some(d)
        } else {
            nearest
        }
    }
}

/// The entries with the one at `delta_poc` marked as used; if there is none, one is
/// added.
pub open spec fn with_used(entries: Seq<RpsEntry>, delta_poc: i32) -> Seq<RpsEntry>
    decreases entries.len(),
{
    if entries.len() == 0 {
        seq![RpsEntry { delta_poc, used: true }]
    } else if entries[0].delta_poc == delta_poc {
        entries.update(0, RpsEntry { delta_poc, used: true })
    } else {
        seq![entries[0]] + with_used(entries.drop_first(), delta_poc)
    }
}

/// The reference picture set to submit in place of `rps`: the entries that name
/// pictures in the DPB and, if a used one is missing, its newest picture.
pub open spec fn concealed(
    rps: Seq<RpsEntry>,
    poc: int,
    poc_max: int,
    decoded: Seq<u32>,
) -> Seq<RpsEntry> {
    let kept = rps.filter(in_dpb(decoded, poc, poc_max));
    match newest_distance(decoded, poc, poc_max) {
        Some(d) => if misses_used(rps, poc, poc_max, decoded) {
            with_used(kept, (-d) as i32)
        } else {
            kept
        },
        None => kept,
    }
}

/// POC lsb of the picture `delta` away from `poc`, wrapping at `poc_max`.
pub fn ref_poc_lsb(poc: i64, delta: i32, poc_max: i64) -> (res: u32)
    requires
        poc_max > 0,
        i64::MIN <= poc + delta <= i64::MAX,
    ensures
        res == poc_lsb_at(poc as int, delta as int, poc_max as int),
{
    let lsb: i64 = (poc + delta as i64).checked_rem_euclid(poc_max).unwrap();
    #[verifier::truncate]
    (lsb as u32)
}

/// Whether `lsb` is among `decoded`.
fn holds_lsb(decoded: &[u32], lsb: u32) -> (res: bool)
    ensures
        res == decoded@.contains(lsb),
{
    let mut i: usize = 0;
    while i < decoded.len()
        invariant
            i <= decoded@.len(),
            forall|k: int| 0 <= k < i ==> decoded@[k] != lsb,
        decreases decoded@.len() - i,
    {
        if decoded[i] == lsb {
            return true;
        }
        i = i + 1;
    }
    false
}

/// How far the newest picture of the DPB lies behind `poc`.
fn find_newest(decoded: &[u32], poc: i64, poc_max: i64) -> (res: Option<i64>)
    requires
        poc_max > 0,
        forall|i: int| 0 <= i < decoded@.len() ==> i64::MIN <= poc - #[trigger] decoded@[i],
    ensures
        match res {
            Some(d) => newest_distance(decoded@, poc as int, poc_max as int) == Some(d as int)
                && 0 < d < poc_max,
            None => newest_distance(decoded@, poc as int, poc_max as int) is None,
        },
{
    let mut nearest: Option<i64> = None;
    let mut i: usize = 0;
    while i < decoded.len()
        invariant
            i <= decoded@.len(),
            poc_max > 0,
            forall|k: int| 0 <= k < decoded@.len() ==> i64::MIN <= poc - #[trigger] decoded@[k],
            match nearest {
                Some(d) => newest_distance(decoded@.take(i as int), poc as int, poc_max as int)
                    == Some(d as int) && 0 < d < poc_max,
                None => newest_distance(
                    decoded@.take(i as int),
                    poc as int,
                    poc_max as int,
                ) is None,
            },
        decreases decoded@.len() - i,
    {
        proof {
            assert(decoded@.take(i + 1).drop_last() =~= decoded@.take(i as int));
            assert(decoded@.take(i + 1).last() == decoded@[i as int]);
        }
        let d: i64 = (poc - decoded[i] as i64).checked_rem_euclid(poc_max).unwrap();
        let nearer: bool = match nearest {
            Some(best) => d < best,
            None => true,
        };
        if d > 0 && nearer {
            nearest = Some(d);
        }
        i = i + 1;
    }
    assert(decoded@.take(i as int) =~= decoded@);
    nearest
}

/// Mark the entry at `delta_poc` as used, adding one if there is none.
fn mark_used(entries: &mut Vec<RpsEntry>, delta_poc: i32)
    ensures
        final(entries)@ == with_used(old(entries)@, delta_poc),
{
    let ghost given = entries@;
    let mut i: usize = 0;
    assert(given.skip(0) =~= given);
    assert(given.take(0) + with_used(given, delta_poc) =~= with_used(given, delta_poc));
    while i < entries.len()
        invariant
            i <= entries@.len(),
            entries@ == given,
            given == old(entries)@,
            given.take(i as int) + with_used(given.skip(i as int), delta_poc) == with_used(
                given,
                delta_poc,
            ),
        decreases entries@.len() - i,
    {
        let ghost rest = given.skip(i as int);
        assert(rest[0] == given[i as int]);
        assert(rest.drop_first() =~= given.skip(i + 1));
        if entries[i].delta_poc == delta_poc {
            let used_entry = RpsEntry { delta_poc, used: true };
            entries.set(i, used_entry);
            assert(entries@ =~= given.take(i as int) + rest.update(0, used_entry));
            return;
        }
        assert(given.take(i + 1) + with_used(rest.drop_first(), delta_poc) =~= given.take(i as int)
            + (seq![rest[0]] + with_used(rest.drop_first(), delta_poc)));
        i = i + 1;
    }
    entries.push(RpsEntry { delta_poc, used: true });
    assert(given.skip(i as int) =~= Seq::empty());
    assert(entries@ =~= given.take(i as int) + seq![RpsEntry { delta_poc, used: true }]);
}

/// The reference picture set to submit in place of `rps`, given the pictures
/// believed to be in the DPB, and whether a used reference was missing.
///
/// Entries naming pictures in the DPB are kept and absent unused entries are
/// dropped. An absent *used* entry is remapped onto the newest picture the DPB
/// does hold, which is what NVDEC's concealment amounts to; with an empty DPB
/// there is no such picture and the caller submits the slice unrepaired.
pub fn conceal_rps(rps: &[RpsEntry], poc: i64, poc_max: i64, decoded: &[u32]) -> (res: (
    Vec<RpsEntry>,
    bool,
))
    requires
        poc_max > 0,
        forall|i: int|
            0 <= i < rps@.len() ==> i64::MIN <= poc + (#[trigger] rps@[i]).delta_poc <= i64::MAX,
        forall|i: int| 0 <= i < decoded@.len() ==> i64::MIN <= poc - #[trigger] decoded@[i],
    ensures
        res.0@ == concealed(rps@, poc as int, poc_max as int, decoded@),
        res.1 == misses_used(rps@, poc as int, poc_max as int, decoded@),
{
    let ghost kept = in_dpb(decoded@, poc as int, poc_max as int);
    let mut entries: Vec<RpsEntry> = Vec::with_capacity(rps.len());
    let mut missing_used = false;
    let mut i: usize = 0;
    proof {
        reveal(Seq::filter);
        assert(rps@.take(0).filter(kept) =~= Seq::empty());
    }
    while i < rps.len()
        invariant
            i <= rps@.len(),
            poc_max > 0,
            forall|k: int|
                0 <= k < rps@.len() ==> i64::MIN <= poc + (#[trigger] rps@[k]).delta_poc
                    <= i64::MAX,
            kept == in_dpb(decoded@, poc as int, poc_max as int),
            entries@ == rps@.take(i as int).filter(kept),
            missing_used <==> exists|k: int|
                0 <= k < i && (#[trigger] rps@[k]).used && !kept(rps@[k]),
        decreases rps@.len() - i,
    {
        let entry: RpsEntry = rps[i];
        proof {
            reveal(Seq::filter);
            assert(rps@.take(i + 1).drop_last() =~= rps@.take(i as int));
            assert(rps@.take(i + 1).last() == entry);
        }
        if holds_lsb(decoded, ref_poc_lsb(poc, entry.delta_poc, poc_max)) {
            assert(kept(rps@[i as int]));
            entries.push(entry);
        } else if entry.used {
            assert(!kept(rps@[i as int]));
            missing_used = true;
        }
        i = i + 1;
    }
    assert(rps@.take(i as int) =~= rps@);
    if missing_used {
        // The newest decoded picture is the one at the smallest POC distance
        // behind the current one.
        if let Some(distance) = find_newest(decoded, poc, poc_max) {
            let delta_poc: i32 = #[verifier::truncate] ((-distance) as i32);
            mark_used(&mut entries, delta_poc);
        }
    }
    (entries, missing_used)
}

/// The newest picture is one of the DPB, and none is nearer.
proof fn lemma_newest(decoded: Seq<u32>, poc: int, poc_max: int)
    requires
        poc_max > 0,
    ensures
        match newest_distance(decoded, poc, poc_max) {
            Some(d) => {
                &&& 0 < d < poc_max
                &&& exists|i: int|
                    0 <= i < decoded.len() && distance_behind(poc, #[trigger] decoded[i], poc_max)
                        == d
                &&& forall|i: int|
                    0 <= i < decoded.len() ==> {
                        let other = distance_behind(poc, #[trigger] decoded[i], poc_max);
                        other == 0 || other >= d
                    }
            },
            None => forall|i: int|
                0 <= i < decoded.len() ==> distance_behind(poc, #[trigger] decoded[i], poc_max)
                    == 0,
        },
    decreases decoded.len(),
{
    if decoded.len() > 0 {
        let rest = decoded.drop_last();
        lemma_newest(rest, poc, poc_max);
        assert(forall|i: int| 0 <= i < rest.len() ==> rest[i] == #[trigger] decoded[i]);
        assert(decoded[decoded.len() - 1] == decoded.last());
        match newest_distance(rest, poc, poc_max) {
            Some(d) => {
                let i = choose|i: int|
                    0 <= i < rest.len() && distance_behind(poc, #[trigger] rest[i], poc_max) == d;
                assert(decoded[i] == rest[i]);
            },
            None => {},
        }
    }
}

/// What marking an entry as used does to the entries.
proof fn lemma_with_used(entries: Seq<RpsEntry>, delta_poc: i32)
    ensures
        ({
            let out = with_used(entries, delta_poc);
            &&& entries.len() <= out.len() <= entries.len() + 1
            &&& forall|i: int|
                0 <= i < entries.len() ==> {
                    &&& (#[trigger] out[i]).delta_poc == entries[i].delta_poc
                    &&& out[i] == entries[i] || out[i] == (RpsEntry { delta_poc, used: true })
                }
            &&& out.len() > entries.len() ==> out.last() == (RpsEntry { delta_poc, used: true })
                && forall|i: int|
                0 <= i < entries.len() ==> (#[trigger] entries[i]).delta_poc != delta_poc
            &&& exists|i: int|
                0 <= i < out.len() && #[trigger] out[i] == (RpsEntry { delta_poc, used: true })
        }),
    decreases entries.len(),
{
    let out = with_used(entries, delta_poc);
    let mark = RpsEntry { delta_poc, used: true };
    if entries.len() == 0 {
        assert(out[0] == mark);
    } else if entries[0].delta_poc == delta_poc {
        assert(out[0] == mark);
    } else {
        let rest = entries.drop_first();
        lemma_with_used(rest, delta_poc);
        let tail = with_used(rest, delta_poc);
        assert(out =~= seq![entries[0]] + tail);
        assert forall|i: int| 0 <= i < entries.len() implies (#[trigger] out[i]).delta_poc
            == entries[i].delta_poc && (out[i] == entries[i] || out[i] == mark) by {
            if i > 0 {
                assert(out[i] == tail[i - 1] && entries[i] == rest[i - 1]);
            }
        }
        if out.len() > entries.len() {
            assert(out.last() == tail.last());
            assert forall|i: int| 0 <= i < entries.len() implies (#[trigger] entries[i]).delta_poc
                != delta_poc by {
                if i > 0 {
                    assert(entries[i] == rest[i - 1]);
                }
            }
        }
        let k = choose|k: int| 0 <= k < tail.len() && #[trigger] tail[k] == mark;
        assert(out[k + 1] == mark);
    }
}

/// The entry that stands in for a missing reference names the newest picture.
proof fn lemma_newest_entry_in_dpb(decoded: Seq<u32>, poc: int, poc_max: int)
    requires
        0 < poc_max <= 0x8000_0000,
        forall|i: int| 0 <= i < decoded.len() ==> #[trigger] decoded[i] < poc_max,
        newest_distance(decoded, poc, poc_max) is Some,
    ensures
        ({
            let d = newest_distance(decoded, poc, poc_max)->0;
            &&& (-d) as i32 == -d
            &&& decoded.contains(poc_lsb_at(poc, -d, poc_max))
        }),
{
    lemma_newest(decoded, poc, poc_max);
    let d = newest_distance(decoded, poc, poc_max)->0;
    let i = choose|i: int|
        0 <= i < decoded.len() && distance_behind(poc, #[trigger] decoded[i], poc_max) == d;
    let lsb = decoded[i] as int;
    vstd::arithmetic::div_mod::lemma_sub_mod_noop_right(poc, poc - lsb, poc_max);
    vstd::arithmetic::div_mod::lemma_small_mod(lsb as nat, poc_max as nat);
    assert((poc + (-d)) % poc_max == lsb);
    assert(decoded.contains(decoded[i]));
}

/// Concealment leaves no entry that names a missing picture.
pub proof fn law_concealed_names_only_decoded_pictures(
    rps: Seq<RpsEntry>,
    poc: int,
    poc_max: int,
    decoded: Seq<u32>,
)
    requires
        0 < poc_max <= 0x8000_0000,
        forall|i: int| 0 <= i < decoded.len() ==> #[trigger] decoded[i] < poc_max,
    ensures
        forall|i: int|
            0 <= i < concealed(rps, poc, poc_max, decoded).len() ==> in_dpb(decoded, poc, poc_max)(
                #[trigger] concealed(rps, poc, poc_max, decoded)[i],
            ),
{
    let keep = in_dpb(decoded, poc, poc_max);
    let kept = rps.filter(keep);
    let out = concealed(rps, poc, poc_max, decoded);
    assert forall|i: int| 0 <= i < kept.len() implies keep(#[trigger] kept[i]) by {
        rps.lemma_filter_pred(keep, i);
    }
    if misses_used(rps, poc, poc_max, decoded) && newest_distance(decoded, poc, poc_max) is Some {
        let d = newest_distance(decoded, poc, poc_max)->0;
        lemma_newest_entry_in_dpb(decoded, poc, poc_max);
        lemma_with_used(kept, (-d) as i32);
        assert forall|i: int| 0 <= i < out.len() implies keep(#[trigger] out[i]) by {
            if i < kept.len() {
                assert(keep(kept[i]));
            } else {
                assert(out[i] == out.last());
            }
        }
    }
}

/// Whether the DPB holds a picture other than the current one.
pub open spec fn holds_other_picture(decoded: Seq<u32>, poc: int, poc_max: int) -> bool {
    exists|i: int|
        0 <= i < decoded.len() && distance_behind(poc, #[trigger] decoded[i], poc_max) != 0
}

/// Whether a used entry names the newest picture of the DPB.
pub open spec fn names_newest(e: RpsEntry, poc: int, poc_max: int, decoded: Seq<u32>) -> bool {
    &&& e.used
    &&& -poc_max < e.delta_poc < 0
    &&& in_dpb(decoded, poc, poc_max)(e)
    &&& forall|i: int|
        0 <= i < decoded.len() ==> {
            let other = distance_behind(poc, #[trigger] decoded[i], poc_max);
            other == 0 || other >= -e.delta_poc
        }
}

/// A missing used reference is remapped onto the newest picture of the DPB: the
/// result has a used entry for it, and no other picture of the DPB lies nearer
/// behind the current one.
pub proof fn law_missing_reference_maps_to_newest(
    rps: Seq<RpsEntry>,
    poc: int,
    poc_max: int,
    decoded: Seq<u32>,
)
    requires
        0 < poc_max <= 0x8000_0000,
        forall|i: int| 0 <= i < decoded.len() ==> #[trigger] decoded[i] < poc_max,
        misses_used(rps, poc, poc_max, decoded),
        holds_other_picture(decoded, poc, poc_max),
    ensures
        exists|k: int|
            0 <= k < concealed(rps, poc, poc_max, decoded).len() && names_newest(
                #[trigger] concealed(rps, poc, poc_max, decoded)[k],
                poc,
                poc_max,
                decoded,
            ),
{
    lemma_newest(decoded, poc, poc_max);
    lemma_newest_entry_in_dpb(decoded, poc, poc_max);
    let d = newest_distance(decoded, poc, poc_max)->0;
    let kept = rps.filter(in_dpb(decoded, poc, poc_max));
    lemma_with_used(kept, (-d) as i32);
    let out = concealed(rps, poc, poc_max, decoded);
    let mark = RpsEntry { delta_poc: (-d) as i32, used: true };
    let k = choose|k: int| 0 <= k < out.len() && #[trigger] out[k] == mark;
    assert(names_newest(out[k], poc, poc_max, decoded));
}

/// If every named picture is in the DPB, concealment changes nothing.
pub proof fn law_complete_rps_is_kept(
    rps: Seq<RpsEntry>,
    poc: int,
    poc_max: int,
    decoded: Seq<u32>,
)
    requires
        forall|i: int|
            0 <= i < rps.len() ==> in_dpb(decoded, poc, poc_max)(#[trigger] rps[i]),
    ensures
        concealed(rps, poc, poc_max, decoded) == rps,
        !misses_used(rps, poc, poc_max, decoded),
{
    rps::lemma_filter_all(rps, in_dpb(decoded, poc, poc_max));
}

/// Unless a used reference is missing, concealment only drops the entries for
/// pictures that are not in the DPB.
pub proof fn law_absent_unused_entries_are_dropped(
    rps: Seq<RpsEntry>,
    poc: int,
    poc_max: int,
    decoded: Seq<u32>,
)
    requires
        !misses_used(rps, poc, poc_max, decoded),
    ensures
        concealed(rps, poc, poc_max, decoded) == rps.filter(in_dpb(decoded, poc, poc_max)),
{
}

/// Of up to 16 distinct references, as many as a DPB can hold, concealment leaves
/// ones that a slice can be rewritten with.
pub proof fn law_concealed_fits_inline(
    rps: Seq<RpsEntry>,
    poc: int,
    poc_max: int,
    decoded: Seq<u32>,
)
    requires
        0 < poc_max <= 0x8000_0000,
        rps.len() <= 16,
        rps::encodable(rps),
        forall|i: int| 0 <= i < rps.len() ==> (#[trigger] rps[i]).delta_poc != 0,
    ensures
        slice_laws::fits_inline(concealed(rps, poc, poc_max, decoded)),
        forall|pps: PpsInfo| #[trigger]
            slice_laws::counts_agree(pps, concealed(rps, poc, poc_max, decoded)),
{
    let keep = in_dpb(decoded, poc, poc_max);
    let kept = rps.filter(keep);
    let out = concealed(rps, poc, poc_max, decoded);
    rps::lemma_filter_encodable(rps, keep);
    rps.lemma_filter_len(keep);
    assert forall|i: int| 0 <= i < kept.len() implies (#[trigger] kept[i]).delta_poc != 0 by {
        assert(kept.contains(kept[i]));
        rps.lemma_filter_contains_rev(keep, kept[i]);
        let k = choose|k: int| 0 <= k < rps.len() && rps[k] == kept[i];
        assert(rps[k].delta_poc != 0);
    }
    if misses_used(rps, poc, poc_max, decoded) && newest_distance(decoded, poc, poc_max) is Some {
        let d = newest_distance(decoded, poc, poc_max)->0;
        lemma_newest(decoded, poc, poc_max);
        let delta = (-d) as i32;
        assert(delta == -d);
        lemma_with_used(kept, delta);
        let i = choose|i: int| 0 <= i < rps.len() && (#[trigger] rps[i]).used && !keep(rps[i]);
        rps::lemma_filter_drops(rps, keep, i);
        assert forall|i: int| 0 <= i < out.len() implies {
            &&& (#[trigger] out[i]).delta_poc != 0
            &&& out[i].delta_poc != i32::MIN
        } by {
            if i < kept.len() {
                assert(kept[i].delta_poc != 0 && kept[i].delta_poc != i32::MIN);
            } else {
                assert(out[i] == out.last());
            }
        }
        assert forall|i: int, j: int|
            0 <= i < j < out.len() && (#[trigger] out[i]).delta_poc == (
            #[trigger] out[j]).delta_poc implies out[i].delta_poc == 0 by {
            if j < kept.len() {
                assert(kept[i].delta_poc == kept[j].delta_poc);
            } else {
                assert(out[j] == out.last());
                assert(kept[i].delta_poc != delta);
            }
        }
    }
    rps::lemma_side_len(out, true);
    rps::lemma_side_len(out, false);
    rps::lemma_used_count_canonical(out);
}

/// Concealment keeps every reference that is there, and adds at most the newest picture
/// of the DPB: each kept entry is as it was, unless it has come to stand in for a
/// missing one.
pub proof fn law_present_references_are_kept(
    rps: Seq<RpsEntry>,
    poc: int,
    poc_max: int,
    decoded: Seq<u32>,
    k: int,
)
    requires
        0 < poc_max <= 0x8000_0000,
        forall|i: int| 0 <= i < decoded.len() ==> #[trigger] decoded[i] < poc_max,
        0 <= k < rps.len(),
        decoded.contains(((poc + rps[k].delta_poc) % poc_max) as u32),
    ensures
        exists|j: int|
            0 <= j < concealed(rps, poc, poc_max, decoded).len() && {
                let e = #[trigger] concealed(rps, poc, poc_max, decoded)[j];
                &&& e.delta_poc == rps[k].delta_poc
                &&& e == rps[k] || names_newest(e, poc, poc_max, decoded)
            },
{
    let keep = in_dpb(decoded, poc, poc_max);
    let kept = rps.filter(keep);
    let out = concealed(rps, poc, poc_max, decoded);
    assert(keep(rps[k]));
    rps.lemma_filter_contains(keep, k);
    let a = choose|a: int| 0 <= a < kept.len() && kept[a] == rps[k];
    if misses_used(rps, poc, poc_max, decoded) && newest_distance(decoded, poc, poc_max) is Some {
        let d = newest_distance(decoded, poc, poc_max)->0;
        lemma_newest(decoded, poc, poc_max);
        lemma_newest_entry_in_dpb(decoded, poc, poc_max);
        lemma_with_used_keeps(kept, (-d) as i32, a);
        let b = choose|b: int|
            0 <= b < out.len() && (#[trigger] out[b]).delta_poc == kept[a].delta_poc && (out[b]
                == kept[a] || out[b] == RpsEntry { delta_poc: (-d) as i32, used: true });
        assert(out[b].delta_poc == rps[k].delta_poc);
    } else {
        assert(out[a] == rps[k]);
    }
}

/// Marking an entry as used keeps the others.
proof fn lemma_with_used_keeps(entries: Seq<RpsEntry>, delta_poc: i32, a: int)
    requires
        0 <= a < entries.len(),
    ensures
        exists|b: int|
            0 <= b < with_used(entries, delta_poc).len() && (#[trigger] with_used(
                entries,
                delta_poc,
            )[b]).delta_poc == entries[a].delta_poc && (with_used(entries, delta_poc)[b]
                == entries[a] || with_used(entries, delta_poc)[b] == RpsEntry {
                delta_poc,
                used: true,
            }),
    decreases entries.len(),
{
    let out = with_used(entries, delta_poc);
    if entries[0].delta_poc == delta_poc {
        assert(out[a].delta_poc == entries[a].delta_poc);
    } else if a == 0 {
        assert(out[0] == entries[0]);
    } else {
        let rest = entries.drop_first();
        lemma_with_used_keeps(rest, delta_poc, a - 1);
        let sub = with_used(rest, delta_poc);
        let b = choose|b: int|
            0 <= b < sub.len() && (#[trigger] sub[b]).delta_poc == rest[a - 1].delta_poc && (sub[b]
                == rest[a - 1] || sub[b] == RpsEntry { delta_poc, used: true });
        assert(out[b + 1] == sub[b]);
    }
}

/// Concealment makes nothing up: each entry was there before, or stands in for a missing
/// used reference by naming the newest picture of the DPB.
pub proof fn law_concealment_adds_only_the_newest(
    rps: Seq<RpsEntry>,
    poc: int,
    poc_max: int,
    decoded: Seq<u32>,
    j: int,
)
    requires
        0 < poc_max <= 0x8000_0000,
        forall|i: int| 0 <= i < decoded.len() ==> #[trigger] decoded[i] < poc_max,
        0 <= j < concealed(rps, poc, poc_max, decoded).len(),
    ensures
        rps.contains(concealed(rps, poc, poc_max, decoded)[j]) || names_newest(
            concealed(rps, poc, poc_max, decoded)[j],
            poc,
            poc_max,
            decoded,
        ) && misses_used(rps, poc, poc_max, decoded),
{
    let keep = in_dpb(decoded, poc, poc_max);
    let kept = rps.filter(keep);
    let out = concealed(rps, poc, poc_max, decoded);
    if misses_used(rps, poc, poc_max, decoded) && newest_distance(decoded, poc, poc_max) is Some {
        let d = newest_distance(decoded, poc, poc_max)->0;
        lemma_newest(decoded, poc, poc_max);
        lemma_newest_entry_in_dpb(decoded, poc, poc_max);
        lemma_with_used_adds(kept, (-d) as i32, j);
        if kept.contains(out[j]) {
            rps.lemma_filter_contains_rev(keep, out[j]);
        }
    } else {
        assert(kept.contains(out[j]));
        rps.lemma_filter_contains_rev(keep, out[j]);
    }
}

/// Marking an entry as used adds nothing else.
proof fn lemma_with_used_adds(entries: Seq<RpsEntry>, delta_poc: i32, j: int)
    requires
        0 <= j < with_used(entries, delta_poc).len(),
    ensures
        entries.contains(with_used(entries, delta_poc)[j]) || with_used(entries, delta_poc)[j]
            == (RpsEntry { delta_poc, used: true }),
    decreases entries.len(),
{
    let out = with_used(entries, delta_poc);
    if entries.len() > 0 {
        if entries[0].delta_poc == delta_poc {
            if j > 0 {
                assert(entries[j] == out[j]);
            }
        } else if j == 0 {
            assert(entries[0] == out[0]);
        } else {
            let rest = entries.drop_first();
            lemma_with_used_adds(rest, delta_poc, j - 1);
            assert(out[j] == with_used(rest, delta_poc)[j - 1]);
            if rest.contains(out[j]) {
                let k = choose|k: int| 0 <= k < rest.len() && rest[k] == out[j];
                assert(entries[k + 1] == out[j]);
            }
        }
    }
}

/// If a used reference is missing and the DPB holds another picture than the current one,
/// the result predicts from a picture of the DPB behind the current one, and the DPB
/// holds no picture between the two.
pub proof fn law_lost_picture_is_replaced_by_the_nearest(
    rps: Seq<RpsEntry>,
    poc: int,
    poc_max: int,
    decoded: Seq<u32>,
    lost: int,
    other: int,
)
    requires
        0 <= poc < poc_max <= 0x8000_0000,
        forall|i: int| 0 <= i < decoded.len() ==> #[trigger] decoded[i] < poc_max,
        0 <= lost < rps.len(),
        rps[lost].used,
        !decoded.contains(((poc + rps[lost].delta_poc) % poc_max) as u32),
        0 <= other < decoded.len(),
        decoded[other] != poc,
    ensures
        exists|k: int|
            0 <= k < concealed(rps, poc, poc_max, decoded).len() && {
                let e = #[trigger] concealed(rps, poc, poc_max, decoded)[k];
                &&& e.used
                &&& -poc_max < e.delta_poc < 0
                &&& decoded.contains(((poc + e.delta_poc) % poc_max) as u32)
                &&& forall|n: int|
                    0 < n < -e.delta_poc ==> !decoded.contains(
                        #[trigger] (((poc - n) % poc_max) as u32),
                    )
            },
{
    assert(misses_used(rps, poc, poc_max, decoded)) by {
        assert(!in_dpb(decoded, poc, poc_max)(rps[lost]));
    }
    let lsb = decoded[other] as int;
    assert((poc - lsb) % poc_max != 0) by (nonlinear_arith)
        requires
            0 <= poc < poc_max,
            0 <= lsb < poc_max,
            poc != lsb,
    ;
    assert(distance_behind(poc, decoded[other], poc_max) != 0);
    law_missing_reference_maps_to_newest(rps, poc, poc_max, decoded);
    let out = concealed(rps, poc, poc_max, decoded);
    let k = choose|k: int|
        0 <= k < out.len() && names_newest(#[trigger] out[k], poc, poc_max, decoded);
    let e = out[k];
    assert(decoded.contains(poc_lsb_at(poc, e.delta_poc as int, poc_max)));
    assert forall|n: int| 0 < n < -e.delta_poc implies !decoded.contains(
        #[trigger] (((poc - n) % poc_max) as u32),
    ) by {
        lemma_other_picture(poc, -n, poc_max);
        let between = poc_lsb_at(poc, -n, poc_max);
        assert(between == ((poc - n) % poc_max) as u32);
        if decoded.contains(between) {
            let i = choose|i: int| 0 <= i < decoded.len() && decoded[i] == between;
            assert(distance_behind(poc, decoded[i], poc_max) == n);
        }
    }
}

/// If no used reference is missing, nothing is remapped: what is left are exactly the
/// entries for pictures of the DPB, as they were and in their order.
pub proof fn law_unused_losses_are_only_dropped(
    rps: Seq<RpsEntry>,
    poc: int,
    poc_max: int,
    decoded: Seq<u32>,
)
    requires
        forall|i: int|
            0 <= i < rps.len() && (#[trigger] rps[i]).used ==> decoded.contains(
                ((poc + rps[i].delta_poc) % poc_max) as u32,
            ),
    ensures
        !misses_used(rps, poc, poc_max, decoded),
        concealed(rps, poc, poc_max, decoded) == rps.filter(
            |e: RpsEntry| decoded.contains(((poc + e.delta_poc) % poc_max) as u32),
        ),
{
    let there = |e: RpsEntry| decoded.contains(((poc + e.delta_poc) % poc_max) as u32);
    assert forall|i: int| 0 <= i < rps.len() && (#[trigger] rps[i]).used implies in_dpb(
        decoded,
        poc,
        poc_max,
    )(rps[i]) by {}
    assert(there =~= in_dpb(decoded, poc, poc_max));
}

/// A used reference is missing as soon as one used entry names a picture that the DPB
/// does not hold.
pub proof fn law_missing_is_named_and_not_held(
    rps: Seq<RpsEntry>,
    poc: int,
    poc_max: int,
    decoded: Seq<u32>,
    lost: int,
)
    requires
        0 <= lost < rps.len(),
        rps[lost].used,
        !decoded.contains(((poc + rps[lost].delta_poc) % poc_max) as u32),
    ensures
        misses_used(rps, poc, poc_max, decoded),
{
    assert(!in_dpb(decoded, poc, poc_max)(rps[lost]));
}

/// A picture less than a full turn behind is another picture.
pub proof fn lemma_other_picture(poc: int, delta: int, poc_max: int)
    requires
        0 < poc_max <= 0x8000_0000,
        -poc_max < delta < 0,
    ensures
        distance_behind(poc, poc_lsb_at(poc, delta, poc_max), poc_max) == -delta,
{
    let x = poc + delta;
    let r = x % poc_max;
    assert(0 <= r < poc_max && (poc - r) % poc_max == -delta) by (nonlinear_arith)
        requires
            0 < poc_max,
            -poc_max < delta < 0,
            x == poc + delta,
            r == x % poc_max,
    {
        let q = x / poc_max;
        assert(x == poc_max * q + r);
        assert(poc - r == poc_max * q + (-delta));
        vstd::arithmetic::div_mod::lemma_fundamental_div_mod_converse(
            poc - r,
            poc_max,
            q,
            -delta,
        );
    }
}

} // verus!
