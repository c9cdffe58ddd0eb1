//! Short-term reference picture sets (RPS): their syntax and their canonical
//! order.

use super::bits::{self, BitReader, BitWriter, Cursor};
use super::error::HevcError;
use vstd::prelude::*;

verus! {

broadcast use super::bits::group_failed;

/// One short-term RPS entry: POC delta relative to the current picture
/// (negative for "before"), and whether the current picture predicts from it.
#[derive(Debug, Clone, Copy, PartialEq, Eq, Structural)]
pub struct RpsEntry {
    /// POC of the referenced picture minus the POC of the current picture.
    pub delta_poc: i32,
    /// `used_by_curr_pic_flag`: whether the current picture predicts from it.
    pub used: bool,
}

/// The `i32` that `x` wraps to in two's complement.
pub open spec fn wrap_i32(x: int) -> i32 {
    ((x + 0x8000_0000) % 0x1_0000_0000 - 0x8000_0000) as i32
}

/// The POC delta one coded distance beyond `poc`.
pub open spec fn next_poc(poc: i32, minus1: u32, before: bool) -> i32 {
    if before {
        wrap_i32(poc - (minus1 + 1))
    } else {
        wrap_i32(poc + (minus1 + 1))
    }
}

/// Reads `n` RPS entries on one side of the current picture. Each entry lies
/// one more than the coded distance beyond the previous one (`poc`), towards
/// the past if `before`, else towards the future; a sum that leaves the `i32`
/// range wraps.
pub open spec fn rps_side(c: Cursor, n: nat, poc: i32, before: bool) -> (Seq<RpsEntry>, Cursor)
    decreases n,
{
    if n == 0 {
        (Seq::empty(), c)
    } else {
        let (minus1, c) = c.ue();
        let (used, c) = c.flag();
        let delta_poc = next_poc(poc, minus1, before);
        let (rest, c) = rps_side(c, (n - 1) as nat, delta_poc, before);
        (seq![RpsEntry { delta_poc, used }] + rest, c)
    }
}

/// What an inline RPS says.
pub struct RpsSyntax {
    /// `num_negative_pics`: how many entries are coded as preceding pictures.
    pub negatives: nat,
    /// The entries, preceding pictures first.
    pub entries: Seq<RpsEntry>,
}

/// Reads one non-predicted `st_ref_pic_set()`.
pub open spec fn direct_st_rps(c: Cursor) -> (RpsSyntax, Cursor) {
    let (num_negative, c) = c.ue();
    let (num_positive, c) = c.ue();
    let c = c.ensure(num_negative <= 16 && num_positive <= 16, HevcError::ImplausibleRpsSize);
    let (before, c) = rps_side(c, num_negative as nat, 0, true);
    let (after, c) = rps_side(c, num_positive as nat, 0, false);
    (RpsSyntax { negatives: num_negative as nat, entries: before + after }, c)
}

/// A failed cursor stays failed.
pub proof fn lemma_rps_side_failed(c: Cursor, n: nat, poc: i32, before: bool)
    requires
        !c.ok(),
    ensures
        rps_side(c, n, poc, before).1 == c,
    decreases n,
{
    if n > 0 {
        let (minus1, c1) = c.ue();
        let (used, c2) = c1.flag();
        lemma_rps_side_failed(c2, (n - 1) as nat, next_poc(poc, minus1, before), before);
    }
}

/// A failed cursor stays failed.
pub broadcast proof fn lemma_direct_st_rps_failed(c: Cursor)
    ensures
        !c.ok() ==> (#[trigger] direct_st_rps(c)).1 == c,
{
    if !c.ok() {
        lemma_rps_side_failed(c, 0, 0, true);
        lemma_rps_side_failed(c, 0, 0, false);
    }
}

/// The `i32` with the same low 32 bits.
pub fn wrap_to_i32(x: i64) -> (res: i32)
    ensures
        res == wrap_i32(x as int),
{
    let res: i32 = #[verifier::truncate] (x as i32);
    assert((x as i32) as int == (x + 0x8000_0000) % 0x1_0000_0000 - 0x8000_0000) by (bit_vector);
    res
}

/// Parse `n` entries on one side of the current picture, appending them.
fn parse_rps_side(r: &mut BitReader<'_>, n: u32, before: bool, entries: &mut Vec<RpsEntry>) -> (res:
    Result<(), HevcError>)
    ensures
        final(r).bytes() == old(r).bytes(),
        match res {
            Ok(_) => {
                let side = rps_side(
                    old(r).cursor(),
                    n as nat,
                    0,
                    before,
                );
                &&& side.1 == final(r).cursor()
                &&& final(entries)@ == old(entries)@ + side.0
            },
            Err(e) => rps_side(
                old(r).cursor(),
                n as nat,
                0,
                before,
            ).1.err == Some(e),
        },
{
    let ghost start = r.cursor();
    let ghost given = entries@;
    let mut poc: i32 = 0;
    let mut i: u32 = 0;
    assert(entries@ + rps_side(r.cursor(), n as nat, poc, before).0 =~= given + rps_side(
        start,
        n as nat,
        0,
        before,
    ).0);
    while i < n
        invariant
            r.bytes() == old(r).bytes(),
            i <= n,
            start == old(r).cursor(),
            given == old(entries)@,
            entries@ + rps_side(r.cursor(), (n - i) as nat, poc, before).0 == given + rps_side(
                start,
                n as nat,
                0,
                before,
            ).0,
            rps_side(r.cursor(), (n - i) as nat, poc, before).1 == rps_side(
                start,
                n as nat,
                0,
                before,
            ).1,
        decreases n - i,
    {
        let ghost c = r.cursor();
        let ghost so_far = entries@;
        let ghost rest = (n - i - 1) as nat;
        proof {
            let (minus1, c1) = c.ue();
            let (used, c2) = c1.flag();
            if !c2.ok() {
                lemma_rps_side_failed(c2, rest, next_poc(poc, minus1, before), before);
            }
        }
        let minus1: u32 = r.ue()?;
        let used: bool = r.flag()?;
        let step: i64 = minus1 as i64 + 1;
        let delta_poc: i32 = wrap_to_i32(
            if before {
                poc as i64 - step
            } else {
                poc as i64 + step
            },
        );
        let entry = RpsEntry { delta_poc, used };
        entries.push(entry);
        poc = delta_poc;
        i = i + 1;
        proof {
            let tail = rps_side(r.cursor(), rest, poc, before).0;
            assert(so_far.push(entry) + tail =~= so_far + (seq![entry] + tail));
        }
    }
    assert(entries@ + Seq::<RpsEntry>::empty() =~= entries@);
    Ok(())
}

/// Parse one non-predicted st_ref_pic_set into absolute POC deltas.
pub fn parse_direct_st_rps(r: &mut BitReader<'_>) -> (res: Result<Vec<RpsEntry>, HevcError>)
    ensures
        final(r).bytes() == old(r).bytes(),
        match res {
            Ok(entries) => {
                &&& direct_st_rps(old(r).cursor()).0.entries == entries@
                &&& direct_st_rps(old(r).cursor()).1 == final(r).cursor()
            },
            Err(e) => direct_st_rps(old(r).cursor()).1.err == Some(e),
        },
{
    proof {
        let (num_negative, c) = r.cursor().ue();
        let (num_positive, c) = c.ue();
        let c = c.ensure(num_negative <= 16 && num_positive <= 16, HevcError::ImplausibleRpsSize);
        let (before, c1) = rps_side(c, num_negative as nat, 0, true);
        if !c.ok() {
            lemma_rps_side_failed(c, num_negative as nat, 0, true);
        }
        if !c1.ok() {
            lemma_rps_side_failed(c1, num_positive as nat, 0, false);
        }
    }
    let num_negative: u32 = r.ue()?;
    let num_positive: u32 = r.ue()?;
    if num_negative > 16 || num_positive > 16 {
        return Err(HevcError::ImplausibleRpsSize);
    }
    let mut entries: Vec<RpsEntry> = Vec::with_capacity((num_negative + num_positive) as usize);
    parse_rps_side(r, num_negative, true, &mut entries)?;
    parse_rps_side(r, num_positive, false, &mut entries)?;
    Ok(entries)
}

/// POC distance from the current picture.
pub open spec fn distance(e: RpsEntry) -> int {
    if e.delta_poc < 0 {
        -e.delta_poc
    } else {
        e.delta_poc as int
    }
}

/// Entries by increasing distance from the current picture; equally distant ones
/// by delta, then unused ones first.
pub open spec fn nearer() -> spec_fn(RpsEntry, RpsEntry) -> bool {
    |a: RpsEntry, b: RpsEntry|
        {
            ||| distance(a) < distance(b)
            ||| distance(a) == distance(b) && a.delta_poc < b.delta_poc
            ||| a.delta_poc == b.delta_poc && (a.used ==> b.used)
        }
}

/// Whether an entry names a picture before (or after) the current one.
pub open spec fn on_side(before: bool) -> spec_fn(RpsEntry) -> bool {
    |e: RpsEntry|
        if before {
            e.delta_poc < 0
        } else {
            e.delta_poc > 0
        }
}

/// The entries on one side of the current picture, nearest first.
pub open spec fn side_of(entries: Seq<RpsEntry>, before: bool) -> Seq<RpsEntry> {
    entries.filter(on_side(before)).sort_by(nearer())
}

/// The entries in the order in which HEVC lists them: preceding pictures, nearest
/// first, then following pictures, nearest first. An entry for the current
/// picture itself has no place in a set and is left out.
pub open spec fn canonical_rps(entries: Seq<RpsEntry>) -> Seq<RpsEntry> {
    side_of(entries, true) + side_of(entries, false)
}

/// Whether an inline RPS can express the entries: no two of them name the same
/// other picture, and each distance fits in an `i32`.
pub open spec fn encodable(entries: Seq<RpsEntry>) -> bool {
    &&& forall|i: int| 0 <= i < entries.len() ==> (#[trigger] entries[i]).delta_poc != i32::MIN
    &&& forall|i: int, j: int|
        0 <= i < j < entries.len() && (#[trigger] entries[i]).delta_poc == (
        #[trigger] entries[j]).delta_poc ==> entries[i].delta_poc == 0
}

/// Entry `i` of one side lies strictly beyond the one before it, or beyond `prev`
/// if it is the first one.
pub open spec fn beyond(s: Seq<RpsEntry>, prev: int, before: bool, i: int) -> bool {
    let p = if i == 0 {
        prev
    } else {
        s[i - 1].delta_poc as int
    };
    if before {
        s[i].delta_poc < p
    } else {
        s[i].delta_poc > p
    }
}

/// Each entry of one side lies strictly beyond the one before it, and the first
/// one beyond `prev`.
pub open spec fn ordered_from(s: Seq<RpsEntry>, prev: int, before: bool) -> bool {
    forall|i: int| 0 <= i < s.len() ==> #[trigger] beyond(s, prev, before, i)
}

/// The syntax of the entries of one side, given the delta before the first.
pub open spec fn side_bits(prev: int, s: Seq<RpsEntry>) -> Seq<bool>
    decreases s.len(),
{
    if s.len() == 0 {
        Seq::empty()
    } else {
        let delta = s[0].delta_poc as int;
        let gap = if delta < prev {
            prev - delta
        } else {
            delta - prev
        };
        bits::ue_bits((gap - 1) as nat).push(s[0].used) + side_bits(delta, s.drop_first())
    }
}

/// The syntax of an inline set whose sides are `before` and `after`.
pub open spec fn rps_bits(before: Seq<RpsEntry>, after: Seq<RpsEntry>) -> Seq<bool> {
    bits::ue_bits(before.len()) + bits::ue_bits(after.len()) + side_bits(0, before) + side_bits(
        0,
        after,
    )
}

/// How many entries the current picture predicts from.
pub open spec fn used_count(entries: Seq<RpsEntry>) -> nat {
    entries.filter(|e: RpsEntry| e.used).len()
}

proof fn lemma_nearer_is_total()
    ensures
        vstd::relations::total_ordering(nearer()),
{
}

/// The entries of one side stand strictly in order if the set is encodable.
pub proof fn lemma_side_ordered(entries: Seq<RpsEntry>, before: bool)
    requires
        encodable(entries),
    ensures
        ordered_from(side_of(entries, before), 0, before),
        forall|i: int|
            0 <= i < side_of(entries, before).len() ==> entries.contains(
                #[trigger] side_of(entries, before)[i],
            ),
{
    broadcast use vstd::seq_lib::group_to_multiset_ensures;
    broadcast use vstd::multiset::group_multiset_axioms;

    let f = entries.filter(on_side(before));
    let s = side_of(entries, before);
    lemma_nearer_is_total();
    f.lemma_sort_by_ensures(nearer());
    lemma_filter_distinct(entries, before);
    f.lemma_multiset_has_no_duplicates();
    s.lemma_multiset_has_no_duplicates_conv();
    assert forall|i: int| 0 <= i < s.len() implies entries.contains(#[trigger] s[i]) && on_side(
        before,
    )(s[i]) by {
        assert(s.contains(s[i]));
        assert(f.contains(s[i]));
        entries.lemma_filter_contains_rev(on_side(before), s[i]);
        let k = choose|k: int| 0 <= k < f.len() && f[k] == s[i];
        entries.lemma_filter_pred(on_side(before), k);
    }
    assert forall|i: int| 0 <= i < s.len() implies #[trigger] beyond(s, 0, before, i) by {
        assert(on_side(before)(s[i]));
        if i > 0 {
            assert(nearer()(s[i - 1], s[i]));
            assert(s[i - 1] != s[i]);
            assert(entries.contains(s[i - 1]) && on_side(before)(s[i - 1]));
            assert(entries.contains(s[i]) && on_side(before)(s[i]));
            if s[i - 1].delta_poc == s[i].delta_poc {
                let a = choose|a: int| 0 <= a < entries.len() && entries[a] == s[i - 1];
                let b = choose|b: int| 0 <= b < entries.len() && entries[b] == s[i];
                assert(a != b);
                assert(false);
            }
        }
    }
}

proof fn lemma_filter_distinct(entries: Seq<RpsEntry>, before: bool)
    requires
        encodable(entries),
    ensures
        entries.filter(on_side(before)).no_duplicates(),
    decreases entries.len(),
{
    reveal(Seq::filter);
    if entries.len() > 0 {
        let rest = entries.drop_last();
        let f = rest.filter(on_side(before));
        lemma_filter_distinct(rest, before);
        if on_side(before)(entries.last()) {
            assert forall|i: int| 0 <= i < f.len() implies f[i] != entries.last() by {
                assert(f.contains(f[i]));
                rest.lemma_filter_contains_rev(on_side(before), f[i]);
                let k = choose|k: int| 0 <= k < rest.len() && rest[k] == f[i];
                assert(entries[k] == f[i]);
            }
        }
    }
}

/// Distances on an ordered side grow by at least one per entry.
proof fn lemma_ordered_bound(s: Seq<RpsEntry>, prev: int, before: bool, i: int)
    requires
        ordered_from(s, prev, before),
        0 <= i < s.len(),
    ensures
        before ==> s[i].delta_poc < prev - i,
        !before ==> s[i].delta_poc > prev + i,
    decreases i,
{
    assert(beyond(s, prev, before, i));
    if i > 0 {
        lemma_ordered_bound(s, prev, before, i - 1);
    }
}

/// The entries of one side, nearest first.
fn sorted_side(entries: &[RpsEntry], before: bool) -> (out: Vec<RpsEntry>)
    requires
        encodable(entries@),
    ensures
        out@ == side_of(entries@, before),
        ordered_from(out@, 0, before),
        out@.len() < u32::MAX,
        forall|i: int| 0 <= i < out@.len() ==> (#[trigger] out@[i]).delta_poc != i32::MIN,
{
    let mut out: Vec<RpsEntry> = Vec::new();
    let mut i: usize = 0;
    proof {
        lemma_nearer_is_total();
        reveal(Seq::filter);
        assert(entries@.take(0).filter(on_side(before)) =~= out@);
    }
    while i < entries.len()
        invariant
            encodable(entries@),
            i <= entries@.len(),
            vstd::relations::total_ordering(nearer()),
            vstd::relations::sorted_by(out@, nearer()),
            out@.to_multiset() == entries@.take(i as int).filter(on_side(before)).to_multiset(),
            forall|k: int|
                0 <= k < out@.len() ==> (#[trigger] out@[k]).delta_poc != i32::MIN && on_side(
                    before,
                )(out@[k]),
        decreases entries@.len() - i,
    {
        let e: RpsEntry = entries[i];
        let keep: bool = if before {
            e.delta_poc < 0
        } else {
            e.delta_poc > 0
        };
        let ghost taken = entries@.take(i + 1);
        proof {
            reveal(Seq::filter);
            assert(taken.drop_last() =~= entries@.take(i as int));
        }
        if keep {
            let mut k: usize = out.len();
            while k > 0 && !nearer_or_equal(&out[k - 1], &e)
                invariant
                    k <= out@.len(),
                    vstd::relations::sorted_by(out@, nearer()),
                    vstd::relations::total_ordering(nearer()),
                    e.delta_poc != i32::MIN,
                    on_side(before)(e),
                    forall|j: int|
                        0 <= j < out@.len() ==> (#[trigger] out@[j]).delta_poc != i32::MIN
                            && on_side(before)(out@[j]),
                    forall|j: int| k <= j < out@.len() ==> nearer()(e, #[trigger] out@[j]),
                decreases k,
            {
                k = k - 1;
            }
            let ghost sorted = out@;
            proof {
                assert forall|j: int| 0 <= j < k implies nearer()(#[trigger] out@[j], e) by {
                    if j < k - 1 {
                        assert(nearer()(out@[j], out@[k - 1]));
                    }
                }
            }
            out.insert(k, e);
            proof {
                broadcast use vstd::seq_lib::group_to_multiset_ensures;

                assert(out@.to_multiset() =~= sorted.to_multiset().insert(e));
            }
        }
        i = i + 1;
    }
    proof {
        assert(entries@.take(i as int) =~= entries@);
        let f = entries@.filter(on_side(before));
        f.lemma_sort_by_ensures(nearer());
        vstd::seq_lib::lemma_sorted_unique(out@, side_of(entries@, before), nearer());
        lemma_side_ordered(entries@, before);
        if out@.len() > 0 {
            lemma_ordered_bound(out@, 0, before, out@.len() - 1);
        }
    }
    out
}

/// Whether `a` does not come after `b` in distance order.
fn nearer_or_equal(a: &RpsEntry, b: &RpsEntry) -> (res: bool)
    requires
        a.delta_poc != i32::MIN,
        b.delta_poc != i32::MIN,
    ensures
        res == nearer()(*a, *b),
{
    let da: i32 = if a.delta_poc < 0 {
        -a.delta_poc
    } else {
        a.delta_poc
    };
    let db: i32 = if b.delta_poc < 0 {
        -b.delta_poc
    } else {
        b.delta_poc
    };
    da < db || (da == db && a.delta_poc < b.delta_poc) || (a.delta_poc == b.delta_poc && (!a.used
        || b.used))
}

/// Append the entries of one side to the syntax.
fn put_side(w: &mut BitWriter, side: &Vec<RpsEntry>, before: bool)
    requires
        ordered_from(side@, 0, before),
        forall|i: int| 0 <= i < side@.len() ==> (#[trigger] side@[i]).delta_poc != i32::MIN,
    ensures
        final(w)@ == old(w)@ + side_bits(0, side@),
{
    let ghost given = w@;
    let mut prev: i32 = 0;
    let mut i: usize = 0;
    assert(side@.skip(0) =~= side@);
    while i < side.len()
        invariant
            i <= side@.len(),
            ordered_from(side@, 0, before),
            forall|k: int| 0 <= k < side@.len() ==> (#[trigger] side@[k]).delta_poc != i32::MIN,
            prev == if i == 0 {
                0
            } else {
                side@[i - 1].delta_poc
            },
            before ==> prev <= 0,
            !before ==> prev >= 0,
            w@ + side_bits(prev as int, side@.skip(i as int)) == given + side_bits(0, side@),
        decreases side@.len() - i,
    {
        let e: RpsEntry = side[i];
        let ghost so_far = w@;
        let ghost rest = side@.skip(i as int);
        assert(beyond(side@, 0, before, i as int));
        assert(rest[0] == e);
        assert(rest.drop_first() =~= side@.skip(i + 1));
        let gap: i32 = if before {
            prev - e.delta_poc - 1
        } else {
            e.delta_poc - prev - 1
        };
        w.put_ue(gap as u32);
        w.put_flag(e.used);
        prev = e.delta_poc;
        i = i + 1;
        proof {
            let tail = side_bits(prev as int, side@.skip(i as int));
            assert(w@ + tail =~= so_far + (bits::ue_bits(gap as nat).push(e.used) + tail));
        }
    }
    assert(side@.skip(i as int) =~= Seq::empty());
    assert(w@ + Seq::<bool>::empty() =~= w@);
}

/// Append `entries` as an inline set, in canonical order.
pub fn put_rps(w: &mut BitWriter, entries: &[RpsEntry])
    requires
        encodable(entries@),
    ensures
        final(w)@ == old(w)@ + rps_bits(side_of(entries@, true), side_of(entries@, false)),
{
    let ghost given = w@;
    let before: Vec<RpsEntry> = sorted_side(entries, true);
    let after: Vec<RpsEntry> = sorted_side(entries, false);
    w.put_ue(before.len() as u32);
    w.put_ue(after.len() as u32);
    put_side(w, &before, true);
    put_side(w, &after, false);
    assert(w@ =~= given + rps_bits(before@, after@));
}

/// Whether an inline RPS can express the entries.
pub fn is_encodable(entries: &[RpsEntry]) -> (res: bool)
    ensures
        res == encodable(entries@),
{
    let mut i: usize = 0;
    while i < entries.len()
        invariant
            i <= entries@.len(),
            forall|k: int| 0 <= k < i ==> (#[trigger] entries@[k]).delta_poc != i32::MIN,
            forall|j: int, k: int|
                0 <= j < i && j < k < entries@.len() && (#[trigger] entries@[j]).delta_poc == (
                #[trigger] entries@[k]).delta_poc ==> entries@[j].delta_poc == 0,
        decreases entries@.len() - i,
    {
        if entries[i].delta_poc == i32::MIN {
            return false;
        }
        let mut j: usize = i + 1;
        while j < entries.len()
            invariant
                i < j <= entries@.len(),
                forall|k: int|
                    i < k < j && entries@[i as int].delta_poc == (#[trigger] entries@[k]).delta_poc
                        ==> entries@[i as int].delta_poc == 0,
            decreases entries@.len() - j,
        {
            if entries[i].delta_poc == entries[j].delta_poc && entries[i].delta_poc != 0 {
                return false;
            }
            j = j + 1;
        }
        i = i + 1;
    }
    true
}

/// How many entries the current picture predicts from.
pub fn count_used(entries: &[RpsEntry]) -> (n: usize)
    ensures
        n == used_count(entries@),
{
    let mut n: usize = 0;
    let mut i: usize = 0;
    proof {
        reveal(Seq::filter);
    }
    while i < entries.len()
        invariant
            i <= entries@.len(),
            n <= i,
            n == used_count(entries@.take(i as int)),
        decreases entries@.len() - i,
    {
        proof {
            reveal(Seq::filter);
            assert(entries@.take(i + 1).drop_last() =~= entries@.take(i as int));
        }
        if entries[i].used {
            n = n + 1;
        }
        i = i + 1;
    }
    assert(entries@.take(i as int) =~= entries@);
    n
}

/// A side's syntax reads back as the side it was written from.
#[verifier::rlimit(40)]
pub proof fn lemma_side_reads(c: Cursor, prev: i32, s: Seq<RpsEntry>, before: bool)
    requires
        ordered_from(s, prev as int, before),
        bits::follows(c, side_bits(prev as int, s)),
    ensures
        rps_side(c, s.len(), prev, before) == (
            s,
            c.at(c.pos + side_bits(prev as int, s).len()),
        ),
    decreases s.len(),
{
    if s.len() == 0 {
        assert(s =~= Seq::empty());
    } else {
        assert(beyond(s, prev as int, before, 0));
        let delta = s[0].delta_poc;
        let gap = if delta < prev {
            prev - delta
        } else {
            delta - prev
        };
        let code = bits::ue_bits((gap - 1) as nat);
        let rest = s.drop_first();
        let tail = side_bits(delta as int, rest);
        assert(code.push(s[0].used) + tail =~= code + (seq![s[0].used] + tail));
        bits::lemma_follows_split(c, code, seq![s[0].used] + tail);
        let c1 = c.at(c.pos + code.len());
        bits::lemma_follows_split(c1, seq![s[0].used], tail);
        let c2 = c1.at(c1.pos + 1);
        bits::lemma_ue_reads(c, (gap - 1) as nat);
        bits::lemma_flag_reads(c1, s[0].used);
        assert(next_poc(prev, (gap - 1) as u32, before) == delta);
        assert forall|i: int| 0 <= i < rest.len() implies #[trigger] beyond(
            rest,
            delta as int,
            before,
            i,
        ) by {
            assert(beyond(s, prev as int, before, i + 1));
            assert(rest[i] == s[i + 1]);
        }
        lemma_side_reads(c2, delta, rest, before);
        assert(seq![s[0]] + rest =~= s);
    }
}

/// An inline set reads back as the sides it was written from.
pub proof fn lemma_rps_reads(c: Cursor, before: Seq<RpsEntry>, after: Seq<RpsEntry>)
    requires
        before.len() <= 16,
        after.len() <= 16,
        ordered_from(before, 0, true),
        ordered_from(after, 0, false),
        bits::follows(c, rps_bits(before, after)),
    ensures
        direct_st_rps(c) == (
            RpsSyntax { negatives: before.len(), entries: before + after },
            c.at(c.pos + rps_bits(before, after).len()),
        ),
{
    let nb = bits::ue_bits(before.len());
    let na = bits::ue_bits(after.len());
    let sb = side_bits(0, before);
    let sa = side_bits(0, after);
    assert(rps_bits(before, after) =~= nb + (na + (sb + sa)));
    bits::lemma_follows_split(c, nb, na + (sb + sa));
    let c1 = c.at(c.pos + nb.len());
    bits::lemma_follows_split(c1, na, sb + sa);
    let c2 = c1.at(c1.pos + na.len());
    bits::lemma_follows_split(c2, sb, sa);
    bits::lemma_ue_reads(c, before.len());
    bits::lemma_ue_reads(c1, after.len());
    lemma_side_reads(c2, 0, before, true);
    lemma_side_reads(c2.at(c2.pos + sb.len()), 0, after, false);
}

/// A side that was read without wrapping has only one syntax.
#[verifier::rlimit(40)]
pub proof fn lemma_side_canonical(c: Cursor, n: nat, prev: i32, before: bool)
    requires
        c.ok(),
        0 <= c.pos <= c.bits.len(),
        rps_side(c, n, prev, before).1.ok(),
        ordered_from(rps_side(c, n, prev, before).0, prev as int, before),
    ensures
        ({
            let (s, end) = rps_side(c, n, prev, before);
            &&& s.len() == n
            &&& c.pos <= end.pos <= c.bits.len()
            &&& end.bits == c.bits
            &&& c.bits.subrange(c.pos, end.pos) == side_bits(prev as int, s)
        }),
    decreases n,
{
    let (s, end) = rps_side(c, n, prev, before);
    if n == 0 {
        assert(c.bits.subrange(c.pos, end.pos) =~= side_bits(prev as int, s));
    } else {
        let (minus1, c1) = c.ue();
        let (used, c2) = c1.flag();
        let delta = next_poc(prev, minus1, before);
        let rest = rps_side(c2, (n - 1) as nat, delta, before).0;
        if !c2.ok() {
            lemma_rps_side_failed(c2, (n - 1) as nat, delta, before);
        }
        assert(s[0] == (RpsEntry { delta_poc: delta, used }));
        assert(s.drop_first() =~= rest);
        bits::lemma_ue_moves(c);
        bits::lemma_u_moves(c1, 1);
        lemma_ordered_rest(s, prev as int, before);
        lemma_side_canonical(c2, (n - 1) as nat, delta, before);
        lemma_first_canonical(c, prev, before);
        assert(c.bits.subrange(c.pos, end.pos) =~= c.bits.subrange(c.pos, c2.pos)
            + c.bits.subrange(c2.pos, end.pos));
    }
}

/// The entries after the first one are ordered beyond it.
proof fn lemma_ordered_rest(s: Seq<RpsEntry>, prev: int, before: bool)
    requires
        s.len() > 0,
        ordered_from(s, prev, before),
    ensures
        ordered_from(s.drop_first(), s[0].delta_poc as int, before),
        before ==> s[0].delta_poc < prev,
        !before ==> s[0].delta_poc > prev,
{
    let rest = s.drop_first();
    assert(beyond(s, prev, before, 0));
    assert forall|i: int| 0 <= i < rest.len() implies #[trigger] beyond(
        rest,
        s[0].delta_poc as int,
        before,
        i,
    ) by {
        assert(beyond(s, prev as int, before, i + 1));
        assert(rest[i] == s[i + 1]);
    }
}

/// The bits that one entry was read from are those that its delta is written as,
/// if the delta did not wrap.
#[verifier::rlimit(40)]
proof fn lemma_first_canonical(c: Cursor, prev: i32, before: bool)
    requires
        c.ok(),
        0 <= c.pos <= c.bits.len(),
        c.ue().1.flag().1.ok(),
        before ==> next_poc(prev, c.ue().0, before) < prev,
        !before ==> next_poc(prev, c.ue().0, before) > prev,
    ensures
        ({
            let (minus1, c1) = c.ue();
            let (used, c2) = c1.flag();
            let delta = next_poc(prev, minus1, before) as int;
            let gap = if delta < prev {
                prev - delta
            } else {
                delta - prev
            };
            &&& c.pos <= c2.pos <= c.bits.len()
            &&& c2.bits == c.bits
            &&& c.bits.subrange(c.pos, c2.pos) == bits::ue_bits((gap - 1) as nat).push(used)
        }),
{
    let (minus1, c1) = c.ue();
    let (used, c2) = c1.flag();
    reveal(Cursor::u);
    bits::lemma_ue_canonical(c);
    bits::lemma_ue_moves(c);
    bits::lemma_bits_value_single(c.bits, c1.pos);
    assert(c.bits.subrange(c.pos, c2.pos) =~= c.bits.subrange(c.pos, c1.pos).push(c.bits[c1.pos]));
}

/// Reading a side moves the cursor forward, inside the bits.
pub proof fn lemma_rps_side_moves(c: Cursor, n: nat, prev: i32, before: bool)
    ensures
        bits::moved(c, rps_side(c, n, prev, before).1),
    decreases n,
{
    if n > 0 {
        let (minus1, c1) = c.ue();
        let (used, c2) = c1.flag();
        bits::lemma_ue_moves(c);
        bits::lemma_u_moves(c1, 1);
        lemma_rps_side_moves(c2, (n - 1) as nat, next_poc(prev, minus1, before), before);
    }
}

/// Reading an inline set moves the cursor forward, inside the bits.
pub broadcast proof fn lemma_direct_st_rps_moves(c: Cursor)
    ensures
        bits::moved(c, (#[trigger] direct_st_rps(c)).1),
{
    let (num_negative, c1) = c.ue();
    let (num_positive, c2) = c1.ue();
    let c3 = c2.ensure(num_negative <= 16 && num_positive <= 16, HevcError::ImplausibleRpsSize);
    bits::lemma_ue_moves(c);
    bits::lemma_ue_moves(c1);
    lemma_rps_side_moves(c3, num_negative as nat, 0, true);
    let c4 = rps_side(c3, num_negative as nat, 0, true).1;
    lemma_rps_side_moves(c4, num_positive as nat, 0, false);
}

/// Filtering a sequence filters its multiset.
proof fn lemma_filter_multiset(s: Seq<RpsEntry>, p: spec_fn(RpsEntry) -> bool)
    ensures
        s.filter(p).to_multiset() == s.to_multiset().filter(p),
    decreases s.len(),
{
    broadcast use vstd::seq_lib::group_to_multiset_ensures;

    reveal(Seq::filter);
    if s.len() == 0 {
        assert(s.filter(p).to_multiset() =~= s.to_multiset().filter(p));
    } else {
        let rest = s.drop_last();
        lemma_filter_multiset(rest, p);
        assert(s =~= rest.push(s.last()));
        assert(s.to_multiset() =~= rest.to_multiset().insert(s.last()));
        assert(s.filter(p).to_multiset() =~= s.to_multiset().filter(p));
    }
}

/// Sequences with the same elements have as many used entries.
proof fn lemma_used_count_permuted(a: Seq<RpsEntry>, b: Seq<RpsEntry>)
    requires
        a.to_multiset() == b.to_multiset(),
    ensures
        used_count(a) == used_count(b),
{
    broadcast use vstd::seq_lib::group_to_multiset_ensures;

    let used = |e: RpsEntry| e.used;
    lemma_filter_multiset(a, used);
    lemma_filter_multiset(b, used);
    assert(a.filter(used).len() == a.filter(used).to_multiset().len());
    assert(b.filter(used).len() == b.filter(used).to_multiset().len());
}

/// The order in which entries are given matters neither to the sides nor to how many
/// are used.
pub proof fn lemma_permuted(a: Seq<RpsEntry>, b: Seq<RpsEntry>)
    requires
        a.to_multiset() == b.to_multiset(),
    ensures
        side_of(a, true) == side_of(b, true),
        side_of(a, false) == side_of(b, false),
        used_count(a) == used_count(b),
{
    lemma_used_count_permuted(a, b);
    lemma_side_permuted(a, b, true);
    lemma_side_permuted(a, b, false);
}

/// Entries that name different other pictures do so in any order.
pub proof fn lemma_permuted_distinct(a: Seq<RpsEntry>, b: Seq<RpsEntry>)
    requires
        a.to_multiset() == b.to_multiset(),
        forall|i: int|
            0 <= i < a.len() ==> (#[trigger] a[i]).delta_poc != 0 && a[i].delta_poc != i32::MIN,
        forall|i: int, j: int|
            0 <= i < j < a.len() ==> (#[trigger] a[i]).delta_poc != (#[trigger] a[j]).delta_poc,
    ensures
        encodable(b),
        forall|i: int| 0 <= i < b.len() ==> (#[trigger] b[i]).delta_poc != 0,
{
    broadcast use vstd::seq_lib::group_to_multiset_ensures;
    broadcast use vstd::multiset::group_multiset_axioms;

    assert forall|i: int| 0 <= i < b.len() implies a.contains(#[trigger] b[i]) by {
        assert(b.contains(b[i]));
        assert(b.to_multiset().count(b[i]) > 0);
        assert(a.to_multiset().count(b[i]) > 0);
    }
    assert forall|i: int| 0 <= i < b.len() implies (#[trigger] b[i]).delta_poc != 0
        && b[i].delta_poc != i32::MIN by {
        let k = choose|k: int| 0 <= k < a.len() && a[k] == b[i];
        assert(a[k].delta_poc != 0);
    }
    assert(a.no_duplicates());
    a.lemma_multiset_has_no_duplicates();
    b.lemma_multiset_has_no_duplicates_conv();
    assert forall|i: int, j: int|
        0 <= i < j < b.len() && (#[trigger] b[i]).delta_poc == (
        #[trigger] b[j]).delta_poc implies b[i].delta_poc == 0 by {
        let k = choose|k: int| 0 <= k < a.len() && a[k] == b[i];
        let l = choose|l: int| 0 <= l < a.len() && a[l] == b[j];
        assert(b[i] != b[j]);
        assert(a[k].delta_poc == a[l].delta_poc);
        assert(k != l);
    }
}

/// The order in which entries are given does not matter to a side.
proof fn lemma_side_permuted(a: Seq<RpsEntry>, b: Seq<RpsEntry>, before: bool)
    requires
        a.to_multiset() == b.to_multiset(),
    ensures
        side_of(a, before) == side_of(b, before),
{
    lemma_filter_multiset(a, on_side(before));
    lemma_filter_multiset(b, on_side(before));
    lemma_nearer_is_total();
    a.filter(on_side(before)).lemma_sort_by_ensures(nearer());
    b.filter(on_side(before)).lemma_sort_by_ensures(nearer());
    vstd::seq_lib::lemma_sorted_unique(side_of(a, before), side_of(b, before), nearer());
}

/// The used entries of both sides together are the used entries of the set.
proof fn lemma_used_count_sides(entries: Seq<RpsEntry>)
    requires
        forall|i: int| 0 <= i < entries.len() ==> (#[trigger] entries[i]).delta_poc != 0,
    ensures
        used_count(entries) == used_count(entries.filter(on_side(true))) + used_count(
            entries.filter(on_side(false)),
        ),
    decreases entries.len(),
{
    reveal(Seq::filter);
    if entries.len() > 0 {
        let rest = entries.drop_last();
        let e = entries.last();
        assert forall|i: int| 0 <= i < rest.len() implies (#[trigger] rest[i]).delta_poc != 0 by {
            assert(rest[i] == entries[i]);
        }
        lemma_used_count_sides(rest);
        let before = rest.filter(on_side(true));
        let after = rest.filter(on_side(false));
        assert(before.push(e).drop_last() =~= before);
        assert(after.push(e).drop_last() =~= after);
        assert(entries[entries.len() - 1] == e);
    }
}

/// Putting a set in canonical order keeps the number of used entries, if none is
/// for the current picture itself.
pub proof fn lemma_used_count_canonical(entries: Seq<RpsEntry>)
    requires
        forall|i: int| 0 <= i < entries.len() ==> (#[trigger] entries[i]).delta_poc != 0,
    ensures
        used_count(canonical_rps(entries)) == used_count(entries),
{
    let before = entries.filter(on_side(true));
    let after = entries.filter(on_side(false));
    lemma_nearer_is_total();
    before.lemma_sort_by_ensures(nearer());
    after.lemma_sort_by_ensures(nearer());
    lemma_used_count_permuted(before, side_of(entries, true));
    lemma_used_count_permuted(after, side_of(entries, false));
    lemma_used_count_sides(entries);
    Seq::filter_distributes_over_add(
        side_of(entries, true),
        side_of(entries, false),
        |e: RpsEntry| e.used,
    );
}

/// Entries that are already in order are their own canonical order.
pub proof fn lemma_sides_of_ordered(before: Seq<RpsEntry>, after: Seq<RpsEntry>)
    requires
        ordered_from(before, 0, true),
        ordered_from(after, 0, false),
    ensures
        side_of(before + after, true) == before,
        side_of(before + after, false) == after,
{
    assert forall|i: int| 0 <= i < before.len() implies (#[trigger] before[i]).delta_poc < 0 by {
        lemma_ordered_bound(before, 0, true, i);
    }
    assert forall|i: int| 0 <= i < after.len() implies (#[trigger] after[i]).delta_poc > 0 by {
        lemma_ordered_bound(after, 0, false, i);
    }
    lemma_filter_all(before, on_side(true));
    lemma_filter_all(after, on_side(false));
    lemma_filter_none(before, on_side(false));
    lemma_filter_none(after, on_side(true));
    Seq::filter_distributes_over_add(before, after, on_side(true));
    Seq::filter_distributes_over_add(before, after, on_side(false));
    assert(before + Seq::<RpsEntry>::empty() =~= before);
    assert(Seq::<RpsEntry>::empty() + after =~= after);
    lemma_ordered_is_sorted(before, true);
    lemma_ordered_is_sorted(after, false);
    lemma_nearer_is_total();
    before.lemma_sort_by_ensures(nearer());
    after.lemma_sort_by_ensures(nearer());
    vstd::seq_lib::lemma_sorted_unique(before, before.sort_by(nearer()), nearer());
    vstd::seq_lib::lemma_sorted_unique(after, after.sort_by(nearer()), nearer());
}

/// Entries in order stand nearest first.
proof fn lemma_ordered_is_sorted(s: Seq<RpsEntry>, before: bool)
    requires
        ordered_from(s, 0, before),
    ensures
        vstd::relations::sorted_by(s, nearer()),
{
    lemma_ordered_distinct(s, before);
    assert forall|i: int, j: int| 0 <= i < j < s.len() implies #[trigger] nearer()(
        s[i],
        s[j],
    ) by {
        lemma_ordered_bound(s, 0, before, i);
        lemma_ordered_bound(s, 0, before, j);
    }
}

/// Entries in order differ.
proof fn lemma_ordered_distinct(s: Seq<RpsEntry>, before: bool)
    requires
        ordered_from(s, 0, before),
    ensures
        forall|i: int, j: int|
            0 <= i < j < s.len() ==> if before {
                #[trigger] s[j].delta_poc < #[trigger] s[i].delta_poc
            } else {
                s[j].delta_poc > s[i].delta_poc
            },
{
    assert forall|i: int, j: int| 0 <= i < j < s.len() implies if before {
        #[trigger] s[j].delta_poc < #[trigger] s[i].delta_poc
    } else {
        s[j].delta_poc > s[i].delta_poc
    } by {
        lemma_ordered_pair(s, before, i, j);
    }
}

/// Of two entries in order, the later one lies beyond the earlier one.
proof fn lemma_ordered_pair(s: Seq<RpsEntry>, before: bool, i: int, j: int)
    requires
        ordered_from(s, 0, before),
        0 <= i < j < s.len(),
    ensures
        before ==> s[j].delta_poc < s[i].delta_poc,
        !before ==> s[j].delta_poc > s[i].delta_poc,
    decreases j,
{
    assert(beyond(s, 0, before, j));
    if i < j - 1 {
        lemma_ordered_pair(s, before, i, j - 1);
    }
}

/// A filter that all elements pass keeps them.
pub proof fn lemma_filter_all(s: Seq<RpsEntry>, p: spec_fn(RpsEntry) -> bool)
    requires
        forall|i: int| 0 <= i < s.len() ==> p(#[trigger] s[i]),
    ensures
        s.filter(p) == s,
    decreases s.len(),
{
    reveal(Seq::filter);
    if s.len() > 0 {
        assert forall|i: int| 0 <= i < s.drop_last().len() implies p(
            #[trigger] s.drop_last()[i],
        ) by {
            assert(s.drop_last()[i] == s[i]);
        }
        lemma_filter_all(s.drop_last(), p);
        assert(s.drop_last().push(s.last()) =~= s);
        assert(p(s[s.len() - 1]));
    } else {
        assert(s.filter(p) =~= s);
    }
}

/// A filter that no element passes keeps none.
proof fn lemma_filter_none(s: Seq<RpsEntry>, p: spec_fn(RpsEntry) -> bool)
    requires
        forall|i: int| 0 <= i < s.len() ==> !p(#[trigger] s[i]),
    ensures
        s.filter(p) == Seq::<RpsEntry>::empty(),
{
    s.lemma_all_neg_filter_empty(p);
    assert(s.filter(p) =~= Seq::<RpsEntry>::empty());
}

/// An inline set that was read without wrapping has only one syntax.
pub proof fn lemma_rps_canonical(c: Cursor)
    requires
        0 <= c.pos <= c.bits.len(),
        direct_st_rps(c).1.ok(),
        ({
            let set = direct_st_rps(c).0;
            let n = set.negatives as int;
            &&& ordered_from(set.entries.take(n), 0, true)
            &&& ordered_from(set.entries.skip(n), 0, false)
        }),
    ensures
        ({
            let (set, end) = direct_st_rps(c);
            c.bits.subrange(c.pos, end.pos) == rps_bits(
                side_of(set.entries, true),
                side_of(set.entries, false),
            )
        }),
{
    let (num_negative, c1) = c.ue();
    let (num_positive, c2) = c1.ue();
    let c3 = c2.ensure(num_negative <= 16 && num_positive <= 16, HevcError::ImplausibleRpsSize);
    let (before, c4) = rps_side(c3, num_negative as nat, 0, true);
    let (after, c5) = rps_side(c4, num_positive as nat, 0, false);
    let entries = direct_st_rps(c).0.entries;
    let n = num_negative as int;
    lemma_rps_side_moves(c3, num_negative as nat, 0, true);
    lemma_rps_side_moves(c4, num_positive as nat, 0, false);
    bits::lemma_ue_moves(c);
    bits::lemma_ue_moves(c1);
    bits::lemma_ue_canonical(c);
    bits::lemma_ue_canonical(c1);
    lemma_rps_side_len(c3, num_negative as nat, 0, true);
    lemma_rps_side_len(c4, num_positive as nat, 0, false);
    assert(entries.take(n) =~= before);
    assert(entries.skip(n) =~= after);
    lemma_sides_of_ordered(before, after);
    lemma_side_canonical(c3, num_negative as nat, 0, true);
    lemma_side_canonical(c4, num_positive as nat, 0, false);
    assert(c.bits.subrange(c.pos, c5.pos) =~= c.bits.subrange(c.pos, c1.pos) + c.bits.subrange(
        c1.pos,
        c2.pos,
    ) + c.bits.subrange(c2.pos, c4.pos) + c.bits.subrange(c4.pos, c5.pos));
}

/// As many entries are read as are asked for.
proof fn lemma_rps_side_len(c: Cursor, n: nat, prev: i32, before: bool)
    ensures
        rps_side(c, n, prev, before).0.len() == n,
    decreases n,
{
    if n > 0 {
        let (minus1, c1) = c.ue();
        lemma_rps_side_len(c1.flag().1, (n - 1) as nat, next_poc(prev, minus1, before), before);
    }
}

/// The canonical order holds only given entries.
pub proof fn lemma_canonical_contained(entries: Seq<RpsEntry>, i: int)
    requires
        encodable(entries),
        0 <= i < canonical_rps(entries).len(),
    ensures
        entries.contains(canonical_rps(entries)[i]),
{
    lemma_side_ordered(entries, true);
    lemma_side_ordered(entries, false);
    let before = side_of(entries, true);
    if i < before.len() {
        assert(canonical_rps(entries)[i] == before[i]);
    } else {
        assert(canonical_rps(entries)[i] == side_of(entries, false)[i - before.len()]);
    }
}

/// Dropping entries keeps a set encodable.
pub proof fn lemma_filter_encodable(s: Seq<RpsEntry>, p: spec_fn(RpsEntry) -> bool)
    requires
        encodable(s),
    ensures
        encodable(s.filter(p)),
    decreases s.len(),
{
    reveal(Seq::filter);
    if s.len() > 0 {
        let rest = s.drop_last();
        lemma_filter_encodable(rest, p);
        let f = rest.filter(p);
        if p(s.last()) {
            let all = f.push(s.last());
            assert(s[s.len() - 1] == s.last());
            assert forall|i: int, j: int|
                0 <= i < j < all.len() && (#[trigger] all[i]).delta_poc == (
                #[trigger] all[j]).delta_poc implies all[i].delta_poc == 0 by {
                if j == f.len() {
                    assert(f.contains(f[i]));
                    rest.lemma_filter_contains_rev(p, f[i]);
                    let k = choose|k: int| 0 <= k < rest.len() && rest[k] == f[i];
                    assert(s[k] == f[i]);
                } else {
                    assert(all[i] == f[i] && all[j] == f[j]);
                }
            }
        }
    }
}

/// A filter that some element does not pass drops it.
pub proof fn lemma_filter_drops(s: Seq<RpsEntry>, p: spec_fn(RpsEntry) -> bool, i: int)
    requires
        0 <= i < s.len(),
        !p(s[i]),
    ensures
        s.filter(p).len() < s.len(),
    decreases s.len(),
{
    reveal(Seq::filter);
    let rest = s.drop_last();
    rest.lemma_filter_len(p);
    if i < rest.len() {
        lemma_filter_drops(rest, p, i);
    }
}

/// One side has no more entries than the set.
pub proof fn lemma_side_len(entries: Seq<RpsEntry>, before: bool)
    ensures
        side_of(entries, before).len() <= entries.len(),
{
    broadcast use vstd::seq_lib::group_to_multiset_ensures;

    let f = entries.filter(on_side(before));
    entries.lemma_filter_len(on_side(before));
    lemma_nearer_is_total();
    f.lemma_sort_by_ensures(nearer());
    assert(f.len() == f.to_multiset().len());
    assert(side_of(entries, before).len() == side_of(entries, before).to_multiset().len());
}

/// Reading a side depends only on the bits it consumes.
proof fn lemma_rps_side_agree(
    a: Cursor,
    b: Cursor,
    end: int,
    n: nat,
    prev: i32,
    before: bool,
)
    requires
        bits::agree(a, b, end),
        rps_side(a, n, prev, before).1.ok(),
        rps_side(a, n, prev, before).1.pos <= end,
    ensures
        rps_side(b, n, prev, before).0 == rps_side(a, n, prev, before).0,
        bits::in_step(a, b, end, rps_side(a, n, prev, before).1, rps_side(b, n, prev, before).1),
    decreases n,
{
    if n > 0 {
        let (minus1, a1) = a.ue();
        let a2 = a1.flag().1;
        let b1 = b.ue().1;
        let b2 = b1.flag().1;
        let delta = next_poc(prev, minus1, before);
        if !a2.ok() {
            lemma_rps_side_failed(a2, (n - 1) as nat, delta, before);
        }
        lemma_rps_side_moves(a2, (n - 1) as nat, delta, before);
        bits::lemma_ue_moves(a);
        bits::lemma_u_moves(a1, 1);
        bits::lemma_agree_ue(a, b, end);
        bits::lemma_agree_u(a1, b1, end, 1);
        lemma_rps_side_agree(a2, b2, end, (n - 1) as nat, delta, before);
    } else {
        reveal(bits::agree);
    }
}

/// Reading an inline set depends only on the bits it consumes.
pub proof fn lemma_direct_st_rps_agree(a: Cursor, b: Cursor, end: int)
    requires
        bits::agree(a, b, end),
        direct_st_rps(a).1.ok(),
        direct_st_rps(a).1.pos <= end,
    ensures
        direct_st_rps(b).0 == direct_st_rps(a).0,
        bits::in_step(a, b, end, direct_st_rps(a).1, direct_st_rps(b).1),
{
    let (neg, a1) = a.ue();
    let (pos, a2) = a1.ue();
    let b1 = b.ue().1;
    let b2 = b1.ue().1;
    let fits = neg <= 16 && pos <= 16;
    let a3 = a2.ensure(fits, HevcError::ImplausibleRpsSize);
    let b3 = b2.ensure(fits, HevcError::ImplausibleRpsSize);
    let a4 = rps_side(a3, neg as nat, 0, true).1;
    let b4 = rps_side(b3, neg as nat, 0, true).1;
    bits::lemma_ue_moves(a);
    bits::lemma_ue_moves(a1);
    lemma_rps_side_moves(a3, neg as nat, 0, true);
    lemma_rps_side_moves(a4, pos as nat, 0, false);
    bits::lemma_agree_ue(a, b, end);
    bits::lemma_agree_ue(a1, b1, end);
    lemma_rps_side_agree(a3, b3, end, neg as nat, 0, true);
    lemma_rps_side_agree(a4, b4, end, pos as nat, 0, false);
}

/// An inline set has at most 16 entries on each side.
pub proof fn lemma_direct_st_rps_len(c: Cursor)
    ensures
        direct_st_rps(c).1.ok() ==> direct_st_rps(c).0.entries.len() <= 32,
{
    let (neg, c1) = c.ue();
    let (pos, c2) = c1.ue();
    let c3 = c2.ensure(neg <= 16 && pos <= 16, HevcError::ImplausibleRpsSize);
    let c4 = rps_side(c3, neg as nat, 0, true).1;
    lemma_rps_side_moves(c3, neg as nat, 0, true);
    lemma_rps_side_moves(c4, pos as nat, 0, false);
    lemma_rps_side_len(c3, neg as nat, 0, true);
    lemma_rps_side_len(c4, pos as nat, 0, false);
}

/// Every entry for another picture has its place in the canonical order.
pub proof fn lemma_canonical_contains(entries: Seq<RpsEntry>, k: int)
    requires
        0 <= k < entries.len(),
        entries[k].delta_poc != 0,
    ensures
        canonical_rps(entries).contains(entries[k]),
{
    broadcast use vstd::seq_lib::group_to_multiset_ensures;

    let e = entries[k];
    let before = e.delta_poc < 0;
    let f = entries.filter(on_side(before));
    let s = side_of(entries, before);
    entries.lemma_filter_contains(on_side(before), k);
    lemma_nearer_is_total();
    f.lemma_sort_by_ensures(nearer());
    assert(f.to_multiset().count(e) > 0);
    assert(s.to_multiset().count(e) > 0);
    assert(s.contains(e));
    let i = choose|i: int| 0 <= i < s.len() && s[i] == e;
    if before {
        assert(canonical_rps(entries)[i] == e);
    } else {
        assert(canonical_rps(entries)[side_of(entries, true).len() + i] == e);
    }
}

} // verus!
