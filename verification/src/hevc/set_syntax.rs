//! The syntax of a short-term reference picture set as an encoder writes it, and that
//! parsing gives the pictures back.

use super::bits;
use super::rps::{self, RpsEntry};
use super::written::{self, Written};
use vstd::prelude::*;

verus! {

broadcast use super::bits::group_failed;

/// One picture of a set.
pub struct RefPic {
    /// How far it lies beyond the picture before it in the set, less one.
    pub delta_poc_minus1: nat,
    pub used_by_curr_pic: bool,
}

/// A set that is not predicted from another one: the pictures before the current one,
/// and those after it, each nearest first.
pub struct StRefPicSet {
    pub negative: Seq<RefPic>,
    pub positive: Seq<RefPic>,
}

/// How far picture `i` lies from the current one: the distances add up.
pub open spec fn distance_to(side: Seq<RefPic>, i: int) -> int
    decreases i + 1,
{
    if i < 0 {
        0
    } else {
        distance_to(side, i - 1) + side[i].delta_poc_minus1 + 1
    }
}

/// Whether POC deltas can hold the distances.
pub open spec fn side_in_range(side: Seq<RefPic>) -> bool {
    forall|i: int| 0 <= i < side.len() ==> #[trigger] distance_to(side, i) <= i32::MAX
}

/// Whether the fields can hold the distances.
pub open spec fn side_coded(side: Seq<RefPic>) -> bool {
    forall|i: int| 0 <= i < side.len() ==> (#[trigger] side[i]).delta_poc_minus1 < u32::MAX
}

/// What picture `i` of a side is as an entry.
pub open spec fn ref_entry(side: Seq<RefPic>, before: bool, i: int) -> RpsEntry {
    RpsEntry {
        delta_poc: if before {
            (-distance_to(side, i)) as i32
        } else {
            distance_to(side, i) as i32
        },
        used: side[i].used_by_curr_pic,
    }
}

/// Writes the pictures of a side from picture `i` on.
pub open spec fn put_side(w: Written, side: Seq<RefPic>, i: int) -> Written
    decreases side.len() - i,
{
    if i < 0 || i >= side.len() {
        w
    } else {
        let w = w.ue(side[i].delta_poc_minus1).flag(side[i].used_by_curr_pic);
        put_side(w, side, i + 1)
    }
}

impl StRefPicSet {
    /// Whether the fields can hold the values, of up to 16 pictures on each side.
    pub open spec fn coded(self) -> bool {
        &&& self.negative.len() <= 16
        &&& self.positive.len() <= 16
        &&& side_coded(self.negative)
        &&& side_coded(self.positive)
    }

    /// Whether, in addition, POC deltas can hold the distances.
    pub open spec fn in_range(self) -> bool {
        &&& self.negative.len() <= 16
        &&& self.positive.len() <= 16
        &&& side_in_range(self.negative)
        &&& side_in_range(self.positive)
    }

    /// The pictures as entries, those before the current one first.
    pub open spec fn entries(self) -> Seq<RpsEntry> {
        Seq::new(self.negative.len(), |i: int| ref_entry(self.negative, true, i)) + Seq::new(
            self.positive.len(),
            |i: int| ref_entry(self.positive, false, i),
        )
    }

    /// Writes the numbers of pictures, and the pictures.
    pub open spec fn put_direct(self, w: Written) -> Written {
        let w = w.ue(self.negative.len()).ue(self.positive.len());
        put_side(put_side(w, self.negative, 0), self.positive, 0)
    }

    /// Writes the set as number `idx` of its list, not predicted from another one; the
    /// first one cannot be.
    pub open spec fn put(self, w: Written, idx: nat) -> Written {
        let w = if idx > 0 {
            w.flag(false)
        } else {
            w
        };
        self.put_direct(w)
    }
}

/// Distances are not negative, and each picture lies beyond the one before it.
pub proof fn lemma_distance(side: Seq<RefPic>, i: int)
    requires
        0 <= i,
    ensures
        distance_to(side, i - 1) >= 0,
        distance_to(side, i) == distance_to(side, i - 1) + side[i].delta_poc_minus1 + 1,
    decreases i,
{
    if i > 0 {
        lemma_distance(side, i - 1);
    }
}

/// The pictures of a side read back.
pub proof fn lemma_side_reads(
    src: Seq<bool>,
    w: Written,
    side: Seq<RefPic>,
    i: int,
    before: bool,
    poc: i32,
)
    requires
        0 <= i <= side.len(),
        side_in_range(side),
        poc == if before {
            -distance_to(side, i - 1)
        } else {
            distance_to(side, i - 1)
        },
        written::begins(src, put_side(w, side, i)),
    ensures
        written::begins(src, w),
        rps::rps_side(written::behind(src, w), (side.len() - i) as nat, poc, before) == (
            Seq::new((side.len() - i) as nat, |k: int| ref_entry(side, before, i + k)),
            written::behind(src, put_side(w, side, i)),
        ),
    decreases side.len() - i,
{
    broadcast use written::group_reads_back;

    if i < side.len() {
        let minus1 = side[i].delta_poc_minus1;
        let used = side[i].used_by_curr_pic;
        let w1 = w.ue(minus1).flag(used);
        lemma_distance(side, i);
        assert(distance_to(side, i) <= i32::MAX);
        let next = if before {
            (-distance_to(side, i)) as i32
        } else {
            distance_to(side, i) as i32
        };
        lemma_side_reads(src, w1, side, i + 1, before, next);
        assert(rps::next_poc(poc, minus1 as u32, before) == next);
        let n = (side.len() - i) as nat;
        let rest = Seq::new((n - 1) as nat, |k: int| ref_entry(side, before, i + 1 + k));
        assert(seq![ref_entry(side, before, i)] + rest =~= Seq::new(
            n,
            |k: int| ref_entry(side, before, i + k),
        ));
    } else {
        assert(Seq::new(0, |k: int| ref_entry(side, before, i + k)) =~= Seq::empty());
    }
}

/// A set reads back.
pub proof fn lemma_set_reads(src: Seq<bool>, w: Written, set: StRefPicSet)
    requires
        set.in_range(),
        written::begins(src, set.put_direct(w)),
    ensures
        written::begins(src, w),
        rps::direct_st_rps(written::behind(src, w)) == (
            rps::RpsSyntax { negatives: set.negative.len(), entries: set.entries() },
            written::behind(src, set.put_direct(w)),
        ),
{
    broadcast use written::group_reads_back;

    let w1 = w.ue(set.negative.len()).ue(set.positive.len());
    let w2 = put_side(w1, set.negative, 0);
    lemma_side_reads(src, w2, set.positive, 0, false, 0);
    lemma_side_reads(src, w1, set.negative, 0, true, 0);
    assert(Seq::new(set.negative.len(), |i: int| ref_entry(set.negative, true, 0 + i)) =~= Seq::new(
        set.negative.len(),
        |i: int| ref_entry(set.negative, true, i),
    ));
    assert(Seq::new(set.positive.len(), |i: int| ref_entry(set.positive, false, 0 + i))
        =~= Seq::new(set.positive.len(), |i: int| ref_entry(set.positive, false, i)));
}

/// Each picture of a side lies beyond the one before it.
proof fn lemma_side_ordered(side: Seq<RefPic>, before: bool)
    requires
        side_in_range(side),
    ensures
        rps::ordered_from(
            Seq::new(side.len(), |i: int| ref_entry(side, before, i)),
            0,
            before,
        ),
{
    let s = Seq::new(side.len(), |i: int| ref_entry(side, before, i));
    assert forall|i: int| 0 <= i < s.len() implies #[trigger] rps::beyond(s, 0, before, i) by {
        lemma_distance(side, i);
        assert(distance_to(side, i) <= i32::MAX);
        if i > 0 {
            assert(distance_to(side, i - 1) <= i32::MAX);
        }
    }
}

/// The bits of a side.
proof fn lemma_side_bits(w: Written, side: Seq<RefPic>, i: int, before: bool)
    requires
        0 <= i <= side.len(),
        side_in_range(side),
    ensures
        put_side(w, side, i).bits == w.bits + rps::side_bits(
            if before {
                -distance_to(side, i - 1)
            } else {
                distance_to(side, i - 1)
            },
            Seq::new((side.len() - i) as nat, |k: int| ref_entry(side, before, i + k)),
        ),
    decreases side.len() - i,
{
    let s = Seq::new((side.len() - i) as nat, |k: int| ref_entry(side, before, i + k));
    let prev = if before {
        -distance_to(side, i - 1)
    } else {
        distance_to(side, i - 1)
    };
    if i < side.len() {
        let minus1 = side[i].delta_poc_minus1;
        let used = side[i].used_by_curr_pic;
        lemma_distance(side, i);
        assert(distance_to(side, i) <= i32::MAX);
        let w1 = w.ue(minus1).flag(used);
        lemma_side_bits(w1, side, i + 1, before);
        let rest = Seq::new(
            (side.len() - (i + 1)) as nat,
            |k: int| ref_entry(side, before, i + 1 + k),
        );
        assert(s.drop_first() =~= rest);
        assert(s[0] == ref_entry(side, before, i));
        reveal(Written::ue);
        reveal(Written::flag);
        let code = bits::ue_bits(minus1);
        let after = rps::side_bits(s[0].delta_poc as int, rest);
        assert(rps::side_bits(prev, s) == code.push(used) + after);
        assert((w.bits + code).push(used) + after =~= w.bits + (code.push(used) + after));
    } else {
        assert(w.bits + Seq::<bool>::empty() =~= w.bits);
    }
}

/// The bits of a set are those that its entries, in whatever order they are given, are
/// written as.
pub proof fn lemma_set_bits(w: Written, set: StRefPicSet, entries: Seq<RpsEntry>)
    requires
        set.in_range(),
        entries.to_multiset() == set.entries().to_multiset(),
    ensures
        set.put_direct(w).bits == w.bits + rps::rps_bits(
            rps::side_of(entries, true),
            rps::side_of(entries, false),
        ),
        rps::used_count(entries) == rps::used_count(set.entries()),
{
    let before = Seq::new(set.negative.len(), |i: int| ref_entry(set.negative, true, i));
    let after = Seq::new(set.positive.len(), |i: int| ref_entry(set.positive, false, i));
    lemma_side_ordered(set.negative, true);
    lemma_side_ordered(set.positive, false);
    rps::lemma_sides_of_ordered(before, after);
    rps::lemma_permuted(entries, set.entries());
    let w1 = w.ue(set.negative.len()).ue(set.positive.len());
    let w2 = put_side(w1, set.negative, 0);
    lemma_side_bits(w1, set.negative, 0, true);
    lemma_side_bits(w2, set.positive, 0, false);
    assert(Seq::new(set.negative.len(), |i: int| ref_entry(set.negative, true, 0 + i)) =~= before);
    assert(Seq::new(set.positive.len(), |i: int| ref_entry(set.positive, false, 0 + i)) =~= after);
    reveal(Written::ue);
    let a = bits::ue_bits(before.len());
    let b = bits::ue_bits(after.len());
    let x = rps::side_bits(0, before);
    let y = rps::side_bits(0, after);
    assert(w.bits + a + b + x + y =~= w.bits + (a + b + x + y));
}

/// The pictures of a set differ, and none of them is the current one; the sides are those
/// that were written.
pub proof fn lemma_set_distinct(set: StRefPicSet, entries: Seq<RpsEntry>)
    requires
        set.in_range(),
        entries.to_multiset() == set.entries().to_multiset(),
    ensures
        rps::encodable(entries),
        forall|i: int| 0 <= i < entries.len() ==> (#[trigger] entries[i]).delta_poc != 0,
        rps::side_of(entries, true).len() <= 16,
        rps::side_of(entries, false).len() <= 16,
{
    broadcast use vstd::seq_lib::group_to_multiset_ensures;

    let all = set.entries();
    let before = Seq::new(set.negative.len(), |i: int| ref_entry(set.negative, true, i));
    let after = Seq::new(set.positive.len(), |i: int| ref_entry(set.positive, false, i));
    lemma_side_ordered(set.negative, true);
    lemma_side_ordered(set.positive, false);
    rps::lemma_sides_of_ordered(before, after);
    rps::lemma_permuted(entries, all);
    let n = set.negative.len() as int;
    assert forall|i: int| 0 <= i < all.len() implies (#[trigger] all[i]).delta_poc != 0
        && all[i].delta_poc != i32::MIN by {
        if i < n {
            lemma_distance(set.negative, i);
            assert(distance_to(set.negative, i) <= i32::MAX);
        } else {
            lemma_distance(set.positive, i - n);
            assert(distance_to(set.positive, i - n) <= i32::MAX);
        }
    }
    assert forall|i: int, j: int| 0 <= i < j < all.len() implies (#[trigger] all[i]).delta_poc != (
    #[trigger] all[j]).delta_poc by {
        if j < n {
            lemma_distance_grows(set.negative, i, j);
            assert(distance_to(set.negative, i) <= i32::MAX);
            assert(distance_to(set.negative, j) <= i32::MAX);
        } else if i >= n {
            lemma_distance_grows(set.positive, i - n, j - n);
            assert(distance_to(set.positive, i - n) <= i32::MAX);
            assert(distance_to(set.positive, j - n) <= i32::MAX);
        } else {
            lemma_distance(set.negative, i);
            lemma_distance(set.positive, j - n);
            assert(distance_to(set.negative, i) <= i32::MAX);
            assert(distance_to(set.positive, j - n) <= i32::MAX);
        }
    }
    rps::lemma_permuted_distinct(all, entries);
}

/// Each picture lies further away than those before it.
proof fn lemma_distance_grows(side: Seq<RefPic>, i: int, j: int)
    requires
        0 <= i < j,
    ensures
        0 < distance_to(side, i) < distance_to(side, j),
    decreases j,
{
    lemma_distance(side, i);
    lemma_distance(side, j);
    if i < j - 1 {
        lemma_distance_grows(side, i, j - 1);
    }
}

/// Pictures that stand behind another one are written alike behind it and alone.
proof fn lemma_side_shifts(w: Written, first: RefPic, rest: Seq<RefPic>, i: int)
    requires
        0 <= i <= rest.len(),
    ensures
        put_side(w, seq![first] + rest, i + 1) == put_side(w, rest, i),
    decreases rest.len() - i,
{
    if i < rest.len() {
        let all = seq![first] + rest;
        assert(all[i + 1] == rest[i]);
        lemma_side_shifts(
            w.ue(rest[i].delta_poc_minus1).flag(rest[i].used_by_curr_pic),
            first,
            rest,
            i + 1,
        );
    }
}

/// The pictures of a side that was read were written.
pub proof fn lemma_side_spelled(
    src: Seq<bool>,
    w: Written,
    n: nat,
    poc: i32,
    before: bool,
) -> (side: Seq<RefPic>)
    requires
        written::begins(src, w),
        rps::rps_side(written::behind(src, w), n, poc, before).1.ok(),
    ensures
        side.len() == n,
        side_coded(side),
        written::begins(src, put_side(w, side, 0)),
        written::behind(src, put_side(w, side, 0)) == rps::rps_side(
            written::behind(src, w),
            n,
            poc,
            before,
        ).1,
        rps::rps_side(written::behind(src, w), n, poc, before).0.len() == n,
        forall|k: int|
            0 <= k < n ==> (#[trigger] side[k]).used_by_curr_pic == rps::rps_side(
                written::behind(src, w),
                n,
                poc,
                before,
            ).0[k].used,
    decreases n,
{
    broadcast use written::group_spelled;

    let c = written::behind(src, w);
    if n == 0 {
        Seq::empty()
    } else {
        let (minus1, c1) = c.ue();
        let (used, c2) = c1.flag();
        let next = rps::next_poc(poc, minus1, before);
        if !c2.ok() {
            rps::lemma_rps_side_failed(c2, (n - 1) as nat, next, before);
        }
        let first = RefPic { delta_poc_minus1: minus1 as nat, used_by_curr_pic: used };
        let w1 = w.ue(minus1 as nat).flag(used);
        assert(written::begins(src, w1) && written::behind(src, w1) == c2);
        let rest = lemma_side_spelled(src, w1, (n - 1) as nat, next, before);
        let side = seq![first] + rest;
        lemma_side_shifts(w1, first, rest, 0);
        let all = rps::rps_side(c, n, poc, before).0;
        let others = rps::rps_side(c2, (n - 1) as nat, next, before).0;
        assert(all =~= seq![RpsEntry { delta_poc: next, used }] + others);
        assert forall|k: int| 0 <= k < n implies (#[trigger] side[k]).used_by_curr_pic
            == all[k].used && side[k].delta_poc_minus1 < u32::MAX by {
            if k > 0 {
                assert(side[k] == rest[k - 1]);
                assert(all[k] == others[k - 1]);
            }
        }
        side
    }
}

/// A set that was read was written.
pub proof fn lemma_set_spelled(src: Seq<bool>, w: Written) -> (set: StRefPicSet)
    requires
        written::begins(src, w),
        rps::direct_st_rps(written::behind(src, w)).1.ok(),
    ensures
        set.coded(),
        written::begins(src, set.put_direct(w)),
        written::behind(src, set.put_direct(w)) == rps::direct_st_rps(
            written::behind(src, w),
        ).1,
        ({
            let read = rps::direct_st_rps(written::behind(src, w)).0.entries;
            &&& read.len() == set.entries().len()
            &&& forall|k: int|
                0 <= k < read.len() ==> (#[trigger] read[k]).used == set.entries()[k].used
        }),
{
    broadcast use written::group_spelled;

    let c = written::behind(src, w);
    let (negatives, c1) = c.ue();
    let (positives, c2) = c1.ue();
    let c3 = c2.ensure(
        negatives <= 16 && positives <= 16,
        super::error::HevcError::ImplausibleRpsSize,
    );
    let c4 = rps::rps_side(c3, negatives as nat, 0, true).1;
    if !c4.ok() {
        rps::lemma_rps_side_failed(c4, positives as nat, 0, false);
    }
    if !c3.ok() {
        rps::lemma_rps_side_failed(c3, negatives as nat, 0, true);
    }
    let w1 = w.ue(negatives as nat).ue(positives as nat);
    assert(written::begins(src, w1) && written::behind(src, w1) == c3);
    let negative = lemma_side_spelled(src, w1, negatives as nat, 0, true);
    let w2 = put_side(w1, negative, 0);
    let positive = lemma_side_spelled(src, w2, positives as nat, 0, false);
    let set = StRefPicSet { negative, positive };
    let read = rps::direct_st_rps(c).0.entries;
    assert forall|k: int| 0 <= k < read.len() implies (#[trigger] read[k]).used
        == set.entries()[k].used by {
        if k < negatives {
            assert(negative[k].used_by_curr_pic == read[k].used);
        } else {
            assert(positive[k - negatives].used_by_curr_pic == read[k].used);
        }
    }
    set
}

} // verus!
