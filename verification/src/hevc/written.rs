//! The writing side of the bit syntax: what has been written so far, one field after
//! the other, and that reading gives the fields back in the same order.

use super::bits::{self, Cursor};
use super::emulation;
use super::headers;
use vstd::arithmetic::power2;
use vstd::prelude::*;

verus! {

/// The bits that have been written.
#[verifier::ext_equal]
pub struct Written {
    pub bits: Seq<bool>,
}

impl Written {
    /// Nothing.
    pub open spec fn nothing() -> Written {
        Written { bits: Seq::empty() }
    }

    /// Then `v` in `n` bits.
    #[verifier::opaque]
    pub open spec fn u(self, n: u32, v: nat) -> Written {
        Written { bits: self.bits + bits::be_bits(v, n as nat) }
    }

    /// Then a flag.
    #[verifier::opaque]
    pub open spec fn flag(self, v: bool) -> Written {
        Written { bits: self.bits.push(v) }
    }

    /// Then an Exp-Golomb code.
    #[verifier::opaque]
    pub open spec fn ue(self, v: nat) -> Written {
        Written { bits: self.bits + bits::ue_bits(v) }
    }

    /// Then a signed Exp-Golomb code: 0, 1, -1, 2, -2, ... are the code points 0, 1,
    /// 2, 3, 4, ...
    pub open spec fn se(self, v: int) -> Written {
        self.ue(
            if v > 0 {
                (2 * v - 1) as nat
            } else {
                (-2 * v) as nat
            },
        )
    }

    /// Then bits as they are.
    #[verifier::opaque]
    pub open spec fn raw(self, b: Seq<bool>) -> Written {
        Written { bits: self.bits + b }
    }
}

/// Whether `src` begins with what was written.
#[verifier::opaque]
pub open spec fn begins(src: Seq<bool>, w: Written) -> bool {
    w.bits.len() <= src.len() && src.take(w.bits.len() as int) == w.bits
}

/// The cursor behind what was written at the beginning of `src`.
#[verifier::opaque]
pub open spec fn behind(src: Seq<bool>, w: Written) -> Cursor {
    Cursor { bits: src, pos: w.bits.len() as int, err: None }
}

/// The part behind some bits follows their cursor.
proof fn lemma_part_follows(src: Seq<bool>, w: Written, part: Seq<bool>)
    requires
        begins(src, Written { bits: w.bits + part }),
    ensures
        begins(src, w),
        bits::follows(behind(src, w), part),
        behind(src, Written { bits: w.bits + part }) == behind(src, w).at(
            behind(src, w).pos + part.len(),
        ),
{
    reveal(begins);
    reveal(behind);
    let all = w.bits + part;
    let n = w.bits.len() as int;
    assert(src.take(n) =~= w.bits) by {
        assert forall|i: int| 0 <= i < n implies src[i] == #[trigger] w.bits[i] by {
            assert(src.take(all.len() as int)[i] == all[i]);
        }
    }
    assert(src.subrange(n, n + part.len()) =~= part) by {
        assert forall|i: int| 0 <= i < part.len() implies src[n + i] == #[trigger] part[i] by {
            assert(src.take(all.len() as int)[n + i] == all[n + i]);
        }
    }
}

/// The cursor behind what was written has not failed.
pub broadcast proof fn lemma_behind_ok(src: Seq<bool>, w: Written)
    ensures
        (#[trigger] behind(src, w)).ok(),
{
    reveal(behind);
}

/// A fixed-width field reads back.
pub broadcast proof fn lemma_u_back(src: Seq<bool>, w: Written, n: u32, v: nat)
    ensures
        #[trigger] begins(src, w.u(n, v)) && n <= 32 ==> {
            &&& begins(src, w)
            &&& behind(src, w).u(n).1 == behind(src, w.u(n, v))
            &&& v < power2::pow2(n as nat) ==> behind(src, w).u(n).0 == v
        },
{
    reveal(Written::u);
    if begins(src, w.u(n, v)) && n <= 32 {
        lemma_part_follows(src, w, bits::be_bits(v, n as nat));
        bits::lemma_be_bits_value(v, n as nat);
        if v < power2::pow2(n as nat) {
            bits::lemma_u_reads(behind(src, w), n, v);
            power2::lemma2_to64();
            if n < 32 {
                power2::lemma_pow2_strictly_increases(n as nat, 32);
            }
        }
        reveal(Cursor::u);
        reveal(behind);
    }
}

/// A flag reads back.
pub broadcast proof fn lemma_flag_back(src: Seq<bool>, w: Written, v: bool)
    ensures
        #[trigger] begins(src, w.flag(v)) ==> {
            &&& begins(src, w)
            &&& behind(src, w).u(1) == (if v { 1u32 } else { 0u32 }, behind(src, w.flag(v)))
        },
{
    reveal(Written::flag);
    if begins(src, w.flag(v)) {
        assert(w.flag(v).bits =~= w.bits + seq![v]);
        lemma_part_follows(src, w, seq![v]);
        bits::lemma_flag_reads(behind(src, w), v);
    }
}

/// An Exp-Golomb code reads back.
pub broadcast proof fn lemma_ue_back(src: Seq<bool>, w: Written, v: nat)
    ensures
        #[trigger] begins(src, w.ue(v)) && v < u32::MAX ==> {
            &&& begins(src, w)
            &&& behind(src, w).ue() == (v as u32, behind(src, w.ue(v)))
        },
{
    reveal(Written::ue);
    if begins(src, w.ue(v)) && v < u32::MAX {
        lemma_part_follows(src, w, bits::ue_bits(v));
        bits::lemma_ue_reads(behind(src, w), v);
    }
}

/// Bits that are there can be skipped.
pub proof fn lemma_raw_back(src: Seq<bool>, w: Written, b: Seq<bool>)
    requires
        begins(src, w.raw(b)),
    ensures
        begins(src, w),
        behind(src, w.raw(b)) == behind(src, w).at(behind(src, w).pos + b.len()),
        behind(src, w).pos + b.len() <= src.len(),
        0 <= behind(src, w).pos,
{
    reveal(Written::raw);
    lemma_part_follows(src, w, b);
    reveal(behind);
    reveal(begins);
}

/// Skipping moves over the bits that are there.
pub proof fn lemma_skip_over(src: Seq<bool>, pos: int, n: u32)
    requires
        n <= 32,
        0 <= pos,
        pos + n <= src.len(),
    ensures
        Cursor::start(src).at(pos).skip_u(n) == Cursor::start(src).at(pos + n),
{
    reveal(Cursor::u);
}

/// Skipping pairs of bits moves over those that are there.
pub proof fn lemma_skip_pairs(src: Seq<bool>, pos: int, n: nat)
    requires
        0 <= pos,
        pos + 2 * n <= src.len(),
    ensures
        Cursor::start(src).at(pos).skip_u_times(2, n) == Cursor::start(src).at(pos + 2 * n),
    decreases n,
{
    if n > 0 {
        lemma_skip_over(src, pos, 2);
        lemma_skip_pairs(src, pos + 2, (n - 1) as nat);
    }
}

/// Nothing stands at the beginning of everything.
pub proof fn lemma_nothing(src: Seq<bool>)
    ensures
        begins(src, Written::nothing()),
        behind(src, Written::nothing()) == Cursor::start(src),
{
    reveal(begins);
    reveal(behind);
    assert(src.take(0) =~= Seq::empty());
}

/// A NAL unit made of a header and an escaped RBSP has the bits of the RBSP for its
/// payload.
pub proof fn lemma_unit(header: Seq<u8>, rbsp: Seq<u8>, w: Written)
    requires
        header.len() == 2,
        begins(bits::bits_of(rbsp), w),
        w.bits.len() > 0,
    ensures
        headers::payload_bits(header + emulation::escaped(rbsp)) == bits::bits_of(rbsp),
        (header + emulation::escaped(rbsp)).len() > 2,
{
    reveal(begins);
    let nal = header + emulation::escaped(rbsp);
    assert(nal.skip(2) =~= emulation::escaped(rbsp));
    emulation::law_unescape_undoes_escape(rbsp);
    if emulation::escaped(rbsp).len() == 0 {
        assert(emulation::escaped(rbsp) =~= Seq::empty());
        assert(emulation::unescaped(Seq::<u8>::empty()).len() == 0);
    }
}

/// Whatever is written, there are more bits than before.
pub broadcast proof fn lemma_longer(w: Written, v: bool)
    ensures
        (#[trigger] w.flag(v)).bits.len() > 0,
{
    reveal(Written::flag);
}

/// Whether `w2` adds to `w1` what `x2` adds to `x1`.
#[verifier::opaque]
pub open spec fn adds_alike(w1: Written, w2: Written, x1: Written, x2: Written) -> bool {
    &&& w1.bits.len() <= w2.bits.len() && w2.bits.take(w1.bits.len() as int) == w1.bits
    &&& x1.bits.len() <= x2.bits.len() && x2.bits.take(x1.bits.len() as int) == x1.bits
    &&& w2.bits.skip(w1.bits.len() as int) == x2.bits.skip(x1.bits.len() as int)
}

/// Nothing is added alike.
pub broadcast proof fn lemma_alike_none(w: Written, x: Written)
    ensures
        #[trigger] adds_alike(w, w, x, x),
{
    reveal(adds_alike);
    assert(w.bits.take(w.bits.len() as int) =~= w.bits);
    assert(x.bits.take(x.bits.len() as int) =~= x.bits);
    assert(w.bits.skip(w.bits.len() as int) =~= x.bits.skip(x.bits.len() as int));
}

/// The same bits are added alike.
proof fn lemma_alike_part(w1: Written, w2: Written, x1: Written, x2: Written, part: Seq<bool>)
    requires
        adds_alike(w1, w2, x1, x2),
    ensures
        adds_alike(
            w1,
            Written { bits: w2.bits + part },
            x1,
            Written { bits: x2.bits + part },
        ),
{
    reveal(adds_alike);
    let n = w1.bits.len() as int;
    let m = x1.bits.len() as int;
    assert((w2.bits + part).take(n) =~= w2.bits.take(n));
    assert((x2.bits + part).take(m) =~= x2.bits.take(m));
    assert((w2.bits + part).skip(n) =~= w2.bits.skip(n) + part);
    assert((x2.bits + part).skip(m) =~= x2.bits.skip(m) + part);
}

/// The same field is added alike.
pub broadcast proof fn lemma_alike_u(
    w1: Written,
    w2: Written,
    x1: Written,
    x2: Written,
    n: u32,
    v: nat,
)
    ensures
        adds_alike(w1, w2, x1, x2) ==> #[trigger] adds_alike(w1, w2.u(n, v), x1, x2.u(n, v)),
{
    reveal(Written::u);
    if adds_alike(w1, w2, x1, x2) {
        lemma_alike_part(w1, w2, x1, x2, bits::be_bits(v, n as nat));
    }
}

/// The same flag is added alike.
pub broadcast proof fn lemma_alike_flag(
    w1: Written,
    w2: Written,
    x1: Written,
    x2: Written,
    v: bool,
)
    ensures
        adds_alike(w1, w2, x1, x2) ==> #[trigger] adds_alike(w1, w2.flag(v), x1, x2.flag(v)),
{
    reveal(Written::flag);
    if adds_alike(w1, w2, x1, x2) {
        assert(w2.bits.push(v) =~= w2.bits + seq![v]);
        assert(x2.bits.push(v) =~= x2.bits + seq![v]);
        lemma_alike_part(w1, w2, x1, x2, seq![v]);
    }
}

/// The same code is added alike.
pub broadcast proof fn lemma_alike_ue(
    w1: Written,
    w2: Written,
    x1: Written,
    x2: Written,
    v: nat,
)
    ensures
        adds_alike(w1, w2, x1, x2) ==> #[trigger] adds_alike(w1, w2.ue(v), x1, x2.ue(v)),
{
    reveal(Written::ue);
    if adds_alike(w1, w2, x1, x2) {
        lemma_alike_part(w1, w2, x1, x2, bits::ue_bits(v));
    }
}

/// What was added stands in the bits behind the rest, and is added there as well.
pub proof fn lemma_alike_bits(src: Seq<bool>, w1: Written, w2: Written, x1: Written, x2: Written)
    requires
        begins(src, w2),
        adds_alike(w1, w2, x1, x2),
    ensures
        0 <= w1.bits.len() <= w2.bits.len() <= src.len(),
        x2.bits == x1.bits + src.subrange(w1.bits.len() as int, w2.bits.len() as int),
{
    reveal(begins);
    reveal(adds_alike);
    let n = w1.bits.len() as int;
    assert(src.subrange(n, w2.bits.len() as int) =~= src.take(w2.bits.len() as int).skip(n));
    assert(x2.bits =~= x2.bits.take(x1.bits.len() as int) + x2.bits.skip(x1.bits.len() as int));
}

/// What is written the same way is added alike.
pub broadcast group group_alike {
    lemma_alike_none,
    lemma_alike_u,
    lemma_alike_flag,
    lemma_alike_ue,
}

/// What is written reads back.
pub broadcast group group_reads_back {
    lemma_behind_ok,
    lemma_u_back,
    lemma_flag_back,
    lemma_ue_back,
    lemma_longer,
}

/// Bits that stand behind what was written can be taken for written, too.
proof fn lemma_extends(src: Seq<bool>, w: Written, part: Seq<bool>)
    requires
        begins(src, w),
        w.bits.len() + part.len() <= src.len(),
        src.subrange(w.bits.len() as int, (w.bits.len() + part.len()) as int) == part,
    ensures
        begins(src, Written { bits: w.bits + part }),
        behind(src, Written { bits: w.bits + part }) == behind(src, w).at(
            (w.bits.len() + part.len()) as int,
        ),
{
    reveal(begins);
    reveal(behind);
    let n = (w.bits.len() + part.len()) as int;
    assert(src.take(n) =~= src.take(w.bits.len() as int) + src.subrange(w.bits.len() as int, n));
}

/// A fixed-width field that was read was written.
pub proof fn lemma_u_spelled(src: Seq<bool>, w: Written, n: u32)
    ensures
        begins(src, w) && behind(src, w).u(n).1.ok() ==> {
            let v = behind(src, w).u(n).0 as nat;
            &&& begins(src, w.u(n, v))
            &&& behind(src, w.u(n, v)) == behind(src, w).u(n).1
            &&& v < power2::pow2(n as nat)
            &&& n <= 32
        },
{
    reveal(Written::u);
    reveal(Cursor::u);
    let c = behind(src, w);
    if begins(src, w) && c.u(n).1.ok() {
        reveal(behind);
        let at = w.bits.len() as int;
        let part = src.subrange(at, at + n);
        bits::lemma_u_bound(c, n);
        bits::lemma_bits_value_bound(part);
        bits::lemma_value_be_bits(part);
        power2::lemma2_to64();
        if n < 32 {
            power2::lemma_pow2_strictly_increases(n as nat, 32);
        }
        lemma_extends(src, w, part);
    }
}

/// A flag that was read was written.
pub broadcast proof fn lemma_flag_spelled(src: Seq<bool>, w: Written)
    ensures
        begins(src, w) && (#[trigger] behind(src, w).u(1)).1.ok() ==> {
            let v = behind(src, w).u(1).0 == 1;
            &&& begins(src, w.flag(v))
            &&& behind(src, w.flag(v)) == behind(src, w).u(1).1
        },
{
    reveal(Written::flag);
    reveal(Cursor::u);
    let c = behind(src, w);
    if begins(src, w) && c.u(1).1.ok() {
        reveal(behind);
        let at = w.bits.len() as int;
        let part = src.subrange(at, at + 1);
        bits::lemma_bits_value_single(src, at);
        lemma_extends(src, w, part);
        assert(w.bits + part =~= w.bits.push(src[at]));
    }
}

/// An Exp-Golomb code that was read was written.
pub broadcast proof fn lemma_ue_spelled(src: Seq<bool>, w: Written)
    ensures
        begins(src, w) && (#[trigger] behind(src, w).ue()).1.ok() ==> {
            let v = behind(src, w).ue().0 as nat;
            &&& begins(src, w.ue(v))
            &&& behind(src, w.ue(v)) == behind(src, w).ue().1
            &&& v < u32::MAX
        },
{
    reveal(Written::ue);
    let c = behind(src, w);
    if begins(src, w) && c.ue().1.ok() {
        assert(0 <= c.pos <= c.bits.len()) by {
            reveal(behind);
            reveal(begins);
        }
        bits::lemma_ue_moves(c);
        bits::law_codes_are_canonical(c);
        bits::lemma_ue_bound(c);
        let v = c.ue().0 as nat;
        let end = c.ue().1.pos;
        assert(c == Cursor::start(src).at(w.bits.len() as int)) by {
            reveal(behind);
        }
        assert(src.subrange(w.bits.len() as int, end).len() == end - w.bits.len());
        lemma_extends(src, w, bits::ue_bits(v));
    }
}

/// Bits that were skipped were written.
pub proof fn lemma_raw_spelled(src: Seq<bool>, w: Written, n: nat)
    requires
        begins(src, w),
        behind(src, w).pos + n <= src.len(),
    ensures
        ({
            let b = src.subrange(behind(src, w).pos, behind(src, w).pos + n);
            &&& b.len() == n
            &&& begins(src, w.raw(b))
            &&& behind(src, w.raw(b)) == behind(src, w).at(behind(src, w).pos + n)
        }),
{
    reveal(Written::raw);
    reveal(behind);
    let at = w.bits.len() as int;
    lemma_extends(src, w, src.subrange(at, at + n));
}

/// What was read was written.
pub broadcast group group_spelled {
    lemma_behind_ok,
    lemma_flag_spelled,
    lemma_ue_spelled,
}

} // verus!
