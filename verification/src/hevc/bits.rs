//! Bit-level access to an RBSP: MSB-first fixed-width fields and Exp-Golomb
//! codes.
//!
//! A byte string is modelled by its bits, most significant first. [`Cursor`] is
//! the model of a parse in progress over such a bit sequence: it either stands
//! at a position or has failed, and once it has failed every later read leaves
//! it failed with the same error. [`BitReader`] is the executable counterpart.

use super::error::HevcError;
use vstd::arithmetic::power2;
use vstd::prelude::*;

verus! {

/// Bit `i` of `b`, counted from the most significant one.
pub open spec fn byte_bit(b: u8, i: int) -> bool {
    (b >> ((7 - i) as u8)) & 1 == 1
}

/// The bits of a byte string, most significant bit of each byte first.
pub open spec fn bits_of(data: Seq<u8>) -> Seq<bool> {
    Seq::new(data.len() * 8, |i: int| byte_bit(data[i / 8], i % 8))
}

/// The number that a bit string denotes, most significant bit first.
pub open spec fn bits_value(b: Seq<bool>) -> nat
    decreases b.len(),
{
    if b.len() == 0 {
        0
    } else {
        2 * bits_value(b.drop_last()) + (if b.last() { 1nat } else { 0nat })
    }
}

/// The bytes that hold the bits, whose number is a multiple of eight.
pub open spec fn bytes_of(b: Seq<bool>) -> Seq<u8> {
    Seq::new(b.len() / 8, |i: int| bits_value(b.subrange(8 * i, 8 * i + 8)) as u8)
}

/// The low `n` bits of `v`, most significant bit first.
pub open spec fn be_bits(v: nat, n: nat) -> Seq<bool>
    decreases n,
{
    if n == 0 {
        Seq::empty()
    } else {
        be_bits(v / 2, (n - 1) as nat).push(v % 2 == 1)
    }
}

/// The number of bits in the binary representation of `n` (0 for 0).
pub open spec fn bit_width(n: nat) -> nat
    decreases n,
{
    if n == 0 {
        0
    } else {
        bit_width(n / 2) + 1
    }
}

/// `n` zero bits.
pub open spec fn zero_bits(n: nat) -> Seq<bool> {
    Seq::new(n, |i: int| false)
}

/// The Exp-Golomb code ue(v) of `v`: as many zero bits as `v + 1` has bits
/// after its leading one, then `v + 1` itself.
pub open spec fn ue_bits(v: nat) -> Seq<bool> {
    let width = bit_width(v + 1);
    zero_bits((width - 1) as nat) + be_bits(v + 1, width)
}

/// The number of consecutive zero bits in `b` from position `p` on.
pub open spec fn zero_run(b: Seq<bool>, p: int) -> nat
    decreases b.len() - p,
{
    if 0 <= p < b.len() && !b[p] {
        zero_run(b, p + 1) + 1
    } else {
        0
    }
}

/// The signed number that se(v) maps to the code point `k`.
pub open spec fn se_value(k: nat) -> int {
    if k % 2 == 1 {
        (k + 1) as int / 2
    } else {
        -(k as int / 2)
    }
}

/// A parse in progress over a bit sequence: a position, or the first error met.
pub struct Cursor {
    pub bits: Seq<bool>,
    pub pos: int,
    pub err: Option<HevcError>,
}

impl Cursor {
    /// The cursor at the start of `bits`.
    pub open spec fn start(bits: Seq<bool>) -> Cursor {
        Cursor { bits, pos: 0, err: None }
    }

    /// Whether the cursor has not failed.
    pub open spec fn ok(self) -> bool {
        self.err is None
    }

    /// The cursor failed with `e`.
    pub open spec fn fail(self, e: HevcError) -> Cursor {
        Cursor { bits: self.bits, pos: self.pos, err: Some(e) }
    }

    /// The cursor moved to position `pos`.
    pub open spec fn at(self, pos: int) -> Cursor {
        Cursor { bits: self.bits, pos, err: self.err }
    }

    /// Fails with `e` unless `cond` holds.
    pub open spec fn ensure(self, cond: bool, e: HevcError) -> Cursor {
        if self.ok() && !cond {
            self.fail(e)
        } else {
            self
        }
    }

    /// Reads an `n`-bit number.
    #[verifier::opaque]
    pub open spec fn u(self, n: u32) -> (u32, Cursor) {
        if !self.ok() {
            (0, self)
        } else if n > 32 {
            (0, self.fail(HevcError::BitReadTooWide))
        } else if self.pos + n > self.bits.len() {
            (0, self.fail(HevcError::BitstreamExhausted))
        } else {
            (
                bits_value(self.bits.subrange(self.pos, self.pos + n)) as u32,
                self.at(self.pos + n),
            )
        }
    }

    /// Reads one bit as a flag.
    pub open spec fn flag(self) -> (bool, Cursor) {
        let (v, c) = self.u(1);
        (v == 1, c)
    }

    /// Reads an Exp-Golomb ue(v) number.
    #[verifier::opaque]
    pub open spec fn ue(self) -> (u32, Cursor) {
        let zeros = zero_run(self.bits, self.pos);
        if !self.ok() {
            (0, self)
        } else if zeros >= 32 {
            (0, self.fail(HevcError::UePrefixTooLong))
        } else if self.pos + zeros >= self.bits.len() {
            (0, self.fail(HevcError::BitstreamExhausted))
        } else {
            let (suffix, c) = self.at(self.pos + zeros + 1).u(zeros as u32);
            ((power2::pow2(zeros) - 1 + suffix) as u32, c)
        }
    }

    /// Reads an Exp-Golomb se(v) number.
    pub open spec fn se(self) -> (i32, Cursor) {
        let (k, c) = self.ue();
        (se_value(k as nat) as i32, c)
    }

    /// Skips an `n`-bit field.
    pub open spec fn skip_u(self, n: u32) -> Cursor {
        self.u(n).1
    }

    /// Skips an Exp-Golomb code.
    pub open spec fn skip_ue(self) -> Cursor {
        self.ue().1
    }

    /// Skips `count` fields of `n` bits each.
    pub open spec fn skip_u_times(self, n: u32, count: nat) -> Cursor
        decreases count,
    {
        if count == 0 {
            self
        } else {
            self.skip_u(n).skip_u_times(n, (count - 1) as nat)
        }
    }

    /// Skips `count` Exp-Golomb codes.
    pub open spec fn skip_ue_times(self, count: nat) -> Cursor
        decreases count,
    {
        if count == 0 {
            self
        } else {
            self.skip_ue().skip_ue_times((count - 1) as nat)
        }
    }

    /// What a parse that ends here returns: `v`, or the first error met.
    pub open spec fn finish<T>(self, v: T) -> Result<T, HevcError> {
        match self.err {
            Some(e) => Err(e),
            None => Ok(v),
        }
    }
}

/// Reads bits from an RBSP (emulation-prevention bytes already removed).
#[derive(Clone, Copy)]
pub struct BitReader<'a> {
    data: &'a [u8],
    /// Index of the byte that holds the next bit.
    byte: usize,
    /// Index of the next bit in that byte, most significant first.
    bit: usize,
}

impl<'a> BitReader<'a> {
    /// The position lies within the data.
    #[verifier::type_invariant]
    pub(crate) closed spec fn wf(&self) -> bool {
        &&& self.bit < 8
        &&& self.byte <= self.data@.len()
        &&& self.byte == self.data@.len() ==> self.bit == 0
    }

    /// The data that the bits are read from.
    pub closed spec fn bytes(&self) -> Seq<u8> {
        self.data@
    }

    /// Number of bits before the next one.
    pub closed spec fn pos(&self) -> int {
        self.byte * 8 + self.bit
    }

    /// The parse this reader stands for.
    pub open spec fn cursor(&self) -> Cursor {
        Cursor { bits: bits_of(self.bytes()), pos: self.pos(), err: None }
    }

    /// A reader at the first bit of `data`.
    pub fn new(data: &'a [u8]) -> (r: Self)
        ensures
            r.bytes() == data@,
            r.cursor() == Cursor::start(bits_of(data@)),
    {
        BitReader { data, byte: 0, bit: 0 }
    }

    /// Read an `n`-bit number. Fails if `n` exceeds 32, leaving the position, or
    /// if fewer than `n` bits are left, moving to the end.
    pub fn u(&mut self, n: u32) -> (res: Result<u32, HevcError>)
        ensures
            final(self).bytes() == old(self).bytes(),
            match res {
                Ok(v) => old(self).cursor().u(n) == (v, final(self).cursor()),
                Err(e) => {
                    &&& old(self).cursor().u(n).1.err == Some(e)
                    &&& final(self).pos() == if n > 32 {
                        old(self).pos()
                    } else {
                        old(self).bytes().len() as int * 8
                    }
                },
            },
    {
        proof {
            use_type_invariant(&*self);
            reveal(Cursor::u);
        }
        if n > 32 {
            return Err(HevcError::BitReadTooWide);
        }
        let ghost start = self.cursor();
        let ghost bits = start.bits;
        let mut v: u32 = 0;
        let mut i: u32 = 0;
        while i < n
            invariant
                self.bytes() == old(self).bytes(),
                start == old(self).cursor(),
                bits == bits_of(self.bytes()),
                i <= n <= 32,
                0 <= start.pos,
                self.pos() == start.pos + i,
                start.pos + i <= bits.len(),
                v == bits_value(bits.subrange(start.pos, start.pos + i)),
            decreases n - i,
        {
            proof {
                use_type_invariant(&*self);
                reveal(Cursor::u);
            }
            if self.byte >= self.data.len() {
                return Err(HevcError::BitstreamExhausted);
            }
            let b: u8 = self.data[self.byte];
            let shifted: u8 = b >> ((7 - self.bit) as u8);
            let bit: u8 = shifted & 1;
            proof {
                let k = self.bit as int;
                let p = start.pos + i;
                assert(p / 8 == self.byte && p % 8 == k);
                assert(shifted & 1 == 0 || shifted & 1 == 1) by (bit_vector);
                assert(bits[p] == (bit == 1));
                let cur = bits.subrange(start.pos, p);
                let next = bits.subrange(start.pos, p + 1);
                assert(next.drop_last() =~= cur);
                lemma_bits_value_bound(next);
                power2::lemma2_to64();
                if i + 1 < 32 {
                    power2::lemma_pow2_strictly_increases(
                        (i + 1) as nat,
                        32,
                    );
                }
            }
            v = v * 2 + bit as u32;
            i = i + 1;
            if self.bit == 7 {
                self.bit = 0;
                self.byte = self.byte + 1;
            } else {
                self.bit = self.bit + 1;
            }
        }
        Ok(v)
    }

    /// Read one bit as a flag.
    pub fn flag(&mut self) -> (res: Result<bool, HevcError>)
        ensures
            final(self).bytes() == old(self).bytes(),
            match res {
                Ok(v) => old(self).cursor().flag() == (v, final(self).cursor()),
                Err(e) => {
                    &&& old(self).cursor().flag().1.err == Some(e)
                    &&& final(self).pos() == old(self).bytes().len() * 8
                },
            },
    {
        Ok(self.u(1)? == 1)
    }

    /// Read an Exp-Golomb ue(v) number. Fails after the 32nd leading zero bit,
    /// or at the end of the data.
    pub fn ue(&mut self) -> (res: Result<u32, HevcError>)
        ensures
            final(self).bytes() == old(self).bytes(),
            match res {
                Ok(v) => {
                    &&& old(self).cursor().ue() == (v, final(self).cursor())
                    &&& v < u32::MAX
                },
                Err(e) => {
                    &&& old(self).cursor().ue().1.err == Some(e)
                    &&& final(self).pos() == if e == HevcError::UePrefixTooLong {
                        old(self).pos() + 32
                    } else {
                        old(self).bytes().len() as int * 8
                    }
                },
            },
    {
        proof {
            use_type_invariant(&*self);
            reveal(Cursor::u);
            reveal(Cursor::ue);
        }
        let ghost start = self.cursor();
        let ghost bits = start.bits;
        let mut zeros: u32 = 0;
        loop
            invariant_except_break
                zero_run(bits, start.pos) == zeros + zero_run(bits, start.pos + zeros),
                self.cursor() == start.at(start.pos + zeros),
            invariant
                self.bytes() == old(self).bytes(),
                start == old(self).cursor(),
                bits == start.bits,
                start.pos >= 0,
                zeros <= 31,
            ensures
                zero_run(bits, start.pos) == zeros,
                start.pos + zeros < bits.len(),
                self.cursor() == start.at(start.pos + zeros + 1),
            decreases 32 - zeros,
        {
            let ghost p = start.pos + zeros;
            proof {
                use_type_invariant(&*self);
                reveal(Cursor::u);
                reveal(Cursor::ue);
                if p < bits.len() {
                    lemma_bits_value_single(bits, p);
                }
            }
            let v: u32 = self.u(1)?;
            if v != 0 {
                break;
            }
            zeros = zeros + 1;
            if zeros > 31 {
                return Err(HevcError::UePrefixTooLong);
            }
        }
        let suffix: u32 = self.u(zeros)?;
        proof {
            vstd::bits::lemma_u32_pow2_no_overflow(zeros as nat);
            vstd::bits::lemma_u32_shl_is_mul(1, zeros);
            lemma_bits_value_bound(
                bits.subrange(start.pos + zeros + 1, start.pos + zeros + 1 + zeros),
            );
            power2::lemma2_to64();
            if zeros < 31 {
                power2::lemma_pow2_strictly_increases(zeros as nat, 31);
            }
        }
        Ok((1u32 << zeros) - 1 + suffix)
    }

    /// Read an Exp-Golomb se(v) number.
    pub fn se(&mut self) -> (res: Result<i32, HevcError>)
        ensures
            final(self).bytes() == old(self).bytes(),
            match res {
                Ok(v) => {
                    &&& old(self).cursor().se() == (v, final(self).cursor())
                    &&& v == se_value(old(self).cursor().ue().0 as nat)
                },
                Err(e) => old(self).cursor().se().1.err == Some(e),
            },
    {
        let k: u32 = self.ue()?;
        Ok(
            if k % 2 == 1 {
                (k / 2) as i32 + 1
            } else {
                -((k / 2) as i32)
            },
        )
    }

    /// Skip `count` fields of `n` bits each.
    pub fn skip_u_times(&mut self, n: u32, count: u32) -> (res: Result<(), HevcError>)
        ensures
            final(self).bytes() == old(self).bytes(),
            match res {
                Ok(_) => old(self).cursor().skip_u_times(n, count as nat) == final(self).cursor(),
                Err(e) => old(self).cursor().skip_u_times(n, count as nat).err == Some(e),
            },
    {
        let ghost start = self.cursor();
        let mut i: u32 = 0;
        while i < count
            invariant
                self.bytes() == old(self).bytes(),
                i <= count,
                start == old(self).cursor(),
                self.cursor().skip_u_times(n, (count - i) as nat) == start.skip_u_times(
                    n,
                    count as nat,
                ),
            decreases count - i,
        {
            proof {
                let next = self.cursor().skip_u(n);
                lemma_skip_u_times_failed(next, n, (count - i - 1) as nat);
            }
            let _ = self.u(n)?;
            i = i + 1;
        }
        Ok(())
    }

    /// Skip `count` Exp-Golomb codes.
    pub fn skip_ue_times(&mut self, count: u32) -> (res: Result<(), HevcError>)
        ensures
            final(self).bytes() == old(self).bytes(),
            match res {
                Ok(_) => old(self).cursor().skip_ue_times(count as nat) == final(self).cursor(),
                Err(e) => old(self).cursor().skip_ue_times(count as nat).err == Some(e),
            },
    {
        let ghost start = self.cursor();
        let mut i: u32 = 0;
        while i < count
            invariant
                self.bytes() == old(self).bytes(),
                i <= count,
                start == old(self).cursor(),
                self.cursor().skip_ue_times((count - i) as nat) == start.skip_ue_times(
                    count as nat,
                ),
            decreases count - i,
        {
            proof {
                let next = self.cursor().skip_ue();
                lemma_skip_ue_times_failed(next, (count - i - 1) as nat);
            }
            let _ = self.ue()?;
            i = i + 1;
        }
        Ok(())
    }

    /// Whether the next bit is the first one of a byte.
    pub fn byte_aligned(&self) -> (res: bool)
        ensures
            res == (self.pos() % 8 == 0),
    {
        proof {
            use_type_invariant(self);
        }
        self.bit == 0
    }

    /// How many bits come before the next byte that begins at or behind the position.
    pub fn bits_to_byte(&self) -> (res: usize)
        ensures
            0 <= res < 8,
            (self.pos() + res) % 8 == 0,
    {
        proof {
            use_type_invariant(self);
        }
        if self.bit == 0 {
            0
        } else {
            8 - self.bit
        }
    }

    /// The index of the byte that holds the next bit.
    pub fn byte_index(&self) -> (res: usize)
        ensures
            res == self.pos() / 8,
            res <= self.bytes().len(),
    {
        proof {
            use_type_invariant(self);
        }
        self.byte
    }

    /// Whether the position is that of `other`.
    pub fn at_position_of(&self, other: &BitReader<'_>) -> (res: bool)
        ensures
            res == (self.pos() == other.pos()),
    {
        proof {
            use_type_invariant(self);
            use_type_invariant(other);
        }
        self.byte == other.byte && self.bit == other.bit
    }
}

/// The position of a reader lies within its data.
pub(crate) proof fn lemma_reader_in_range(r: BitReader<'_>)
    requires
        r.wf(),
    ensures
        0 <= r.pos() <= bits_of(r.bytes()).len(),
{
}

/// Writes bits, MSB-first, matching [`BitReader`]'s order.
pub struct BitWriter {
    data: Vec<u8>,
    /// Number of valid bits in the last byte of `data` (0 when byte-aligned).
    bit_len: usize,
}

impl View for BitWriter {
    type V = Seq<bool>;

    /// The bits written so far.
    closed spec fn view(&self) -> Seq<bool> {
        bits_of(self.data@).take(self.bit_count())
    }
}

impl Default for BitWriter {
    /// A writer with no bits.
    fn default() -> (w: Self)
        ensures
            w@ == Seq::<bool>::empty(),
    {
        let w = BitWriter { data: Vec::new(), bit_len: 0 };
        assert(w@ =~= Seq::<bool>::empty());
        w
    }
}

impl BitWriter {
    /// Number of bits written so far.
    spec fn bit_count(&self) -> int {
        if self.bit_len == 0 {
            self.data@.len() as int * 8
        } else {
            (self.data@.len() - 1) * 8 + self.bit_len
        }
    }

    /// The last byte holds the valid bits, and zeros after them.
    #[verifier::type_invariant]
    spec fn wf(&self) -> bool {
        &&& self.bit_len < 8
        &&& self.bit_len > 0 ==> {
            &&& self.data@.len() > 0
            &&& forall|i: int|
                self.bit_len <= i < 8 ==> !#[trigger] byte_bit(self.data@.last(), i)
        }
    }

    /// Append one bit.
    fn put_bit(&mut self, bit: bool)
        ensures
            final(self)@ == old(self)@.push(bit),
    {
        proof {
            use_type_invariant(&*self);
        }
        let ghost before = self@;
        let k: usize = self.bit_len;
        let mut data: Vec<u8> = Vec::new();
        self.bit_len = 0;
        std::mem::swap(&mut data, &mut self.data);
        if k == 0 {
            data.push(0);
        }
        let last: usize = data.len() - 1;
        let b: u8 = data[last];
        let mask: u8 = if bit {
            0x80u8 >> (k as u8)
        } else {
            0
        };
        data[last] = b | mask;
        self.data = data;
        proof {
            assert forall|i: int| k <= i < 8 implies !#[trigger] byte_bit(b, i) by {
                if k > 0 {
                    assert(b == old(self).data@.last());
                } else {
                    let s: u8 = (7 - i) as u8;
                    assert(b == 0);
                    assert((0u8 >> s) & 1 == 0) by (bit_vector)
                        requires
                            s < 8,
                    ;
                }
            }
            lemma_set_bit(b, k as u8, bit, mask);
        }
        self.bit_len = if k == 7 {
            0
        } else {
            k + 1
        };
        proof {
            assert forall|i: int| 0 <= i < before.len() + 1 implies #[trigger] self@[i]
                == before.push(bit)[i] by {
                if i / 8 < last {
                } else {
                    assert(i / 8 == last);
                    assert(i % 8 <= k);
                }
            }
            assert(self@ =~= before.push(bit));
        }
    }

    /// Append the low `n` bits of `v`, most significant first.
    pub fn put(&mut self, n: u32, v: u32)
        requires
            n <= 32,
        ensures
            final(self)@ == old(self)@ + be_bits(v as nat, n as nat),
    {
        let ghost before = self@;
        let wide: u64 = v as u64;
        let mut i: u32 = n;
        proof {
            assert(self@ =~= before + be_bits((wide >> i) as nat, 0));
        }
        while i > 0
            invariant
                i <= n <= 32,
                wide == v,
                self@ == before + be_bits((wide >> i) as nat, (n - i) as nat),
            decreases i,
        {
            let ghost above = wide >> i;
            i = i - 1;
            let shifted: u64 = wide >> i;
            let bit: bool = shifted % 2 == 1;
            proof {
                assert((wide >> i) / 2 == wide >> ((i + 1) as u32)) by (bit_vector)
                    requires
                        i < 32,
                ;
                assert(be_bits(shifted as nat, (n - i) as nat) == be_bits(
                    above as nat,
                    (n - i - 1) as nat,
                ).push(bit));
            }
            self.put_bit(bit);
            assert(self@ =~= before + be_bits(shifted as nat, (n - i) as nat));
        }
        assert(wide >> 0u32 == wide) by (bit_vector);
    }

    /// Append a flag.
    pub fn put_flag(&mut self, v: bool)
        ensures
            final(self)@ == old(self)@.push(v),
    {
        self.put_bit(v);
    }

    /// Append the Exp-Golomb code ue(v) of `v`.
    pub fn put_ue(&mut self, v: u32)
        requires
            v < u32::MAX,
        ensures
            final(self)@ == old(self)@ + ue_bits(v as nat),
    {
        let ghost before = self@;
        let v1: u32 = v + 1;
        let len: u32 = bit_length(v1);
        proof {
            lemma_bit_width(v1 as nat);
        }
        self.put(len - 1, 0);
        self.put(len, v1);
        proof {
            lemma_be_bits_zero((len - 1) as nat);
            assert(self@ =~= before + ue_bits(v as nat));
        }
    }

    /// Append the bits of `from`'s data between the positions of `from` and
    /// `until`.
    pub fn put_copied(&mut self, from: BitReader<'_>, until: BitReader<'_>)
        requires
            from.bytes() == until.bytes(),
            from.pos() <= until.pos(),
        ensures
            final(self)@ == old(self)@ + bits_of(from.bytes()).subrange(from.pos(), until.pos()),
    {
        let ghost before = self@;
        let ghost bits = bits_of(from.bytes());
        let mut r: BitReader<'_> = from;
        proof {
            use_type_invariant(&from);
        }
        assert(self@ =~= before + bits.subrange(from.pos(), from.pos()));
        while r.byte < until.byte || r.bit < until.bit
            invariant
                r.bytes() == from.bytes(),
                until.bytes() == from.bytes(),
                bits == bits_of(from.bytes()),
                0 <= from.pos() <= r.pos() <= until.pos(),
                self@ == before + bits.subrange(from.pos(), r.pos()),
            decreases until.pos() - r.pos(),
        {
            proof {
                use_type_invariant(&r);
                use_type_invariant(&until);
            }
            let b: u8 = r.data[r.byte];
            let ghost p = r.pos();
            let bit: bool = (b >> ((7 - r.bit) as u8)) & 1 == 1;
            assert(p / 8 == r.byte && p % 8 == r.bit);
            self.put_bit(bit);
            if r.bit == 7 {
                r.bit = 0;
                r.byte = r.byte + 1;
            } else {
                r.bit = r.bit + 1;
            }
            assert(bits.subrange(from.pos(), p + 1) =~= bits.subrange(from.pos(), p).push(bit));
            assert(self@ =~= before + bits.subrange(from.pos(), r.pos()));
        }
    }

    /// Whether the next bit starts a new byte.
    pub fn byte_aligned(&self) -> (res: bool)
        ensures
            res == (self@.len() % 8 == 0),
    {
        proof {
            use_type_invariant(self);
        }
        self.bit_len == 0
    }

    /// The bytes written; zero bits fill up the last one.
    pub fn into_bytes(self) -> (res: Vec<u8>)
        ensures
            bits_of(res@) == self@ + zero_bits(((8 - self@.len() % 8) % 8) as nat),
    {
        proof {
            use_type_invariant(&self);
            let bits = bits_of(self.data@);
            let n = self.bit_count();
            assert forall|i: int| n <= i < bits.len() implies !#[trigger] bits[i] by {
                assert(i / 8 == self.data@.len() - 1);
                assert(byte_bit(self.data@.last(), i % 8) == bits[i]);
            }
            assert(bits =~= self@ + zero_bits((bits.len() - n) as nat));
        }
        self.data
    }
}

/// How many bits it takes to write `v`.
pub fn bit_length(v: u32) -> (len: u32)
    ensures
        len == bit_width(v as nat),
        len <= 32,
{
    proof {
        power2::lemma2_to64();
        lemma_bit_width_bound(v as nat, 32);
    }
    let mut len: u32 = 0;
    let mut rest: u32 = v;
    while rest > 0
        invariant
            bit_width(v as nat) == len + bit_width(rest as nat),
            bit_width(v as nat) <= 32,
        decreases rest,
    {
        rest = rest / 2;
        len = len + 1;
    }
    len
}

/// Or-ing a bit into a clear position of a byte sets that position and leaves
/// the others.
proof fn lemma_set_bit(b: u8, k: u8, bit: bool, mask: u8)
    requires
        k < 8,
        !byte_bit(b, k as int),
        mask == if bit {
            0x80u8 >> k
        } else {
            0u8
        },
    ensures
        forall|i: int|
            0 <= i < 8 ==> #[trigger] byte_bit(b | mask, i) == if i == k {
                bit
            } else {
                byte_bit(b, i)
            },
{
    assert forall|i: int| 0 <= i < 8 implies #[trigger] byte_bit(b | mask, i) == if i == k {
        bit
    } else {
        byte_bit(b, i)
    } by {
        let s: u8 = (7 - i) as u8;
        assert(((b | (0x80u8 >> k)) >> s) & 1 == (if s == 7 - k { 1u8 } else { (b >> s) & 1 }))
            by (bit_vector)
            requires
                k < 8,
                s < 8,
        ;
        assert(b | 0u8 == b) by (bit_vector);
        assert((b >> s) & 1 == 0 || (b >> s) & 1 == 1) by (bit_vector);
    }
}

/// Bytes are held by their bits.
pub proof fn lemma_bytes_of_bits(data: Seq<u8>)
    ensures
        bytes_of(bits_of(data)) == data,
{
    let b = bits_of(data);
    assert forall|i: int| 0 <= i < data.len() implies bits_value(b.subrange(8 * i, 8 * i + 8))
        == data[i] by {
        let s = b.subrange(8 * i, 8 * i + 8);
        let x = data[i];
        assert forall|k: int| 0 <= k < 8 implies #[trigger] s[k] == byte_bit(x, k) by {
            assert((8 * i + k) / 8 == i && (8 * i + k) % 8 == k);
        }
        reveal_with_fuel(bits_value, 9);
        assert(s.take(8) =~= s);
        lemma_byte_value(x, s);
    }
    assert(bytes_of(b) =~= data);
}

/// The bytes that hold some bits have these bits.
pub proof fn lemma_bits_of_bytes(b: Seq<bool>)
    requires
        b.len() % 8 == 0,
    ensures
        bits_of(bytes_of(b)) == b,
{
    let data = bytes_of(b);
    assert forall|j: int| 0 <= j < b.len() implies #[trigger] bits_of(data)[j] == b[j] by {
        let i = j / 8;
        let sub = b.subrange(8 * i, 8 * i + 8);
        lemma_bits_value_bound(sub);
        power2::lemma2_to64();
        let own = Seq::new(8, |k: int| byte_bit(data[i], k));
        lemma_byte_value(data[i], own);
        lemma_value_be_bits(own);
        lemma_value_be_bits(sub);
        assert(sub[j % 8] == own[j % 8]);
    }
    assert(bits_of(data) =~= b);
}

/// A byte is the value of its eight bits.
proof fn lemma_byte_value(x: u8, s: Seq<bool>)
    requires
        s.len() == 8,
        forall|k: int| 0 <= k < 8 ==> #[trigger] s[k] == byte_bit(x, k),
    ensures
        bits_value(s) == x,
{
    reveal_with_fuel(bits_value, 9);
    let s7 = s.drop_last();
    let s6 = s7.drop_last();
    let s5 = s6.drop_last();
    let s4 = s5.drop_last();
    let s3 = s4.drop_last();
    let s2 = s3.drop_last();
    let s1 = s2.drop_last();
    let s0 = s1.drop_last();
    assert(s0.len() == 0);
    assert(bits_value(s0) == 0);
    let b0 = (x >> 7u8) & 1;
    let b1 = (x >> 6u8) & 1;
    let b2 = (x >> 5u8) & 1;
    let b3 = (x >> 4u8) & 1;
    let b4 = (x >> 3u8) & 1;
    let b5 = (x >> 2u8) & 1;
    let b6 = (x >> 1u8) & 1;
    let b7 = (x >> 0u8) & 1;
    assert(x == 128 * ((x >> 7u8) & 1) + 64 * ((x >> 6u8) & 1) + 32 * ((x >> 5u8) & 1) + 16 * ((x
        >> 4u8) & 1) + 8 * ((x >> 3u8) & 1) + 4 * ((x >> 2u8) & 1) + 2 * ((x >> 1u8) & 1) + ((x
        >> 0u8) & 1)) by (bit_vector);
    assert(b0 <= 1 && b1 <= 1 && b2 <= 1 && b3 <= 1 && b4 <= 1 && b5 <= 1 && b6 <= 1 && b7 <= 1)
        by {
        assert(((x >> 7u8) & 1) <= 1 && ((x >> 6u8) & 1) <= 1 && ((x >> 5u8) & 1) <= 1 && ((x
            >> 4u8) & 1) <= 1 && ((x >> 3u8) & 1) <= 1 && ((x >> 2u8) & 1) <= 1 && ((x >> 1u8) & 1)
            <= 1 && ((x >> 0u8) & 1) <= 1) by (bit_vector);
    }
    assert(s[0] == (b0 == 1) && s[1] == (b1 == 1) && s[2] == (b2 == 1) && s[3] == (b3 == 1));
    assert(s[4] == (b4 == 1) && s[5] == (b5 == 1) && s[6] == (b6 == 1) && s[7] == (b7 == 1));
}

/// A failed cursor stays failed.
pub broadcast proof fn lemma_u_failed(c: Cursor, n: u32)
    ensures
        !c.ok() ==> (#[trigger] c.u(n)) == (0u32, c),
{
    reveal(Cursor::u);
}

/// A failed cursor stays failed.
pub broadcast proof fn lemma_ue_failed(c: Cursor)
    ensures
        !c.ok() ==> (#[trigger] c.ue()) == (0u32, c),
{
    reveal(Cursor::ue);
}

/// What is failed stays failed, whatever is read.
pub broadcast group group_failed {
    lemma_u_failed,
    lemma_ue_failed,
    lemma_skip_u_times_failed,
    lemma_skip_ue_times_failed,
}

/// Whether `d` is `c` moved forward inside the bits, if `d` has not failed.
pub open spec fn moved(c: Cursor, d: Cursor) -> bool {
    d.ok() ==> c.ok() && d == c.at(d.pos) && c.pos <= d.pos && (c.pos <= c.bits.len() ==> d.pos
        <= c.bits.len())
}

/// A read that succeeds moves the cursor forward, inside the bits.
pub broadcast proof fn lemma_u_moves(c: Cursor, n: u32)
    ensures
        (#[trigger] c.u(n)).1.ok() ==> {
            &&& c.ok()
            &&& c.u(n).1 == c.at(c.pos + n)
            &&& c.pos + n <= c.bits.len()
        },
{
    reveal(Cursor::u);
}

/// What is read from `n` bits fits in `n` bits.
pub proof fn lemma_u_bound(c: Cursor, n: u32)
    requires
        n <= 32,
        0 <= c.pos,
    ensures
        c.u(n).0 < power2::pow2(n as nat),
{
    reveal(Cursor::u);
    power2::lemma_pow2_pos(n as nat);
    power2::lemma2_to64();
    if n < 32 {
        power2::lemma_pow2_strictly_increases(n as nat, 32);
    }
    if c.pos + n <= c.bits.len() {
        lemma_bits_value_bound(c.bits.subrange(c.pos, c.pos + n));
    }
}

/// A read that succeeds moves the cursor forward, inside the bits.
pub broadcast proof fn lemma_ue_moves(c: Cursor)
    ensures
        (#[trigger] c.ue()).1.ok() ==> {
            &&& c.ok()
            &&& c.ue().1 == c.at(c.ue().1.pos)
            &&& c.pos < c.ue().1.pos <= c.bits.len()
        },
{
    reveal(Cursor::u);
    reveal(Cursor::ue);
}

/// An Exp-Golomb code holds less than `u32::MAX`.
pub proof fn lemma_ue_bound(c: Cursor)
    requires
        0 <= c.pos,
    ensures
        c.ue().1.ok() ==> c.ue().0 < u32::MAX,
{
    reveal(Cursor::u);
    reveal(Cursor::ue);
    let zeros = zero_run(c.bits, c.pos);
    if c.ue().1.ok() {
        let d = c.at(c.pos + zeros + 1);
        lemma_u_bound(d, zeros as u32);
        power2::lemma2_to64();
        if zeros < 31 {
            power2::lemma_pow2_strictly_increases(zeros, 31);
        }
    }
}

/// Skipping moves the cursor forward, inside the bits.
pub broadcast proof fn lemma_skip_u_times_moves(c: Cursor, n: u32, count: nat)
    ensures
        moved(c, #[trigger] c.skip_u_times(n, count)),
    decreases count,
{
    if count > 0 {
        lemma_u_moves(c, n);
        lemma_skip_u_times_moves(c.skip_u(n), n, (count - 1) as nat);
    }
}

/// Skipping moves the cursor forward, inside the bits.
pub broadcast proof fn lemma_skip_ue_times_moves(c: Cursor, count: nat)
    ensures
        moved(c, #[trigger] c.skip_ue_times(count)),
    decreases count,
{
    if count > 0 {
        lemma_ue_moves(c);
        lemma_skip_ue_times_moves(c.skip_ue(), (count - 1) as nat);
    }
}

/// Reads that succeed move the cursor forward.
pub broadcast group group_moves {
    lemma_u_moves,
    lemma_ue_moves,
    lemma_skip_u_times_moves,
    lemma_skip_ue_times_moves,
}

/// A failed cursor stays failed.
pub broadcast proof fn lemma_skip_u_times_failed(c: Cursor, n: u32, count: nat)
    ensures
        !c.ok() ==> #[trigger] c.skip_u_times(n, count) == c,
    decreases count,
{
    lemma_u_failed(c, n);
    if count > 0 {
        lemma_skip_u_times_failed(c, n, (count - 1) as nat);
    }
}

/// A failed cursor stays failed.
pub broadcast proof fn lemma_skip_ue_times_failed(c: Cursor, count: nat)
    ensures
        !c.ok() ==> #[trigger] c.skip_ue_times(count) == c,
    decreases count,
{
    lemma_ue_failed(c);
    if count > 0 {
        lemma_skip_ue_times_failed(c, (count - 1) as nat);
    }
}

/// A bit string's value fits in as many bits as it has.
pub proof fn lemma_bits_value_bound(b: Seq<bool>)
    ensures
        bits_value(b) < power2::pow2(b.len()),
    decreases b.len(),
{
    power2::lemma2_to64();
    if b.len() > 0 {
        lemma_bits_value_bound(b.drop_last());
        power2::lemma_pow2_unfold(b.len());
    }
}

/// A single bit denotes 1 or 0.
pub proof fn lemma_bits_value_single(b: Seq<bool>, p: int)
    requires
        0 <= p < b.len(),
    ensures
        bits_value(b.subrange(p, p + 1)) == if b[p] {
            1nat
        } else {
            0nat
        },
{
    let s = b.subrange(p, p + 1);
    reveal_with_fuel(bits_value, 2);
    assert(s.drop_last() =~= Seq::empty());
    assert(s.last() == b[p]);
}

/// A leading bit weighs as much as all the bits after it can, plus one.
proof fn lemma_bits_value_cons(lead: bool, rest: Seq<bool>)
    ensures
        bits_value(seq![lead] + rest) == bits_value(rest) + if lead {
            power2::pow2(rest.len())
        } else {
            0
        },
    decreases rest.len(),
{
    let all = seq![lead] + rest;
    power2::lemma2_to64();
    if rest.len() == 0 {
        lemma_bits_value_single(all, 0);
        assert(all.subrange(0, 1) =~= all);
    } else {
        assert(all.drop_last() =~= seq![lead] + rest.drop_last());
        assert(all.last() == rest.last());
        lemma_bits_value_cons(lead, rest.drop_last());
        power2::lemma_pow2_unfold(rest.len());
    }
}

/// [`be_bits`] gives as many bits as asked for, and they denote the number if it
/// fits.
pub proof fn lemma_be_bits_value(v: nat, n: nat)
    ensures
        be_bits(v, n).len() == n,
        v < power2::pow2(n) ==> bits_value(be_bits(v, n)) == v,
    decreases n,
{
    power2::lemma2_to64();
    if n > 0 {
        lemma_be_bits_value(v / 2, (n - 1) as nat);
        power2::lemma_pow2_unfold(n);
        assert(be_bits(v, n).drop_last() =~= be_bits(v / 2, (n - 1) as nat));
    }
}

/// A bit string is determined by its length and the number it denotes.
pub proof fn lemma_value_be_bits(b: Seq<bool>)
    ensures
        be_bits(bits_value(b), b.len()) == b,
    decreases b.len(),
{
    if b.len() > 0 {
        lemma_value_be_bits(b.drop_last());
        assert(b =~= b.drop_last().push(b.last()));
    } else {
        assert(be_bits(bits_value(b), b.len()) =~= b);
    }
}

proof fn lemma_be_bits_zero(n: nat)
    ensures
        be_bits(0, n) == zero_bits(n),
    decreases n,
{
    if n > 0 {
        lemma_be_bits_zero((n - 1) as nat);
    }
    assert(be_bits(0, n) =~= zero_bits(n));
}

/// A positive number's bit width is the place of its leading one.
pub proof fn lemma_bit_width(n: nat)
    requires
        n > 0,
    ensures
        bit_width(n) > 0,
        power2::pow2((bit_width(n) - 1) as nat) <= n < power2::pow2(bit_width(n)),
    decreases n,
{
    power2::lemma2_to64();
    reveal_with_fuel(bit_width, 2);
    if n > 1 {
        lemma_bit_width(n / 2);
        power2::lemma_pow2_unfold(bit_width(n));
        power2::lemma_pow2_unfold((bit_width(n) - 1) as nat);
    }
}

proof fn lemma_bit_width_unique(n: nat, w: nat)
    requires
        w > 0,
        power2::pow2((w - 1) as nat) <= n < power2::pow2(w),
    ensures
        bit_width(n) == w,
{
    power2::lemma_pow2_pos((w - 1) as nat);
    lemma_bit_width(n);
    let m = bit_width(n);
    if m < w {
        if m < w - 1 {
            power2::lemma_pow2_strictly_increases(m, (w - 1) as nat);
        }
    } else if w < m {
        if w < m - 1 {
            power2::lemma_pow2_strictly_increases(w, (m - 1) as nat);
        }
    }
}

/// A number below `2^k` is at most `k` bits wide.
pub proof fn lemma_bit_width_bound(n: nat, k: nat)
    requires
        n < power2::pow2(k),
    ensures
        bit_width(n) <= k,
{
    if n > 0 {
        lemma_bit_width(n);
        let w = bit_width(n);
        if k < w - 1 {
            power2::lemma_pow2_strictly_increases(k, (w - 1) as nat);
        }
    }
}

proof fn lemma_zero_run(b: Seq<bool>, p: int, z: nat)
    requires
        0 <= p,
        p + z < b.len(),
        forall|i: int| p <= i < p + z ==> !b[i],
        b[p + z],
    ensures
        zero_run(b, p) == z,
    decreases z,
{
    if z > 0 {
        lemma_zero_run(b, p + 1, (z - 1) as nat);
    }
}

proof fn lemma_zero_run_bits(b: Seq<bool>, p: int)
    requires
        0 <= p <= b.len(),
    ensures
        p + zero_run(b, p) <= b.len(),
        forall|i: int| p <= i < p + zero_run(b, p) ==> !b[i],
        p + zero_run(b, p) < b.len() ==> b[p + zero_run(b, p)],
    decreases b.len() - p,
{
    if p < b.len() && !b[p] {
        lemma_zero_run_bits(b, p + 1);
    }
}

/// The bits `b` follow at the cursor.
pub open spec fn follows(c: Cursor, b: Seq<bool>) -> bool {
    &&& c.ok()
    &&& 0 <= c.pos
    &&& c.pos + b.len() <= c.bits.len()
    &&& c.bits.subrange(c.pos, c.pos + b.len()) == b
}

/// If a concatenation follows, its parts follow one after the other.
pub proof fn lemma_follows_split(c: Cursor, x: Seq<bool>, y: Seq<bool>)
    requires
        follows(c, x + y),
    ensures
        follows(c, x),
        follows(c.at(c.pos + x.len()), y),
{
    let all = c.bits.subrange(c.pos, c.pos + (x + y).len());
    assert(c.bits.subrange(c.pos, c.pos + x.len()) =~= x) by {
        assert forall|i: int| 0 <= i < x.len() implies #[trigger] c.bits[c.pos + i] == x[i] by {
            assert(all[i] == (x + y)[i]);
        }
    }
    let m = c.pos + x.len();
    assert(c.bits.subrange(m, m + y.len()) =~= y) by {
        assert forall|i: int| 0 <= i < y.len() implies #[trigger] c.bits.subrange(
            m,
            m + y.len(),
        )[i] == y[i] by {
            assert(all[x.len() + i] == (x + y)[x.len() + i]);
        }
    }
}

/// Reading a flag gives back the one that was written.
pub proof fn lemma_flag_reads(c: Cursor, v: bool)
    requires
        follows(c, seq![v]),
    ensures
        c.flag() == (v, c.at(c.pos + 1)),
        c.u(1) == (if v { 1u32 } else { 0u32 }, c.at(c.pos + 1)),
{
    reveal(Cursor::u);
    assert(c.bits.subrange(c.pos, c.pos + 1)[0] == v);
    lemma_bits_value_single(c.bits, c.pos);
}

/// Reading a fixed-width field gives back the number written there.
pub proof fn lemma_u_reads(c: Cursor, n: u32, v: nat)
    requires
        n <= 32,
        v < power2::pow2(n as nat),
        follows(c, be_bits(v, n as nat)),
    ensures
        c.u(n) == (v as u32, c.at(c.pos + n)),
{
    reveal(Cursor::u);
    lemma_be_bits_value(v, n as nat);
}

/// Reading an Exp-Golomb code gives back the number it encodes.
pub proof fn lemma_ue_reads(c: Cursor, v: nat)
    requires
        v < u32::MAX,
        follows(c, ue_bits(v)),
    ensures
        c.ue() == (v as u32, c.at(c.pos + ue_bits(v).len())),
{
    reveal(Cursor::u);
    reveal(Cursor::ue);
    let w = bit_width(v + 1);
    let z = (w - 1) as nat;
    let code = ue_bits(v);
    power2::lemma2_to64();
    lemma_bit_width(v + 1);
    lemma_bit_width_bound(v + 1, 32);
    lemma_be_bits_value(v + 1, w);
    let number = be_bits(v + 1, w);
    let suffix = number.drop_first();
    assert(number =~= seq![number[0]] + suffix);
    lemma_bits_value_cons(number[0], suffix);
    lemma_bits_value_bound(suffix);
    assert(number[0]);
    assert(code.len() == z + w);
    assert forall|i: int| 0 <= i < code.len() implies c.bits[c.pos + i] == code[i] by {
        assert(c.bits.subrange(c.pos, c.pos + code.len())[i] == code[i]);
    }
    assert forall|i: int| c.pos <= i < c.pos + z implies !c.bits[i] by {
        assert(c.bits[c.pos + (i - c.pos)] == code[i - c.pos]);
    }
    assert(c.bits[c.pos + z] == code[z as int]);
    lemma_zero_run(c.bits, c.pos, z);
    assert(c.bits.subrange(c.pos + z + 1, c.pos + z + 1 + z) =~= suffix) by {
        assert forall|i: int| 0 <= i < z implies c.bits[c.pos + z + 1 + i] == suffix[i] by {
            assert(c.bits[c.pos + (z + 1 + i)] == code[z + 1 + i]);
        }
    }
}

/// An Exp-Golomb number has only one code: what was read is what [`ue_bits`]
/// writes.
pub proof fn lemma_ue_canonical(c: Cursor)
    requires
        c.ok(),
        0 <= c.pos <= c.bits.len(),
        c.ue().1.ok(),
    ensures
        c.ue().0 < u32::MAX,
        c.pos < c.ue().1.pos <= c.bits.len(),
        c.bits.subrange(c.pos, c.ue().1.pos) == ue_bits(c.ue().0 as nat),
{
    reveal(Cursor::u);
    reveal(Cursor::ue);
    let z = zero_run(c.bits, c.pos);
    lemma_zero_run_bits(c.bits, c.pos);
    let p = c.pos + z;
    let suffix = c.bits.subrange(p + 1, p + 1 + z);
    lemma_bits_value_bound(suffix);
    lemma_bits_value_cons(true, suffix);
    power2::lemma2_to64();
    if z < 31 {
        power2::lemma_pow2_strictly_increases(z, 31);
    }
    let v = c.ue().0 as nat;
    assert(v + 1 == power2::pow2(z) + bits_value(suffix));
    power2::lemma_pow2_unfold(z + 1);
    lemma_bit_width_unique(v + 1, z + 1);
    lemma_value_be_bits(seq![true] + suffix);
    assert(c.bits.subrange(c.pos, p + 1 + z) =~= zero_bits(z) + (seq![true] + suffix));
}

/// Both cursors stand, and the bits from `a` up to `end` also follow at `b`.
#[verifier::opaque]
pub open spec fn agree(a: Cursor, b: Cursor, end: int) -> bool {
    &&& a.ok()
    &&& b.ok()
    &&& 0 <= a.pos <= end <= a.bits.len()
    &&& 0 <= b.pos
    &&& b.pos + (end - a.pos) <= b.bits.len()
    &&& forall|i: int| 0 <= i < end - a.pos ==> a.bits[a.pos + i] == #[trigger] b.bits[b.pos + i]
}

/// Whether a read that takes `a` to `a1` before `end` takes `b`, which agrees with
/// `a`, to the corresponding `b1`.
pub open spec fn in_step(a: Cursor, b: Cursor, end: int, a1: Cursor, b1: Cursor) -> bool {
    a1.ok() && a1.pos <= end ==> agree(a1, b1, end) && b1 == b.at(b.pos + (a1.pos - a.pos))
}

/// A read depends only on the bits it consumes: fixed-width fields.
pub broadcast proof fn lemma_agree_u(a: Cursor, b: Cursor, end: int, n: u32)
    ensures
        #[trigger] agree(a, b, end) ==> in_step(a, b, end, a.u(n).1, (#[trigger] b.u(n)).1) && (
        a.u(n).1.ok() && a.u(n).1.pos <= end ==> b.u(n).0 == a.u(n).0),
{
    reveal(agree);
    reveal(Cursor::u);
    if agree(a, b, end) && a.u(n).1.ok() && a.u(n).1.pos <= end {
        assert(a.bits.subrange(a.pos, a.pos + n) =~= b.bits.subrange(b.pos, b.pos + n)) by {
            assert forall|i: int| 0 <= i < n implies #[trigger] a.bits.subrange(
                a.pos,
                a.pos + n,
            )[i] == b.bits.subrange(b.pos, b.pos + n)[i] by {
                assert(a.bits[a.pos + i] == b.bits[b.pos + i]);
            }
        }
        assert forall|i: int| 0 <= i < end - (a.pos + n) implies a.bits[a.pos + n + i]
            == #[trigger] b.bits[b.pos + n + i] by {
            assert(a.bits[a.pos + (n + i)] == b.bits[b.pos + (n + i)]);
        }
    }
}

/// A read depends only on the bits it consumes: Exp-Golomb codes.
pub broadcast proof fn lemma_agree_ue(a: Cursor, b: Cursor, end: int)
    ensures
        #[trigger] agree(a, b, end) ==> in_step(a, b, end, a.ue().1, (#[trigger] b.ue()).1) && (
        a.ue().1.ok() && a.ue().1.pos <= end ==> b.ue().0 == a.ue().0),
{
    if agree(a, b, end) && a.ue().1.ok() && a.ue().1.pos <= end {
        reveal(agree);
        reveal(Cursor::u);
        reveal(Cursor::ue);
        let z = zero_run(a.bits, a.pos);
        lemma_zero_run_bits(a.bits, a.pos);
        assert forall|i: int| b.pos <= i < b.pos + z implies !b.bits[i] by {
            assert(a.bits[a.pos + (i - b.pos)] == b.bits[b.pos + (i - b.pos)]);
        }
        assert(a.bits[a.pos + z] == b.bits[b.pos + z]);
        lemma_zero_run(b.bits, b.pos, z);
        let a1 = a.at(a.pos + z + 1);
        let b1 = b.at(b.pos + z + 1);
        assert forall|i: int| 0 <= i < end - a1.pos implies a1.bits[a1.pos + i]
            == #[trigger] b1.bits[b1.pos + i] by {
            assert(a.bits[a.pos + (z + 1 + i)] == b.bits[b.pos + (z + 1 + i)]);
        }
        lemma_agree_u(a1, b1, end, z as u32);
    }
}

/// Skipping depends only on the bits it consumes.
pub broadcast proof fn lemma_agree_skip_u_times(
    a: Cursor,
    b: Cursor,
    end: int,
    n: u32,
    count: nat,
)
    ensures
        #[trigger] agree(a, b, end) ==> in_step(
            a,
            b,
            end,
            a.skip_u_times(n, count),
            #[trigger] b.skip_u_times(n, count),
        ),
    decreases count,
{
    if count > 0 && agree(a, b, end) {
        lemma_agree_u(a, b, end, n);
        lemma_u_moves(a, n);
        lemma_skip_u_times_moves(a.skip_u(n), n, (count - 1) as nat);
        lemma_agree_skip_u_times(a.skip_u(n), b.skip_u(n), end, n, (count - 1) as nat);
    } else {
        reveal(agree);
    }
}

/// A read depends only on the bits it consumes.
pub broadcast group group_agree {
    lemma_agree_u,
    lemma_agree_ue,
    lemma_agree_skip_u_times,
    lemma_agree_skip_ue_times,
}

/// Bits that were copied agree with those they were copied from.
pub proof fn lemma_agree_copied(src: Seq<bool>, from: int, end: int, x: Seq<bool>, y: Seq<bool>)
    requires
        0 <= from <= end <= src.len(),
    ensures
        agree(
            Cursor::start(src).at(from),
            Cursor::start(x + src.subrange(from, end) + y).at(x.len() as int),
            end,
        ),
{
    reveal(agree);
}

/// A reader gets the number that a writer appended as a fixed-width field: reading
/// `n` bits behind the bits `before` gives the low `n` bits of `v`, whatever follows.
pub proof fn law_fields_read_back(before: Seq<bool>, n: u32, v: nat, rest: Seq<bool>)
    requires
        n <= 32,
        v < power2::pow2(n as nat),
    ensures
        ({
            let c = Cursor::start(before + be_bits(v, n as nat) + rest).at(before.len() as int);
            c.u(n) == (v as u32, c.at(c.pos + n))
        }),
{
    let field = be_bits(v, n as nat);
    let c = Cursor::start(before + field + rest).at(before.len() as int);
    lemma_be_bits_value(v, n as nat);
    assert(c.bits.subrange(c.pos, c.pos + field.len()) =~= field);
    lemma_u_reads(c, n, v);
}

/// A reader gets the number that a writer appended as an Exp-Golomb code.
pub proof fn law_codes_read_back(before: Seq<bool>, v: nat, rest: Seq<bool>)
    requires
        v < u32::MAX,
    ensures
        ({
            let c = Cursor::start(before + ue_bits(v) + rest).at(before.len() as int);
            c.ue() == (v as u32, c.at(c.pos + ue_bits(v).len()))
        }),
{
    let code = ue_bits(v);
    let c = Cursor::start(before + code + rest).at(before.len() as int);
    assert(c.bits.subrange(c.pos, c.pos + code.len()) =~= code);
    lemma_ue_reads(c, v);
}

/// An Exp-Golomb code that is read has only one spelling, so copying the number
/// copies the bits.
pub proof fn law_codes_are_canonical(c: Cursor)
    requires
        0 <= c.pos <= c.bits.len(),
        c.ue().1.ok(),
    ensures
        c.bits.subrange(c.pos, c.ue().1.pos) == ue_bits(c.ue().0 as nat),
{
    lemma_ue_moves(c);
    lemma_ue_canonical(c);
}

/// Skipping depends only on the bits it consumes.
pub broadcast proof fn lemma_agree_skip_ue_times(a: Cursor, b: Cursor, end: int, count: nat)
    ensures
        #[trigger] agree(a, b, end) ==> in_step(
            a,
            b,
            end,
            a.skip_ue_times(count),
            #[trigger] b.skip_ue_times(count),
        ),
    decreases count,
{
    if count > 0 && agree(a, b, end) {
        lemma_agree_ue(a, b, end);
        lemma_ue_moves(a);
        lemma_skip_ue_times_moves(a.skip_ue(), (count - 1) as nat);
        lemma_agree_skip_ue_times(a.skip_ue(), b.skip_ue(), end, (count - 1) as nat);
    } else {
        reveal(agree);
    }
}

/// The bits of a byte string stay where they are when bytes are appended.
pub proof fn lemma_agree_appended(data: Seq<u8>, longer: Seq<u8>)
    requires
        data.len() <= longer.len(),
        longer.take(data.len() as int) == data,
    ensures
        agree(
            Cursor::start(bits_of(data)),
            Cursor::start(bits_of(longer)),
            bits_of(data).len() as int,
        ),
{
    reveal(agree);
    let a = bits_of(data);
    let b = bits_of(longer);
    assert forall|i: int| 0 <= i < a.len() implies a[0 + i] == #[trigger] b[0 + i] by {
        assert(longer.take(data.len() as int)[i / 8] == longer[i / 8]);
    }
}

} // verus!
