//! Frame plumbing for the macOS backends: copying pixel rows between padded Core
//! Video buffers and tightly packed BGRA frames, and handing the latest frame from
//! a capture callback to its consumer.

use crate::BgraFrame;
use vstd::prelude::*;
use vstd::slice::slice_subrange;

verus! {

/// The first `rows` rows of `row_bytes` bytes at `stride` in `pixels`, one after the
/// other.
pub open spec fn packed_rows(pixels: Seq<u8>, row_bytes: int, stride: int, rows: nat) -> Seq<u8>
    decreases rows,
{
    if rows == 0 {
        Seq::empty()
    } else {
        let at = (rows - 1) * stride;
        packed_rows(pixels, row_bytes, stride, (rows - 1) as nat) + pixels.subrange(
            at,
            at + row_bytes,
        )
    }
}

/// `pixels` with its first `rows` rows at `stride` replaced by those of `packed`.
pub open spec fn spread_rows(
    pixels: Seq<u8>,
    packed: Seq<u8>,
    row_bytes: int,
    stride: int,
    rows: nat,
) -> Seq<u8>
    decreases rows,
{
    if rows == 0 {
        pixels
    } else {
        let row = rows - 1;
        let above = spread_rows(pixels, packed, row_bytes, stride, row as nat);
        above.take(row * stride) + packed.subrange(row * row_bytes, row * row_bytes + row_bytes)
            + above.skip(row * stride + row_bytes)
    }
}

/// Whether `rows` rows of `row_bytes` bytes fit into `len` bytes at `stride`.
pub open spec fn rows_fit(len: int, row_bytes: int, stride: int, rows: int) -> bool {
    rows > 0 ==> (rows - 1) * stride + row_bytes <= len
}

/// Copy 32BGRA rows at a stride of `bytes_per_row` into a tightly packed
/// [`BgraFrame`] (the result has no row padding).
pub fn copy_pixel_buf_bgra(
    pixels: &[u8],
    width: usize,
    height: usize,
    bytes_per_row: usize,
) -> (frame: BgraFrame)
    requires
        width * 4 <= usize::MAX,
        width * 4 * height <= isize::MAX,
        rows_fit(pixels@.len() as int, width * 4, bytes_per_row as int, height as int),
    ensures
        frame.bgra@ == packed_rows(pixels@, width * 4, bytes_per_row as int, height as nat),
        frame.width == width as u32,
        frame.height == height as u32,
{
    let len: usize = pixels.len();
    let row_bytes: usize = width * 4;
    let mut bgra: Vec<u8> = Vec::with_capacity(row_bytes * height);
    let mut row: usize = 0;
    while row < height
        invariant
            row <= height,
            row_bytes == width * 4,
            len == pixels@.len(),
            rows_fit(pixels@.len() as int, row_bytes as int, bytes_per_row as int, height as int),
            bgra@ == packed_rows(pixels@, row_bytes as int, bytes_per_row as int, row as nat),
        decreases height - row,
    {
        proof {
            assert(row * bytes_per_row <= (height - 1) * bytes_per_row) by (nonlinear_arith)
                requires
                    row <= height - 1,
                    0 <= bytes_per_row,
            ;
        }
        let at: usize = row * bytes_per_row;
        bgra.extend_from_slice(slice_subrange(pixels, at, at + row_bytes));
        row = row + 1;
    }
    BgraFrame {
        bgra,
        width: #[verifier::truncate] (width as u32),
        height: #[verifier::truncate] (height as u32),
    }
}

/// Copy tightly packed BGRA rows into a buffer with a stride of `bytes_per_row`.
/// The padding behind each row keeps its bytes.
pub fn fill_pixel_buf_bgra(
    pixels: &mut [u8],
    bgra: &[u8],
    width: usize,
    height: usize,
    bytes_per_row: usize,
)
    requires
        width * 4 <= usize::MAX,
        width * 4 * height <= bgra@.len(),
        rows_fit(old(pixels)@.len() as int, width * 4, bytes_per_row as int, height as int),
    ensures
        final(pixels)@ == spread_rows(
            old(pixels)@,
            bgra@,
            width * 4,
            bytes_per_row as int,
            height as nat,
        ),
{
    let len: usize = pixels.len();
    let packed_len: usize = bgra.len();
    let row_bytes: usize = width * 4;
    let ghost given = pixels@;
    let mut row: usize = 0;
    while row < height
        invariant
            row <= height,
            row_bytes == width * 4,
            row_bytes * height <= bgra@.len(),
            given == old(pixels)@,
            pixels@.len() == given.len(),
            len == given.len(),
            packed_len == bgra@.len(),
            rows_fit(given.len() as int, row_bytes as int, bytes_per_row as int, height as int),
            pixels@ == spread_rows(
                given,
                bgra@,
                row_bytes as int,
                bytes_per_row as int,
                row as nat,
            ),
        decreases height - row,
    {
        proof {
            assert(row * bytes_per_row <= (height - 1) * bytes_per_row) by (nonlinear_arith)
                requires
                    row <= height - 1,
                    0 <= bytes_per_row,
            ;
            assert(row * row_bytes + row_bytes <= row_bytes * height) by (nonlinear_arith)
                requires
                    row <= height - 1,
                    0 <= row_bytes,
            ;
        }
        let to: usize = row * bytes_per_row;
        let from: usize = row * row_bytes;
        let ghost above = pixels@;
        let ghost line = bgra@.subrange(from as int, from + row_bytes);
        let mut i: usize = 0;
        assert(pixels@ =~= above.take(to as int) + line.take(0) + above.skip(to as int));
        while i < row_bytes
            invariant
                i <= row_bytes,
                to + row_bytes <= pixels@.len(),
                len == pixels@.len(),
                packed_len == bgra@.len(),
                pixels@.len() == above.len(),
                from + row_bytes <= bgra@.len(),
                line == bgra@.subrange(from as int, from + row_bytes),
                pixels@ == above.take(to as int) + line.take(i as int) + above.skip(to + i),
            decreases row_bytes - i,
        {
            let ghost before = pixels@;
            pixels[to + i] = bgra[from + i];
            i = i + 1;
            assert(pixels@ =~= above.take(to as int) + line.take(i as int) + above.skip(to + i));
        }
        assert(line.take(i as int) =~= line);
        row = row + 1;
    }
}

/// The latest captured frame, on its way from a capture callback to its consumer.
///
/// Delivery is latest-frame, drop-old: a frame that is not taken before the next
/// one arrives is overwritten.
pub struct FrameSlot {
    /// The frame that was stored last, unless it was taken.
    pub frame: Option<BgraFrame>,
}

impl FrameSlot {
    /// An empty slot.
    pub fn new() -> (res: Self)
        ensures
            res.frame is None,
    {
        FrameSlot { frame: None }
    }

    /// Put `frame` in the slot, in place of any frame there.
    pub fn store(&mut self, frame: BgraFrame)
        ensures
            final(self).frame == Some(frame),
    {
        self.frame = Some(frame);
    }

    /// Take the frame out of the slot.
    pub fn take(&mut self) -> (res: Option<BgraFrame>)
        ensures
            res == old(self).frame,
            final(self).frame is None,
    {
        self.frame.take()
    }
}

/// What a slot holds after a number of stores, and what a consumer then takes.
pub open spec fn stored(slot: Option<BgraFrame>, frames: Seq<BgraFrame>) -> Option<BgraFrame>
    decreases frames.len(),
{
    if frames.len() == 0 {
        slot
    } else {
        stored(Some(frames[0]), frames.drop_first())
    }
}

/// However many frames arrive before one is taken, the newest is the one taken.
pub proof fn law_slot_keeps_the_newest_frame(slot: Option<BgraFrame>, frames: Seq<BgraFrame>)
    requires
        frames.len() > 0,
    ensures
        stored(slot, frames) == Some(frames.last()),
    decreases frames.len(),
{
    if frames.len() == 1 {
        assert(frames.drop_first() =~= Seq::empty());
        assert(stored(Some(frames[0]), frames.drop_first()) == Some(frames[0]));
    } else {
        law_slot_keeps_the_newest_frame(Some(frames[0]), frames.drop_first());
        assert(frames.drop_first().last() == frames.last());
    }
}

/// Packing looks only at the rows.
proof fn lemma_packed_agree(p: Seq<u8>, q: Seq<u8>, row_bytes: int, stride: int, rows: nat)
    requires
        0 <= row_bytes <= stride,
        rows * stride <= p.len(),
        p.len() == q.len(),
        forall|i: int| 0 <= i < rows * stride ==> p[i] == q[i],
    ensures
        packed_rows(p, row_bytes, stride, rows) == packed_rows(q, row_bytes, stride, rows),
    decreases rows,
{
    if rows > 0 {
        let at = (rows - 1) * stride;
        assert(at + stride == rows * stride && 0 <= at) by (nonlinear_arith)
            requires
                at == (rows - 1) * stride,
                0 <= stride,
                rows >= 1,
        ;
        lemma_packed_agree(p, q, row_bytes, stride, (rows - 1) as nat);
        assert(p.subrange(at, at + row_bytes) =~= q.subrange(at, at + row_bytes));
    }
}

/// Spreading keeps the length of the buffer.
proof fn lemma_spread_len(
    pixels: Seq<u8>,
    packed: Seq<u8>,
    row_bytes: int,
    stride: int,
    rows: nat,
)
    requires
        0 <= row_bytes,
        0 <= stride,
        rows_fit(pixels.len() as int, row_bytes, stride, rows as int),
        rows * row_bytes <= packed.len(),
    ensures
        spread_rows(pixels, packed, row_bytes, stride, rows).len() == pixels.len(),
    decreases rows,
{
    if rows > 0 {
        let row = rows - 1;
        assert(0 <= row * stride && (row > 0 ==> (row - 1) * stride <= row * stride))
            by (nonlinear_arith)
            requires
                0 <= stride,
                0 <= row,
        ;
        assert(0 <= row * row_bytes && row * row_bytes + row_bytes == rows * row_bytes)
            by (nonlinear_arith)
            requires
                row == rows - 1,
                0 <= row_bytes,
                0 <= row,
        ;
        lemma_spread_len(pixels, packed, row_bytes, stride, row as nat);
    }
}

/// Packing the rows of a buffer that packed rows were copied into gives these rows
/// back, whatever padding the buffer has.
pub proof fn law_packing_undoes_spreading(
    pixels: Seq<u8>,
    packed: Seq<u8>,
    row_bytes: int,
    stride: int,
    rows: nat,
)
    requires
        0 <= row_bytes <= stride,
        rows_fit(pixels.len() as int, row_bytes, stride, rows as int),
        rows * row_bytes <= packed.len(),
    ensures
        packed_rows(
            spread_rows(pixels, packed, row_bytes, stride, rows),
            row_bytes,
            stride,
            rows,
        ) == packed.take(rows * row_bytes),
    decreases rows,
{
    let out = spread_rows(pixels, packed, row_bytes, stride, rows);
    if rows == 0 {
        assert(rows * row_bytes == 0) by (nonlinear_arith)
            requires
                rows == 0,
        ;
        assert(packed.take(0) =~= Seq::empty());
    } else {
        let row = rows - 1;
        assert(0 <= row * stride && (row > 0 ==> (row - 1) * stride <= row * stride))
            by (nonlinear_arith)
            requires
                0 <= stride,
                0 <= row,
        ;
        assert(0 <= row * row_bytes && row * row_bytes + row_bytes == rows * row_bytes)
            by (nonlinear_arith)
            requires
                row == rows - 1,
                0 <= row_bytes,
                0 <= row,
        ;
        let above = spread_rows(pixels, packed, row_bytes, stride, row as nat);
        lemma_spread_len(pixels, packed, row_bytes, stride, row as nat);
        law_packing_undoes_spreading(pixels, packed, row_bytes, stride, row as nat);
        lemma_packed_agree(out, above, row_bytes, stride, row as nat);
        let line = packed.subrange(row * row_bytes, row * row_bytes + row_bytes);
        assert(out.subrange(row * stride, row * stride + row_bytes) =~= line);
        assert(packed.take(row * row_bytes) + line =~= packed.take(rows * row_bytes));
    }
}

/// Packed rows stand one behind the other, in order, without padding: byte `i` of row
/// `row` of a frame is byte `i` of that row of the buffer.
pub proof fn law_packed_rows_keep_every_pixel(
    pixels: Seq<u8>,
    row_bytes: int,
    stride: int,
    rows: nat,
    row: int,
    i: int,
)
    requires
        0 <= row_bytes,
        0 <= stride,
        rows_fit(pixels.len() as int, row_bytes, stride, rows as int),
        0 <= row < rows,
        0 <= i < row_bytes,
    ensures
        packed_rows(pixels, row_bytes, stride, rows).len() == rows * row_bytes,
        packed_rows(pixels, row_bytes, stride, rows)[row * row_bytes + i] == pixels[row * stride
            + i],
    decreases rows,
{
    let last = rows - 1;
    lemma_packed_len(pixels, row_bytes, stride, rows);
    assert(0 <= last * stride && 0 <= row * row_bytes && (last > 0 ==> (last - 1) * stride <= last
        * stride)) by (nonlinear_arith)
        requires
            0 <= stride,
            0 <= last,
            0 <= row,
            0 <= row_bytes,
    ;
    lemma_packed_len(pixels, row_bytes, stride, last as nat);
    if row < last {
        assert(row * row_bytes + row_bytes <= last * row_bytes) by (nonlinear_arith)
            requires
                row <= last - 1,
                0 <= row_bytes,
        ;
        law_packed_rows_keep_every_pixel(pixels, row_bytes, stride, last as nat, row, i);
    }
}

/// How long packed rows are.
proof fn lemma_packed_len(pixels: Seq<u8>, row_bytes: int, stride: int, rows: nat)
    requires
        0 <= row_bytes,
        0 <= stride,
        rows_fit(pixels.len() as int, row_bytes, stride, rows as int),
    ensures
        packed_rows(pixels, row_bytes, stride, rows).len() == rows * row_bytes,
    decreases rows,
{
    if rows > 0 {
        let last = rows - 1;
        assert(0 <= last * stride && last * row_bytes + row_bytes == rows * row_bytes && (last > 0
            ==> (last - 1) * stride <= last * stride)) by (nonlinear_arith)
            requires
                0 <= stride,
                last == rows - 1,
                0 <= last,
        ;
        lemma_packed_len(pixels, row_bytes, stride, last as nat);
    } else {
        assert(rows * row_bytes == 0) by (nonlinear_arith)
            requires
                rows == 0,
        ;
    }
}

/// Spreading puts each row of a frame at its place in the buffer, and leaves the padding
/// behind it as it was.
pub proof fn law_spread_rows_keep_every_pixel(
    pixels: Seq<u8>,
    packed: Seq<u8>,
    row_bytes: int,
    stride: int,
    rows: nat,
    row: int,
    i: int,
)
    requires
        0 <= row_bytes <= stride,
        rows_fit(pixels.len() as int, row_bytes, stride, rows as int),
        rows * row_bytes <= packed.len(),
        0 <= row < rows,
        0 <= i < stride,
        row * stride + i < pixels.len(),
    ensures
        spread_rows(pixels, packed, row_bytes, stride, rows).len() == pixels.len(),
        spread_rows(pixels, packed, row_bytes, stride, rows)[row * stride + i] == if i
            < row_bytes {
            packed[row * row_bytes + i]
        } else {
            pixels[row * stride + i]
        },
    decreases rows,
{
    let last = rows - 1;
    let at = row * stride + i;
    let above = spread_rows(pixels, packed, row_bytes, stride, last as nat);
    assert(0 <= last * stride && 0 <= row * stride && (last > 0 ==> (last - 1) * stride <= last
        * stride)) by (nonlinear_arith)
        requires
            0 <= stride,
            0 <= last,
            0 <= row,
    ;
    assert(0 <= last * row_bytes && last * row_bytes + row_bytes == rows * row_bytes)
        by (nonlinear_arith)
        requires
            last == rows - 1,
            0 <= row_bytes,
            0 <= last,
    ;
    lemma_spread_len(pixels, packed, row_bytes, stride, rows);
    lemma_spread_len(pixels, packed, row_bytes, stride, last as nat);
    if row < last {
        assert(row * stride + stride <= last * stride) by (nonlinear_arith)
            requires
                row <= last - 1,
                0 <= stride,
        ;
        law_spread_rows_keep_every_pixel(pixels, packed, row_bytes, stride, last as nat, row, i);
    } else if i >= row_bytes {
        lemma_spread_behind(pixels, packed, row_bytes, stride, last as nat, at);
    }
}

/// What stands behind the rows stays as it was.
proof fn lemma_spread_behind(
    pixels: Seq<u8>,
    packed: Seq<u8>,
    row_bytes: int,
    stride: int,
    rows: nat,
    at: int,
)
    requires
        0 <= row_bytes <= stride,
        rows_fit(pixels.len() as int, row_bytes, stride, rows as int),
        rows * row_bytes <= packed.len(),
        rows * stride <= at < pixels.len(),
    ensures
        spread_rows(pixels, packed, row_bytes, stride, rows)[at] == pixels[at],
    decreases rows,
{
    if rows > 0 {
        let last = rows - 1;
        assert(0 <= last * stride && last * stride + stride == rows * stride && (last > 0 ==> (last
            - 1) * stride <= last * stride)) by (nonlinear_arith)
            requires
                0 <= stride,
                last == rows - 1,
                0 <= last,
        ;
        assert(0 <= last * row_bytes && last * row_bytes + row_bytes == rows * row_bytes)
            by (nonlinear_arith)
            requires
                last == rows - 1,
                0 <= row_bytes,
                0 <= last,
        ;
        lemma_spread_len(pixels, packed, row_bytes, stride, last as nat);
        lemma_spread_behind(pixels, packed, row_bytes, stride, last as nat, at);
    }
}

} // verus!
