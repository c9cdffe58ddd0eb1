//! Emulation prevention: the `03` bytes that keep start codes out of a NAL
//! unit's payload.

use vstd::prelude::*;

verus! {

/// The last two bytes of `s` are zero.
pub open spec fn ends_in_two_zeros(s: Seq<u8>) -> bool {
    &&& s.len() >= 2
    &&& s[s.len() - 1] == 0
    &&& s[s.len() - 2] == 0
}

/// `data` without its emulation-prevention bytes: every `03` that directly
/// follows two zero bytes is dropped.
pub open spec fn unescaped(data: Seq<u8>) -> Seq<u8>
    decreases data.len(),
{
    if data.len() == 0 {
        Seq::empty()
    } else if data.last() == 3 && ends_in_two_zeros(data.drop_last()) {
        unescaped(data.drop_last())
    } else {
        unescaped(data.drop_last()).push(data.last())
    }
}

/// `data` with emulation-prevention bytes: a `03` goes before each byte up to
/// `03` that would otherwise directly follow two zero bytes.
pub open spec fn escaped(data: Seq<u8>) -> Seq<u8>
    decreases data.len(),
{
    if data.len() == 0 {
        Seq::empty()
    } else {
        let out = escaped(data.drop_last());
        if data.last() <= 3 && ends_in_two_zeros(out) {
            out.push(3).push(data.last())
        } else {
            out.push(data.last())
        }
    }
}

/// `data` holds no two zero bytes followed by `00`, `01` or `02`: no start code
/// and nothing that could be taken for the beginning of one.
pub open spec fn start_code_free(data: Seq<u8>) -> bool {
    forall|i: int|
        0 <= i < data.len() - 2 && #[trigger] data[i] == 0 && data[i + 1] == 0 ==> data[i + 2] >= 3
}

/// Remove HEVC emulation-prevention bytes (`00 00 03` -> `00 00`).
pub fn unescape_rbsp(data: &[u8]) -> (out: Vec<u8>)
    ensures
        out@ == unescaped(data@),
{
    let mut out: Vec<u8> = Vec::with_capacity(data.len());
    let mut zeros: usize = 0;
    let mut i: usize = 0;
    while i < data.len()
        invariant
            i <= data@.len(),
            zeros <= i,
            out@ == unescaped(data@.take(i as int)),
            zeros >= 1 <==> (i >= 1 && data@[i - 1] == 0),
            zeros >= 2 <==> ends_in_two_zeros(data@.take(i as int)),
        decreases data@.len() - i,
    {
        let b: u8 = data[i];
        let ghost next = data@.take(i + 1);
        assert(next.drop_last() =~= data@.take(i as int));
        if zeros >= 2 && b == 3 {
            zeros = 0;
        } else {
            if b == 0 {
                zeros = zeros + 1;
            } else {
                zeros = 0;
            }
            out.push(b);
        }
        i = i + 1;
    }
    assert(data@.take(i as int) =~= data@);
    out
}

/// Insert HEVC emulation-prevention bytes (`00 00 {00,01,02,03}` -> `00 00 03 ..`).
pub fn escape_rbsp(data: &[u8]) -> (out: Vec<u8>)
    ensures
        out@ == escaped(data@),
{
    let mut out: Vec<u8> = Vec::with_capacity(data.len());
    let mut zeros: usize = 0;
    let mut i: usize = 0;
    while i < data.len()
        invariant
            i <= data@.len(),
            zeros <= i,
            out@ == escaped(data@.take(i as int)),
            zeros >= 1 <==> (out@.len() >= 1 && out@.last() == 0),
            zeros >= 2 <==> ends_in_two_zeros(out@),
        decreases data@.len() - i,
    {
        let b: u8 = data[i];
        let ghost next = data@.take(i + 1);
        assert(next.drop_last() =~= data@.take(i as int));
        if zeros >= 2 && b <= 3 {
            out.push(3);
            zeros = 0;
        }
        if b == 0 {
            zeros = zeros + 1;
        } else {
            zeros = 0;
        }
        out.push(b);
        i = i + 1;
    }
    assert(data@.take(i as int) =~= data@);
    out
}

/// Removing the emulation-prevention bytes undoes inserting them.
pub proof fn law_unescape_undoes_escape(data: Seq<u8>)
    ensures
        unescaped(escaped(data)) == data,
    decreases data.len(),
{
    if data.len() > 0 {
        let out = escaped(data.drop_last());
        let b = data.last();
        law_unescape_undoes_escape(data.drop_last());
        if b <= 3 && ends_in_two_zeros(out) {
            assert(out.push(3).drop_last() =~= out);
            assert(unescaped(out.push(3)) == unescaped(out));
            assert(out.push(3).push(b).drop_last() =~= out.push(3));
        } else {
            assert(out.push(b).drop_last() =~= out);
        }
        assert(data =~= data.drop_last().push(b));
    } else {
        assert(unescaped(escaped(data)) =~= data);
    }
}

/// An escaped payload contains no start code.
pub proof fn law_escaped_is_start_code_free(data: Seq<u8>)
    ensures
        start_code_free(escaped(data)),
    decreases data.len(),
{
    if data.len() > 0 {
        let out = escaped(data.drop_last());
        law_escaped_is_start_code_free(data.drop_last());
        let all = escaped(data);
        assert forall|i: int|
            0 <= i < all.len() - 2 && #[trigger] all[i] == 0 && all[i + 1] == 0 implies all[i + 2]
            >= 3 by {
            if i + 2 < out.len() {
                assert(out[i] == 0 && out[i + 1] == 0);
            }
        }
    }
}

/// An escaped payload ends in two zero bytes only if the payload does.
pub proof fn law_escaped_ends_as_its_payload(data: Seq<u8>)
    ensures
        ends_in_two_zeros(escaped(data)) ==> ends_in_two_zeros(data),
        data.len() > 0 ==> escaped(data).len() > 0 && escaped(data).last() == data.last(),
    decreases data.len(),
{
    if data.len() > 0 {
        let rest = data.drop_last();
        law_escaped_ends_as_its_payload(rest);
        if rest.len() == 0 {
            assert(escaped(rest) =~= Seq::<u8>::empty());
        }
    }
}

/// What a payload unescapes to does not change when bytes are appended.
pub proof fn lemma_unescaped_prefix(data: Seq<u8>, tail: Seq<u8>)
    ensures
        unescaped(data).len() <= unescaped(data + tail).len(),
        unescaped(data + tail).take(unescaped(data).len() as int) == unescaped(data),
    decreases tail.len(),
{
    let n = unescaped(data).len() as int;
    if tail.len() == 0 {
        assert(data + tail =~= data);
        assert(unescaped(data).take(n) =~= unescaped(data));
    } else {
        let all = data + tail;
        lemma_unescaped_prefix(data, tail.drop_last());
        assert(all.drop_last() =~= data + tail.drop_last());
        let before = unescaped(all.drop_last());
        assert(before.push(all.last()).take(n) =~= before.take(n));
    }
}

/// A payload in which no two zero bytes are followed by a byte up to `03` is not
/// changed.
pub proof fn law_escaping_changes_nothing_without_need(data: Seq<u8>)
    requires
        forall|i: int|
            0 <= i < data.len() - 2 && #[trigger] data[i] == 0 && data[i + 1] == 0 ==> data[i + 2]
                > 3,
    ensures
        escaped(data) == data,
        unescaped(data) == data,
    decreases data.len(),
{
    if data.len() > 0 {
        let rest = data.drop_last();
        assert forall|i: int|
            0 <= i < rest.len() - 2 && #[trigger] rest[i] == 0 && rest[i + 1] == 0 implies rest[i
            + 2] > 3 by {
            assert(data[i] == 0 && data[i + 1] == 0);
        }
        law_escaping_changes_nothing_without_need(rest);
        assert(data =~= rest.push(data.last()));
        if ends_in_two_zeros(rest) {
            assert(data[data.len() - 3] == 0 && data[data.len() - 2] == 0);
        }
    } else {
        assert(escaped(data) =~= data);
        assert(unescaped(data) =~= data);
    }
}

/// A `03` that directly follows two zero bytes is dropped, whatever follows it, and
/// what follows is read as if it stood alone.
pub proof fn law_emulation_prevention_byte_is_dropped(before: Seq<u8>, after: Seq<u8>)
    ensures
        unescaped(before + seq![0u8, 0u8, 3u8] + after) == unescaped(before + seq![0u8, 0u8])
            + unescaped(after),
    decreases after.len(),
{
    let head = before + seq![0u8, 0u8, 3u8];
    let all = head + after;
    if after.len() == 0 {
        assert(all =~= head);
        assert(head.drop_last() =~= before + seq![0u8, 0u8]);
        assert(unescaped(before + seq![0u8, 0u8]) + unescaped(after) =~= unescaped(
            before + seq![0u8, 0u8],
        ));
    } else {
        let rest = after.drop_last();
        law_emulation_prevention_byte_is_dropped(before, rest);
        assert(all.drop_last() =~= head + rest);
        assert(all.last() == after.last());
        assert(ends_in_two_zeros(head + rest) <==> ends_in_two_zeros(rest)) by {
            let n = (head + rest).len();
            if rest.len() >= 2 {
                assert((head + rest)[n - 1] == rest[rest.len() - 1]);
                assert((head + rest)[n - 2] == rest[rest.len() - 2]);
            } else {
                assert(head.last() == 3);
                assert((head + rest)[head.len() - 1] == 3);
            }
        }
        assert(unescaped(all) =~= unescaped(before + seq![0u8, 0u8]) + unescaped(after));
    }
}

} // verus!
