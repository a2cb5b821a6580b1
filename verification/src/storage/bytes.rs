//! Fixed width little endian fields inside byte buffers.

use vstd::bytes::*;
use vstd::prelude::*;

verus! {

/// `s` with the bytes from `at` on replaced by `b`.
pub open spec fn written(s: Seq<u8>, at: int, b: Seq<u8>) -> Seq<u8> {
    Seq::new(s.len(), |i: int| if at <= i < at + b.len() { b[i - at] } else { s[i] })
}

/// The `u16` stored at offset `i`.
pub open spec fn u16_at(s: Seq<u8>, i: int) -> u16 {
    spec_u16_from_le_bytes(s.subrange(i, i + 2))
}

/// The `u32` stored at offset `i`.
pub open spec fn u32_at(s: Seq<u8>, i: int) -> u32 {
    spec_u32_from_le_bytes(s.subrange(i, i + 4))
}

/// The `u64` stored at offset `i`.
pub open spec fn u64_at(s: Seq<u8>, i: int) -> u64 {
    spec_u64_from_le_bytes(s.subrange(i, i + 8))
}

/// What was written is what is read back.
pub proof fn lemma_written_range(s: Seq<u8>, at: int, b: Seq<u8>)
    requires
        0 <= at,
        at + b.len() <= s.len(),
    ensures
        written(s, at, b).subrange(at, at + b.len()) == b,
{
    assert(written(s, at, b).subrange(at, at + b.len()) =~= b);
}

/// Equal bytes hold equal fields.
pub proof fn lemma_u16_eq(s: Seq<u8>, i: int, t: Seq<u8>, j: int)
    requires
        0 <= i,
        i + 2 <= s.len(),
        0 <= j,
        j + 2 <= t.len(),
        forall|k: int| 0 <= k < 2 ==> s[#[trigger] (i + k)] == t[j + k],
    ensures
        u16_at(s, i) == u16_at(t, j),
{
    assert forall|k: int| 0 <= k < 2 implies (#[trigger] s.subrange(
        i,
        i + 2,
    )[k]) == t.subrange(j, j + 2)[k] by {
        assert(s[i + k] == t[j + k]);
    }
    assert(s.subrange(i, i + 2) =~= t.subrange(j, j + 2));
}

/// Equal bytes hold equal fields.
pub proof fn lemma_u64_eq(s: Seq<u8>, i: int, t: Seq<u8>, j: int)
    requires
        0 <= i,
        i + 8 <= s.len(),
        0 <= j,
        j + 8 <= t.len(),
        forall|k: int| 0 <= k < 8 ==> s[#[trigger] (i + k)] == t[j + k],
    ensures
        u64_at(s, i) == u64_at(t, j),
{
    assert forall|k: int| 0 <= k < 8 implies (#[trigger] s.subrange(
        i,
        i + 8,
    )[k]) == t.subrange(j, j + 8)[k] by {
        assert(s[i + k] == t[j + k]);
    }
    assert(s.subrange(i, i + 8) =~= t.subrange(j, j + 8));
}

/// Copies `src` into `buf` at offset `at`.
pub fn put_bytes(buf: &mut [u8], at: usize, src: &[u8])
    requires
        at + src@.len() <= old(buf)@.len(),
    ensures
        final(buf)@ == written(old(buf)@, at as int, src@),
{
    let n: usize = src.len();
    let total: usize = buf.len();
    let mut i: usize = 0;
    while i < n
        invariant
            i <= n,
            total == old(buf)@.len(),
            n == src@.len(),
            at + n <= old(buf)@.len(),
            buf@.len() == old(buf)@.len(),
            forall|j: int|
                0 <= j < old(buf)@.len() ==> buf@[j] == (if at <= j < at + i {
                    src@[j - at]
                } else {
                    old(buf)@[j]
                }),
        decreases n - i,
    {
        buf[at + i] = src[i];
        i = i + 1;
    }
    assert(buf@ =~= written(old(buf)@, at as int, src@));
}

/// Moves the bytes of `from..to` up by `by` places.
pub fn shift_up(buf: &mut [u8], from: usize, to: usize, by: usize)
    requires
        from <= to,
        to + by <= old(buf)@.len(),
    ensures
        final(buf)@.len() == old(buf)@.len(),
        forall|i: int|
            0 <= i < old(buf)@.len() ==> final(buf)@[i] == (if from + by <= i < to + by {
                old(buf)@[i - by]
            } else {
                old(buf)@[i]
            }),
{
    let total: usize = buf.len();
    let mut i: usize = to;
    while i > from
        invariant
            from <= i <= to,
            to + by <= total,
            total == old(buf)@.len(),
            buf@.len() == old(buf)@.len(),
            forall|j: int|
                0 <= j < old(buf)@.len() ==> buf@[j] == (if i + by <= j < to + by {
                    old(buf)@[j - by]
                } else {
                    old(buf)@[j]
                }),
        decreases i,
    {
        i = i - 1;
        let b: u8 = buf[i];
        buf[i + by] = b;
    }
}

/// Stores `v` at offset `at`.
pub fn put_u16(buf: &mut [u8], at: usize, v: u16)
    requires
        at + 2 <= old(buf)@.len(),
    ensures
        final(buf)@ == written(old(buf)@, at as int, spec_u16_to_le_bytes(v)),
        u16_at(final(buf)@, at as int) == v,
{
    let b = u16_to_le_bytes(v);
    put_bytes(buf, at, b.as_slice());
    proof {
        lemma_written_range(old(buf)@, at as int, b@);
        lemma_auto_spec_u16_to_from_le_bytes();
    }
}

/// Stores `v` at offset `at`.
pub fn put_u32(buf: &mut [u8], at: usize, v: u32)
    requires
        at + 4 <= old(buf)@.len(),
    ensures
        final(buf)@ == written(old(buf)@, at as int, spec_u32_to_le_bytes(v)),
        u32_at(final(buf)@, at as int) == v,
{
    let b = u32_to_le_bytes(v);
    put_bytes(buf, at, b.as_slice());
    proof {
        lemma_written_range(old(buf)@, at as int, b@);
        lemma_auto_spec_u32_to_from_le_bytes();
    }
}

/// Stores `v` at offset `at`.
pub fn put_u64(buf: &mut [u8], at: usize, v: u64)
    requires
        at + 8 <= old(buf)@.len(),
    ensures
        final(buf)@ == written(old(buf)@, at as int, spec_u64_to_le_bytes(v)),
        u64_at(final(buf)@, at as int) == v,
{
    let b = u64_to_le_bytes(v);
    put_bytes(buf, at, b.as_slice());
    proof {
        lemma_written_range(old(buf)@, at as int, b@);
        lemma_auto_spec_u64_to_from_le_bytes();
    }
}

/// Reads the `u16` at offset `at`.
pub fn get_u16(buf: &[u8], at: usize) -> (v: u16)
    requires
        at + 2 <= buf@.len(),
    ensures
        v == u16_at(buf@, at as int),
{
    let end: usize = buf.len();
    assert(at + 2 <= end);
    u16_from_le_bytes(&buf[at..at + 2])
}

/// Reads the `u32` at offset `at`.
pub fn get_u32(buf: &[u8], at: usize) -> (v: u32)
    requires
        at + 4 <= buf@.len(),
    ensures
        v == u32_at(buf@, at as int),
{
    let end: usize = buf.len();
    assert(at + 4 <= end);
    u32_from_le_bytes(&buf[at..at + 4])
}

/// Reads the `u64` at offset `at`.
pub fn get_u64(buf: &[u8], at: usize) -> (v: u64)
    requires
        at + 8 <= buf@.len(),
    ensures
        v == u64_at(buf@, at as int),
{
    let end: usize = buf.len();
    assert(at + 8 <= end);
    u64_from_le_bytes(&buf[at..at + 8])
}

} // verus!
