//! Little-endian integers inside byte strings.

use vstd::prelude::*;

verus! {

/// The 16-bit little-endian number stored in `s` at index `at`.
pub open spec fn le16(s: Seq<u8>, at: int) -> int {
    s[at] as int + 0x100 * (s[at + 1] as int)
}

/// The 32-bit little-endian number stored in `s` at index `at`.
pub open spec fn le32(s: Seq<u8>, at: int) -> int {
    s[at] as int + 0x100 * (s[at + 1] as int) + 0x1_0000 * (s[at + 2] as int) + 0x100_0000 * (s[at
        + 3] as int)
}

/// Reads the 16-bit little-endian number at `at`.
pub fn read_le16(bytes: &[u8], at: usize) -> (v: u16)
    requires
        at + 2 <= bytes@.len(),
    ensures
        v == le16(bytes@, at as int),
{
    let lo: u16 = bytes[at] as u16;
    let hi: u16 = bytes[at + 1] as u16;
    lo + 0x100 * hi
}

/// Reads the 32-bit little-endian number at `at`.
pub fn read_le32(bytes: &[u8], at: usize) -> (v: u32)
    requires
        at + 4 <= bytes@.len(),
    ensures
        v == le32(bytes@, at as int),
{
    let b0: u32 = bytes[at] as u32;
    let b1: u32 = bytes[at + 1] as u32;
    let b2: u32 = bytes[at + 2] as u32;
    let b3: u32 = bytes[at + 3] as u32;
    b0 + 0x100 * b1 + 0x1_0000 * b2 + 0x100_0000 * b3
}

/// How many bytes a read at `offset` into a buffer of `capacity` bytes
/// gets out of `total` bytes: none from the end on, else as many as are
/// left, up to the capacity.
pub open spec fn read_len(total: nat, offset: nat, capacity: nat) -> nat {
    if offset >= total {
        0
    } else if capacity <= total - offset {
        capacity
    } else {
        (total - offset) as nat
    }
}

/// What a buffer that held `into` holds after a read of `data` at
/// `offset`: the bytes read, then the bytes of `into` that they did not
/// reach.
pub open spec fn read_result(data: Seq<u8>, offset: nat, into: Seq<u8>) -> Seq<u8> {
    let n = read_len(data.len(), offset, into.len());
    if n == 0 {
        into
    } else {
        data.subrange(offset as int, (offset + n) as int) + into.skip(n as int)
    }
}

/// A read that fills the buffer from the front part of the data reads
/// the same from the whole.
pub proof fn lemma_read_prefix(part: Seq<u8>, whole: Seq<u8>, offset: nat, into: Seq<u8>)
    requires
        part.is_prefix_of(whole),
        read_len(part.len(), offset, into.len()) == into.len(),
    ensures
        read_len(whole.len(), offset, into.len()) == into.len(),
        read_result(whole, offset, into) == read_result(part, offset, into),
{
    let n = into.len();
    if n > 0 {
        assert(whole.subrange(offset as int, (offset + n) as int) =~= part.subrange(
            offset as int,
            (offset + n) as int,
        ));
    }
}

/// A read never gets more than the buffer holds nor more than is left, and
/// nothing from the end of the data on.
pub proof fn lemma_read_len(total: nat, offset: nat, capacity: nat)
    ensures
        read_len(total, offset, capacity) <= capacity,
        offset + read_len(total, offset, capacity) <= total || read_len(total, offset, capacity)
            == 0,
        offset >= total ==> read_len(total, offset, capacity) == 0,
{
}

/// Reading on by one more piece: the bytes of `piece` from `skip` on go
/// behind the `filled` bytes read so far.
pub proof fn lemma_read_step(
    part: Seq<u8>,
    piece: Seq<u8>,
    offset: nat,
    into: Seq<u8>,
    buf: Seq<u8>,
    skip: nat,
    filled: nat,
    count: nat,
)
    requires
        filled == read_len(part.len(), offset, into.len()),
        filled < into.len(),
        skip == (if offset > part.len() {
            offset - part.len()
        } else {
            0
        }),
        skip < piece.len(),
        buf == read_result(part, offset, into),
        count == (if into.len() - filled <= piece.len() - skip {
            into.len() - filled
        } else {
            piece.len() - skip
        }),
    ensures
        filled + count == read_len((part + piece).len(), offset, into.len()),
        buf.take(filled as int) + piece.subrange(skip as int, (skip + count) as int) + buf.skip(
            (filled + count) as int,
        ) == read_result(part + piece, offset, into),
{
    let whole = part + piece;
    let after = buf.take(filled as int) + piece.subrange(skip as int, (skip + count) as int)
        + buf.skip((filled + count) as int);
    assert(after =~= read_result(whole, offset, into));
}

/// Copies bytes of `src`, from index `from` on, into `dst` from index
/// `at` on: as many as both have left. Returns how many were copied.
pub fn copy_into(dst: &mut [u8], at: usize, src: &[u8], from: usize) -> (count: usize)
    requires
        at <= old(dst)@.len(),
        from <= src@.len(),
    ensures
        count == (if old(dst)@.len() - at <= src@.len() - from {
            old(dst)@.len() - at
        } else {
            src@.len() - from
        }),
        final(dst)@ == old(dst)@.take(at as int) + src@.subrange(from as int, from + count) + old(
            dst,
        )@.skip(at + count),
{
    let dst_len: usize = dst.len();
    let src_len: usize = src.len();
    let room: usize = dst_len - at;
    let left: usize = src_len - from;
    let count: usize = if room <= left {
        room
    } else {
        left
    };
    let mut i: usize = 0;
    while i < count
        invariant
            i <= count,
            at + count <= dst@.len() == dst_len,
            from + count <= src@.len() == src_len,
            dst@.len() == old(dst)@.len(),
            forall|j: int| 0 <= j < at ==> dst@[j] == old(dst)@[j],
            forall|j: int| at <= j < at + i ==> dst@[j] == src@[from + j - at],
            forall|j: int| at + i <= j < dst@.len() ==> dst@[j] == old(dst)@[j],
        decreases count - i,
    {
        dst[at + i] = src[from + i];
        i += 1;
    }
    assert(dst@ =~= old(dst)@.take(at as int) + src@.subrange(from as int, from + count) + old(
        dst,
    )@.skip(at + count));
    count
}

} // verus!
