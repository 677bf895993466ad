//! The Buffo byte layout, stated mathematically.
//!
//! A container holds an element count, a fixed-size index table and a
//! contiguous data blob:
//!
//! ```text
//! [count: u32] [count x (offset: u32, length: u32)] [data blob]
//! ```
//!
//! All integers are little-endian. Each index entry locates one string:
//! `offset` is measured from the start of the data blob, and `length` is the
//! string's UTF-8 byte length plus one for the NUL terminator that follows
//! it. The blob is the concatenation of all NUL-terminated strings in input
//! order, with no padding or gaps.

use vstd::bytes::*;
use vstd::prelude::*;
use vstd::utf8::*;

verus! {

/// The bytes one string contributes to the data blob: its UTF-8 encoding
/// followed by a NUL terminator.
pub open spec fn entry_bytes(s: Seq<char>) -> Seq<u8> {
    encode_utf8(s) + seq![0u8]
}

/// The stored length of one entry: the string's UTF-8 byte length plus one
/// for the NUL terminator.
pub open spec fn entry_len(s: Seq<char>) -> int {
    encode_utf8(s).len() + 1int
}

/// The first `n` entries of the data blob, back to back.
pub open spec fn blob_bytes(strs: Seq<Seq<char>>, n: int) -> Seq<u8>
    decreases n,
{
    if n <= 0 {
        Seq::empty()
    } else {
        blob_bytes(strs, n - 1) + entry_bytes(strs[n - 1])
    }
}

/// The offset of entry `i` inside the data blob: the total size of the
/// entries before it.
pub open spec fn offset_of(strs: Seq<Seq<char>>, i: int) -> int {
    blob_bytes(strs, i).len() as int
}

/// The first `n` index entries, serialized in order.
pub open spec fn index_bytes(strs: Seq<Seq<char>>, n: int) -> Seq<u8>
    decreases n,
{
    if n <= 0 {
        Seq::empty()
    } else {
        index_bytes(strs, n - 1) + spec_u32_to_le_bytes(offset_of(strs, n - 1) as u32)
            + spec_u32_to_le_bytes(entry_len(strs[n - 1]) as u32)
    }
}

/// The complete container encoding `strs`: count, index table, data blob.
pub open spec fn buffo_bytes(strs: Seq<Seq<char>>) -> Seq<u8> {
    spec_u32_to_le_bytes(strs.len() as u32) + index_bytes(strs, strs.len() as int) + blob_bytes(
        strs,
        strs.len() as int,
    )
}

/// The format's capacity limits: the element count, every stored length and
/// every offset must fit in a `u32`.
pub open spec fn fits(strs: Seq<Seq<char>>) -> bool {
    &&& strs.len() <= u32::MAX
    &&& (forall|i: int| 0 <= i < strs.len() ==> entry_len(#[trigger] strs[i]) <= u32::MAX)
    &&& (forall|i: int| 0 <= i < strs.len() ==> offset_of(strs, i) <= u32::MAX)
}

/// The element count recorded at the head of buffer `b`.
pub open spec fn spec_count(b: Seq<u8>) -> int
    recommends
        b.len() >= 4,
{
    spec_u32_from_le_bytes(b.subrange(0, 4)) as int
}

/// What reading element `i` of buffer `b` yields. The read succeeds when the
/// buffer is long enough for its recorded count and index table, entry `i`
/// exists, the entry's data slice lies inside the buffer and that slice is
/// valid UTF-8; any other buffer yields nothing, never a wrong answer.
pub open spec fn spec_nth(b: Seq<u8>, i: int) -> Option<Seq<char>> {
    if b.len() < 4 {
        None
    } else {
        let n = spec_count(b);
        if !(0 <= i < n) {
            None
        } else if b.len() < 4 + 8 * n {
            None
        } else {
            let entry = 4 + 8 * i;
            let off = spec_u32_from_le_bytes(b.subrange(entry, entry + 4)) as int;
            let len = spec_u32_from_le_bytes(b.subrange(entry + 4, entry + 8)) as int;
            let start = 4 + 8 * n + off;
            if len < 1 {
                None
            } else if start + len - 1 > b.len() {
                None
            } else {
                let data = b.subrange(start, start + len - 1);
                if valid_utf8(data) {
                    Some(decode_utf8(data))
                } else {
                    None
                }
            }
        }
    }
}

/// Entry `i + 1` begins where entry `i` ends: back to back, no padding.
pub proof fn lemma_offset_step(strs: Seq<Seq<char>>, i: int)
    requires
        i >= 0,
    ensures
        offset_of(strs, i + 1) == offset_of(strs, i) + entry_len(strs[i]),
{
    assert(blob_bytes(strs, i + 1) == blob_bytes(strs, i) + entry_bytes(strs[i]));
}

/// Offsets grow with the entry position: each entry begins at or after the
/// start of every earlier one.
pub proof fn lemma_offset_monotonic(strs: Seq<Seq<char>>, i: int, j: int)
    requires
        0 <= i <= j,
    ensures
        offset_of(strs, i) <= offset_of(strs, j),
    decreases j - i,
{
    if i < j {
        lemma_offset_monotonic(strs, i, j - 1);
        assert(blob_bytes(strs, j) == blob_bytes(strs, j - 1) + entry_bytes(strs[j - 1]));
    }
}

/// The serialized index table of `n` entries takes exactly `8 * n` bytes.
pub proof fn lemma_index_bytes_len(strs: Seq<Seq<char>>, n: int)
    requires
        n >= 0,
    ensures
        index_bytes(strs, n).len() == 8 * n,
    decreases n,
{
    lemma_auto_spec_u32_to_from_le_bytes();
    if n > 0 {
        lemma_index_bytes_len(strs, n - 1);
    }
}

/// Inside the serialized index table, entry `i` stands at byte `8 * i` and
/// holds its offset and its stored length, little-endian.
proof fn lemma_index_entry(strs: Seq<Seq<char>>, n: int, i: int)
    requires
        0 <= i < n,
    ensures
        index_bytes(strs, n).subrange(8 * i, 8 * i + 4) == spec_u32_to_le_bytes(
            offset_of(strs, i) as u32,
        ),
        index_bytes(strs, n).subrange(8 * i + 4, 8 * i + 8) == spec_u32_to_le_bytes(
            entry_len(strs[i]) as u32,
        ),
    decreases n,
{
    lemma_auto_spec_u32_to_from_le_bytes();
    lemma_index_bytes_len(strs, n - 1);
    if i == n - 1 {
        assert(index_bytes(strs, n).subrange(8 * i, 8 * i + 4) =~= spec_u32_to_le_bytes(
            offset_of(strs, i) as u32,
        ));
        assert(index_bytes(strs, n).subrange(8 * i + 4, 8 * i + 8) =~= spec_u32_to_le_bytes(
            entry_len(strs[i]) as u32,
        ));
    } else {
        lemma_index_entry(strs, n - 1, i);
        assert(index_bytes(strs, n).subrange(8 * i, 8 * i + 4) =~= index_bytes(
            strs,
            n - 1,
        ).subrange(8 * i, 8 * i + 4));
        assert(index_bytes(strs, n).subrange(8 * i + 4, 8 * i + 8) =~= index_bytes(
            strs,
            n - 1,
        ).subrange(8 * i + 4, 8 * i + 8));
    }
}

/// Inside a data blob of `n` entries, entry `i`'s bytes lie within the blob
/// and are exactly the string's NUL-terminated UTF-8 encoding.
proof fn lemma_blob_entry(strs: Seq<Seq<char>>, n: int, i: int)
    requires
        0 <= i < n,
    ensures
        offset_of(strs, i) + entry_len(strs[i]) <= blob_bytes(strs, n).len(),
        blob_bytes(strs, n).subrange(
            offset_of(strs, i),
            offset_of(strs, i) + entry_len(strs[i]),
        ) == entry_bytes(strs[i]),
    decreases n,
{
    if i == n - 1 {
        assert(blob_bytes(strs, n).subrange(
            offset_of(strs, i),
            offset_of(strs, i) + entry_len(strs[i]),
        ) =~= entry_bytes(strs[i]));
    } else {
        lemma_blob_entry(strs, n - 1, i);
        assert(blob_bytes(strs, n).subrange(
            offset_of(strs, i),
            offset_of(strs, i) + entry_len(strs[i]),
        ) =~= blob_bytes(strs, n - 1).subrange(
            offset_of(strs, i),
            offset_of(strs, i) + entry_len(strs[i]),
        ));
    }
}

/// The shape of a well-formed container: its total size, and the element
/// count read back from its head.
pub proof fn lemma_buffo_shape(strs: Seq<Seq<char>>)
    requires
        fits(strs),
    ensures
        buffo_bytes(strs).len() == 4 + 8 * strs.len() + offset_of(strs, strs.len() as int),
        spec_count(buffo_bytes(strs)) == strs.len(),
{
    let b = buffo_bytes(strs);
    let n = strs.len() as int;
    lemma_auto_spec_u32_to_from_le_bytes();
    lemma_index_bytes_len(strs, n);
    assert(b.subrange(0, 4) =~= spec_u32_to_le_bytes(strs.len() as u32));
}

/// Round trip and random access: reading element `i` of a container that
/// encodes `strs` yields exactly `strs[i]` when `0 <= i < strs.len()`, and
/// nothing when `i` is out of range.
pub proof fn lemma_nth_round_trip(strs: Seq<Seq<char>>, i: int)
    requires
        fits(strs),
    ensures
        spec_nth(buffo_bytes(strs), i) == if 0 <= i < strs.len() {
            Some(strs[i])
        } else {
            None::<Seq<char>>
        },
{
    broadcast use encode_utf8_valid_utf8, encode_utf8_decode_utf8;

    let b = buffo_bytes(strs);
    let n = strs.len() as int;
    lemma_auto_spec_u32_to_from_le_bytes();
    lemma_index_bytes_len(strs, n);
    lemma_buffo_shape(strs);
    if 0 <= i < n {
        lemma_index_entry(strs, n, i);
        lemma_blob_entry(strs, n, i);
        let entry = 4 + 8 * i;
        assert(b.subrange(entry, entry + 4) =~= index_bytes(strs, n).subrange(8 * i, 8 * i + 4));
        assert(b.subrange(entry + 4, entry + 8) =~= index_bytes(strs, n).subrange(
            8 * i + 4,
            8 * i + 8,
        ));
        let off = offset_of(strs, i);
        let len = entry_len(strs[i]);
        assert(spec_u32_from_le_bytes(b.subrange(entry, entry + 4)) == off as u32);
        assert(spec_u32_from_le_bytes(b.subrange(entry + 4, entry + 8)) == len as u32);
        let start = 4 + 8 * n + off;
        assert(b.subrange(start, start + len - 1) =~= blob_bytes(strs, n).subrange(
            off,
            off + len,
        ).subrange(0, len - 1));
        assert(entry_bytes(strs[i]).subrange(0, len - 1) =~= encode_utf8(strs[i]));
        assert(b.subrange(start, start + len - 1) == encode_utf8(strs[i]));
    }
}

/// Round trip: a container encoding `strs` decodes, as a whole, back to
/// `strs` — its head holds `strs.len()`, and walking the index table reads
/// every element back unchanged, in input order.
pub proof fn lemma_round_trip(strs: Seq<Seq<char>>)
    requires
        fits(strs),
    ensures
        spec_count(buffo_bytes(strs)) == strs.len(),
        forall|i: int|
            0 <= i < strs.len() ==> spec_nth(buffo_bytes(strs), i) == Some(#[trigger] strs[i]),
{
    lemma_buffo_shape(strs);
    assert forall|i: int| 0 <= i < strs.len() implies spec_nth(buffo_bytes(strs), i) == Some(
        strs[i],
    ) by {
        lemma_nth_round_trip(strs, i);
    }
}

/// Idempotence: what a read of element `i` of buffer `b` may yield is one
/// value, fixed by the bytes and the index alone, so repeated reads — or
/// concurrent readers of the same immutable buffer — always agree.
pub proof fn lemma_nth_deterministic(
    b: Seq<u8>,
    i: int,
    r1: Option<Seq<char>>,
    r2: Option<Seq<char>>,
)
    requires
        r1 == spec_nth(b, i),
        r2 == spec_nth(b, i),
    ensures
        r1 == r2,
{
}

/// NUL/length consistency: inside a container encoding `strs`, entry `i`'s
/// stored length is the string's UTF-8 byte length plus one, the string's
/// bytes stand at the entry's offset inside the data blob, and the byte just
/// past them is NUL.
pub proof fn lemma_nul_length_consistency(strs: Seq<Seq<char>>, i: int)
    requires
        fits(strs),
        0 <= i < strs.len(),
    ensures
        entry_len(strs[i]) == encode_utf8(strs[i]).len() + 1,
        ({
            let b = buffo_bytes(strs);
            let start = 4 + 8 * strs.len() + offset_of(strs, i);
            let str_len = encode_utf8(strs[i]).len() as int;
            &&& start + str_len < b.len()
            &&& b.subrange(start, start + str_len) == encode_utf8(strs[i])
            &&& b[start + str_len] == 0u8
        }),
{
    let b = buffo_bytes(strs);
    let n = strs.len() as int;
    let off = offset_of(strs, i);
    let len = entry_len(strs[i]);
    let start = 4 + 8 * n + off;
    lemma_auto_spec_u32_to_from_le_bytes();
    lemma_index_bytes_len(strs, n);
    lemma_blob_entry(strs, n, i);
    assert(b.subrange(start, start + len) =~= blob_bytes(strs, n).subrange(off, off + len));
    assert(b.subrange(start, start + len - 1) =~= b.subrange(start, start + len).subrange(
        0,
        len - 1,
    ));
    assert(entry_bytes(strs[i]).subrange(0, len - 1) =~= encode_utf8(strs[i]));
    assert(b.subrange(start, start + len - 1) == encode_utf8(strs[i]));
    assert(b[start + len - 1] == entry_bytes(strs[i])[len - 1]);
}

} // verus!
