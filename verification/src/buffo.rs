//! The Buffo container: encoding a sequence of strings into the binary
//! layout, and reading elements back out of the raw bytes.

use crate::layout::{
    blob_bytes, buffo_bytes, entry_bytes, entry_len, fits, index_bytes, lemma_buffo_shape,
    lemma_nth_round_trip, lemma_offset_monotonic, lemma_offset_step, offset_of, spec_count,
    spec_nth,
};
use vstd::bytes::*;
use vstd::prelude::*;
use vstd::slice::*;
use vstd::utf8::*;

verus! {

/// A complete encoded string array: one immutable byte buffer in the Buffo
/// layout. Built once by [`Buffo::str_array`] and read-only afterwards.
#[derive(Debug)]
pub struct Buffo(Vec<u8>);

impl View for Buffo {
    type V = Seq<u8>;

    closed spec fn view(&self) -> Seq<u8> {
        self.0@
    }
}

impl Buffo {
    /// Every container is assembled by the encoder, so its bytes always
    /// encode some in-capacity string sequence.
    #[verifier::type_invariant]
    spec fn wf(self) -> bool {
        exists|strs: Seq<Seq<char>>| fits(strs) && self.0@ == #[trigger] buffo_bytes(strs)
    }

    /// The container's raw bytes.
    pub fn as_bytes(&self) -> (bytes: &[u8])
        ensures
            bytes@ == self@,
    {
        self.0.as_slice()
    }

    /// Encodes the strings into a fresh container, in one pass and in input
    /// order. The input must respect the format's capacity limits: the
    /// element count, every string's stored length (UTF-8 bytes plus one)
    /// and every entry's offset must fit in a `u32`.
    pub fn str_array(strs: &Vec<&str>) -> (buffo: Buffo)
        requires
            fits(strs.deep_view()),
        ensures
            buffo@ == buffo_bytes(strs.deep_view()),
    {
        let ghost views = strs.deep_view();
        let n = strs.len();
        let mut index: Vec<IndexItem> = Vec::new();
        let mut data: Vec<u8> = Vec::new();
        let mut k: usize = 0;
        while k < n
            invariant
                n == strs@.len(),
                views == strs.deep_view(),
                fits(views),
                k <= n,
                data@ == blob_bytes(views, k as int),
                index@.len() == k,
                forall|j: int|
                    0 <= j < k ==> (#[trigger] index@[j]).idx == offset_of(views, j)
                        && index@[j].len == entry_len(views[j]),
            decreases n - k,
        {
            let s: &str = strs[k];
            let bytes: &[u8] = s.as_bytes();
            assert(views[k as int] == s@);
            assert(data@.len() == offset_of(views, k as int) <= u32::MAX);
            let idx = data.len() as u32;
            let mut chunk = slice_to_vec(bytes);
            data.append(&mut chunk);
            data.push(0u8);
            assert(data@ =~= blob_bytes(views, k as int) + entry_bytes(views[k as int]));
            assert(bytes@.len() + 1 == entry_len(views[k as int]) <= u32::MAX);
            let len = (bytes.len() + 1) as u32;
            index.push(IndexItem { idx, len });
            k += 1;
        }
        proof {
            assert forall|j: int| 0 <= j < index@.len() implies (#[trigger] index@[j]).idx
                + index@[j].len <= data@.len() by {
                lemma_offset_step(views, j);
                lemma_offset_monotonic(views, j + 1, n as int);
            }
            lemma_index_items_match(index@, views, n as int);
        }
        let parts = BuffoParts { index, data };
        let mut output: Vec<u8> = Vec::new();
        write_buffo(parts, &mut output);
        assert(output@ == buffo_bytes(views));
        Buffo(output)
    }

    /// The element count recorded at the container's head. O(1).
    pub fn count(&self) -> (n: u32)
        ensures
            n as int == spec_count(self@),
            self@.len() >= 4,
    {
        proof {
            use_type_invariant(self);
            let strs = choose|strs: Seq<Seq<char>>| fits(strs) && self.0@ == buffo_bytes(strs);
            lemma_buffo_shape(strs);
        }
        u32_from_le_bytes(slice_subrange(self.0.as_slice(), 0, 4))
    }

    /// Returns the `i`-th string (0-indexed, input order), or nothing when
    /// `i` is out of range or the entry does not resolve to a valid UTF-8
    /// slice of the data blob. O(1): reads the one index entry at byte
    /// `4 + i * 8` and slices the blob, with every bound checked before use.
    pub fn nth_str(&self, i: u32) -> (r: Option<&str>)
        ensures
            r matches Some(s) ==> spec_nth(self@, i as int) == Some(s@),
            r is None ==> spec_nth(self@, i as int) is None,
    {
        broadcast use vstd::utf8::encode_utf8_decode_utf8;

        let buf: &[u8] = self.as_bytes();
        if buf.len() < 4 {
            return None;
        }
        let index_count = u32_from_le_bytes(slice_subrange(buf, 0, 4));
        assert(index_count as int == spec_count(self@));
        if i >= index_count {
            return None;
        }
        let count_us = index_count as usize;
        let avail = (buf.len() - 4) / 8;
        proof {
            vstd::arithmetic::div_mod::lemma_fundamental_div_mod(buf@.len() - 4, 8);
            vstd::arithmetic::div_mod::lemma_mod_division_less_than_divisor(buf@.len() - 4, 8);
        }
        if count_us > avail {
            assert(buf@.len() < 4 + 8 * spec_count(self@));
            return None;
        }
        assert(4 + 8 * (count_us as int) <= buf@.len());
        let item_pos = 4 + (i as usize) * 8;
        let item = IndexItem::buffo_read(buf, item_pos);
        if item.len == 0 {
            return None;
        }
        let blob_start = 4 + count_us * 8;
        let datum_idx = item.idx as usize;
        let ghost start = 4 + 8 * spec_count(self@) + item.idx;
        if datum_idx > buf.len() - blob_start {
            assert(start + item.len - 1 > self@.len());
            return None;
        }
        let datum_start = blob_start + datum_idx;
        let str_len = (item.len - 1) as usize;
        if str_len > buf.len() - datum_start {
            assert(start + item.len - 1 > self@.len());
            return None;
        }
        let datum = slice_subrange(buf, datum_start, datum_start + str_len);
        assert(datum@ == self@.subrange(start as int, start + item.len - 1));
        bytes_to_str(datum)
    }

    /// Returns every string of the container, in input order: one pass over
    /// the index table, each element sliced out of the shared data blob.
    /// Element by element the result agrees with [`Buffo::nth_str`].
    pub fn iter_strs(&self) -> (items: Vec<&str>)
        ensures
            items@.len() == spec_count(self@),
            forall|j: int|
                0 <= j < items@.len() ==> spec_nth(self@, j) == Some((#[trigger] items@[j])@),
    {
        proof {
            use_type_invariant(self);
        }
        let ghost strs = choose|strs: Seq<Seq<char>>| fits(strs) && self.0@ == buffo_bytes(strs);
        let n = self.count();
        let mut items: Vec<&str> = Vec::new();
        let mut j: u32 = 0;
        while j < n
            invariant
                fits(strs),
                self@ == buffo_bytes(strs),
                n as int == spec_count(self@),
                j <= n,
                items@.len() == j,
                forall|t: int|
                    0 <= t < j ==> spec_nth(self@, t) == Some((#[trigger] items@[t])@),
            decreases n - j,
        {
            proof {
                lemma_buffo_shape(strs);
                lemma_nth_round_trip(strs, j as int);
            }
            let s = self.nth_str(j).unwrap();
            items.push(s);
            j += 1;
        }
        items
    }
}

/// One index entry: the offset of a string inside the data blob and its
/// stored length, which includes the NUL terminator.
#[derive(Clone, Copy)]
struct IndexItem {
    idx: u32,
    len: u32,
}

/// The pieces of a container before final assembly: the index entries and
/// the data blob.
struct BuffoParts {
    index: Vec<IndexItem>,
    data: Vec<u8>,
}

impl IndexItem {
    /// This entry's serialized form: offset, then length, little-endian.
    spec fn bytes(self) -> Seq<u8> {
        spec_u32_to_le_bytes(self.idx) + spec_u32_to_le_bytes(self.len)
    }

    /// Appends this entry's serialized form to `out`.
    fn buffo_write(&self, out: &mut Vec<u8>)
        ensures
            final(out)@ == old(out)@ + self.bytes(),
    {
        let mut le = u32_to_le_bytes(self.idx);
        out.append(&mut le);
        let mut le = u32_to_le_bytes(self.len);
        out.append(&mut le);
    }

    /// Reads one serialized entry out of `buf` at byte position `pos`.
    fn buffo_read(buf: &[u8], pos: usize) -> (item: IndexItem)
        requires
            pos + 8 <= buf@.len() <= usize::MAX,
        ensures
            item.idx == spec_u32_from_le_bytes(buf@.subrange(pos as int, pos + 4)),
            item.len == spec_u32_from_le_bytes(buf@.subrange(pos + 4, pos + 8)),
    {
        let idx = u32_from_le_bytes(slice_subrange(buf, pos, pos + 4));
        let len = u32_from_le_bytes(slice_subrange(buf, pos + 4, pos + 8));
        IndexItem { idx, len }
    }
}

/// The first `n` index entries of `items`, serialized in order.
spec fn index_items_bytes(items: Seq<IndexItem>, n: int) -> Seq<u8>
    decreases n,
{
    if n <= 0 {
        Seq::empty()
    } else {
        index_items_bytes(items, n - 1) + items[n - 1].bytes()
    }
}

/// Index entries whose offsets and lengths agree with `strs` serialize to
/// the layout's index table for `strs`.
proof fn lemma_index_items_match(items: Seq<IndexItem>, strs: Seq<Seq<char>>, n: int)
    requires
        0 <= n <= items.len(),
        n <= strs.len(),
        forall|j: int|
            0 <= j < n ==> (#[trigger] items[j]).idx == offset_of(strs, j) && items[j].len
                == entry_len(strs[j]),
    ensures
        index_items_bytes(items, n) == index_bytes(strs, n),
    decreases n,
{
    if n > 0 {
        lemma_index_items_match(items, strs, n - 1);
        assert(items[n - 1].bytes() == spec_u32_to_le_bytes(offset_of(strs, n - 1) as u32)
            + spec_u32_to_le_bytes(entry_len(strs[n - 1]) as u32));
    }
}

/// Assembles the container: the element count, every index entry in order,
/// then the data blob. Every entry must already lie inside the blob; this is
/// the encoder's self-consistency invariant, proved rather than re-checked
/// at run time.
fn write_buffo(parts: BuffoParts, out: &mut Vec<u8>)
    requires
        old(out)@.len() == 0,
        parts.index@.len() <= u32::MAX,
        forall|j: int|
            0 <= j < parts.index@.len() ==> (#[trigger] parts.index@[j]).idx + parts.index@[j].len
                <= parts.data@.len(),
    ensures
        final(out)@ == spec_u32_to_le_bytes(parts.index@.len() as u32) + index_items_bytes(
            parts.index@,
            parts.index@.len() as int,
        ) + parts.data@,
{
    let BuffoParts { index, mut data } = parts;
    let index_count = index.len() as u32;
    let mut le = u32_to_le_bytes(index_count);
    out.append(&mut le);
    let mut j: usize = 0;
    while j < index.len()
        invariant
            index == parts.index,
            j <= index@.len(),
            out@ == spec_u32_to_le_bytes(index@.len() as u32) + index_items_bytes(
                index@,
                j as int,
            ),
        decreases index@.len() - j,
    {
        index[j].buffo_write(out);
        proof {
            vstd::seq_lib::lemma_concat_associative(
                spec_u32_to_le_bytes(index@.len() as u32),
                index_items_bytes(index@, j as int),
                index@[j as int].bytes(),
            );
        }
        j += 1;
    }
    out.append(&mut data);
    proof {
        vstd::seq_lib::lemma_concat_associative(
            spec_u32_to_le_bytes(index@.len() as u32),
            index_items_bytes(index@, index@.len() as int),
            parts.data@,
        );
    }
}

/// Relies on `std::str::from_utf8`: it succeeds exactly when the input is
/// valid UTF-8, and the returned string slice is backed by exactly the given
/// bytes.
#[verifier::external_body]
fn bytes_to_str(bytes: &[u8]) -> (r: Option<&str>)
    ensures
        r is Some <==> valid_utf8(bytes@),
        r matches Some(s) ==> encode_utf8(s@) == bytes@,
{
    std::str::from_utf8(bytes).ok()
}

} // verus!
