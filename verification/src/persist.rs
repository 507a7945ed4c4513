//! The stored form of an allocator: where its parts lie at the end of the
//! managed memory, and their bytes.
//!
//! ```text
//! [ frames ... | bitfields | chunk entries | ... | header (1 frame) ]
//! ```
use vstd::prelude::*;
use vstd::bytes::{
    lemma_auto_spec_u16_to_from_le_bytes,
    lemma_auto_spec_u64_to_from_le_bytes,
    spec_u16_from_le_bytes,
    spec_u16_to_le_bytes,
    spec_u64_from_le_bytes,
    spec_u64_to_le_bytes,
    u16_from_le_bytes,
    u16_to_le_bytes,
    u64_from_le_bytes,
    u64_to_le_bytes,
};
use vstd::slice::slice_subrange;
use crate::array::Meta;
use crate::lower::CHUNK;
use crate::util::{div_ceil, spec_div_ceil};

verus! {

/// Number of bytes of a stored header.
pub const META_SIZE: usize = 17;

/// Number of bytes that the bitfields of `frames` frames take.
pub fn bitfields_size(frames: usize) -> (r: usize)
    requires
        spec_div_ceil(frames as int, CHUNK as int) * 64 <= usize::MAX,
    ensures
        r == spec_div_ceil(frames as int, CHUNK as int) * 64,
{
    div_ceil(frames, CHUNK) * 64
}

/// Number of bytes that the chunk entries of `frames` frames take. They follow
/// the bitfields, which end at a multiple of 64 bytes.
pub fn entries_size(frames: usize) -> (r: usize)
    requires
        spec_div_ceil(frames as int, CHUNK as int) * 2 <= usize::MAX,
    ensures
        r == spec_div_ceil(frames as int, CHUNK as int) * 2,
{
    div_ceil(frames, CHUNK) * 2
}

/// The bytes of a header: the magic number and the number of frames, lowest
/// byte first, and the flag.
pub open spec fn spec_meta_bytes(meta: Meta) -> Seq<u8> {
    spec_u64_to_le_bytes(meta.magic) + spec_u64_to_le_bytes(meta.frames) + seq![
        if meta.crashed {
            1u8
        } else {
            0u8
        },
    ]
}

/// The header that `bytes` begins with, if there is one.
pub open spec fn spec_meta_from(bytes: Seq<u8>) -> Option<Meta> {
    if bytes.len() >= META_SIZE && bytes[16] <= 1 {
        Some(
            Meta {
                magic: spec_u64_from_le_bytes(bytes.subrange(0, 8)),
                frames: spec_u64_from_le_bytes(bytes.subrange(8, 16)),
                crashed: bytes[16] == 1,
            },
        )
    } else {
        None
    }
}

/// A header that was stored is read back as it was.
pub proof fn lemma_meta_round_trip(meta: Meta)
    ensures
        spec_meta_bytes(meta).len() == META_SIZE,
        spec_meta_from(spec_meta_bytes(meta)) == Some(meta),
{
    lemma_auto_spec_u64_to_from_le_bytes();
    let bytes = spec_meta_bytes(meta);
    assert(spec_u64_to_le_bytes(meta.magic).len() == 8);
    assert(spec_u64_to_le_bytes(meta.frames).len() == 8);
    assert(bytes.subrange(0, 8) =~= spec_u64_to_le_bytes(meta.magic));
    assert(bytes.subrange(8, 16) =~= spec_u64_to_le_bytes(meta.frames));
}

/// The bytes of a header.
pub fn meta_to_bytes(meta: Meta) -> (r: Vec<u8>)
    ensures
        r@ == spec_meta_bytes(meta),
        r@.len() == META_SIZE,
{
    proof {
        lemma_meta_round_trip(meta);
    }
    let mut out = u64_to_le_bytes(meta.magic);
    let mut frames = u64_to_le_bytes(meta.frames);
    out.append(&mut frames);
    out.push(if meta.crashed {
        1
    } else {
        0
    });
    assert(out@ =~= spec_meta_bytes(meta));
    out
}

/// The header that `bytes` begins with, if there is one: 17 bytes, of which the
/// last is 0 or 1.
pub fn meta_from_bytes(bytes: &Vec<u8>) -> (r: Option<Meta>)
    ensures
        r == spec_meta_from(bytes@),
{
    if bytes.len() < META_SIZE || bytes[16] > 1 {
        return None;
    }
    let magic = u64_from_le_bytes(slice_subrange(bytes.as_slice(), 0, 8));
    let frames = u64_from_le_bytes(slice_subrange(bytes.as_slice(), 8, 16));
    Some(Meta { magic, frames, crashed: bytes[16] == 1 })
}

/// The bytes of bitfield words, lowest byte of the first word first.
pub fn words_to_bytes(words: &Vec<u64>) -> (r: Vec<u8>)
    requires
        words@.len() * 8 <= usize::MAX,
    ensures
        r@.len() == 8 * words@.len(),
        forall|i: int|
            0 <= i < words@.len() ==> r@.subrange(8 * i, 8 * i + 8) == spec_u64_to_le_bytes(
                #[trigger] words@[i],
            ),
{
    proof {
        lemma_auto_spec_u64_to_from_le_bytes();
    }
    let mut out: Vec<u8> = Vec::new();
    let mut i: usize = 0;
    while i < words.len()
        invariant
            i <= words@.len(),
            out@.len() == 8 * i,
            forall|k: int|
                0 <= k < i ==> out@.subrange(8 * k, 8 * k + 8) == spec_u64_to_le_bytes(
                    #[trigger] words@[k],
                ),
        decreases words@.len() - i,
    {
        let ghost before = out@;
        let mut next = u64_to_le_bytes(words[i]);
        out.append(&mut next);
        proof {
            assert(out@.subrange(8 * i, 8 * i + 8) =~= spec_u64_to_le_bytes(words@[i as int]));
            assert forall|k: int| 0 <= k < i implies out@.subrange(8 * k, 8 * k + 8)
                == spec_u64_to_le_bytes(#[trigger] words@[k]) by {
                assert(out@.subrange(8 * k, 8 * k + 8) =~= before.subrange(8 * k, 8 * k + 8));
            }
        }
        i = i + 1;
    }
    out
}

/// The bitfield words that `bytes` hold, if they hold whole words.
pub fn bytes_to_words(bytes: &Vec<u8>) -> (r: Option<Vec<u64>>)
    ensures
        r is Some <==> bytes@.len() % 8 == 0,
        r matches Some(words) ==> words@.len() * 8 == bytes@.len() && forall|i: int|
            0 <= i < words@.len() ==> #[trigger] words@[i] == spec_u64_from_le_bytes(
                bytes@.subrange(8 * i, 8 * i + 8),
            ),
{
    if bytes.len() % 8 != 0 {
        return None;
    }
    let count = bytes.len() / 8;
    let mut out: Vec<u64> = Vec::new();
    let mut i: usize = 0;
    while i < count
        invariant
            i <= count,
            count * 8 == bytes@.len(),
            bytes@.len() <= usize::MAX,
            out@.len() == i,
            forall|k: int|
                0 <= k < i ==> #[trigger] out@[k] == spec_u64_from_le_bytes(
                    bytes@.subrange(8 * k, 8 * k + 8),
                ),
        decreases count - i,
    {
        out.push(u64_from_le_bytes(slice_subrange(bytes.as_slice(), 8 * i, 8 * i + 8)));
        i = i + 1;
    }
    Some(out)
}

/// The bytes of the counters of chunk entries, lower byte first.
pub fn counts_to_bytes(counts: &Vec<u16>) -> (r: Vec<u8>)
    requires
        counts@.len() * 2 <= usize::MAX,
    ensures
        r@.len() == 2 * counts@.len(),
        forall|i: int|
            0 <= i < counts@.len() ==> r@.subrange(2 * i, 2 * i + 2) == spec_u16_to_le_bytes(
                #[trigger] counts@[i],
            ),
{
    proof {
        lemma_auto_spec_u16_to_from_le_bytes();
    }
    let mut out: Vec<u8> = Vec::new();
    let mut i: usize = 0;
    while i < counts.len()
        invariant
            i <= counts@.len(),
            out@.len() == 2 * i,
            forall|k: int|
                0 <= k < i ==> out@.subrange(2 * k, 2 * k + 2) == spec_u16_to_le_bytes(
                    #[trigger] counts@[k],
                ),
        decreases counts@.len() - i,
    {
        let ghost before = out@;
        let mut next = u16_to_le_bytes(counts[i]);
        out.append(&mut next);
        proof {
            assert(out@.subrange(2 * i, 2 * i + 2) =~= spec_u16_to_le_bytes(counts@[i as int]));
            assert forall|k: int| 0 <= k < i implies out@.subrange(2 * k, 2 * k + 2)
                == spec_u16_to_le_bytes(#[trigger] counts@[k]) by {
                assert(out@.subrange(2 * k, 2 * k + 2) =~= before.subrange(2 * k, 2 * k + 2));
            }
        }
        i = i + 1;
    }
    out
}

/// The counters of chunk entries that `bytes` hold, if they hold whole counters.
pub fn bytes_to_counts(bytes: &Vec<u8>) -> (r: Option<Vec<u16>>)
    ensures
        r is Some <==> bytes@.len() % 2 == 0,
        r matches Some(counts) ==> counts@.len() * 2 == bytes@.len() && forall|i: int|
            0 <= i < counts@.len() ==> #[trigger] counts@[i] == spec_u16_from_le_bytes(
                bytes@.subrange(2 * i, 2 * i + 2),
            ),
{
    if bytes.len() % 2 != 0 {
        return None;
    }
    let count = bytes.len() / 2;
    let mut out: Vec<u16> = Vec::new();
    let mut i: usize = 0;
    while i < count
        invariant
            i <= count,
            count * 2 == bytes@.len(),
            bytes@.len() <= usize::MAX,
            out@.len() == i,
            forall|k: int|
                0 <= k < i ==> #[trigger] out@[k] == spec_u16_from_le_bytes(
                    bytes@.subrange(2 * k, 2 * k + 2),
                ),
        decreases count - i,
    {
        out.push(u16_from_le_bytes(slice_subrange(bytes.as_slice(), 2 * i, 2 * i + 2)));
        i = i + 1;
    }
    Some(out)
}

/// Words that were stored are read back as they were.
pub proof fn lemma_words_round_trip(words: Seq<u64>, bytes: Seq<u8>, back: Seq<u64>)
    requires
        bytes.len() == 8 * words.len(),
        forall|i: int|
            0 <= i < words.len() ==> bytes.subrange(8 * i, 8 * i + 8) == spec_u64_to_le_bytes(
                #[trigger] words[i],
            ),
        back.len() * 8 == bytes.len(),
        forall|i: int|
            0 <= i < back.len() ==> #[trigger] back[i] == spec_u64_from_le_bytes(
                bytes.subrange(8 * i, 8 * i + 8),
            ),
    ensures
        back == words,
{
    lemma_auto_spec_u64_to_from_le_bytes();
    assert forall|i: int| 0 <= i < words.len() implies back[i] == words[i] by {
        assert(bytes.subrange(8 * i, 8 * i + 8) == spec_u64_to_le_bytes(words[i]));
    }
    assert(back =~= words);
}

/// Counters that were stored are read back as they were.
pub proof fn lemma_counts_round_trip(counts: Seq<u16>, bytes: Seq<u8>, back: Seq<u16>)
    requires
        bytes.len() == 2 * counts.len(),
        forall|i: int|
            0 <= i < counts.len() ==> bytes.subrange(2 * i, 2 * i + 2) == spec_u16_to_le_bytes(
                #[trigger] counts[i],
            ),
        back.len() * 2 == bytes.len(),
        forall|i: int|
            0 <= i < back.len() ==> #[trigger] back[i] == spec_u16_from_le_bytes(
                bytes.subrange(2 * i, 2 * i + 2),
            ),
    ensures
        back == counts,
{
    lemma_auto_spec_u16_to_from_le_bytes();
    assert forall|i: int| 0 <= i < counts.len() implies back[i] == counts[i] by {
        assert(bytes.subrange(2 * i, 2 * i + 2) == spec_u16_to_le_bytes(counts[i]));
    }
    assert(back =~= counts);
}

} // verus!
