//! Compression of closed segments. Each block of a segment is compressed on its own, so that a
//! reader unpacks only the blocks it needs.

use crate::persist::push_bytes;
use crate::querylog::history::{
    all_hits, byte_sum, chained, contents_of, entry_sum, first_candidate, hits_from,
    lemma_block_fits, start_of, HistoryBlock, HistoryIndex, HistoryQuery, Segment,
};
use crate::querylog::DecodedEvent;
use flate2::read::{GzDecoder, MultiGzDecoder};
use flate2::write::GzEncoder;
use flate2::Compression;
use std::io::{Read, Write};
use vstd::prelude::*;
use vstd::slice::{slice_subrange, slice_to_vec};

verus! {

/// What `flate2`'s reader of one gzip member makes of bytes; `None` where they are faulty.
pub uninterp spec fn gz_unpacked(packed: Seq<u8>) -> Option<Seq<u8>>;

/// What `flate2`'s reader of consecutive gzip members makes of bytes; `None` where they are faulty.
pub uninterp spec fn gz_unpacked_all(packed: Seq<u8>) -> Option<Seq<u8>>;

/// The gzip member that `flate2`'s fast encoder makes of bytes; `None` where it reports an error.
pub uninterp spec fn gz_packed(plain: Seq<u8>) -> Option<Seq<u8>>;

/// `flate2::write::GzEncoder` with fast compression, over a vector: the gzip member that it makes
/// of the input, which unpacks to the input again. On which inputs it reports an error depends on
/// nothing but the input, and is not spelled out here.
#[verifier::external_body]
fn gz_pack(plain: &[u8]) -> (r: Option<Vec<u8>>)
    ensures
        match r {
            Some(packed) => gz_packed(plain@) == Some(packed@) && packed@.len() > 0 && gz_unpacked(
                packed@,
            ) == Some(plain@) && gz_unpacked_all(packed@) == Some(plain@),
            None => gz_packed(plain@) is None,
        },
{
    let mut encoder = GzEncoder::new(Vec::new(), Compression::fast());
    encoder.write_all(plain).ok()?;
    encoder.finish().ok()
}

/// `flate2::read::GzDecoder`, read to its end: the contents of the first member, and whether the
/// member is sound. How much comes out of a faulty one is left open.
#[verifier::external_body]
fn gz_unpack(packed: &[u8]) -> (r: (Vec<u8>, bool))
    ensures
        r.1 == (gz_unpacked(packed@) is Some),
        r.1 ==> gz_unpacked(packed@) == Some(r.0@),
{
    let mut plain = Vec::new();
    let sound = GzDecoder::new(packed).read_to_end(&mut plain).is_ok();
    (plain, sound)
}

/// `flate2::read::MultiGzDecoder`, read to its end: the contents of all members, and whether they
/// are sound. How much comes out of faulty ones is left open.
#[verifier::external_body]
fn gz_unpack_all(packed: &[u8]) -> (r: (Vec<u8>, bool))
    ensures
        r.1 == (gz_unpacked_all(packed@) is Some),
        r.1 ==> gz_unpacked_all(packed@) == Some(r.0@),
{
    let mut plain = Vec::new();
    let sound = MultiGzDecoder::new(packed).read_to_end(&mut plain).is_ok();
    (plain, sound)
}

/// The bytes of a block within a segment.
pub open spec fn block_bytes(data: Seq<u8>, b: HistoryBlock) -> Seq<u8> {
    data.subrange(b.offset as int, b.offset + b.len)
}

/// The contents of a block, unpacked where the segment is compressed; `None` where the block is
/// faulty.
pub open spec fn block_contents(data: Seq<u8>, index: HistoryIndex, i: int) -> Option<Seq<u8>> {
    if index.compressed_blocks {
        gz_unpacked(block_bytes(data, index.blocks@[i]))
    } else {
        Some(block_bytes(data, index.blocks@[i]))
    }
}

/// The blocks describe the same events.
pub open spec fn same_events(a: HistoryBlock, b: HistoryBlock) -> bool {
    &&& a.first_entry == b.first_entry
    &&& a.entries == b.entries
    &&& a.start_micros == b.start_micros
    &&& a.end_micros == b.end_micros
}

/// The contents of a block of a segment, and whether the block is sound. A faulty block gives what
/// could be read of it.
pub fn read_block(data: &[u8], index: &HistoryIndex, i: usize) -> (r: (Vec<u8>, bool))
    requires
        index.covers(data@.len() as u64),
        i < index.blocks@.len(),
    ensures
        r.1 == (block_contents(data@, *index, i as int) is Some),
        r.1 ==> block_contents(data@, *index, i as int) == Some(r.0@),
{
    proof {
        lemma_block_fits(index.blocks@, i as int);
    }
    assert(data.len() == data@.len());
    let b = index.blocks[i];
    let part = slice_subrange(data, b.offset as usize, (b.offset + b.len) as usize);
    if index.compressed_blocks {
        gz_unpack(part)
    } else {
        (slice_to_vec(part), true)
    }
}

/// All contents of a segment; `None` where they are faulty.
pub open spec fn whole_contents(data: Seq<u8>, compressed: bool) -> Option<Seq<u8>> {
    if compressed {
        gz_unpacked_all(data)
    } else {
        Some(data)
    }
}

/// All contents of a segment without a usable index, and whether they are sound. A faulty segment
/// gives what could be read of it.
pub fn read_whole(data: &[u8], compressed: bool) -> (r: (Vec<u8>, bool))
    ensures
        r.1 == (whole_contents(data@, compressed) is Some),
        r.1 ==> whole_contents(data@, compressed) == Some(r.0@),
{
    if compressed {
        gz_unpack_all(data)
    } else {
        (slice_to_vec(data), true)
    }
}

/// Compresses a segment without a usable index as a whole; `None` when the compression fails.
pub fn compress_whole(data: &[u8]) -> (r: Option<Vec<u8>>)
    ensures
        match r {
            Some(packed) => gz_packed(data@) == Some(packed@) && whole_contents(packed@, true)
                == Some(data@),
            None => gz_packed(data@) is None,
        },
{
    gz_pack(data)
}

/// Puts the members that the blocks of a segment were compressed to behind one another. The index
/// that comes with them describes each member as a block with the events of the block it stands
/// for.
pub fn join_members(index: &HistoryIndex, members: &Vec<Vec<u8>>) -> (r: (Vec<u8>, HistoryIndex))
    requires
        chained(index.blocks@),
        entry_sum(index.blocks@) == index.total_entries,
        members@.len() == index.blocks@.len(),
        forall|i: int| 0 <= i < members@.len() ==> (#[trigger] members@[i])@.len() > 0,
    ensures
        r.1.compressed_blocks,
        r.1.covers(r.0@.len() as u64),
        r.1.version == index.version,
        r.1.total_entries == index.total_entries,
        r.1.start_micros == index.start_micros,
        r.1.end_micros == index.end_micros,
        r.1.blocks@.len() == index.blocks@.len(),
        forall|i: int|
            0 <= i < index.blocks@.len() ==> same_events(
                #[trigger] r.1.blocks@[i],
                index.blocks@[i],
            ),
        forall|i: int|
            0 <= i < index.blocks@.len() ==> block_bytes(r.0@, #[trigger] r.1.blocks@[i])
                == members@[i]@,
{
    let ghost source = index.blocks@;
    let mut packed: Vec<u8> = Vec::new();
    let mut blocks: Vec<HistoryBlock> = Vec::new();
    let mut i: usize = 0;
    while i < members.len()
        invariant
            i <= source.len(),
            source == index.blocks@,
            chained(source),
            members@.len() == source.len(),
            forall|k: int| 0 <= k < members@.len() ==> (#[trigger] members@[k])@.len() > 0,
            blocks@.len() == i,
            chained(blocks@),
            byte_sum(blocks@) == packed@.len(),
            entry_sum(blocks@) == entry_sum(source.take(i as int)),
            forall|k: int| 0 <= k < i ==> same_events(#[trigger] blocks@[k], source[k]),
            forall|k: int|
                0 <= k < i ==> (#[trigger] blocks@[k]).offset + blocks@[k].len <= packed@.len()
                    && block_bytes(packed@, blocks@[k]) == members@[k]@,
        decreases source.len() - i,
    {
        proof {
            lemma_block_fits(source, i as int);
            assert(source.take(i + 1).drop_last() =~= source.take(i as int));
            assert(source.take(i + 1).last() == source[i as int]);
        }
        let ghost before = packed@;
        let ghost blocks0 = blocks@;
        let offset: u64 = packed.len() as u64;
        let nb = HistoryBlock { offset, len: members[i].len() as u64, ..index.blocks[i] };
        push_bytes(&mut packed, members[i].as_slice());
        blocks.push(nb);
        proof {
            assert(blocks@.drop_last() =~= blocks0);
            assert forall|k: int| 0 <= k < i + 1 implies (#[trigger] blocks@[k]).offset
                + blocks@[k].len <= packed@.len() && block_bytes(packed@, blocks@[k])
                == members@[k]@ by {
                if k < i {
                    assert(blocks@[k] == blocks0[k]);
                    assert(block_bytes(packed@, blocks@[k]) =~= block_bytes(before, blocks0[k]));
                } else {
                    assert(block_bytes(packed@, nb) =~= members@[i as int]@);
                }
            }
        }
        i += 1;
    }
    proof {
        assert(source.take(source.len() as int) =~= source);
    }
    let packed_index = HistoryIndex {
        version: index.version,
        compressed_blocks: true,
        total_entries: index.total_entries,
        start_micros: index.start_micros,
        end_micros: index.end_micros,
        blocks,
    };
    assert(packed.len() == packed@.len());
    (packed, packed_index)
}

/// The encoder takes every block of a segment.
pub open spec fn all_packed(data: Seq<u8>, index: HistoryIndex) -> bool {
    forall|i: int|
        0 <= i < index.blocks@.len() ==> gz_packed(
            block_bytes(data, #[trigger] index.blocks@[i]),
        ) is Some
}

/// Compresses a segment block by block; `None` when the compression of a block fails. The new index
/// describes the new segment, and every block reads as before.
pub fn compress_blocks(data: &[u8], index: &HistoryIndex) -> (r: Option<(Vec<u8>, HistoryIndex)>)
    requires
        index.covers(data@.len() as u64),
        !index.compressed_blocks,
    ensures
        r is Some <==> all_packed(data@, *index),
        match r {
            Some((packed, packed_index)) => {
                &&& packed_index.compressed_blocks
                &&& packed_index.covers(packed@.len() as u64)
                &&& packed_index.version == index.version
                &&& packed_index.total_entries == index.total_entries
                &&& packed_index.start_micros == index.start_micros
                &&& packed_index.end_micros == index.end_micros
                &&& packed_index.blocks@.len() == index.blocks@.len()
                &&& forall|i: int|
                    0 <= i < index.blocks@.len() ==> same_events(
                        #[trigger] packed_index.blocks@[i],
                        index.blocks@[i],
                    )
                &&& forall|i: int|
                    0 <= i < index.blocks@.len() ==> #[trigger] block_contents(
                        packed@,
                        packed_index,
                        i,
                    ) == block_contents(data@, *index, i)
                &&& forall|i: int|
                    0 <= i < index.blocks@.len() ==> Some(
                        block_bytes(packed@, #[trigger] packed_index.blocks@[i]),
                    ) == gz_packed(block_bytes(data@, index.blocks@[i]))
            },
            None => true,
        },
{
    let ghost source = index.blocks@;
    let mut members: Vec<Vec<u8>> = Vec::new();
    let mut i: usize = 0;
    assert(data.len() == data@.len());
    while i < index.blocks.len()
        invariant
            i <= source.len(),
            source == index.blocks@,
            index.covers(data@.len() as u64),
            data.len() == data@.len(),
            members@.len() == i,
            forall|k: int|
                0 <= k < i ==> (#[trigger] members@[k])@.len() > 0 && gz_unpacked(members@[k]@)
                    == Some(block_bytes(data@, source[k])) && gz_packed(
                    block_bytes(data@, source[k]),
                ) == Some(members@[k]@),
        decreases source.len() - i,
    {
        proof {
            lemma_block_fits(source, i as int);
        }
        let b = index.blocks[i];
        let plain = slice_subrange(data, b.offset as usize, (b.offset + b.len) as usize);
        match gz_pack(plain) {
            Some(m) => members.push(m),
            None => {
                assert(gz_packed(block_bytes(data@, index.blocks@[i as int])) is None);
                return None;
            },
        }
        i += 1;
    }
    let (packed, packed_index) = join_members(index, &members);
    proof {
        assert forall|k: int| 0 <= k < source.len() implies gz_packed(
            block_bytes(data@, #[trigger] index.blocks@[k]),
        ) is Some by {
            assert(members@[k]@.len() > 0);
        }
        assert forall|k: int| 0 <= k < source.len() implies #[trigger] block_contents(
            packed@,
            packed_index,
            k,
        ) == block_contents(data@, *index, k) by {
            assert(block_bytes(packed@, packed_index.blocks@[k]) == members@[k]@);
        }
    }
    Some((packed, packed_index))
}

proof fn lemma_same_candidate(
    a: Seq<HistoryBlock>,
    b: Seq<HistoryBlock>,
    total: u64,
    q: HistoryQuery,
)
    requires
        a.len() == b.len(),
        forall|i: int| 0 <= i < a.len() ==> same_events(#[trigger] a[i], b[i]),
    ensures
        first_candidate(a, total, q) == first_candidate(b, total, q),
    decreases a.len(),
{
    if a.len() > 0 {
        assert(same_events(a[0], b[0]));
        assert forall|i: int| 0 <= i < a.len() - 1 implies same_events(
            #[trigger] a.skip(1)[i],
            b.skip(1)[i],
        ) by {
            assert(same_events(a[i + 1], b[i + 1]));
        }
        lemma_same_candidate(a.skip(1), b.skip(1), total, q);
    }
}

proof fn lemma_same_hits_from(
    a: Seq<HistoryBlock>,
    b: Seq<HistoryBlock>,
    contents: Seq<Seq<DecodedEvent>>,
    q: HistoryQuery,
    cursor: int,
    i: int,
)
    requires
        a.len() == b.len(),
        forall|k: int| 0 <= k < a.len() ==> same_events(#[trigger] a[k], b[k]),
        0 <= i,
    ensures
        hits_from(a, contents, q, cursor, i) == hits_from(b, contents, q, cursor, i),
    decreases a.len() - i,
{
    if i < a.len() {
        assert(same_events(a[i], b[i]));
        lemma_same_hits_from(a, b, contents, q, cursor, i + 1);
    }
}

/// A compressed segment answers every query as the plain one did: an index that describes the same
/// events, over blocks with the same contents, gives the same hits.
pub proof fn law_compression_keeps_hits(
    plain: HistoryIndex,
    packed: HistoryIndex,
    contents: Vec<Vec<DecodedEvent>>,
    q: HistoryQuery,
)
    requires
        packed.total_entries == plain.total_entries,
        packed.blocks@.len() == plain.blocks@.len(),
        forall|i: int|
            0 <= i < plain.blocks@.len() ==> same_events(
                #[trigger] packed.blocks@[i],
                plain.blocks@[i],
            ),
    ensures
        all_hits(Segment::Indexed(packed, contents), q) == all_hits(
            Segment::Indexed(plain, contents),
            q,
        ),
{
    lemma_same_candidate(packed.blocks@, plain.blocks@, plain.total_entries, q);
    assert(start_of(packed, q) == start_of(plain, q));
    lemma_same_hits_from(
        packed.blocks@,
        plain.blocks@,
        contents_of(contents@),
        q,
        start_of(plain, q) as int,
        0,
    );
}

} // verus!
