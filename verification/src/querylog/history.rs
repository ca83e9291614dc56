//! Reading back logged events: the index of a segment, and pages of events that meet a query.
//!
//! A segment holds events one behind the other. Its index divides it into blocks of consecutive
//! events, so that a query reads only the blocks that can hold what it asks for.

use crate::querylog::{DecodedEvent, QueryLogEvent};
use crate::text::{contains_bytes, occurs, str_eq};
use std::sync::Arc;
use vstd::prelude::*;
use vstd::string::StringSliceAdditionalSpecFns;
use vstd::utf8::encode_utf8;

verus! {

pub const HISTORY_INDEX_VERSION: u8 = 1;

/// Events that small batches are merged up to.
pub const HISTORY_INDEX_STRIDE: u64 = 512;

/// Most events of a page.
pub const HISTORY_PAGE_MAX: usize = 200;

/// Least number of events looked at in a segment without an index.
pub const MIN_SCAN: u64 = 10_000;

/// Consecutive events of a segment.
#[derive(Clone, Copy, Debug, PartialEq, Eq, Structural)]
pub struct HistoryBlock {
    pub offset: u64,
    pub len: u64,
    /// Number of the first event within the segment.
    pub first_entry: u64,
    pub entries: u32,
    pub start_micros: u64,
    pub end_micros: u64,
}

/// Index of a segment.
pub struct HistoryIndex {
    pub version: u8,
    /// Each block is compressed on its own.
    pub compressed_blocks: bool,
    pub total_entries: u64,
    pub start_micros: Option<u64>,
    pub end_micros: Option<u64>,
    pub blocks: Vec<HistoryBlock>,
}

/// Bytes of the blocks.
pub open spec fn byte_sum(blocks: Seq<HistoryBlock>) -> nat
    decreases blocks.len(),
{
    if blocks.len() == 0 {
        0
    } else {
        byte_sum(blocks.drop_last()) + blocks.last().len as nat
    }
}

/// Events of the blocks.
pub open spec fn entry_sum(blocks: Seq<HistoryBlock>) -> nat
    decreases blocks.len(),
{
    if blocks.len() == 0 {
        0
    } else {
        entry_sum(blocks.drop_last()) + blocks.last().entries as nat
    }
}

/// Each block starts where the one before it ends, and none is empty.
pub open spec fn chained(blocks: Seq<HistoryBlock>) -> bool
    decreases blocks.len(),
{
    blocks.len() > 0 ==> {
        &&& chained(blocks.drop_last())
        &&& blocks.last().offset == byte_sum(blocks.drop_last())
        &&& blocks.last().first_entry == entry_sum(blocks.drop_last())
        &&& blocks.last().len > 0
        &&& blocks.last().entries > 0
    }
}

pub(crate) proof fn lemma_block_fits(blocks: Seq<HistoryBlock>, i: int)
    requires
        chained(blocks),
        0 <= i < blocks.len(),
    ensures
        blocks[i].offset + blocks[i].len <= byte_sum(blocks),
        blocks[i].offset == byte_sum(blocks.take(i)),
        blocks[i].first_entry == entry_sum(blocks.take(i)),
        blocks[i].len > 0,
        blocks[i].entries > 0,
    decreases blocks.len(),
{
    let front = blocks.drop_last();
    if i < blocks.len() - 1 {
        lemma_block_fits(front, i);
        assert(front[i] == blocks[i]);
        assert(front.take(i) =~= blocks.take(i));
    } else {
        assert(front =~= blocks.take(i));
    }
}

/// A batch of `count` events that is written behind the blocks is small enough to join the last one.
pub open spec fn joins_last(blocks: Seq<HistoryBlock>, total: u64, offset: u64, count: u64) -> bool {
    &&& blocks.len() > 0
    &&& blocks.last().first_entry + blocks.last().entries == total
    &&& blocks.last().entries + count <= HISTORY_INDEX_STRIDE
    &&& blocks.last().offset + blocks.last().len == offset
}

/// The blocks after a batch of events was written: a small batch joins the last block.
pub open spec fn with_batch(
    blocks: Seq<HistoryBlock>,
    total: u64,
    offset: u64,
    len: u64,
    start: u64,
    end: u64,
    count: u64,
) -> Seq<HistoryBlock> {
    if joins_last(blocks, total, offset, count) {
        blocks.drop_last().push(
            HistoryBlock {
                len: (blocks.last().len + len) as u64,
                entries: (blocks.last().entries + count) as u32,
                end_micros: end,
                ..blocks.last()
            },
        )
    } else {
        blocks.push(
            HistoryBlock {
                offset,
                len,
                first_entry: total,
                entries: count as u32,
                start_micros: start,
                end_micros: end,
            },
        )
    }
}

impl HistoryIndex {
    /// The index describes a segment of `size` bytes completely.
    pub open spec fn covers(self, size: u64) -> bool {
        &&& chained(self.blocks@)
        &&& byte_sum(self.blocks@) == size
        &&& entry_sum(self.blocks@) == self.total_entries
    }

    /// The index of an empty segment.
    pub fn empty() -> (r: Self)
        ensures
            r.version == HISTORY_INDEX_VERSION,
            !r.compressed_blocks,
            r.total_entries == 0,
            r.start_micros is None,
            r.end_micros is None,
            r.blocks@ == Seq::<HistoryBlock>::empty(),
            r.covers(0),
    {
        HistoryIndex {
            version: HISTORY_INDEX_VERSION,
            compressed_blocks: false,
            total_entries: 0,
            start_micros: None,
            end_micros: None,
            blocks: Vec::new(),
        }
    }

    /// Takes in a batch that was written behind the segment's first `offset` bytes and takes `len`
    /// bytes.
    pub fn append_batch(&mut self, offset: u64, len: u64, batch: &Vec<Arc<QueryLogEvent>>)
        requires
            old(self).covers(offset),
            offset + len <= u64::MAX,
            old(self).total_entries + batch@.len() <= u64::MAX,
            batch@.len() <= u32::MAX,
        ensures
            batch@.len() == 0 ==> *final(self) == *old(self),
            batch@.len() > 0 ==> {
                &&& final(self).version == old(self).version
                &&& final(self).compressed_blocks == old(self).compressed_blocks
                &&& final(self).total_entries == old(self).total_entries + batch@.len()
                &&& final(self).start_micros == (match old(self).start_micros {
                    Some(t) => Some(t),
                    None => Some(batch@[0].unix_micros),
                })
                &&& final(self).end_micros == Some(batch@.last().unix_micros)
                &&& final(self).blocks@ == with_batch(
                    old(self).blocks@,
                    old(self).total_entries,
                    offset,
                    len,
                    batch@[0].unix_micros,
                    batch@.last().unix_micros,
                    batch@.len() as u64,
                )
                &&& len > 0 ==> final(self).covers((offset + len) as u64)
            },
    {
        if batch.len() == 0 {
            return;
        }
        let start: u64 = batch[0].unix_micros;
        let end: u64 = batch[batch.len() - 1].unix_micros;
        let count: u64 = batch.len() as u64;
        let ghost before = self.blocks@;
        if self.start_micros.is_none() {
            self.start_micros = Some(start);
        }
        self.end_micros = Some(end);
        let n: usize = self.blocks.len();
        if n > 0 {
            let last = self.blocks[n - 1];
            proof {
                assert(before.last() == last);
                assert(last.offset + last.len == offset);
                assert(last.first_entry + last.entries == self.total_entries);
            }
            if last.first_entry + last.entries as u64 == self.total_entries && last.entries as u64
                + count <= HISTORY_INDEX_STRIDE && last.offset + last.len == offset {
                let merged = HistoryBlock {
                    len: last.len + len,
                    entries: last.entries + count as u32,
                    end_micros: end,
                    ..last
                };
                self.blocks.set(n - 1, merged);
                self.total_entries = self.total_entries + count;
                proof {
                    assert(self.blocks@ =~= before.drop_last().push(merged));
                    assert(self.blocks@.drop_last() =~= before.drop_last());
                }
                return;
            }
        }
        self.blocks.push(
            HistoryBlock {
                offset,
                len,
                first_entry: self.total_entries,
                entries: count as u32,
                start_micros: start,
                end_micros: end,
            },
        );
        self.total_entries = self.total_entries + count;
        proof {
            assert(self.blocks@.drop_last() =~= before);
        }
    }
}

/// Why an index is not used.
#[derive(Clone, Copy, Debug, PartialEq, Eq, Structural)]
pub enum IndexError {
    Version,
    NotContiguous,
    EmptyBlock,
    Overflow,
    /// The index does not describe the whole segment.
    Incomplete,
}

/// What is wrong with the blocks, checked one after the other.
pub open spec fn blocks_fault(blocks: Seq<HistoryBlock>) -> Option<IndexError>
    decreases blocks.len(),
{
    if blocks.len() == 0 {
        None
    } else {
        let front = blocks.drop_last();
        match blocks_fault(front) {
            Some(e) => Some(e),
            None => if blocks.last().offset != byte_sum(front) || blocks.last().first_entry
                != entry_sum(front) {
                Some(IndexError::NotContiguous)
            } else if blocks.last().len == 0 || blocks.last().entries == 0 {
                Some(IndexError::EmptyBlock)
            } else if byte_sum(blocks) > u64::MAX || entry_sum(blocks) > u64::MAX {
                Some(IndexError::Overflow)
            } else {
                None
            },
        }
    }
}

/// What is wrong with an index of a segment of `size` bytes.
pub open spec fn index_fault(index: HistoryIndex, size: u64) -> Option<IndexError> {
    if index.version != HISTORY_INDEX_VERSION {
        Some(IndexError::Version)
    } else {
        match blocks_fault(index.blocks@) {
            Some(e) => Some(e),
            None => if byte_sum(index.blocks@) != size || entry_sum(index.blocks@)
                != index.total_entries {
                Some(IndexError::Incomplete)
            } else {
                None
            },
        }
    }
}

/// Checks the index of a segment of `size` bytes.
pub fn check_index(index: &HistoryIndex, size: u64) -> (r: Result<(), IndexError>)
    ensures
        match index_fault(*index, size) {
            Some(e) => r == Err::<(), IndexError>(e),
            None => r is Ok,
        },
{
    if index.version != HISTORY_INDEX_VERSION {
        return Err(IndexError::Version);
    }
    let ghost blocks = index.blocks@;
    let mut offset: u64 = 0;
    let mut entry: u64 = 0;
    let mut i: usize = 0;
    proof {
        assert(blocks.take(0).len() == 0);
    }
    while i < index.blocks.len()
        invariant
            i <= blocks.len(),
            blocks == index.blocks@,
            index.version == HISTORY_INDEX_VERSION,
            blocks_fault(blocks.take(i as int)) is None,
            offset == byte_sum(blocks.take(i as int)),
            entry == entry_sum(blocks.take(i as int)),
        decreases blocks.len() - i,
    {
        let ghost next = blocks.take(i + 1);
        proof {
            assert(next.drop_last() =~= blocks.take(i as int));
            assert(next.last() == blocks[i as int]);
            if blocks_fault(next) is Some {
                lemma_fault_stays(blocks, i + 1);
            }
        }
        let block = index.blocks[i];
        if block.offset != offset || block.first_entry != entry {
            return Err(IndexError::NotContiguous);
        }
        if block.len == 0 || block.entries == 0 {
            return Err(IndexError::EmptyBlock);
        }
        if u64::MAX - offset < block.len || u64::MAX - entry < block.entries as u64 {
            return Err(IndexError::Overflow);
        }
        offset = offset + block.len;
        entry = entry + block.entries as u64;
        i += 1;
    }
    proof {
        assert(blocks.take(blocks.len() as int) =~= blocks);
    }
    if offset != size || entry != index.total_entries {
        return Err(IndexError::Incomplete);
    }
    Ok(())
}

proof fn lemma_fault_stays(blocks: Seq<HistoryBlock>, n: int)
    requires
        0 <= n <= blocks.len(),
        blocks_fault(blocks.take(n)) is Some,
    ensures
        blocks_fault(blocks) == blocks_fault(blocks.take(n)),
    decreases blocks.len() - n,
{
    if n < blocks.len() {
        assert(blocks.take(n + 1).drop_last() =~= blocks.take(n));
        lemma_fault_stays(blocks, n + 1);
    } else {
        assert(blocks.take(n) =~= blocks);
    }
}

/// An index passes the check exactly when it has the right version and describes the whole segment.
pub proof fn law_checked_index_covers_segment(index: HistoryIndex, size: u64)
    ensures
        index_fault(index, size) is None <==> index.version == HISTORY_INDEX_VERSION
            && index.covers(size),
{
    lemma_no_fault_is_chained(index.blocks@);
}

proof fn lemma_no_fault_is_chained(blocks: Seq<HistoryBlock>)
    ensures
        blocks_fault(blocks) is None ==> chained(blocks),
        chained(blocks) && byte_sum(blocks) <= u64::MAX && entry_sum(blocks) <= u64::MAX
            ==> blocks_fault(blocks) is None,
    decreases blocks.len(),
{
    if blocks.len() > 0 {
        lemma_no_fault_is_chained(blocks.drop_last());
    }
}

// Queries.

/// A segment as it is listed.
pub struct HistoryFileInfo {
    pub name: String,
    pub size_bytes: u64,
    pub total_entries: Option<u64>,
    pub start_micros: Option<u64>,
    pub end_micros: Option<u64>,
    pub indexed: bool,
}

/// What is asked of a segment.
pub struct HistoryQuery {
    pub limit: usize,
    /// Number of the first event to look at; `None` for the first that the times allow.
    pub cursor: Option<u64>,
    pub from_micros: Option<u64>,
    pub to_micros: Option<u64>,
    pub qname: Option<String>,
    pub rcode: Option<u8>,
    pub source: Option<String>,
}

/// Events that meet a query.
pub struct HistoryPage {
    pub events: Vec<DecodedEvent>,
    /// `None` for a segment without an index.
    pub total_entries: Option<u64>,
    pub start_micros: Option<u64>,
    pub end_micros: Option<u64>,
    /// Cursor of the next page; `None` when this is the last.
    pub next_cursor: Option<u64>,
    pub has_more: bool,
    pub indexed: bool,
}

/// The event meets the query.
pub open spec fn meets(ev: DecodedEvent, q: HistoryQuery) -> bool {
    &&& q.from_micros is Some ==> ev.unix_micros >= q.from_micros->0
    &&& q.to_micros is Some ==> ev.unix_micros <= q.to_micros->0
    &&& match q.qname {
        Some(s) => encode_utf8(s@).len() == 0 || occurs(encode_utf8(ev.qname@), encode_utf8(s@)),
        None => true,
    }
    &&& q.rcode is Some ==> ev.rcode == q.rcode->0
    &&& match q.source {
        Some(s) => encode_utf8(s@).len() == 0 || ev.source@ == s@,
        None => true,
    }
}

/// Whether the event meets the query.
pub fn event_matches(ev: &DecodedEvent, q: &HistoryQuery) -> (r: bool)
    ensures
        r == meets(*ev, *q),
{
    let from_ok = match q.from_micros {
        Some(t) => ev.unix_micros >= t,
        None => true,
    };
    let to_ok = match q.to_micros {
        Some(t) => ev.unix_micros <= t,
        None => true,
    };
    let name_ok = match &q.qname {
        Some(s) => s.as_str().as_bytes().len() == 0 || contains_bytes(
            ev.qname.as_str().as_bytes(),
            s.as_str().as_bytes(),
        ),
        None => true,
    };
    let rcode_ok = match q.rcode {
        Some(c) => ev.rcode == c,
        None => true,
    };
    let source_ok = match &q.source {
        Some(s) => s.as_str().as_bytes().len() == 0 || str_eq(ev.source.as_str(), s.as_str()),
        None => true,
    };
    from_ok && to_ok && name_ok && rcode_ok && source_ok
}

/// Number of the first event of the first block that reaches into the queried time.
pub open spec fn first_candidate(blocks: Seq<HistoryBlock>, total: u64, q: HistoryQuery) -> u64
    decreases blocks.len(),
{
    if blocks.len() == 0 {
        total
    } else if q.from_micros is None || blocks[0].end_micros >= q.from_micros->0 {
        blocks[0].first_entry
    } else {
        first_candidate(blocks.skip(1), total, q)
    }
}

/// Number of the first event that a query looks at.
pub open spec fn start_of(index: HistoryIndex, q: HistoryQuery) -> u64 {
    let first = first_candidate(index.blocks@, index.total_entries, q);
    match q.cursor {
        Some(c) => if c >= first {
            c
        } else {
            first
        },
        None => first,
    }
}

/// An event with its number.
pub type Hit = (int, DecodedEvent);

/// Events of a block, the first of which has the number `first`, that the query finds from number
/// `cursor` on.
pub open spec fn hits_in(
    events: Seq<DecodedEvent>,
    first: int,
    cursor: int,
    q: HistoryQuery,
) -> Seq<Hit>
    decreases events.len(),
{
    if events.len() == 0 {
        Seq::empty()
    } else {
        let front = hits_in(events.drop_last(), first, cursor, q);
        let number = first + events.len() - 1;
        if number >= cursor && meets(events.last(), q) {
            front.push((number, events.last()))
        } else {
            front
        }
    }
}

/// The number behind the last event of a block.
pub open spec fn block_end(b: HistoryBlock) -> int {
    b.first_entry + b.entries
}

/// The block lies before what the query looks at.
pub open spec fn passed_over(b: HistoryBlock, cursor: int, q: HistoryQuery) -> bool {
    block_end(b) <= cursor || q.from_micros is Some && b.end_micros < q.from_micros->0
}

/// The block, and with it every later one, lies behind the queried time.
pub open spec fn too_late(b: HistoryBlock, q: HistoryQuery) -> bool {
    q.to_micros is Some && b.start_micros > q.to_micros->0
}

/// All events that the query finds in the blocks from `i` on, with their contents.
pub open spec fn hits_from(
    blocks: Seq<HistoryBlock>,
    contents: Seq<Seq<DecodedEvent>>,
    q: HistoryQuery,
    cursor: int,
    i: int,
) -> Seq<Hit>
    decreases blocks.len() - i,
{
    if i < 0 || i >= blocks.len() {
        Seq::empty()
    } else if passed_over(blocks[i], cursor, q) {
        hits_from(blocks, contents, q, cursor, i + 1)
    } else if too_late(blocks[i], q) {
        Seq::empty()
    } else {
        hits_in(contents[i], blocks[i].first_entry as int, cursor, q) + hits_from(
            blocks,
            contents,
            q,
            cursor,
            i + 1,
        )
    }
}

/// Most events of a page for this query.
pub open spec fn page_limit(q: HistoryQuery) -> nat {
    if q.limit < 1 {
        1
    } else if q.limit > HISTORY_PAGE_MAX {
        HISTORY_PAGE_MAX as nat
    } else {
        q.limit as nat
    }
}

/// The page shows the first of these hits and says where the next page starts.
pub open spec fn shows(page: HistoryPage, hits: Seq<Hit>, limit: nat) -> bool {
    let shown = if hits.len() <= limit {
        hits
    } else {
        hits.take(limit as int)
    };
    &&& page.events@ == shown.map_values(|h: Hit| h.1)
    &&& page.has_more == (hits.len() > limit)
    &&& match page.next_cursor {
        Some(c) => page.has_more && c == hits[limit as int].0,
        None => !page.has_more,
    }
}

/// A page in the making.
pub struct PageBuilder {
    pub cursor: u64,
    pub limit: usize,
    pub events: Vec<DecodedEvent>,
    /// Number of the first event that found no place on the page.
    pub overflow: Option<u64>,
}

impl PageBuilder {
    /// The page in the making has seen these hits.
    pub open spec fn saw(self, hits: Seq<Hit>) -> bool {
        let shown = if hits.len() <= self.limit {
            hits
        } else {
            hits.take(self.limit as int)
        };
        &&& self.limit > 0
        &&& self.events@ == shown.map_values(|h: Hit| h.1)
        &&& match self.overflow {
            Some(c) => hits.len() > self.limit && c == hits[self.limit as int].0,
            None => hits.len() <= self.limit,
        }
    }

    fn new(q: &HistoryQuery, cursor: u64) -> (r: Self)
        ensures
            r.cursor == cursor,
            r.limit == page_limit(*q),
            r.saw(Seq::empty()),
    {
        let limit: usize = if q.limit < 1 {
            1
        } else if q.limit > HISTORY_PAGE_MAX {
            HISTORY_PAGE_MAX
        } else {
            q.limit
        };
        let r = PageBuilder { cursor, limit, events: Vec::new(), overflow: None };
        proof {
            assert(r.events@ =~= Seq::<Hit>::empty().map_values(|h: Hit| h.1));
        }
        r
    }

    /// Starts the page of a query on a segment with an index.
    pub fn start(index: &HistoryIndex, q: &HistoryQuery) -> (r: Self)
        ensures
            r.cursor == start_of(*index, *q),
            r.limit == page_limit(*q),
            r.saw(Seq::empty()),
    {
        let ghost blocks = index.blocks@;
        let mut first: u64 = index.total_entries;
        let mut i: usize = 0;
        proof {
            assert(blocks.skip(0) =~= blocks);
        }
        while i < index.blocks.len()
            invariant_except_break
                first == index.total_entries,
                first_candidate(blocks, index.total_entries, *q) == first_candidate(
                    blocks.skip(i as int),
                    index.total_entries,
                    *q,
                ),
            invariant
                i <= blocks.len(),
                blocks == index.blocks@,
            ensures
                first == first_candidate(blocks, index.total_entries, *q),
            decreases blocks.len() - i,
        {
            proof {
                assert(blocks.skip(i as int)[0] == blocks[i as int]);
                assert(blocks.skip(i as int).skip(1) =~= blocks.skip(i + 1));
            }
            let reached = match q.from_micros {
                Some(from) => index.blocks[i].end_micros >= from,
                None => true,
            };
            if reached {
                first = index.blocks[i].first_entry;
                break;
            }
            i += 1;
        }
        let cursor: u64 = match q.cursor {
            Some(c) => if c >= first {
                c
            } else {
                first
            },
            None => first,
        };
        PageBuilder::new(q, cursor)
    }

    /// Takes in events of which the first has the number `first`.
    pub fn feed(&mut self, first: u64, events: Vec<DecodedEvent>, q: &HistoryQuery)
        requires
            first + events@.len() <= u64::MAX,
        ensures
            final(self).cursor == old(self).cursor,
            final(self).limit == old(self).limit,
            forall|hits: Seq<Hit>| #[trigger]
                old(self).saw(hits) ==> final(self).saw(
                    hits + hits_in(events@, first as int, old(self).cursor as int, *q),
                ),
    {
        let ghost all = events@;
        let ghost start = *self;
        let mut rest = events;
        let mut number: u64 = first;
        proof {
            assert(all.skip(0) =~= all);
            assert forall|hits: Seq<Hit>| #[trigger] start.saw(hits) implies self.saw(
                hits + hits_in(all.take(0), first as int, self.cursor as int, *q),
            ) by {
                assert(hits + hits_in(all.take(0), first as int, self.cursor as int, *q) =~= hits);
            }
        }
        while rest.len() > 0
            invariant
                first <= number,
                number - first <= all.len(),
                first + all.len() <= u64::MAX,
                rest@ == all.skip(number - first),
                self.cursor == start.cursor,
                self.limit == start.limit,
                forall|hits: Seq<Hit>| #[trigger]
                    start.saw(hits) ==> self.saw(
                        hits + hits_in(
                            all.take(number - first),
                            first as int,
                            self.cursor as int,
                            *q,
                        ),
                    ),
            decreases rest@.len(),
        {
            let ghost n = number - first;
            let ghost before = *self;
            let ghost seen = hits_in(all.take(n), first as int, self.cursor as int, *q);
            let ghost more = hits_in(all.take(n + 1), first as int, self.cursor as int, *q);
            proof {
                assert(all.take(n + 1).drop_last() =~= all.take(n));
                assert(all.take(n + 1).last() == all[n]);
                assert(rest@[0] == all[n]);
            }
            let ev = rest.remove(0);
            proof {
                assert(rest@ =~= all.skip(n + 1));
            }
            if number >= self.cursor && event_matches(&ev, q) {
                if self.overflow.is_some() {
                    proof {
                        assert forall|hits: Seq<Hit>| #[trigger] start.saw(hits) implies self.saw(
                            hits + more,
                        ) by {
                            lemma_saw_more(*self, hits + seen, seq![(number as int, ev)]);
                            assert(hits + seen + seq![(number as int, ev)] =~= hits + more);
                        }
                    }
                } else if self.events.len() < self.limit {
                    self.events.push(ev);
                    proof {
                        assert forall|hits: Seq<Hit>| #[trigger] start.saw(hits) implies self.saw(
                            hits + more,
                        ) by {
                            lemma_saw_push(before, *self, hits + seen, (number as int, ev));
                            assert((hits + seen).push((number as int, ev)) =~= hits + more);
                        }
                    }
                } else {
                    self.overflow = Some(number);
                    proof {
                        assert forall|hits: Seq<Hit>| #[trigger] start.saw(hits) implies self.saw(
                            hits + more,
                        ) by {
                            lemma_saw_push(before, *self, hits + seen, (number as int, ev));
                            assert((hits + seen).push((number as int, ev)) =~= hits + more);
                        }
                    }
                }
            }
            number += 1;
        }
        proof {
            assert(all.take(all.len() as int) =~= all);
        }
    }

    /// The page is complete and more events are known to follow.
    pub fn is_full(&self) -> (r: bool)
        ensures
            r == (self.overflow is Some),
    {
        self.overflow.is_some()
    }

    /// The next block, from position `i` on, that the query has to read.
    pub fn next_block(&self, index: &HistoryIndex, q: &HistoryQuery, i: usize) -> (r: Option<usize>)
        requires
            index.covers_entries(),
        ensures
            match r {
                Some(j) => next_wanted(index.blocks@, *q, self.cursor as int, i as int) == Some(
                    j as int,
                ) && i <= j < index.blocks@.len(),
                None => next_wanted(index.blocks@, *q, self.cursor as int, i as int) is None,
            },
    {
        let mut j: usize = i;
        while j < index.blocks.len()
            invariant
                i <= j,
                index.covers_entries(),
                next_wanted(index.blocks@, *q, self.cursor as int, i as int) == next_wanted(
                    index.blocks@,
                    *q,
                    self.cursor as int,
                    j as int,
                ),
            decreases index.blocks@.len() - j,
        {
            let block = index.blocks[j];
            let before_cursor = block.first_entry + block.entries as u64 <= self.cursor;
            let before_time = match q.from_micros {
                Some(from) => block.end_micros < from,
                None => false,
            };
            if !(before_cursor || before_time) {
                let late = match q.to_micros {
                    Some(to) => block.start_micros > to,
                    None => false,
                };
                if late {
                    return None;
                }
                return Some(j);
            }
            j += 1;
        }
        None
    }

    /// Ends a page of a segment with an index.
    pub fn finish(self, index: &HistoryIndex) -> (r: HistoryPage)
        ensures
            r.indexed,
            r.total_entries == Some(index.total_entries),
            r.start_micros == index.start_micros,
            r.end_micros == index.end_micros,
            forall|hits: Seq<Hit>| #[trigger]
                self.saw(hits) ==> shows(r, hits, self.limit as nat),
    {
        HistoryPage {
            events: self.events,
            total_entries: Some(index.total_entries),
            start_micros: index.start_micros,
            end_micros: index.end_micros,
            next_cursor: self.overflow,
            has_more: self.overflow.is_some(),
            indexed: true,
        }
    }
}

impl HistoryIndex {
    /// The number behind the last event of every block fits in 64 bits.
    pub open spec fn covers_entries(self) -> bool {
        forall|i: int|
            0 <= i < self.blocks@.len() ==> block_end(#[trigger] self.blocks@[i]) <= u64::MAX
    }
}

/// The next block that the query has to read.
pub open spec fn next_wanted(
    blocks: Seq<HistoryBlock>,
    q: HistoryQuery,
    cursor: int,
    i: int,
) -> Option<int>
    decreases blocks.len() - i,
{
    if i < 0 || i >= blocks.len() {
        None
    } else if passed_over(blocks[i], cursor, q) {
        next_wanted(blocks, q, cursor, i + 1)
    } else if too_late(blocks[i], q) {
        None
    } else {
        Some(i)
    }
}

proof fn lemma_next_wanted(
    blocks: Seq<HistoryBlock>,
    contents: Seq<Seq<DecodedEvent>>,
    q: HistoryQuery,
    cursor: int,
    i: int,
)
    requires
        0 <= i,
    ensures
        match next_wanted(blocks, q, cursor, i) {
            Some(j) => {
                &&& i <= j < blocks.len()
                &&& hits_from(blocks, contents, q, cursor, i) == hits_in(
                    contents[j],
                    blocks[j].first_entry as int,
                    cursor,
                    q,
                ) + hits_from(blocks, contents, q, cursor, j + 1)
            },
            None => hits_from(blocks, contents, q, cursor, i) == Seq::<Hit>::empty(),
        },
    decreases blocks.len() - i,
{
    if i < blocks.len() && passed_over(blocks[i], cursor, q) {
        lemma_next_wanted(blocks, contents, q, cursor, i + 1);
    }
}

proof fn lemma_saw_push(before: PageBuilder, after: PageBuilder, hits: Seq<Hit>, hit: Hit)
    requires
        before.saw(hits),
        before.overflow is None,
        after.limit == before.limit,
        if before.events@.len() < before.limit {
            after.events@ == before.events@.push(hit.1) && after.overflow is None
        } else {
            after.events@ == before.events@ && after.overflow is Some && after.overflow->0 == hit.0
        },
    ensures
        after.saw(hits.push(hit)),
{
    let all = hits.push(hit);
    if before.events@.len() < before.limit {
        assert(after.events@ =~= all.map_values(|h: Hit| h.1));
    } else {
        assert(all.take(before.limit as int) =~= hits);
    }
}

proof fn lemma_saw_more(b: PageBuilder, hits: Seq<Hit>, more: Seq<Hit>)
    requires
        b.saw(hits),
        b.overflow is Some,
    ensures
        b.saw(hits + more),
{
    assert((hits + more).take(b.limit as int) =~= hits.take(b.limit as int));
}

/// The events of a segment.
pub enum Segment {
    /// With an index, and the events of each block.
    Indexed(HistoryIndex, Vec<Vec<DecodedEvent>>),
    /// Without an index.
    Plain(Vec<DecodedEvent>),
}

/// The events of each block.
pub open spec fn contents_of(blocks: Seq<Vec<DecodedEvent>>) -> Seq<Seq<DecodedEvent>> {
    blocks.map_values(|b: Vec<DecodedEvent>| b@)
}

/// A query without conditions on the events.
pub open spec fn takes_all(q: HistoryQuery) -> bool {
    &&& match q.qname {
        Some(s) => encode_utf8(s@).len() == 0,
        None => true,
    }
    &&& q.rcode is None
    &&& match q.source {
        Some(s) => encode_utf8(s@).len() == 0,
        None => true,
    }
    &&& q.from_micros is None
    &&& q.to_micros is None
}

/// Events of a segment without an index that a query looks at: all, or up to a bound behind its
/// cursor when it has conditions.
pub open spec fn scanned(n: nat, q: HistoryQuery) -> nat {
    let cursor = match q.cursor {
        Some(c) => c as nat,
        None => 0,
    };
    let bound = if 100 * page_limit(q) >= MIN_SCAN {
        100 * page_limit(q)
    } else {
        MIN_SCAN as nat
    };
    if takes_all(q) || n <= cursor + bound {
        n
    } else {
        cursor + bound
    }
}

/// The events that a query finds in a segment.
pub open spec fn all_hits(segment: Segment, q: HistoryQuery) -> Seq<Hit> {
    match segment {
        Segment::Indexed(index, contents) => hits_from(
            index.blocks@,
            contents_of(contents@),
            q,
            start_of(index, q) as int,
            0,
        ),
        Segment::Plain(events) => hits_in(
            events@.take(scanned(events@.len(), q) as int),
            0,
            match q.cursor {
                Some(c) => c as int,
                None => 0,
            },
            q,
        ),
    }
}

/// The segment can be read: its index, where it has one, lists as many blocks as there are, and
/// the numbers of their events fit in 64 bits.
pub open spec fn readable(segment: Segment) -> bool {
    match segment {
        Segment::Indexed(index, contents) => {
            &&& index.blocks@.len() == contents@.len()
            &&& index.covers_entries()
            &&& forall|i: int|
                0 <= i < contents@.len() ==> (#[trigger] index.blocks@[i]).first_entry
                    + contents@[i]@.len() <= u64::MAX
        },
        Segment::Plain(_) => true,
    }
}

/// One page of the events that a query finds in a segment.
pub fn read_history_page(segment: Segment, q: &HistoryQuery) -> (r: HistoryPage)
    requires
        readable(segment),
    ensures
        shows(r, all_hits(segment, *q), page_limit(*q)),
        match segment {
            Segment::Indexed(index, _) => r.indexed && r.total_entries == Some(
                index.total_entries,
            ) && r.start_micros == index.start_micros && r.end_micros == index.end_micros,
            Segment::Plain(_) => !r.indexed && r.total_entries is None && r.start_micros is None
                && r.end_micros is None,
        },
{
    match segment {
        Segment::Indexed(index, contents) => read_indexed_history_page(index, contents, q),
        Segment::Plain(events) => read_legacy_history_page(events, q),
    }
}

fn read_indexed_history_page(
    index: HistoryIndex,
    contents: Vec<Vec<DecodedEvent>>,
    q: &HistoryQuery,
) -> (r: HistoryPage)
    requires
        readable(Segment::Indexed(index, contents)),
    ensures
        shows(r, all_hits(Segment::Indexed(index, contents), *q), page_limit(*q)),
        r.indexed,
        r.total_entries == Some(index.total_entries),
        r.start_micros == index.start_micros,
        r.end_micros == index.end_micros,
{
    let ghost blocks = index.blocks@;
    let ghost all = contents_of(contents@);
    let ghost whole = all_hits(Segment::Indexed(index, contents), *q);
    let mut builder = PageBuilder::start(&index, q);
    let ghost cursor = builder.cursor as int;
    let ghost mut seen: Seq<Hit> = Seq::empty();
    let mut rest = contents;
    let mut i: usize = 0;
    proof {
        assert(rest@ =~= contents@.skip(0));
        assert(seen + whole =~= whole);
    }
    while !builder.is_full() && rest.len() > 0
        invariant
            i <= blocks.len(),
            blocks == index.blocks@,
            all == contents_of(contents@),
            blocks.len() == contents@.len(),
            readable(Segment::Indexed(index, contents)),
            rest@ == contents@.skip(i as int),
            builder.cursor == cursor,
            builder.limit == page_limit(*q),
            builder.saw(seen),
            whole == all_hits(Segment::Indexed(index, contents), *q),
            whole == seen + hits_from(blocks, all, *q, cursor, i as int),
        decreases rest@.len(),
    {
        proof {
            lemma_next_wanted(blocks, all, *q, cursor, i as int);
        }
        let j: usize = match builder.next_block(&index, q, i) {
            Some(j) => j,
            None => {
                proof {
                    assert(whole =~= seen);
                }
                return builder.finish(&index);
            },
        };
        // Blocks before the next one are not read.
        while i < j
            invariant
                i <= j < blocks.len(),
                blocks.len() == contents@.len(),
                rest@ == contents@.skip(i as int),
            decreases j - i,
        {
            let _unread = rest.remove(0);
            i += 1;
            proof {
                assert(rest@ =~= contents@.skip(i as int));
            }
        }
        let ghost part = contents@[j as int];
        proof {
            assert(rest@[0] == part);
            assert(all[j as int] == part@);
            assert(index.blocks@[j as int].first_entry + part@.len() <= u64::MAX);
        }
        let events = rest.remove(0);
        let first: u64 = index.blocks[j].first_entry;
        let ghost found = hits_in(events@, first as int, cursor, *q);
        builder.feed(first, events, q);
        assert(j < index.blocks.len());
        i = j + 1;
        proof {
            assert(rest@ =~= contents@.skip(i as int));
            let later = hits_from(blocks, all, *q, cursor, i as int);
            assert(seen + (found + later) =~= (seen + found) + later);
            seen = seen + found;
        }
    }
    proof {
        let later = hits_from(blocks, all, *q, cursor, i as int);
        if builder.overflow is Some {
            lemma_saw_more(builder, seen, later);
        } else {
            assert(i == blocks.len());
            assert(whole =~= seen);
        }
    }
    builder.finish(&index)
}

fn read_legacy_history_page(events: Vec<DecodedEvent>, q: &HistoryQuery) -> (r: HistoryPage)
    ensures
        shows(r, all_hits(Segment::Plain(events), *q), page_limit(*q)),
        !r.indexed,
        r.total_entries is None,
        r.start_micros is None,
        r.end_micros is None,
{
    let cursor: u64 = match q.cursor {
        Some(c) => c,
        None => 0,
    };
    let mut builder = PageBuilder::new(q, cursor);
    let no_name = match &q.qname {
        Some(s) => s.as_str().as_bytes().len() == 0,
        None => true,
    };
    let no_source = match &q.source {
        Some(s) => s.as_str().as_bytes().len() == 0,
        None => true,
    };
    let all = no_name && q.rcode.is_none() && no_source && q.from_micros.is_none()
        && q.to_micros.is_none();
    let bound: u64 = if builder.limit as u64 * 100 >= MIN_SCAN {
        builder.limit as u64 * 100
    } else {
        MIN_SCAN
    };
    let n: u64 = events.len() as u64;
    let ghost found = hits_in(
        events@.take(scanned(events@.len(), *q) as int),
        0,
        cursor as int,
        *q,
    );
    let mut kept = events;
    if !all && n > bound && n - bound > cursor {
        kept.truncate((cursor + bound) as usize);
    }
    proof {
        assert(kept@ =~= events@.take(scanned(events@.len(), *q) as int));
    }
    builder.feed(0, kept, q);
    proof {
        assert(Seq::<Hit>::empty() + found =~= found);
        assert(builder.saw(found));
    }
    HistoryPage {
        events: builder.events,
        total_entries: None,
        start_micros: None,
        end_micros: None,
        next_cursor: builder.overflow,
        has_more: builder.overflow.is_some(),
        indexed: false,
    }
}

// Pages one behind the other.

/// The hits from number `c` on.
pub open spec fn from_number(hits: Seq<Hit>, c: int) -> Seq<Hit>
    decreases hits.len(),
{
    if hits.len() == 0 {
        Seq::empty()
    } else if hits.last().0 >= c {
        from_number(hits.drop_last(), c).push(hits.last())
    } else {
        from_number(hits.drop_last(), c)
    }
}

proof fn lemma_from_number_join(a: Seq<Hit>, b: Seq<Hit>, c: int)
    ensures
        from_number(a + b, c) == from_number(a, c) + from_number(b, c),
    decreases b.len(),
{
    if b.len() == 0 {
        assert(a + b =~= a);
        assert(from_number(a, c) + from_number(b, c) =~= from_number(a, c));
    } else {
        lemma_from_number_join(a, b.drop_last(), c);
        assert((a + b).drop_last() =~= a + b.drop_last());
        assert(from_number(a + b, c) =~= from_number(a, c) + from_number(b, c));
    }
}

/// Numbers of hits grow, and lie within bounds.
spec fn rising(hits: Seq<Hit>, low: int, high: int) -> bool {
    &&& forall|i: int, j: int| 0 <= i < j < hits.len() ==> (#[trigger] hits[i]).0 < (#[trigger] hits[j]).0
    &&& forall|i: int| 0 <= i < hits.len() ==> low <= (#[trigger] hits[i]).0 < high
}

proof fn lemma_hits_in(events: Seq<DecodedEvent>, first: int, c1: int, c2: int, q: HistoryQuery)
    requires
        c1 <= c2,
    ensures
        rising(hits_in(events, first, c1, q), first, first + events.len()),
        from_number(hits_in(events, first, c1, q), c2) == hits_in(events, first, c2, q),
    decreases events.len(),
{
    if events.len() > 0 {
        lemma_hits_in(events.drop_last(), first, c1, c2, q);
        let h = hits_in(events, first, c1, q);
        let front = hits_in(events.drop_last(), first, c1, q);
        if h != front {
            assert(h.drop_last() =~= front);
        }
    }
}

proof fn lemma_from_number_none(hits: Seq<Hit>, low: int, high: int, c: int)
    requires
        rising(hits, low, high),
        high <= c,
    ensures
        from_number(hits, c) == Seq::<Hit>::empty(),
    decreases hits.len(),
{
    if hits.len() > 0 {
        assert(rising(hits.drop_last(), low, high)) by {
            assert forall|i: int, j: int| 0 <= i < j < hits.len() - 1 implies (
            #[trigger] hits.drop_last()[i]).0 < (#[trigger] hits.drop_last()[j]).0 by {
                assert(hits[i].0 < hits[j].0);
            }
            assert forall|i: int| 0 <= i < hits.len() - 1 implies low <= (
            #[trigger] hits.drop_last()[i]).0 < high by {
                assert(low <= hits[i].0 < high);
            }
        }
        lemma_from_number_none(hits.drop_last(), low, high, c);
        assert(hits.last().0 < high);
    }
}

/// The blocks hold consecutive numbers, and no more events than they say.
pub open spec fn numbered(blocks: Seq<HistoryBlock>, contents: Seq<Seq<DecodedEvent>>) -> bool {
    &&& contents.len() == blocks.len()
    &&& forall|i: int, j: int|
        0 <= i < j < blocks.len() ==> block_end(#[trigger] blocks[i]) <= (
        #[trigger] blocks[j]).first_entry
    &&& forall|i: int| 0 <= i < blocks.len() ==> (#[trigger] contents[i]).len() <= blocks[i].entries
}

proof fn lemma_hits_rise(
    blocks: Seq<HistoryBlock>,
    contents: Seq<Seq<DecodedEvent>>,
    q: HistoryQuery,
    cursor: int,
    i: int,
    low: int,
    high: int,
)
    requires
        numbered(blocks, contents),
        0 <= i <= blocks.len(),
        i < blocks.len() ==> low <= blocks[i].first_entry,
        forall|j: int| 0 <= j < blocks.len() ==> block_end(#[trigger] blocks[j]) <= high,
    ensures
        rising(hits_from(blocks, contents, q, cursor, i), low, high),
    decreases blocks.len() - i,
{
    if i < blocks.len() {
        let b = blocks[i];
        if i + 1 < blocks.len() {
            assert(block_end(blocks[i]) <= blocks[i + 1].first_entry);
        }
        if passed_over(b, cursor, q) {
            lemma_hits_rise(blocks, contents, q, cursor, i + 1, low, high);
        } else if !too_late(b, q) {
            lemma_hits_rise(blocks, contents, q, cursor, i + 1, block_end(b), high);
            lemma_hits_in(contents[i], b.first_entry as int, cursor, cursor, q);
            assert(contents[i].len() <= blocks[i].entries);
        }
    }
}

/// Cursors below the numbers of all blocks make no difference.
proof fn lemma_cursor_before_blocks(
    blocks: Seq<HistoryBlock>,
    contents: Seq<Seq<DecodedEvent>>,
    q: HistoryQuery,
    c1: int,
    c2: int,
    i: int,
)
    requires
        numbered(blocks, contents),
        forall|j: int| 0 <= j < blocks.len() ==> (#[trigger] blocks[j]).entries > 0,
        0 <= i <= blocks.len(),
        c1 <= c2,
        i < blocks.len() ==> c2 <= blocks[i].first_entry,
    ensures
        hits_from(blocks, contents, q, c1, i) == hits_from(blocks, contents, q, c2, i),
    decreases blocks.len() - i,
{
    if i < blocks.len() {
        if i + 1 < blocks.len() {
            assert(block_end(blocks[i]) <= blocks[i + 1].first_entry);
        }
        lemma_cursor_before_blocks(blocks, contents, q, c1, c2, i + 1);
        lemma_hits_in(contents[i], blocks[i].first_entry as int, c1, c2, q);
        lemma_all_from_number(
            hits_in(contents[i], blocks[i].first_entry as int, c1, q),
            blocks[i].first_entry as int,
            blocks[i].first_entry + contents[i].len(),
            c2,
        );
    }
}

proof fn lemma_all_from_number(hits: Seq<Hit>, low: int, high: int, c: int)
    requires
        rising(hits, low, high),
        c <= low,
    ensures
        from_number(hits, c) == hits,
    decreases hits.len(),
{
    if hits.len() > 0 {
        let front = hits.drop_last();
        assert(rising(front, low, high)) by {
            assert forall|i: int, j: int| 0 <= i < j < front.len() implies (#[trigger] front[i]).0
                < (#[trigger] front[j]).0 by {
                assert(hits[i].0 < hits[j].0);
            }
            assert forall|i: int| 0 <= i < front.len() implies low <= (#[trigger] front[i]).0
                < high by {
                assert(low <= hits[i].0 < high);
            }
        }
        lemma_all_from_number(front, low, high, c);
        assert(low <= hits.last().0);
        assert(front.push(hits.last()) =~= hits);
    } else {
        assert(from_number(hits, c) =~= hits);
    }
}

/// A number above that of every event.
spec fn beyond() -> int {
    0x1_0000_0000_0000_0000int + 0x1_0000_0000int
}

/// One of the hits has a number of at least `c`.
spec fn reaches(hits: Seq<Hit>, c: int) -> bool {
    exists|i: int| 0 <= i < hits.len() && (#[trigger] hits[i]).0 >= c
}

proof fn lemma_later_cursor(
    blocks: Seq<HistoryBlock>,
    contents: Seq<Seq<DecodedEvent>>,
    q: HistoryQuery,
    c1: int,
    c2: int,
    i: int,
)
    requires
        numbered(blocks, contents),
        forall|j: int| 0 <= j < blocks.len() ==> (#[trigger] blocks[j]).entries > 0,
        0 <= i <= blocks.len(),
        c1 <= c2,
        reaches(hits_from(blocks, contents, q, c1, i), c2),
    ensures
        from_number(hits_from(blocks, contents, q, c1, i), c2) == hits_from(
            blocks,
            contents,
            q,
            c2,
            i,
        ),
    decreases blocks.len() - i,
{
    if i < blocks.len() {
        let b = blocks[i];
        let first = b.first_entry as int;
        if passed_over(b, c1, q) {
            lemma_later_cursor(blocks, contents, q, c1, c2, i + 1);
        } else if !too_late(b, q) {
            let here = hits_in(contents[i], first, c1, q);
            let rest = hits_from(blocks, contents, q, c1, i + 1);
            lemma_hits_in(contents[i], first, c1, c2, q);
            lemma_from_number_join(here, rest, c2);
            assert(contents[i].len() <= blocks[i].entries);
            if block_end(b) <= c2 {
                lemma_from_number_none(here, first, first + contents[i].len(), c2);
                let w = choose|w: int|
                    0 <= w < (here + rest).len() && (#[trigger] (here + rest)[w]).0 >= c2;
                if w < here.len() {
                    assert((here + rest)[w] == here[w]);
                }
                assert((here + rest)[w] == rest[w - here.len()]);
                assert(reaches(rest, c2));
                lemma_later_cursor(blocks, contents, q, c1, c2, i + 1);
                assert(Seq::<Hit>::empty() + from_number(rest, c2) =~= from_number(rest, c2));
            } else {
                if i + 1 < blocks.len() {
                    assert(block_end(blocks[i]) <= blocks[i + 1].first_entry);
                    let high = beyond();
                    lemma_hits_rise(blocks, contents, q, c1, i + 1, block_end(b), high);
                    lemma_all_from_number(rest, block_end(b), high, c2);
                } else {
                    assert(rest =~= Seq::<Hit>::empty());
                    assert(from_number(rest, c2) =~= rest);
                }
                lemma_cursor_before_blocks(blocks, contents, q, c1, c2, i + 1);
            }
        }
    }
}

proof fn lemma_rest_of_rising(hits: Seq<Hit>, low: int, high: int, k: int)
    requires
        rising(hits, low, high),
        0 <= k < hits.len(),
    ensures
        from_number(hits, hits[k].0) == hits.skip(k),
    decreases hits.len(),
{
    let front = hits.take(k);
    let back = hits.skip(k);
    let c = hits[k].0;
    assert(front + back =~= hits);
    lemma_from_number_join(front, back, c);
    assert(rising(front, low, c)) by {
        assert forall|i: int, j: int| 0 <= i < j < front.len() implies (#[trigger] front[i]).0 < (
        #[trigger] front[j]).0 by {
            assert(hits[i].0 < hits[j].0);
        }
        assert forall|i: int| 0 <= i < front.len() implies low <= (#[trigger] front[i]).0 < c by {
            assert(hits[i].0 < hits[k].0);
        }
    }
    lemma_from_number_none(front, low, c, c);
    assert(rising(back, c, high)) by {
        assert forall|i: int, j: int| 0 <= i < j < back.len() implies (#[trigger] back[i]).0 < (
        #[trigger] back[j]).0 by {
            assert(hits[i + k].0 < hits[j + k].0);
        }
        assert forall|i: int| 0 <= i < back.len() implies c <= (#[trigger] back[i]).0 < high by {
            if i > 0 {
                assert(hits[k].0 < hits[i + k].0);
            }
        }
    }
    lemma_all_from_number(back, c, high, c);
    assert(Seq::<Hit>::empty() + back =~= back);
}

proof fn lemma_hits_in_cursor(events: Seq<DecodedEvent>, first: int, cursor: int, q: HistoryQuery)
    ensures
        forall|k: int|
            0 <= k < hits_in(events, first, cursor, q).len() ==> (#[trigger] hits_in(
                events,
                first,
                cursor,
                q,
            )[k]).0 >= cursor,
    decreases events.len(),
{
    if events.len() > 0 {
        lemma_hits_in_cursor(events.drop_last(), first, cursor, q);
        let front = hits_in(events.drop_last(), first, cursor, q);
        let all = hits_in(events, first, cursor, q);
        assert forall|k: int| 0 <= k < all.len() implies (#[trigger] all[k]).0 >= cursor by {
            if k < front.len() {
                assert(all[k] == front[k]);
            }
        }
    }
}

proof fn lemma_hits_from_cursor(
    blocks: Seq<HistoryBlock>,
    contents: Seq<Seq<DecodedEvent>>,
    q: HistoryQuery,
    cursor: int,
    i: int,
)
    ensures
        forall|k: int|
            0 <= k < hits_from(blocks, contents, q, cursor, i).len() ==> (#[trigger] hits_from(
                blocks,
                contents,
                q,
                cursor,
                i,
            )[k]).0 >= cursor,
    decreases blocks.len() - i,
{
    if 0 <= i < blocks.len() {
        lemma_hits_from_cursor(blocks, contents, q, cursor, i + 1);
        let here = hits_in(contents[i], blocks[i].first_entry as int, cursor, q);
        lemma_hits_in_cursor(contents[i], blocks[i].first_entry as int, cursor, q);
        let rest = hits_from(blocks, contents, q, cursor, i + 1);
        let all = hits_from(blocks, contents, q, cursor, i);
        assert forall|k: int| 0 <= k < all.len() implies (#[trigger] all[k]).0 >= cursor by {
            if !passed_over(blocks[i], cursor, q) && !too_late(blocks[i], q) {
                if k < here.len() {
                    assert(all[k] == here[k]);
                } else {
                    assert(all[k] == rest[k - here.len()]);
                }
            }
        }
    }
}

/// Pages one behind the other miss no event and repeat none: the query that goes on where a page
/// ended finds exactly the hits that the page did not show.
pub proof fn law_pages_continue(
    blocks: Seq<HistoryBlock>,
    contents: Seq<Seq<DecodedEvent>>,
    q: HistoryQuery,
    cursor: int,
    shown: int,
)
    requires
        numbered(blocks, contents),
        forall|j: int| 0 <= j < blocks.len() ==> (#[trigger] blocks[j]).entries > 0,
        0 <= shown < hits_from(blocks, contents, q, cursor, 0).len(),
    ensures
        hits_from(
            blocks,
            contents,
            q,
            hits_from(blocks, contents, q, cursor, 0)[shown].0,
            0,
        ) == hits_from(blocks, contents, q, cursor, 0).skip(shown),
{
    let hits = hits_from(blocks, contents, q, cursor, 0);
    let c2 = hits[shown].0;
    assert(reaches(hits, c2));
    lemma_hits_from_cursor(blocks, contents, q, cursor, 0);
    lemma_later_cursor(blocks, contents, q, cursor, c2, 0);
    let high = beyond();
    lemma_hits_rise(blocks, contents, q, cursor, 0, 0, high);
    lemma_rest_of_rising(hits, 0, high, shown);
}

// Blocks against events.

/// The blocks describe their contents: how many events, and the times of the first and the last.
pub open spec fn described(blocks: Seq<HistoryBlock>, contents: Seq<Seq<DecodedEvent>>) -> bool {
    &&& contents.len() == blocks.len()
    &&& forall|i: int|
        0 <= i < blocks.len() ==> {
            &&& (#[trigger] contents[i]).len() == blocks[i].entries
            &&& contents[i].len() > 0
            &&& contents[i][0].unix_micros == blocks[i].start_micros
            &&& contents[i].last().unix_micros == blocks[i].end_micros
        }
}

/// No event is older than one before it.
pub open spec fn in_time_order(events: Seq<DecodedEvent>) -> bool {
    forall|i: int, j: int|
        0 <= i <= j < events.len() ==> (#[trigger] events[i]).unix_micros <= (
        #[trigger] events[j]).unix_micros
}

/// Number of the first event that is asked for.
pub open spec fn cursor_of(q: HistoryQuery) -> int {
    match q.cursor {
        Some(c) => c as int,
        None => 0,
    }
}

proof fn lemma_hits_join(
    a: Seq<DecodedEvent>,
    b: Seq<DecodedEvent>,
    first: int,
    cursor: int,
    q: HistoryQuery,
)
    ensures
        hits_in(a + b, first, cursor, q) == hits_in(a, first, cursor, q) + hits_in(
            b,
            first + a.len(),
            cursor,
            q,
        ),
    decreases b.len(),
{
    let left = hits_in(a, first, cursor, q);
    if b.len() == 0 {
        assert(a + b =~= a);
        assert(left + hits_in(b, first + a.len(), cursor, q) =~= left);
    } else {
        lemma_hits_join(a, b.drop_last(), first, cursor, q);
        assert((a + b).drop_last() =~= a + b.drop_last());
        assert((a + b).last() == b.last());
        let right = hits_in(b.drop_last(), first + a.len(), cursor, q);
        assert(hits_in(a + b, first, cursor, q) =~= left + hits_in(b, first + a.len(), cursor, q));
    }
}

proof fn lemma_no_hits(events: Seq<DecodedEvent>, first: int, cursor: int, q: HistoryQuery)
    requires
        forall|k: int|
            0 <= k < events.len() ==> first + k < cursor || !meets(#[trigger] events[k], q),
    ensures
        hits_in(events, first, cursor, q) == Seq::<Hit>::empty(),
    decreases events.len(),
{
    if events.len() > 0 {
        assert forall|k: int| 0 <= k < events.len() - 1 implies first + k < cursor || !meets(
            #[trigger] events.drop_last()[k],
            q,
        ) by {
            assert(events.drop_last()[k] == events[k]);
        }
        lemma_no_hits(events.drop_last(), first, cursor, q);
        assert(events.last() == events[events.len() - 1]);
    }
}

proof fn lemma_same_hits(
    events: Seq<DecodedEvent>,
    first: int,
    c1: int,
    c2: int,
    q: HistoryQuery,
)
    requires
        c1 == c2 || c1 <= first && c2 <= first,
    ensures
        hits_in(events, first, c1, q) == hits_in(events, first, c2, q),
    decreases events.len(),
{
    if events.len() > 0 {
        lemma_same_hits(events.drop_last(), first, c1, c2, q);
    }
}

/// A block before the first candidate ends before the queried time.
proof fn lemma_before_candidate(
    blocks: Seq<HistoryBlock>,
    total: u64,
    q: HistoryQuery,
    i: int,
)
    requires
        0 <= i < blocks.len(),
        forall|j: int, k: int|
            0 <= j < k < blocks.len() ==> (#[trigger] blocks[j]).first_entry < (
            #[trigger] blocks[k]).first_entry,
        blocks[i].first_entry < first_candidate(blocks, total, q),
    ensures
        q.from_micros is Some,
        blocks[i].end_micros < q.from_micros->0,
    decreases blocks.len(),
{
    if q.from_micros is None || blocks[0].end_micros >= q.from_micros->0 {
        if i > 0 {
            assert(blocks[0].first_entry < blocks[i].first_entry);
        }
    } else if i > 0 {
        let rest = blocks.skip(1);
        assert forall|j: int, k: int| 0 <= j < k < rest.len() implies (
        #[trigger] rest[j]).first_entry < (#[trigger] rest[k]).first_entry by {
            assert(blocks[j + 1].first_entry < blocks[k + 1].first_entry);
        }
        assert(rest[i - 1] == blocks[i]);
        lemma_before_candidate(rest, total, q, i - 1);
    }
}

proof fn lemma_entries_grow(blocks: Seq<HistoryBlock>, i: int, j: int)
    requires
        0 <= i <= j <= blocks.len(),
    ensures
        entry_sum(blocks.take(i)) <= entry_sum(blocks.take(j)),
        i < j ==> entry_sum(blocks.take(i)) + blocks[i].entries <= entry_sum(blocks.take(j)),
    decreases j - i,
{
    if i < j {
        lemma_entries_grow(blocks, i, j - 1);
        assert(blocks.take(j).drop_last() =~= blocks.take(j - 1));
        assert(blocks.take(j).last() == blocks[j - 1]);
    }
}

proof fn lemma_hits_of_blocks(
    index: HistoryIndex,
    contents: Seq<Seq<DecodedEvent>>,
    q: HistoryQuery,
    i: int,
)
    requires
        chained(index.blocks@),
        described(index.blocks@, contents),
        0 <= i <= contents.len(),
        in_time_order(contents.skip(i).flatten()),
    ensures
        hits_from(index.blocks@, contents, q, start_of(index, q) as int, i) == hits_in(
            contents.skip(i).flatten(),
            entry_sum(index.blocks@.take(i)) as int,
            cursor_of(q),
            q,
        ),
    decreases contents.len() - i,
{
    let blocks = index.blocks@;
    let first = entry_sum(blocks.take(i)) as int;
    let c = cursor_of(q);
    let cursor = start_of(index, q) as int;
    if i == contents.len() {
        assert(contents.skip(i) =~= Seq::<Seq<DecodedEvent>>::empty());
    } else {
        let here = contents[i];
        let later = contents.skip(i + 1).flatten();
        let all = contents.skip(i).flatten();
        assert(contents.skip(i).drop_first() =~= contents.skip(i + 1));
        assert(contents.skip(i).first() == here);
        assert(all == here + later);
        lemma_block_fits(blocks, i);
        assert(blocks.take(i + 1).drop_last() =~= blocks.take(i));
        assert(blocks.take(i + 1).last() == blocks[i]);
        assert(in_time_order(later)) by {
            assert forall|a: int, b: int| 0 <= a <= b < later.len() implies (
            #[trigger] later[a]).unix_micros <= (#[trigger] later[b]).unix_micros by {
                assert(all[a + here.len()] == later[a]);
                assert(all[b + here.len()] == later[b]);
            }
        }
        lemma_hits_join(here, later, first, c, q);
        lemma_hits_of_blocks(index, contents, q, i + 1);
        assert forall|a: int, b: int| 0 <= a < b < blocks.len() implies (
        #[trigger] blocks[a]).first_entry < (#[trigger] blocks[b]).first_entry by {
            lemma_block_fits(blocks, a);
            lemma_block_fits(blocks, b);
            lemma_entries_grow(blocks, a, b);
        }
        let fc = first_candidate(blocks, index.total_entries, q) as int;
        if first < fc {
            lemma_before_candidate(blocks, index.total_entries, q, i);
        }
        if passed_over(blocks[i], cursor, q) {
            assert forall|k: int| 0 <= k < here.len() implies first + k < c || !meets(
                #[trigger] here[k],
                q,
            ) by {
                assert(all[k] == here[k]);
                assert(all[here.len() - 1] == here.last());
            }
            lemma_no_hits(here, first, c, q);
            assert(Seq::<Hit>::empty() + hits_in(later, first + here.len(), c, q) =~= hits_in(
                later,
                first + here.len(),
                c,
                q,
            ));
        } else if too_late(blocks[i], q) {
            assert forall|k: int| 0 <= k < all.len() implies first + k < c || !meets(
                #[trigger] all[k],
                q,
            ) by {
                assert(all[0] == here[0]);
                assert(all[0].unix_micros <= all[k].unix_micros);
            }
            lemma_no_hits(all, first, c, q);
        } else {
            lemma_same_hits(here, first, cursor, c, q);
        }
    }
}

/// Reading block by block hides nothing: where the index covers the segment, its blocks describe
/// their contents and the events are in the order of their times, a query finds exactly the events
/// from its cursor on that meet it, in their order.
pub proof fn law_index_hides_nothing(
    index: HistoryIndex,
    size: u64,
    contents: Vec<Vec<DecodedEvent>>,
    q: HistoryQuery,
)
    requires
        index.covers(size),
        described(index.blocks@, contents_of(contents@)),
        in_time_order(contents_of(contents@).flatten()),
    ensures
        all_hits(Segment::Indexed(index, contents), q) == hits_in(
            contents_of(contents@).flatten(),
            0,
            cursor_of(q),
            q,
        ),
{
    let all = contents_of(contents@);
    assert(all.skip(0) =~= all);
    assert(index.blocks@.take(0) =~= Seq::<HistoryBlock>::empty());
    lemma_hits_of_blocks(index, all, q, 0);
}

/// The contents of the blocks after a batch of events was written behind them: those of a small
/// batch join the last block.
pub open spec fn with_events(
    blocks: Seq<HistoryBlock>,
    total: u64,
    offset: u64,
    contents: Seq<Seq<DecodedEvent>>,
    batch: Seq<DecodedEvent>,
) -> Seq<Seq<DecodedEvent>> {
    if joins_last(blocks, total, offset, batch.len() as u64) {
        contents.drop_last().push(contents.last() + batch)
    } else {
        contents.push(batch)
    }
}

/// An index keeps describing its segment as batches are written: where its blocks describe their
/// contents, so do the blocks with one more batch, and the contents are the earlier events with the
/// batch behind them.
pub proof fn law_index_keeps_describing(
    blocks: Seq<HistoryBlock>,
    total: u64,
    offset: u64,
    len: u64,
    contents: Seq<Seq<DecodedEvent>>,
    batch: Seq<DecodedEvent>,
)
    requires
        described(blocks, contents),
        0 < batch.len() <= u32::MAX,
    ensures
        described(
            with_batch(
                blocks,
                total,
                offset,
                len,
                batch[0].unix_micros,
                batch.last().unix_micros,
                batch.len() as u64,
            ),
            with_events(blocks, total, offset, contents, batch),
        ),
        with_events(blocks, total, offset, contents, batch).flatten() == contents.flatten()
            + batch,
{
    let after = with_events(blocks, total, offset, contents, batch);
    let grown = with_batch(
        blocks,
        total,
        offset,
        len,
        batch[0].unix_micros,
        batch.last().unix_micros,
        batch.len() as u64,
    );
    let n = after.len() - 1;
    assert forall|i: int| 0 <= i < grown.len() implies {
        &&& (#[trigger] after[i]).len() == grown[i].entries
        &&& after[i].len() > 0
        &&& after[i][0].unix_micros == grown[i].start_micros
        &&& after[i].last().unix_micros == grown[i].end_micros
    } by {
        if i < n {
            assert(after[i] == contents[i] && grown[i] == blocks[i]);
        } else if joins_last(blocks, total, offset, batch.len() as u64) {
            assert(contents[n] == contents.last() && blocks[n] == blocks.last());
        }
    }
    after.lemma_flatten_and_flatten_alt_are_equivalent();
    contents.lemma_flatten_and_flatten_alt_are_equivalent();
    assert(after.last() == after[n]);
    if joins_last(blocks, total, offset, batch.len() as u64) {
        let front = contents.drop_last();
        assert(contents[n] == contents.last());
        assert(after.drop_last() =~= front);
        assert(after.flatten_alt() == front.flatten_alt() + (contents.last() + batch));
        assert(after.flatten_alt() =~= front.flatten_alt() + contents.last() + batch);
    } else {
        assert(after.drop_last() =~= contents);
    }
}

/// The query that a page is read with: the first page with the query itself, every later one with
/// the cursor of the page before it.
pub open spec fn page_query(q: HistoryQuery, pages: Seq<HistoryPage>, k: int) -> HistoryQuery {
    if k <= 0 {
        q
    } else {
        HistoryQuery { cursor: pages[k - 1].next_cursor, ..q }
    }
}

/// The pages that a query gives, read one behind the other until there are no more.
pub open spec fn pages_of(segment: Segment, q: HistoryQuery, pages: Seq<HistoryPage>) -> bool {
    &&& pages.len() > 0
    &&& forall|k: int|
        0 <= k < pages.len() ==> shows(
            #[trigger] pages[k],
            all_hits(segment, page_query(q, pages, k)),
            page_limit(q),
        )
    &&& forall|k: int| 0 <= k < pages.len() ==> (#[trigger] pages[k]).has_more == (k < pages.len() - 1)
}

/// The events of the pages, one page behind the other.
pub open spec fn events_of(pages: Seq<HistoryPage>) -> Seq<DecodedEvent> {
    pages.map_values(|p: HistoryPage| p.events@).flatten()
}

proof fn lemma_other_cursor(
    events: Seq<DecodedEvent>,
    cursor: int,
    q: HistoryQuery,
    c: Option<u64>,
)
    ensures
        hits_in(events, 0, cursor, HistoryQuery { cursor: c, ..q }) == hits_in(events, 0, cursor, q),
    decreases events.len(),
{
    if events.len() > 0 {
        lemma_other_cursor(events.drop_last(), cursor, q, c);
        assert(meets(events.last(), HistoryQuery { cursor: c, ..q }) == meets(events.last(), q));
    }
}

proof fn lemma_pages_join(
    index: HistoryIndex,
    size: u64,
    contents: Vec<Vec<DecodedEvent>>,
    q: HistoryQuery,
    pages: Seq<HistoryPage>,
)
    requires
        index.covers(size),
        described(index.blocks@, contents_of(contents@)),
        in_time_order(contents_of(contents@).flatten()),
        pages_of(Segment::Indexed(index, contents), q, pages),
    ensures
        events_of(pages) == hits_in(
            contents_of(contents@).flatten(),
            0,
            cursor_of(q),
            q,
        ).map_values(|h: Hit| h.1),
    decreases pages.len(),
{
    let segment = Segment::Indexed(index, contents);
    let events = contents_of(contents@).flatten();
    let hits = hits_in(events, 0, cursor_of(q), q);
    let limit = page_limit(q) as int;
    let rest = pages.drop_first();
    let lists = pages.map_values(|p: HistoryPage| p.events@);
    law_index_hides_nothing(index, size, contents, q);
    assert(page_query(q, pages, 0) == q);
    assert(shows(pages[0], hits, page_limit(q)));
    assert(lists.first() == pages[0].events@);
    assert(lists.drop_first() =~= rest.map_values(|p: HistoryPage| p.events@));
    assert(pages[0].has_more == (0 < pages.len() - 1));
    if pages.len() == 1 {
        assert(lists.drop_first().flatten() =~= Seq::<DecodedEvent>::empty());
        assert(events_of(pages) =~= hits.map_values(|h: Hit| h.1));
    } else {
        let next = HistoryQuery { cursor: pages[0].next_cursor, ..q };
        let c = hits[limit].0;
        assert(pages_of(segment, next, rest)) by {
            assert forall|k: int| 0 <= k < rest.len() implies shows(
                #[trigger] rest[k],
                all_hits(segment, page_query(next, rest, k)),
                page_limit(next),
            ) by {
                assert(rest[k] == pages[k + 1]);
                assert(page_query(next, rest, k) == page_query(q, pages, k + 1));
            }
            assert forall|k: int| 0 <= k < rest.len() implies (#[trigger] rest[k]).has_more == (k
                < rest.len() - 1) by {
                assert(rest[k] == pages[k + 1]);
            }
        }
        lemma_pages_join(index, size, contents, next, rest);
        lemma_other_cursor(events, c, q, next.cursor);
        lemma_hits_in(events, 0, cursor_of(q), cursor_of(q), q);
        lemma_hits_in_cursor(events, 0, cursor_of(q), q);
        lemma_hits_in(events, 0, cursor_of(q), c, q);
        lemma_rest_of_rising(hits, 0, events.len() as int, limit);
        assert(hits_in(events, 0, c, q) == hits.skip(limit));
        assert(events_of(pages) == pages[0].events@ + events_of(rest));
        assert(events_of(pages) =~= hits.map_values(|h: Hit| h.1));
    }
}

proof fn lemma_hits_are_filtered(events: Seq<DecodedEvent>, q: HistoryQuery)
    ensures
        hits_in(events, 0, 0, q).map_values(|h: Hit| h.1) == events.filter(
            |ev: DecodedEvent| meets(ev, q),
        ),
    decreases events.len(),
{
    reveal(Seq::filter);
    let shown = |h: Hit| h.1;
    let hits = hits_in(events, 0, 0, q);
    if events.len() > 0 {
        lemma_hits_are_filtered(events.drop_last(), q);
        let front = hits_in(events.drop_last(), 0, 0, q);
        if meets(events.last(), q) {
            assert(hits.map_values(shown) =~= front.map_values(shown).push(events.last()));
        }
    } else {
        assert(hits.map_values(shown) =~= Seq::<DecodedEvent>::empty());
    }
}

/// Pages read one behind the other hold exactly the events of the segment that meet the query, in
/// their order: none is missing and none comes twice. No page is longer than the limit, and each
/// but the last says where the next one starts.
pub proof fn law_pages_hold_every_event(
    index: HistoryIndex,
    size: u64,
    contents: Vec<Vec<DecodedEvent>>,
    q: HistoryQuery,
    pages: Seq<HistoryPage>,
)
    requires
        index.covers(size),
        described(index.blocks@, contents_of(contents@)),
        in_time_order(contents_of(contents@).flatten()),
        q.cursor is None,
        pages_of(Segment::Indexed(index, contents), q, pages),
    ensures
        events_of(pages) == contents_of(contents@).flatten().filter(
            |ev: DecodedEvent| meets(ev, q),
        ),
        forall|k: int|
            0 <= k < pages.len() ==> (#[trigger] pages[k]).events@.len() <= page_limit(q)
                && pages[k].has_more == (pages[k].next_cursor is Some),
{
    lemma_pages_join(index, size, contents, q, pages);
    lemma_hits_are_filtered(contents_of(contents@).flatten(), q);
    assert forall|k: int| 0 <= k < pages.len() implies (#[trigger] pages[k]).events@.len()
        <= page_limit(q) && pages[k].has_more == (pages[k].next_cursor is Some) by {
        assert(shows(
            pages[k],
            all_hits(Segment::Indexed(index, contents), page_query(q, pages, k)),
            page_limit(q),
        ));
    }
}

// What queries ask for.

/// Each condition of a query decides for itself: an event fails a query that asks for another
/// response code, another source, a later or an earlier time, or a text that its name does not
/// hold; and one that meets them all meets the query. Bounds of time belong to the time they bound.
pub proof fn law_each_condition_decides(ev: DecodedEvent, q: HistoryQuery)
    ensures
        q.rcode matches Some(c) && ev.rcode != c ==> !meets(ev, q),
        q.from_micros matches Some(t) && ev.unix_micros < t ==> !meets(ev, q),
        q.to_micros matches Some(t) && ev.unix_micros > t ==> !meets(ev, q),
        q.source matches Some(s) && encode_utf8(s@).len() > 0 && ev.source@ != s@ ==> !meets(ev, q),
        q.qname matches Some(s) && encode_utf8(s@).len() > 0 && (forall|i: int|
            0 <= i && i + encode_utf8(s@).len() <= encode_utf8(ev.qname@).len()
                ==> #[trigger] encode_utf8(ev.qname@).subrange(i, i + encode_utf8(s@).len())
                != encode_utf8(s@)) ==> !meets(ev, q),
        (q.rcode is None || q.rcode->0 == ev.rcode) && (q.from_micros is None || q.from_micros->0
            <= ev.unix_micros) && (q.to_micros is None || q.to_micros->0 >= ev.unix_micros) && (
        q.source is None || encode_utf8(q.source->0@).len() == 0 || q.source->0@ == ev.source@) && (
        q.qname is None || encode_utf8(q.qname->0@).len() == 0 || q.qname->0@ == ev.qname@)
            ==> meets(ev, q),
{
    let name = encode_utf8(ev.qname@);
    if let Some(s) = q.qname {
        let text = encode_utf8(s@);
        if text.len() > 0 && occurs(name, text) {
            let i = choose|i: int| crate::text::occurs_at(name, text, i);
            assert(name.subrange(i, i + text.len()) == text);
        }
        if s@ == ev.qname@ {
            assert(name.subrange(0, text.len() as int) =~= text);
            assert(crate::text::occurs_at(name, text, 0));
        }
    }
}

/// A page holds between one and two hundred events, and as many as are wanted within that. Without
/// an index a query with conditions looks at no fewer than ten thousand events behind its cursor,
/// or at all there are; one without looks at all.
pub proof fn law_pages_are_bounded(n: nat, q: HistoryQuery)
    ensures
        1 <= page_limit(q) <= 200,
        1 <= q.limit <= 200 ==> page_limit(q) == q.limit,
        scanned(n, q) <= n,
        n <= 10_000 ==> scanned(n, q) == n,
        takes_all(q) ==> scanned(n, q) == n,
        q.cursor is None && n > 10_000 ==> scanned(n, q) >= 10_000 && scanned(n, q) >= (if 100
            * page_limit(q) <= n {
            100 * page_limit(q)
        } else {
            n
        }),
{
}

/// A batch makes a block of its own or joins the last one. It joins where the two follow each other
/// and make no more than 512 events; the blocks before are left alone.
pub proof fn law_small_batches_share_a_block(
    blocks: Seq<HistoryBlock>,
    total: u64,
    offset: u64,
    len: u64,
    start: u64,
    end: u64,
    count: u64,
)
    requires
        chained(blocks),
        entry_sum(blocks) == total,
        byte_sum(blocks) == offset,
        offset + len <= u64::MAX,
        0 < count <= u32::MAX,
    ensures
        ({
            let after = with_batch(blocks, total, offset, len, start, end, count);
            let joined = blocks.len() > 0 && blocks.last().entries + count <= 512;
            &&& after.len() == blocks.len() + (if joined {
                0int
            } else {
                1
            })
            &&& after.last().end_micros == end
            &&& joined ==> after.drop_last() == blocks.drop_last() && after.last().start_micros
                == blocks.last().start_micros && after.last().entries == blocks.last().entries
                + count && after.last().len == blocks.last().len + len
            &&& !joined ==> after.drop_last() == blocks && after.last().start_micros == start
                && after.last().entries == count && after.last().len == len
                && after.last().offset == offset && after.last().first_entry == total
        }),
{
    let after = with_batch(blocks, total, offset, len, start, end, count);
    if blocks.len() > 0 && blocks.last().entries + count <= 512 {
        assert(after.drop_last() =~= blocks.drop_last());
    } else {
        assert(after.drop_last() =~= blocks);
    }
}

} // verus!
