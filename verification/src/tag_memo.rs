//! Memo of tag lookups for one name.
//!
//! Two bits per tag, packed into chunks of sixty-four tags. A memo belongs to one name: what it
//! remembers of one name says nothing about another.

use smallvec::SmallVec;
use vstd::prelude::*;

verus! {

/// Two bits for each of sixty-four tags: whether the tag was looked up, and what was found.
#[derive(Clone, Copy, Debug, PartialEq, Eq, Structural)]
pub struct TagMemoChunk {
    pub seen: u64,
    pub matched: u64,
}

impl Default for TagMemoChunk {
    fn default() -> (r: Self)
        ensures
            r == (TagMemoChunk { seen: 0, matched: 0 }),
    {
        TagMemoChunk { seen: 0, matched: 0 }
    }
}

/// Chunks with room for four before they need the heap.
#[verifier::external_body]
pub struct TagChunks {
    inner: SmallVec<[TagMemoChunk; 4]>,
}

/// The chunks, in order.
pub uninterp spec fn tag_chunks(chunks: TagChunks) -> Seq<TagMemoChunk>;

impl View for TagChunks {
    type V = Seq<TagMemoChunk>;

    open spec fn view(&self) -> Seq<TagMemoChunk> {
        tag_chunks(*self)
    }
}

impl TagChunks {
    /// `SmallVec::from_elem`: `n` copies of one chunk.
    #[verifier::external_body]
    fn filled(chunk: TagMemoChunk, n: usize) -> (r: Self)
        ensures
            tag_chunks(r) == Seq::new(n as nat, |i: int| chunk),
    {
        TagChunks { inner: SmallVec::from_elem(chunk, n) }
    }

    /// `SmallVec::len`: the number of chunks.
    #[verifier::external_body]
    fn count(&self) -> (r: usize)
        ensures
            r == tag_chunks(*self).len(),
    {
        self.inner.len()
    }

    /// `SmallVec::spilled`: whether the chunks are on the heap. `from_elem` puts more than four
    /// there and no fewer, and their number never changes afterwards.
    #[verifier::external_body]
    fn on_heap(&self) -> (r: bool)
        ensures
            r == (tag_chunks(*self).len() > 4),
    {
        self.inner.spilled()
    }

    /// Indexing of a `SmallVec`: the chunk at a position inside the list.
    #[verifier::external_body]
    fn at(&self, i: usize) -> (r: TagMemoChunk)
        requires
            i < tag_chunks(*self).len(),
        ensures
            r == tag_chunks(*self)[i as int],
    {
        self.inner[i]
    }

    /// Indexed assignment to a `SmallVec`: one chunk replaced, the others kept.
    #[verifier::external_body]
    fn put(&mut self, i: usize, chunk: TagMemoChunk)
        requires
            i < tag_chunks(*old(self)).len(),
        ensures
            tag_chunks(*final(self)) == tag_chunks(*old(self)).update(i as int, chunk),
    {
        self.inner[i] = chunk;
    }

    pub fn len(&self) -> (r: usize)
        ensures
            r == self@.len(),
    {
        self.count()
    }

    pub fn is_empty(&self) -> (r: bool)
        ensures
            r == (self@.len() == 0),
    {
        self.count() == 0
    }

    /// Whether there are too many chunks for the inline room.
    pub fn spilled(&self) -> (r: bool)
        ensures
            r == (self@.len() > 4),
    {
        self.on_heap()
    }

    /// The chunk at a position.
    pub fn get(&self, i: usize) -> (r: Option<TagMemoChunk>)
        ensures
            r == (if i < self@.len() {
                Some(self@[i as int])
            } else {
                None
            }),
    {
        if i < self.count() {
            Some(self.at(i))
        } else {
            None
        }
    }

    /// Replaces the chunk at a position; out of range nothing changes.
    pub fn set(&mut self, i: usize, chunk: TagMemoChunk)
        ensures
            final(self)@ == (if i < old(self)@.len() {
                old(self)@.update(i as int, chunk)
            } else {
                old(self)@
            }),
    {
        if i < self.count() {
            self.put(i, chunk);
        }
    }
}

/// The bit of tag `id` within its chunk.
pub open spec fn tag_bit(id: int) -> u64 {
    1u64 << ((id % 64) as u64)
}

/// Memo of tag lookups for one name.
pub struct TagMemo {
    pub chunks: TagChunks,
}

impl TagMemo {
    /// Tag `id` has room in the memo.
    pub open spec fn covers(self, id: int) -> bool {
        0 <= id && id / 64 < self.chunks@.len()
    }

    /// Tag `id` was looked up.
    pub open spec fn knows(self, id: int) -> bool {
        self.covers(id) && self.chunks@[id / 64].seen & tag_bit(id) != 0
    }

    /// What was found for tag `id`.
    pub open spec fn recalls(self, id: int) -> bool {
        self.chunks@[id / 64].matched & tag_bit(id) != 0
    }

    /// Everything remembered is true of `found`.
    pub open spec fn agrees(self, found: spec_fn(int) -> bool) -> bool {
        forall|id: int| #[trigger] self.knows(id) ==> self.recalls(id) == found(id)
    }

    /// An empty memo with room for `num_tags` tags.
    pub fn new(num_tags: usize) -> (r: Self)
        ensures
            r.chunks@.len() == (num_tags + 63) / 64,
            forall|i: int|
                0 <= i < r.chunks@.len() ==> #[trigger] r.chunks@[i] == (TagMemoChunk {
                    seen: 0,
                    matched: 0,
                }),
            forall|id: int| 0 <= id < num_tags ==> #[trigger] r.covers(id),
            forall|id: int| !#[trigger] r.knows(id),
    {
        let n: usize = num_tags / 64 + (if num_tags % 64 == 0 {
            0
        } else {
            1
        });
        let r = TagMemo { chunks: TagChunks::filled(TagMemoChunk { seen: 0, matched: 0 }, n) };
        proof {
            assert forall|id: int| !#[trigger] r.knows(id) by {
                if r.covers(id) {
                    assert(r.chunks@[id / 64].seen == 0);
                    let b = tag_bit(id);
                    assert(0u64 & b == 0) by (bit_vector);
                }
            }
        }
        r
    }

    /// `self` is `before` with the finding `v` for tag `id` added, as far as the memo has room.
    pub open spec fn is_with(self, before: TagMemo, id: int, v: bool) -> bool {
        &&& self.chunks@.len() == before.chunks@.len()
        &&& before.covers(id) ==> self.knows(id) && self.recalls(id) == v
        &&& forall|other: int| other != id ==> #[trigger] self.knows(other) == before.knows(other)
        &&& forall|other: int|
            other != id && #[trigger] self.knows(other) ==> self.recalls(other) == before.recalls(
                other,
            )
    }

    /// A memo that agrees with a lookup still does with a true finding added.
    pub proof fn lemma_with_agrees(
        self,
        after: TagMemo,
        id: int,
        v: bool,
        found: spec_fn(int) -> bool,
    )
        requires
            self.agrees(found),
            after.is_with(self, id, v),
            v == found(id),
        ensures
            after.agrees(found),
    {
        assert forall|k: int| #[trigger] after.knows(k) implies after.recalls(k) == found(k) by {
            if k != id {
                assert(self.knows(k));
            }
        }
    }

    /// What was found for a tag, when it was looked up before.
    pub fn get(&self, tag_id: usize) -> (r: Option<bool>)
        ensures
            r == (if self.knows(tag_id as int) {
                Some(self.recalls(tag_id as int))
            } else {
                None
            }),
    {
        let shift: u64 = (tag_id % 64) as u64;
        let bit: u64 = 1u64 << shift;
        match self.chunks.get(tag_id / 64) {
            Some(chunk) => if chunk.seen & bit != 0 {
                Some(chunk.matched & bit != 0)
            } else {
                None
            },
            None => None,
        }
    }

    /// Remembers what was found for a tag.
    pub fn put(&mut self, tag_id: usize, found: bool)
        ensures
            final(self).is_with(*old(self), tag_id as int, found),
    {
        let ghost before = *self;
        let chunk_idx: usize = tag_id / 64;
        let shift: u64 = (tag_id % 64) as u64;
        let bit: u64 = 1u64 << shift;
        match self.chunks.get(chunk_idx) {
            Some(chunk) => {
                let mut next = chunk;
                next.seen = chunk.seen | bit;
                if found {
                    next.matched = chunk.matched | bit;
                } else {
                    next.matched = chunk.matched & !bit;
                }
                self.chunks.set(chunk_idx, next);
                proof {
                    let s = chunk.seen;
                    let m = chunk.matched;
                    lemma_own_bit(s, shift);
                    lemma_own_bit(m, shift);
                    assert forall|id: int| id != tag_id implies #[trigger] self.knows(id)
                        == before.knows(id) && (before.knows(id) ==> self.recalls(id)
                        == before.recalls(id)) by {
                        if before.covers(id) && id / 64 == chunk_idx {
                            let other = (id % 64) as u64;
                            assert(other != shift);
                            lemma_other_bit(s, shift, other);
                            lemma_other_bit(m, shift, other);
                        }
                    }
                }
            },
            None => {},
        }
    }
}

proof fn lemma_own_bit(x: u64, a: u64)
    by (bit_vector)
    requires
        a < 64,
    ensures
        (x | (1u64 << a)) & (1u64 << a) != 0,
        (x & !(1u64 << a)) & (1u64 << a) == 0,
{
}

proof fn lemma_other_bit(x: u64, a: u64, b: u64)
    by (bit_vector)
    requires
        a < 64,
        b < 64,
        a != b,
    ensures
        (x | (1u64 << a)) & (1u64 << b) == x & (1u64 << b),
        (x & !(1u64 << a)) & (1u64 << b) == x & (1u64 << b),
{
}

/// What is remembered of one tag is recalled, and nothing else changes: looking up tags one after
/// the other gives for each what was last found for it.
pub proof fn law_findings_are_recalled(before: TagMemo, after: TagMemo, id: int, v: bool, other: int)
    requires
        after.is_with(before, id, v),
        other != id,
    ensures
        before.covers(id) ==> after.knows(id) && after.recalls(id) == v,
        after.knows(other) == before.knows(other),
        before.knows(other) ==> after.recalls(other) == before.recalls(other),
        after.covers(other) == before.covers(other),
{
}

} // verus!
