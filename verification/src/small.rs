//! Short lists that stay inline while they are small.

use smallvec::SmallVec;
use vstd::prelude::*;

verus! {

/// A list of numbers with room for four before it needs the heap.
#[verifier::external_body]
pub struct IdList {
    inner: SmallVec<[usize; 4]>,
}

/// The numbers of a list, in order.
pub uninterp spec fn id_list(list: IdList) -> Seq<usize>;

impl View for IdList {
    type V = Seq<usize>;

    open spec fn view(&self) -> Seq<usize> {
        id_list(*self)
    }
}

impl IdList {
    /// `SmallVec::new`: an empty list.
    #[verifier::external_body]
    pub(crate) fn new() -> (r: Self)
        ensures
            id_list(r) == Seq::<usize>::empty(),
    {
        IdList { inner: SmallVec::new() }
    }

    /// `SmallVec::push`: the list with one more number at its end.
    #[verifier::external_body]
    pub(crate) fn push(&mut self, id: usize)
        ensures
            id_list(*final(self)) == id_list(*old(self)).push(id),
    {
        self.inner.push(id);
    }

    /// `SmallVec::len`: the number of elements.
    #[verifier::external_body]
    pub(crate) fn len(&self) -> (r: usize)
        ensures
            r == id_list(*self).len(),
    {
        self.inner.len()
    }

    /// Indexing of a `SmallVec`: the element at a position inside the list.
    #[verifier::external_body]
    pub(crate) fn at(&self, i: usize) -> (r: usize)
        requires
            i < id_list(*self).len(),
        ensures
            r == id_list(*self)[i as int],
    {
        self.inner[i]
    }
}

/// A list of positions with their scores, with room for eight before it needs the heap.
#[verifier::external_body]
pub struct ScoreList {
    inner: SmallVec<[(usize, u64); 8]>,
}

/// The entries of a list, in order.
pub uninterp spec fn score_list(list: ScoreList) -> Seq<(usize, u64)>;

impl View for ScoreList {
    type V = Seq<(usize, u64)>;

    open spec fn view(&self) -> Seq<(usize, u64)> {
        score_list(*self)
    }
}

impl ScoreList {
    /// `SmallVec::new`: an empty list.
    #[verifier::external_body]
    pub(crate) fn new() -> (r: Self)
        ensures
            score_list(r).len() == 0,
    {
        ScoreList { inner: SmallVec::new() }
    }

    /// `SmallVec::push`: the list with one more entry at its end.
    #[verifier::external_body]
    pub(crate) fn push(&mut self, entry: (usize, u64))
        ensures
            score_list(*final(self)) == score_list(*old(self)).push(entry),
    {
        self.inner.push(entry);
    }

    /// `SmallVec::len`: the number of entries.
    #[verifier::external_body]
    pub(crate) fn len(&self) -> (r: usize)
        ensures
            r == score_list(*self).len(),
    {
        self.inner.len()
    }

    /// Indexing of a `SmallVec`: the entry at a position inside the list.
    #[verifier::external_body]
    pub(crate) fn at(&self, i: usize) -> (r: (usize, u64))
        requires
            i < score_list(*self).len(),
        ensures
            r == score_list(*self)[i as int],
    {
        self.inner[i]
    }
}

} // verus!
