//! Numbers for tags: each tag of a compiled index is known by its position in a list of names.

use crate::small::IdList;
use crate::text::str_eq;
use vstd::prelude::*;

verus! {

/// `ids` numbers `tags`.
pub open spec fn numbers(ids: Seq<usize>, tags: Seq<String>, names: Seq<String>) -> bool {
    &&& ids.len() == tags.len()
    &&& forall|i: int|
        0 <= i < ids.len() ==> (#[trigger] ids[i]) < names.len() && names[ids[i] as int]@
            == tags[i]@
}

/// The number of a tag; a new tag gets the next number.
fn intern(names: &mut Vec<String>, tag: &str) -> (r: usize)
    ensures
        old(names)@.is_prefix_of(final(names)@),
        r < final(names)@.len(),
        final(names)@[r as int]@ == tag@,
{
    let mut i: usize = 0;
    while i < names.len()
        invariant
            i <= names@.len(),
            names@ == old(names)@,
        decreases names@.len() - i,
    {
        if str_eq(names[i].as_str(), tag) {
            proof {
                assert(old(names)@ =~= names@.subrange(0, old(names)@.len() as int));
            }
            return i;
        }
        i += 1;
    }
    let id: usize = names.len();
    names.push(tag.to_owned());
    proof {
        assert(old(names)@ =~= names@.subrange(0, old(names)@.len() as int));
    }
    id
}

pub(crate) proof fn lemma_numbers_grow(ids: Seq<usize>, tags: Seq<String>, a: Seq<String>, b: Seq<String>)
    requires
        numbers(ids, tags, a),
        a.is_prefix_of(b),
    ensures
        numbers(ids, tags, b),
{
    assert forall|i: int| 0 <= i < ids.len() implies (#[trigger] ids[i]) < b.len()
        && b[ids[i] as int]@ == tags[i]@ by {
        assert(a[ids[i] as int] == b.subrange(0, a.len() as int)[ids[i] as int]);
    }
}

pub(crate) proof fn lemma_prefix_trans(a: Seq<String>, b: Seq<String>, c: Seq<String>)
    requires
        a.is_prefix_of(b),
        b.is_prefix_of(c),
    ensures
        a.is_prefix_of(c),
{
    assert(a =~= c.subrange(0, a.len() as int)) by {
        assert forall|i: int| 0 <= i < a.len() implies a[i] == c.subrange(0, a.len() as int)[i] by {
            assert(a[i] == b.subrange(0, a.len() as int)[i]);
            assert(b[i] == c.subrange(0, b.len() as int)[i]);
        }
    }
}

/// The numbers of tags; new tags get the next numbers.
pub fn intern_all(names: &mut Vec<String>, tags: &Vec<String>) -> (r: IdList)
    ensures
        old(names)@.is_prefix_of(final(names)@),
        numbers(r@, tags@, final(names)@),
{
    let mut ids = IdList::new();
    let mut i: usize = 0;
    proof {
        assert(old(names)@ =~= names@.subrange(0, old(names)@.len() as int));
    }
    while i < tags.len()
        invariant
            i <= tags@.len(),
            old(names)@.is_prefix_of(names@),
            numbers(ids@, tags@.take(i as int), names@),
        decreases tags@.len() - i,
    {
        let ghost before = names@;
        let ghost ids0 = ids@;
        let id: usize = intern(names, tags[i].as_str());
        ids.push(id);
        proof {
            lemma_prefix_trans(old(names)@, before, names@);
            lemma_numbers_grow(ids0, tags@.take(i as int), before, names@);
            assert(tags@.take(i + 1)[i as int] == tags@[i as int]);
            assert forall|k: int| 0 <= k < ids@.len() implies (#[trigger] ids@[k]) < names@.len()
                && names@[ids@[k] as int]@ == tags@.take(i + 1)[k]@ by {
                if k < i {
                    assert(ids@[k] == ids0[k]);
                    assert(tags@.take(i + 1)[k] == tags@.take(i as int)[k]);
                }
            }
        }
        i += 1;
    }
    proof {
        assert(tags@.take(tags@.len() as int) =~= tags@);
    }
    ids
}

} // verus!
