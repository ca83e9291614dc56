//! Site database: domain sets by tag.

use crate::domain::DomainMatcher;
use crate::table::NameTable;
use crate::text::{find_byte, lemma_ascii_boundary, sub_str};
use vstd::prelude::*;
use vstd::string::StringSliceAdditionalSpecFns;
verus! {

/// The byte in front of an attribute.
pub const AT_SIGN: u8 = 64;

/// The position at which a tag splits into a name and an attribute: the first `@`, when something
/// stands behind it.
pub open spec fn attr_split(s: Seq<u8>) -> Option<int> {
    if exists|i: int| is_attr_split(s, i) {
        Some(choose|i: int| is_attr_split(s, i))
    } else {
        None
    }
}

/// `i` is the first `@` and something stands behind it.
pub open spec fn is_attr_split(s: Seq<u8>, i: int) -> bool {
    &&& 0 <= i && i + 1 < s.len()
    &&& s[i] == AT_SIGN
    &&& forall|j: int| 0 <= j < i ==> s[j] != AT_SIGN
}

/// Splits `tag@attr`; a tag without an attribute is returned whole.
pub fn split_tag_attr<'a>(tag: &'a str) -> (r: (&'a str, Option<&'a str>))
    ensures
        match attr_split(tag.spec_bytes()) {
            Some(i) => r.0.spec_bytes() == tag.spec_bytes().take(i) && r.1 is Some
                && r.1->0.spec_bytes() == tag.spec_bytes().skip(i + 1),
            None => r.0 == tag && r.1 is None,
        },
{
    let b = tag.as_bytes();
    match find_byte(b, AT_SIGN, 0) {
        Some(i) => {
            if i == b.len() - 1 {
                proof {
                    assert forall|k: int| !is_attr_split(b@, k) by {
                        if is_attr_split(b@, k) {
                            assert(k >= i);
                        }
                    }
                }
                return (tag, None);
            }
            proof {
                vstd::utf8::encode_utf8_valid_utf8(tag@);
                lemma_ascii_boundary(b@, i as int);
                vstd::utf8::is_char_boundary_start_end_of_seq(b@);
                assert(is_attr_split(b@, i as int));
                let k = choose|k: int| is_attr_split(b@, k);
                assert(k == i) by {
                    if k < i {
                        assert(b@[k] != AT_SIGN);
                    } else if i < k {
                        assert(b@[i as int] != AT_SIGN);
                    }
                }
            }
            let name = sub_str(tag, 0, i);
            let attr = sub_str(tag, i + 1, b.len());
            proof {
                assert(name.spec_bytes() =~= b@.take(i as int));
                assert(attr.spec_bytes() =~= b@.skip(i + 1));
            }
            (name, Some(attr))
        },
        None => (tag, None),
    }
}

/// Domain sets by tag.
pub struct GeoSiteDb {
    tags: NameTable<DomainMatcher<()>>,
}

impl GeoSiteDb {
    /// `name` is in the set of `tag`.
    pub closed spec fn has_name(self, tag: Seq<u8>, name: Seq<u8>) -> bool {
        self.tags@.contains_key(tag) && self.tags@[tag].hits(name)
    }

    /// A database without tags.
    pub fn new() -> (r: Self)
        ensures
            forall|tag: Seq<u8>, name: Seq<u8>| !#[trigger] r.has_name(tag, name),
    {
        GeoSiteDb { tags: NameTable::new() }
    }

    /// Puts a domain set under a tag, in place of an earlier one.
    pub fn insert(&mut self, tag: &str, set: DomainMatcher<()>)
        ensures
            forall|t: Seq<u8>, name: Seq<u8>| #[trigger]
                final(self).has_name(t, name) == (if t == tag.spec_bytes() {
                    set.hits(name)
                } else {
                    old(self).has_name(t, name)
                }),
    {
        self.tags.insert(vstd::slice::slice_to_vec(tag.as_bytes()), set);
    }

    /// Whether `domain` is in the set of `tag`.
    pub fn matches(&self, tag: &str, domain: &str) -> (r: bool)
        ensures
            r == self.has_name(tag.spec_bytes(), domain.spec_bytes()),
    {
        match self.tags.get(tag.as_bytes()) {
            Some(m) => m.is_hit(domain),
            None => false,
        }
    }
}

/// A tag splits at its first at sign where something stands behind it, and is whole otherwise.
pub proof fn law_tag_splits_at_first_sign(name: Seq<u8>, attr: Seq<u8>)
    requires
        !name.contains(64u8),
    ensures
        attr.len() > 0 ==> attr_split(name + seq![64u8] + attr) == Some(name.len() as int),
        attr_split(name + seq![64u8]) is None,
        attr_split(name) is None,
{
    let s = name + seq![64u8] + attr;
    let t = name + seq![64u8];
    let n = name.len() as int;
    assert forall|j: int| 0 <= j < n implies name[j] != 64u8 && s[j] == name[j] && t[j]
        == name[j] by {
        assert(name.contains(name[j]));
    }
    if attr.len() > 0 {
        assert(is_attr_split(s, n));
        let i = attr_split(s)->0;
        assert(is_attr_split(s, i));
    }
    assert forall|i: int| !is_attr_split(t, i) && !is_attr_split(name, i) by {}
}

} // verus!
