//! Filters on the resolved response.
//!
//! A rule's filters form an ordered list; the first one whose criteria all hold decides. A
//! criterion that lists nothing does not constrain.

use crate::config::AnswerIpMatcher;
use crate::dns::{
    answer_ips, answer_ips_of, answer_rr_types, answers_of, be16, question_qclass, rcode, rcode_of,
};
use crate::ruleset::RuleSetDb;
use vstd::prelude::*;
verus! {

/// What a filter does with a response that meets it.
#[derive(Clone, Copy, Debug, PartialEq, Eq, Structural)]
pub enum FilterAction {
    /// Return the response as it is.
    Accept,
    /// Send no reply.
    Drop,
    /// Answer from the server at this position.
    Forward(usize),
}

pub struct ResponseFilter {
    pub answer_ip: AnswerIpMatcher,
    pub response_type: Vec<u16>,
    pub response_rcode: Vec<u8>,
    pub response_qclass: Vec<u16>,
    pub action: FilterAction,
}

/// Class of the response's question; zero when the question does not fit.
pub open spec fn qclass_or_zero(resp: Seq<u8>, question_end: int) -> u16 {
    if 2 <= question_end && question_end <= resp.len() {
        be16(resp, question_end - 2)
    } else {
        0
    }
}

impl ResponseFilter {
    /// All criteria hold of the response.
    pub open spec fn meets(
        self,
        ruleset: Option<&RuleSetDb>,
        resp: Seq<u8>,
        question_end: int,
    ) -> bool {
        &&& self.answer_ip.names_no_tag() || match ruleset {
            Some(db) => db.answer_meets(self.answer_ip, answer_ips_of(resp, question_end)),
            None => false,
        }
        &&& self.response_type@.len() == 0 || exists|i: int|
            0 <= i < answers_of(resp, question_end).len() && self.response_type@.contains(
                (#[trigger] answers_of(resp, question_end)[i]).rtype,
            )
        &&& self.response_rcode@.len() == 0 || self.response_rcode@.contains(rcode_of(resp))
        &&& self.response_qclass@.len() == 0 || self.response_qclass@.contains(
            qclass_or_zero(resp, question_end),
        )
    }

    /// Whether all criteria hold of the response.
    pub fn matches(&self, ruleset: Option<&RuleSetDb>, resp: &[u8], question_end: usize) -> (r:
        bool)
        ensures
            r == self.meets(ruleset, resp@, question_end as int),
    {
        if !self.answer_ip.is_empty() {
            let ips = answer_ips(resp, question_end);
            let hit = match ruleset {
                Some(db) => db.matches_answer_ip(&self.answer_ip, ips.as_slice()),
                None => false,
            };
            if !hit {
                return false;
            }
        }
        if self.response_type.len() != 0 {
            let types = answer_rr_types(resp, question_end);
            if !shares_element(&types, &self.response_type) {
                proof {
                    let rrs = answers_of(resp@, question_end as int);
                    assert forall|i: int| 0 <= i < rrs.len() implies !self.response_type@.contains(
                        (#[trigger] rrs[i]).rtype,
                    ) by {
                        assert(types@[i] == rrs[i].rtype);
                    }
                }
                return false;
            }
            proof {
                let rrs = answers_of(resp@, question_end as int);
                let i = choose|i: int|
                    0 <= i < types@.len() && self.response_type@.contains(#[trigger] types@[i]);
                assert(types@[i] == rrs[i].rtype);
            }
        }
        if self.response_rcode.len() != 0 && !contains_u8(&self.response_rcode, rcode(resp)) {
            return false;
        }
        if self.response_qclass.len() != 0 {
            let qclass: u16 = match question_qclass(resp, question_end) {
                Some(c) => c,
                None => 0,
            };
            if !contains_u16(&self.response_qclass, qclass) {
                return false;
            }
        }
        true
    }
}

fn contains_u16(list: &Vec<u16>, x: u16) -> (r: bool)
    ensures
        r == list@.contains(x),
{
    let mut i: usize = 0;
    while i < list.len()
        invariant
            i <= list@.len(),
            forall|j: int| 0 <= j < i ==> list@[j] != x,
        decreases list@.len() - i,
    {
        if list[i] == x {
            return true;
        }
        i += 1;
    }
    false
}

fn contains_u8(list: &Vec<u8>, x: u8) -> (r: bool)
    ensures
        r == list@.contains(x),
{
    let mut i: usize = 0;
    while i < list.len()
        invariant
            i <= list@.len(),
            forall|j: int| 0 <= j < i ==> list@[j] != x,
        decreases list@.len() - i,
    {
        if list[i] == x {
            return true;
        }
        i += 1;
    }
    false
}

fn shares_element(found: &Vec<u16>, wanted: &Vec<u16>) -> (r: bool)
    ensures
        r == exists|i: int| 0 <= i < found@.len() && wanted@.contains(#[trigger] found@[i]),
{
    let mut i: usize = 0;
    while i < found.len()
        invariant
            i <= found@.len(),
            forall|j: int| 0 <= j < i ==> !wanted@.contains(#[trigger] found@[j]),
        decreases found@.len() - i,
    {
        if contains_u16(wanted, found[i]) {
            assert(wanted@.contains(found@[i as int]));
            return true;
        }
        i += 1;
    }
    false
}

/// Position of the first filter that the response meets.
pub open spec fn first_met(
    filters: Seq<ResponseFilter>,
    ruleset: Option<&RuleSetDb>,
    resp: Seq<u8>,
    question_end: int,
) -> Option<int>
    decreases filters.len(),
{
    if filters.len() == 0 {
        None
    } else {
        match first_met(filters.drop_last(), ruleset, resp, question_end) {
            Some(i) => Some(i),
            None => if filters.last().meets(ruleset, resp, question_end) {
                Some(filters.len() - 1)
            } else {
                None
            },
        }
    }
}

/// The first filter that the response meets, with its position.
pub fn first_match<'a>(
    filters: &'a [ResponseFilter],
    ruleset: Option<&RuleSetDb>,
    resp: &[u8],
    question_end: usize,
) -> (r: Option<(usize, &'a ResponseFilter)>)
    ensures
        match r {
            Some((i, f)) => first_met(filters@, ruleset, resp@, question_end as int) == Some(
                i as int,
            ) && i < filters@.len() && *f == filters@[i as int],
            None => first_met(filters@, ruleset, resp@, question_end as int) is None,
        },
{
    let mut i: usize = 0;
    while i < filters.len()
        invariant
            i <= filters@.len(),
            first_met(filters@.take(i as int), ruleset, resp@, question_end as int) is None,
        decreases filters@.len() - i,
    {
        proof {
            assert(filters@.take(i + 1).drop_last() =~= filters@.take(i as int));
            assert(filters@.take(i + 1).last() == filters@[i as int]);
        }
        if filters[i].matches(ruleset, resp, question_end) {
            proof {
                lemma_first_met_stays(filters@, i + 1, ruleset, resp@, question_end as int);
            }
            return Some((i, &filters[i]));
        }
        i += 1;
    }
    proof {
        assert(filters@.take(filters@.len() as int) =~= filters@);
    }
    None
}

proof fn lemma_first_met_stays(
    filters: Seq<ResponseFilter>,
    n: int,
    ruleset: Option<&RuleSetDb>,
    resp: Seq<u8>,
    question_end: int,
)
    requires
        0 <= n <= filters.len(),
        first_met(filters.take(n), ruleset, resp, question_end) is Some,
    ensures
        first_met(filters, ruleset, resp, question_end) == first_met(
            filters.take(n),
            ruleset,
            resp,
            question_end,
        ),
    decreases filters.len() - n,
{
    if n < filters.len() {
        assert(filters.take(n + 1).drop_last() =~= filters.take(n));
        lemma_first_met_stays(filters, n + 1, ruleset, resp, question_end);
    } else {
        assert(filters.take(n) =~= filters);
    }
}

/// The filter found is met and none before it is; where none is found, none is met.
pub proof fn law_first_met(
    filters: Seq<ResponseFilter>,
    ruleset: Option<&RuleSetDb>,
    resp: Seq<u8>,
    question_end: int,
)
    ensures
        match first_met(filters, ruleset, resp, question_end) {
            Some(i) => {
                &&& 0 <= i < filters.len()
                &&& filters[i].meets(ruleset, resp, question_end)
                &&& forall|j: int|
                    0 <= j < i ==> !(#[trigger] filters[j]).meets(ruleset, resp, question_end)
            },
            None => forall|j: int|
                0 <= j < filters.len() ==> !(#[trigger] filters[j]).meets(
                    ruleset,
                    resp,
                    question_end,
                ),
        },
    decreases filters.len(),
{
    if filters.len() > 0 {
        let front = filters.drop_last();
        law_first_met(front, ruleset, resp, question_end);
        assert forall|j: int| 0 <= j < front.len() implies front[j] == #[trigger] filters[j] by {}
    }
}

// What the criteria mean.

/// A filter that lists response codes is met only by responses whose code, the low half of their
/// fourth byte, is listed; and one that lists nothing but the code of a response is met by it.
pub proof fn law_listed_codes_decide(
    f: ResponseFilter,
    ruleset: Option<&RuleSetDb>,
    resp: Seq<u8>,
    question_end: int,
)
    requires
        resp.len() >= 4,
        f.response_rcode@.len() > 0,
    ensures
        f.meets(ruleset, resp, question_end) ==> f.response_rcode@.contains(
            (resp[3] % 16) as u8,
        ),
        f.answer_ip.includes@.len() == 0 && f.answer_ip.excludes@.len() == 0
            && f.response_type@.len() == 0 && f.response_qclass@.len() == 0 ==> (f.meets(
            ruleset,
            resp,
            question_end,
        ) <==> f.response_rcode@.contains((resp[3] % 16) as u8)),
{
    let b = resp[3];
    assert(b & 0x0f == b % 16) by (bit_vector);
}

/// A filter that lists record types is met only by responses with an answer record of a listed
/// type; and one that lists nothing else is met by every such response.
pub proof fn law_listed_types_decide(
    f: ResponseFilter,
    ruleset: Option<&RuleSetDb>,
    resp: Seq<u8>,
    question_end: int,
)
    requires
        f.response_type@.len() > 0,
    ensures
        f.meets(ruleset, resp, question_end) ==> exists|i: int, j: int|
            0 <= i < answers_of(resp, question_end).len() && 0 <= j < f.response_type@.len()
                && #[trigger] answers_of(resp, question_end)[i].rtype
                == #[trigger] f.response_type@[j],
        f.answer_ip.includes@.len() == 0 && f.answer_ip.excludes@.len() == 0
            && f.response_rcode@.len() == 0 && f.response_qclass@.len() == 0 ==> forall|
            i: int,
            j: int,
        |
            0 <= i < answers_of(resp, question_end).len() && 0 <= j < f.response_type@.len()
                && #[trigger] answers_of(resp, question_end)[i].rtype
                == #[trigger] f.response_type@[j] ==> f.meets(ruleset, resp, question_end),
{
    let rrs = answers_of(resp, question_end);
    if f.meets(ruleset, resp, question_end) {
        let i = choose|i: int|
            0 <= i < rrs.len() && f.response_type@.contains((#[trigger] rrs[i]).rtype);
        let j = choose|j: int|
            0 <= j < f.response_type@.len() && f.response_type@[j] == rrs[i].rtype;
        assert(rrs[i].rtype == f.response_type@[j]);
    }
    assert forall|i: int, j: int|
        0 <= i < rrs.len() && 0 <= j < f.response_type@.len() && #[trigger] rrs[i].rtype
            == #[trigger] f.response_type@[j] implies f.response_type@.contains(rrs[i].rtype) by {}
}

/// A filter that lists classes is met only by responses to a question of a listed class, the last
/// two bytes of the question; and one that lists nothing else is met by every such response.
pub proof fn law_listed_classes_decide(
    f: ResponseFilter,
    ruleset: Option<&RuleSetDb>,
    resp: Seq<u8>,
    question_end: int,
)
    requires
        f.response_qclass@.len() > 0,
        2 <= question_end <= resp.len(),
    ensures
        f.meets(ruleset, resp, question_end) ==> f.response_qclass@.contains(
            (resp[question_end - 2] * 256 + resp[question_end - 1]) as u16,
        ),
        f.answer_ip.includes@.len() == 0 && f.answer_ip.excludes@.len() == 0
            && f.response_rcode@.len() == 0 && f.response_type@.len() == 0 ==> (f.meets(
            ruleset,
            resp,
            question_end,
        ) <==> f.response_qclass@.contains(
            (resp[question_end - 2] * 256 + resp[question_end - 1]) as u16,
        )),
{
}

/// A filter that names address tags is met only where a database says so of the addresses in the
/// answer; without a database it is never met. One that names nothing else is met by every response
/// of which the database says so.
pub proof fn law_answer_addresses_decide(
    f: ResponseFilter,
    db: &RuleSetDb,
    resp: Seq<u8>,
    question_end: int,
)
    requires
        f.answer_ip.includes@.len() > 0 || f.answer_ip.excludes@.len() > 0,
    ensures
        !f.meets(None, resp, question_end),
        f.meets(Some(db), resp, question_end) ==> db.answer_meets(
            f.answer_ip,
            answer_ips_of(resp, question_end),
        ),
        f.response_rcode@.len() == 0 && f.response_type@.len() == 0 && f.response_qclass@.len()
            == 0 ==> (f.meets(Some(db), resp, question_end) <==> db.answer_meets(
            f.answer_ip,
            answer_ips_of(resp, question_end),
        )),
{
}

/// The criteria of a filter are independent: a filter is met exactly when each of its criteria is
/// met on its own. One without criteria is met by every response.
pub proof fn law_all_criteria_must_hold(
    f: ResponseFilter,
    by_ip: ResponseFilter,
    by_type: ResponseFilter,
    by_code: ResponseFilter,
    by_class: ResponseFilter,
    ruleset: Option<&RuleSetDb>,
    resp: Seq<u8>,
    question_end: int,
)
    requires
        by_ip.answer_ip == f.answer_ip && by_ip.response_type@.len() == 0
            && by_ip.response_rcode@.len() == 0 && by_ip.response_qclass@.len() == 0,
        by_type.response_type == f.response_type && by_type.answer_ip.includes@.len() == 0
            && by_type.answer_ip.excludes@.len() == 0 && by_type.response_rcode@.len() == 0
            && by_type.response_qclass@.len() == 0,
        by_code.response_rcode == f.response_rcode && by_code.answer_ip.includes@.len() == 0
            && by_code.answer_ip.excludes@.len() == 0 && by_code.response_type@.len() == 0
            && by_code.response_qclass@.len() == 0,
        by_class.response_qclass == f.response_qclass && by_class.answer_ip.includes@.len() == 0
            && by_class.answer_ip.excludes@.len() == 0 && by_class.response_type@.len() == 0
            && by_class.response_rcode@.len() == 0,
    ensures
        f.meets(ruleset, resp, question_end) <==> by_ip.meets(ruleset, resp, question_end)
            && by_type.meets(ruleset, resp, question_end) && by_code.meets(
            ruleset,
            resp,
            question_end,
        ) && by_class.meets(ruleset, resp, question_end),
        f.answer_ip.includes@.len() == 0 && f.answer_ip.excludes@.len() == 0
            && f.response_type@.len() == 0 && f.response_rcode@.len() == 0
            && f.response_qclass@.len() == 0 ==> f.meets(ruleset, resp, question_end),
{
}

} // verus!
