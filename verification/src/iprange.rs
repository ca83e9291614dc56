//! IP addresses and sets of address ranges.

use crate::text::{
    byte_views, contains_byte, decimal_text, decimal_value, has_byte, is_decimal, is_digit,
    law_decimal_text_reads_back, law_split_around, law_split_of_piece, occurs_at, parse_u64,
    split_bytes, split_on,
};
use vstd::arithmetic::power::{lemma_pow0, pow};
use vstd::arithmetic::power2::pow2;
use vstd::prelude::*;
use vstd::slice::slice_subrange;
verus! {

/// An IP address by its numeric value.
#[derive(Clone, Copy, Debug, PartialEq, Eq, Structural)]
pub enum IpAddr {
    V4(u32),
    V6(u128),
}

/// A value that lies in one of the ranges, both ends taken in.
pub open spec fn covered(ranges: Seq<(u128, u128)>, x: u128) -> bool {
    exists|i: int| 0 <= i < ranges.len() && (#[trigger] ranges[i]).0 <= x && x <= ranges[i].1
}

/// Ranges in ascending order with a gap between any two of them.
pub open spec fn separated(ranges: Seq<(u128, u128)>) -> bool {
    &&& forall|i: int| 0 <= i < ranges.len() ==> (#[trigger] ranges[i]).0 <= ranges[i].1
    &&& forall|i: int, j: int|
        0 <= i < j < ranges.len() ==> (#[trigger] ranges[i]).1 + 1 < (#[trigger] ranges[j]).0
}

/// Ascending, separated ranges.
pub struct RangeList {
    ranges: Vec<(u128, u128)>,
}

impl View for RangeList {
    type V = Seq<(u128, u128)>;

    closed spec fn view(&self) -> Seq<(u128, u128)> {
        self.ranges@
    }
}

impl RangeList {
    #[verifier::type_invariant]
    spec fn inv(self) -> bool {
        separated(self.ranges@)
    }

    pub fn new() -> (r: Self)
        ensures
            r@ == Seq::<(u128, u128)>::empty(),
    {
        RangeList { ranges: Vec::new() }
    }

    /// The number of separated ranges.
    pub fn len(&self) -> (r: usize)
        ensures
            r == self@.len(),
            separated(self@),
    {
        proof {
            use_type_invariant(self);
        }
        self.ranges.len()
    }

    /// Whether some range holds `x`.
    pub fn contains(&self, x: u128) -> (r: bool)
        ensures
            r == covered(self@, x),
    {
        proof {
            use_type_invariant(self);
        }
        let mut lo: usize = 0;
        let mut hi: usize = self.ranges.len();
        while lo < hi
            invariant
                lo <= hi <= self.ranges@.len(),
                separated(self.ranges@),
                forall|i: int| 0 <= i < lo ==> (#[trigger] self.ranges@[i]).1 < x,
                forall|i: int| hi <= i < self.ranges@.len() ==> x < (#[trigger] self.ranges@[i]).0,
            decreases hi - lo,
        {
            let mid: usize = lo + (hi - lo) / 2;
            let (from, to) = self.ranges[mid];
            if to < x {
                assert forall|i: int| 0 <= i < mid + 1 implies (#[trigger] self.ranges@[i]).1 < x by {
                    if i < mid {
                        assert(self.ranges@[i].1 + 1 < self.ranges@[mid as int].0);
                    }
                }
                lo = mid + 1;
            } else if x < from {
                assert forall|i: int| mid <= i < self.ranges@.len() implies x < (
                #[trigger] self.ranges@[i]).0 by {
                    if mid < i {
                        assert(self.ranges@[mid as int].1 + 1 < self.ranges@[i].0);
                    }
                }
                hi = mid;
            } else {
                assert(self.ranges@[mid as int].0 <= x && x <= self.ranges@[mid as int].1);
                return true;
            }
        }
        false
    }

    /// These ranges and every value from `from` to `to`, both taken in.
    pub fn with(&self, from: u128, to: u128) -> (r: Self)
        requires
            from <= to,
        ensures
            forall|x: u128| #[trigger]
                covered(r@, x) <==> covered(self@, x) || (from <= x && x <= to),
    {
        proof {
            use_type_invariant(self);
        }
        let ghost before = self.ranges@;
        let n: usize = self.ranges.len();
        let mut out: Vec<(u128, u128)> = Vec::new();
        let mut i: usize = 0;
        while i < n && self.ranges[i].1 < from && from - self.ranges[i].1 > 1
            invariant
                i <= n,
                n == before.len(),
                before == self.ranges@,
                out@ == before.take(i as int),
                forall|k: int| 0 <= k < i ==> (#[trigger] before[k]).1 + 1 < from,
            decreases n - i,
        {
            out.push(self.ranges[i]);
            i += 1;
            assert(out@ =~= before.take(i as int));
        }
        let ghost head = i as int;
        let mut lo: u128 = from;
        let mut hi: u128 = to;
        while i < n && !(self.ranges[i].0 > hi && self.ranges[i].0 - hi > 1)
            invariant
                0 <= head <= i <= n,
                n == before.len(),
                before == self.ranges@,
                separated(before),
                out@ == before.take(head),
                lo <= from <= to <= hi,
                forall|k: int| 0 <= k < head ==> (#[trigger] before[k]).1 + 1 < lo,
                head < n ==> before[head].1 + 1 >= from,
                i < n ==> before[i as int].1 + 1 >= lo,
                forall|k: int| head <= k < i ==> lo <= (#[trigger] before[k]).0 && before[k].1 <= hi,
                forall|x: u128|
                    lo <= x <= hi ==> (from <= x <= to) || #[trigger] covered(before, x),
            decreases n - i,
        {
            let (a, b) = self.ranges[i];
            let ghost lo0 = lo;
            let ghost hi0 = hi;
            if a < lo {
                lo = a;
            }
            if b > hi {
                hi = b;
            }
            proof {
                assert forall|x: u128| lo <= x <= hi implies (from <= x <= to)
                    || #[trigger] covered(before, x) by {
                    if !(lo0 <= x <= hi0) {
                        assert(before[i as int].0 <= x && x <= before[i as int].1);
                    }
                }
                assert forall|k: int| 0 <= k < head implies (#[trigger] before[k]).1 + 1 < lo by {
                    assert(before[k].1 + 1 < before[i as int].0);
                }
                if i + 1 < n {
                    assert(before[i as int].1 + 1 < before[i + 1].0);
                }
            }
            i += 1;
        }
        out.push((lo, hi));
        let ghost mid = i as int;
        while i < n
            invariant
                0 <= head <= mid <= i <= n,
                n == before.len(),
                before == self.ranges@,
                out@ == before.take(head).push((lo, hi)) + before.subrange(mid, i as int),
            decreases n - i,
        {
            out.push(self.ranges[i]);
            i += 1;
            assert(out@ =~= before.take(head).push((lo, hi)) + before.subrange(mid, i as int));
        }
        proof {
            let after = out@;
            assert(after.len() == head + 1 + (n - mid));
            assert forall|k: int| 0 <= k < after.len() implies #[trigger] after[k] == (if k < head {
                before[k]
            } else if k == head {
                (lo, hi)
            } else {
                before[k - head - 1 + mid]
            }) by {}
            assert(mid < n ==> before[mid].0 > hi + 1);
            assert forall|k: int| mid <= k < n implies (#[trigger] before[k]).0 > hi + 1 by {
                if mid < k {
                    assert(before[mid].1 + 1 < before[k].0);
                }
            }
            assert(separated(after));
            assert forall|x: u128| #[trigger]
                covered(after, x) <==> covered(before, x) || (from <= x && x <= to) by {
                if covered(after, x) {
                    let k = choose|k: int|
                        0 <= k < after.len() && (#[trigger] after[k]).0 <= x && x <= after[k].1;
                    if k < head {
                        assert(before[k].0 <= x && x <= before[k].1);
                    } else if k > head {
                        let q = k - head - 1 + mid;
                        assert(before[q].0 <= x && x <= before[q].1);
                    }
                }
                if covered(before, x) {
                    let k = choose|k: int|
                        0 <= k < before.len() && (#[trigger] before[k]).0 <= x && x <= before[k].1;
                    if k < head {
                        assert(after[k] == before[k]);
                    } else if k < mid {
                        assert(after[head] == (lo, hi));
                    } else {
                        assert(after[k - mid + head + 1] == before[k]);
                    }
                }
                if from <= x && x <= to {
                    assert(after[head] == (lo, hi));
                }
            }
        }
        RangeList { ranges: out }
    }
}

/// `ip` is held, and the address before it is not.
pub open spec fn starts_range(held: spec_fn(IpAddr) -> bool, ip: IpAddr) -> bool {
    held(ip) && match ip {
        IpAddr::V4(a) => a == 0 || !held(IpAddr::V4((a - 1) as u32)),
        IpAddr::V6(a) => a == 0 || !held(IpAddr::V6((a - 1) as u128)),
    }
}

/// The number of separated ranges that addresses make: of those at which one starts.
pub open spec fn range_count(held: spec_fn(IpAddr) -> bool) -> nat {
    Set::new(|ip: IpAddr| starts_range(held, ip)).len()
}

/// Address ranges of both families.
pub struct IpRangeSet {
    v4: RangeList,
    v6: RangeList,
}

impl IpRangeSet {
    /// `ip` lies in one of the ranges of its family.
    pub closed spec fn holds(self, ip: IpAddr) -> bool {
        match ip {
            IpAddr::V4(a) => covered(self.v4@, a as u128),
            IpAddr::V6(a) => covered(self.v6@, a),
        }
    }

    #[verifier::type_invariant]
    spec fn inv(self) -> bool {
        forall|x: u128| #[trigger] covered(self.v4@, x) ==> x <= u32::MAX
    }

    /// The number of separated ranges.
    pub open spec fn count(self) -> nat {
        range_count(|ip: IpAddr| self.holds(ip))
    }

    pub fn new() -> (r: Self)
        ensures
            forall|ip: IpAddr| !r.holds(ip),
            r.count() == 0,
    {
        let r = IpRangeSet { v4: RangeList::new(), v6: RangeList::new() };
        proof {
            let held = |ip: IpAddr| r.holds(ip);
            assert(Set::new(|ip: IpAddr| starts_range(held, ip)) =~= Set::<IpAddr>::empty());
        }
        r
    }

    /// Whether `ip` lies in one of the ranges of its family.
    pub fn contains(&self, ip: IpAddr) -> (r: bool)
        ensures
            r == self.holds(ip),
    {
        match ip {
            IpAddr::V4(a) => self.v4.contains(a as u128),
            IpAddr::V6(a) => self.v6.contains(a),
        }
    }

    /// The number of separated ranges, or `usize::MAX` when it does not fit.
    pub fn len(&self) -> (r: usize)
        ensures
            r == (if self.count() <= usize::MAX {
                self.count()
            } else {
                usize::MAX as nat
            }),
    {
        proof {
            use_type_invariant(self);
        }
        let four: usize = self.v4.len();
        let six: usize = self.v6.len();
        proof {
            lemma_range_count(*self);
        }
        four.saturating_add(six)
    }

    /// Adds the addresses from `from` to `to`; nothing when the two differ in family.
    pub fn push_range(&mut self, from: IpAddr, to: IpAddr)
        ensures
            forall|ip: IpAddr| #[trigger]
                final(self).holds(ip) <==> old(self).holds(ip) || in_range(from, to, ip),
    {
        proof {
            use_type_invariant(&*self);
        }
        let ghost before = *self;
        match (from, to) {
            (IpAddr::V4(a), IpAddr::V4(b)) => {
                if a <= b {
                    self.v4 = self.v4.with(a as u128, b as u128);
                }
                proof {
                    assert forall|ip: IpAddr| #[trigger]
                        self.holds(ip) <==> before.holds(ip) || in_range(from, to, ip) by {
                        if ip is V4 && a <= b {
                            assert(covered(self.v4@, ip->V4_0 as u128) <==> covered(
                                before.v4@,
                                ip->V4_0 as u128,
                            ) || (a <= ip->V4_0 && ip->V4_0 <= b));
                        }
                    }
                }
            },
            (IpAddr::V6(a), IpAddr::V6(b)) => {
                if a <= b {
                    self.v6 = self.v6.with(a, b);
                }
            },
            _ => {},
        }
    }
}

/// In separated ranges a value that is covered while the one before it is not is where a range
/// starts.
proof fn lemma_range_starts(ranges: Seq<(u128, u128)>, x: u128)
    requires
        separated(ranges),
    ensures
        covered(ranges, x) && (x == 0 || !covered(ranges, (x - 1) as u128)) <==> exists|i: int|
            0 <= i < ranges.len() && (#[trigger] ranges[i]).0 == x,
{
    if covered(ranges, x) && (x == 0 || !covered(ranges, (x - 1) as u128)) {
        let i = choose|i: int|
            0 <= i < ranges.len() && (#[trigger] ranges[i]).0 <= x && x <= ranges[i].1;
        if ranges[i].0 < x {
            assert(ranges[i].0 <= x - 1 && x - 1 <= ranges[i].1);
            assert(covered(ranges, (x - 1) as u128));
        }
    }
    if exists|i: int| 0 <= i < ranges.len() && (#[trigger] ranges[i]).0 == x {
        let i = choose|i: int| 0 <= i < ranges.len() && (#[trigger] ranges[i]).0 == x;
        assert(ranges[i].0 <= x && x <= ranges[i].1);
        if x > 0 && covered(ranges, (x - 1) as u128) {
            let k = choose|k: int|
                0 <= k < ranges.len() && (#[trigger] ranges[k]).0 <= (x - 1) as u128 && (x
                    - 1) as u128 <= ranges[k].1;
            if k < i {
                assert(ranges[k].1 + 1 < ranges[i].0);
            } else if i < k {
                assert(ranges[i].1 + 1 < ranges[k].0);
            }
        }
    }
}

/// Each range of either family has one start, and no two share it.
proof fn lemma_range_count(s: IpRangeSet)
    requires
        separated(s.v4@),
        separated(s.v6@),
        forall|x: u128| #[trigger] covered(s.v4@, x) ==> x <= u32::MAX,
    ensures
        s.count() == s.v4@.len() + s.v6@.len(),
{
    let four = s.v4@;
    let six = s.v6@;
    assert forall|i: int| 0 <= i < four.len() implies (#[trigger] four[i]).0 <= u32::MAX by {
        assert(covered(four, four[i].0)) by {
            assert(four[i].0 <= four[i].1);
        }
    }
    let starts = Seq::new(
        four.len() + six.len(),
        |i: int|
            if i < four.len() {
                IpAddr::V4(four[i].0 as u32)
            } else {
                IpAddr::V6(six[i - four.len()].0)
            },
    );
    assert(starts.no_duplicates()) by {
        assert forall|i: int, j: int| 0 <= i < j < starts.len() implies starts[i] != starts[j] by {
            if j < four.len() {
                assert(four[i].1 + 1 < four[j].0);
            } else if i >= four.len() {
                assert(six[i - four.len()].1 + 1 < six[j - four.len()].0);
            }
        }
    }
    let held = |ip: IpAddr| s.holds(ip);
    let set = Set::new(|ip: IpAddr| starts_range(held, ip));
    assert forall|ip: IpAddr| set.contains(ip) <==> starts.to_set().contains(ip) by {
        match ip {
            IpAddr::V4(a) => {
                lemma_range_starts(four, a as u128);
                if set.contains(ip) {
                    let i = choose|i: int|
                        0 <= i < four.len() && (#[trigger] four[i]).0 == a as u128;
                    assert(starts[i] == ip);
                }
                if starts.contains(ip) {
                    let i = choose|i: int| 0 <= i < starts.len() && starts[i] == ip;
                    assert(four[i].0 == a as u128);
                }
            },
            IpAddr::V6(a) => {
                lemma_range_starts(six, a);
                if set.contains(ip) {
                    let i = choose|i: int| 0 <= i < six.len() && (#[trigger] six[i]).0 == a;
                    assert(starts[i + four.len()] == ip);
                }
                if starts.contains(ip) {
                    let i = choose|i: int| 0 <= i < starts.len() && starts[i] == ip;
                    assert(six[i - four.len()].0 == a);
                }
            },
        }
    }
    assert(set =~= starts.to_set());
    starts.unique_seq_to_set();
}

/// `ip` is of the family of both ends and lies between them.
pub open spec fn in_range(from: IpAddr, to: IpAddr, ip: IpAddr) -> bool {
    match (from, to, ip) {
        (IpAddr::V4(a), IpAddr::V4(b), IpAddr::V4(x)) => a <= x && x <= b,
        (IpAddr::V6(a), IpAddr::V6(b), IpAddr::V6(x)) => a <= x && x <= b,
        _ => false,
    }
}

/// A decimal octet: one to three digits, no leading zero, at most 255.
pub open spec fn octet_value(s: Seq<u8>) -> Option<nat> {
    if is_decimal(s) && s.len() <= 3 && (s.len() == 1 || s[0] != 48) && decimal_value(s) <= 255 {
        Some(decimal_value(s))
    } else {
        None
    }
}

/// Value of dotted-quad text.
pub open spec fn v4_value(s: Seq<u8>) -> Option<u32> {
    let p = split_on(s, 46);
    if p.len() == 4 && octet_value(p[0]) is Some && octet_value(p[1]) is Some && octet_value(p[2])
        is Some && octet_value(p[3]) is Some {
        Some(
            (octet_value(p[0])->0 * 16777216 + octet_value(p[1])->0 * 65536 + octet_value(p[2])->0
                * 256 + octet_value(p[3])->0) as u32,
        )
    } else {
        None
    }
}

pub open spec fn hex_digit(b: u8) -> Option<nat> {
    if 48 <= b && b <= 57 {
        Some((b - 48) as nat)
    } else if 97 <= b && b <= 102 {
        Some((b - 87) as nat)
    } else if 65 <= b && b <= 70 {
        Some((b - 55) as nat)
    } else {
        None
    }
}

/// Value of a run of hexadecimal digits; `None` when a byte is no such digit.
pub open spec fn hex_value(s: Seq<u8>) -> Option<nat>
    decreases s.len(),
{
    if s.len() == 0 {
        Some(0)
    } else {
        match (hex_value(s.drop_last()), hex_digit(s.last())) {
            (Some(front), Some(d)) => Some(front * 16 + d),
            _ => None,
        }
    }
}

/// One group of an IPv6 address: one to four hexadecimal digits.
pub open spec fn group_value(s: Seq<u8>) -> Option<nat> {
    if 1 <= s.len() && s.len() <= 4 {
        hex_value(s)
    } else {
        None
    }
}

/// Groups of a list of pieces, all of them hexadecimal.
pub open spec fn plain_groups(p: Seq<Seq<u8>>) -> Option<Seq<nat>>
    decreases p.len(),
{
    if p.len() == 0 {
        Some(Seq::empty())
    } else {
        match (plain_groups(p.drop_last()), group_value(p.last())) {
            (Some(front), Some(g)) => Some(front.push(g)),
            _ => None,
        }
    }
}

/// Groups of colon-separated text; with `tail_v4` the last piece may be a dotted quad, which
/// stands for two groups.
pub open spec fn groups_of(s: Seq<u8>, tail_v4: bool) -> Option<Seq<nat>> {
    if s.len() == 0 {
        Some(Seq::empty())
    } else {
        let p = split_on(s, 58);
        if tail_v4 && has_byte(p.last(), 46) {
            match (plain_groups(p.drop_last()), v4_value(p.last())) {
                (Some(front), Some(v)) => Some(
                    front.push((v / 65536) as nat).push((v % 65536) as nat),
                ),
                _ => None,
            }
        } else {
            plain_groups(p)
        }
    }
}

/// Number made of big-endian 16-bit groups.
pub open spec fn groups_number(g: Seq<nat>) -> nat
    decreases g.len(),
{
    if g.len() == 0 {
        0
    } else {
        groups_number(g.drop_last()) * 65536 + g.last()
    }
}

/// `p` is the first position of `::`, or the length of a text without one.
pub open spec fn is_double_colon(s: Seq<u8>, p: int) -> bool {
    &&& 0 <= p <= s.len()
    &&& p == s.len() || occurs_at(s, seq![58u8, 58u8], p)
    &&& forall|q: int| 0 <= q < p ==> !occurs_at(s, seq![58u8, 58u8], q)
}

/// First position of `::`, or the length of the text.
pub open spec fn double_colon(s: Seq<u8>) -> int {
    choose|p: int| is_double_colon(s, p)
}

/// Value of IPv6 text.
pub open spec fn v6_value(s: Seq<u8>) -> Option<u128> {
    let p = double_colon(s);
    if p == s.len() {
        match groups_of(s, true) {
            Some(g) => if g.len() == 8 {
                Some(groups_number(g) as u128)
            } else {
                None
            },
            None => None,
        }
    } else {
        match (groups_of(s.take(p), false), groups_of(s.skip(p + 2), true)) {
            (Some(l), Some(r)) => if l.len() + r.len() <= 7 {
                Some(
                    groups_number(l + Seq::new((8 - l.len() - r.len()) as nat, |i: int| 0nat) + r)
                        as u128,
                )
            } else {
                None
            },
            _ => None,
        }
    }
}

/// Value of address text of either family.
pub open spec fn ip_value(s: Seq<u8>) -> Option<IpAddr> {
    match v4_value(s) {
        Some(v) => Some(IpAddr::V4(v)),
        None => match v6_value(s) {
            Some(v) => Some(IpAddr::V6(v)),
            None => None,
        },
    }
}

/// Range of a block text: an address, or an address, a slash and the number of fixed bits.
pub open spec fn cidr_value(s: Seq<u8>) -> Option<(IpAddr, IpAddr)> {
    if has_byte(s, 47) {
        let p = split_on(s, 47);
        if p.len() == 2 && is_decimal(p[1]) && p[1].len() <= 3 {
            let len = decimal_value(p[1]);
            match ip_value(p[0]) {
                Some(IpAddr::V4(a)) => if len <= 32 {
                    let size = pow2((32 - len) as nat) as int;
                    Some(
                        (
                            IpAddr::V4((a - a as int % size) as u32),
                            IpAddr::V4((a - a as int % size + size - 1) as u32),
                        ),
                    )
                } else {
                    None
                },
                Some(IpAddr::V6(a)) => if len <= 128 {
                    let size = pow2((128 - len) as nat) as int;
                    Some(
                        (
                            IpAddr::V6((a - a as int % size) as u128),
                            IpAddr::V6((a - a as int % size + size - 1) as u128),
                        ),
                    )
                } else {
                    None
                },
                None => None,
            }
        } else {
            None
        }
    } else {
        match ip_value(s) {
            Some(a) => Some((a, a)),
            None => None,
        }
    }
}

fn parse_octet(s: &[u8]) -> (r: Option<u32>)
    ensures
        match r {
            Some(v) => octet_value(s@) == Some(v as nat),
            None => octet_value(s@) is None,
        },
{
    if s.len() == 0 || s.len() > 3 || (s.len() > 1 && s[0] == 48) || s[0] == 43 {
        proof {
            if s@.len() > 0 && s@[0] == 43 {
                assert(!is_digit(s@[0]));
            }
        }
        return None;
    }
    match parse_u64(s) {
        Some(v) => if v <= 255 {
            Some(v as u32)
        } else {
            None
        },
        None => {
            proof {
                if is_decimal(s@) {
                    lemma_three_digits(s@);
                }
            }
            None
        },
    }
}

proof fn lemma_three_digits(s: Seq<u8>)
    requires
        is_decimal(s),
        s.len() <= 3,
    ensures
        decimal_value(s) <= 999,
{
    reveal_with_fuel(decimal_value, 4);
    assert(forall|i: int| 0 <= i < s.len() ==> is_digit(#[trigger] s[i]));
    if s.len() >= 2 {
        assert(s.drop_last().last() == s[s.len() - 2]);
    }
    if s.len() >= 3 {
        assert(s.drop_last().drop_last().last() == s[s.len() - 3]);
    }
    assert(is_digit(s[s.len() - 1]));
}

/// Parses dotted-quad text.
pub fn parse_v4(s: &[u8]) -> (r: Option<u32>)
    ensures
        r == v4_value(s@),
{
    let p = split_bytes(s, 46);
    proof {
        assert(byte_views(p@).len() == p@.len());
    }
    if p.len() != 4 {
        return None;
    }
    proof {
        assert(byte_views(p@)[0] == p@[0]@);
        assert(byte_views(p@)[1] == p@[1]@);
        assert(byte_views(p@)[2] == p@[2]@);
        assert(byte_views(p@)[3] == p@[3]@);
    }
    match (
        parse_octet(p[0].as_slice()),
        parse_octet(p[1].as_slice()),
        parse_octet(p[2].as_slice()),
        parse_octet(p[3].as_slice()),
    ) {
        (Some(a), Some(b), Some(c), Some(d)) => Some(a * 16777216 + b * 65536 + c * 256 + d),
        _ => None,
    }
}

fn parse_hex_digit(b: u8) -> (r: Option<u32>)
    ensures
        match r {
            Some(v) => hex_digit(b) == Some(v as nat) && v < 16,
            None => hex_digit(b) is None,
        },
{
    if 48 <= b && b <= 57 {
        Some((b - 48) as u32)
    } else if 97 <= b && b <= 102 {
        Some((b - 87) as u32)
    } else if 65 <= b && b <= 70 {
        Some((b - 55) as u32)
    } else {
        None
    }
}

proof fn lemma_hex_front(s: Seq<u8>, n: int)
    requires
        0 <= n <= s.len(),
        hex_value(s) is Some,
    ensures
        hex_value(s.take(n)) is Some,
    decreases s.len() - n,
{
    if n == s.len() {
        assert(s.take(n) =~= s);
    } else {
        lemma_hex_front(s, n + 1);
        assert(s.take(n + 1).drop_last() =~= s.take(n));
    }
}

fn parse_group(s: &[u8]) -> (r: Option<u32>)
    ensures
        match r {
            Some(v) => group_value(s@) == Some(v as nat) && v < 65536,
            None => group_value(s@) is None,
        },
{
    if s.len() == 0 || s.len() > 4 {
        return None;
    }
    let mut v: u32 = 0;
    let mut i: usize = 0;
    let ghost mut bound: int = 1;
    while i < s.len()
        invariant
            i <= s@.len(),
            1 <= s@.len() <= 4,
            hex_value(s@.take(i as int)) == Some(v as nat),
            v < bound,
            bound == (if i == 0 {
                1int
            } else if i == 1 {
                16
            } else if i == 2 {
                256
            } else if i == 3 {
                4096
            } else {
                65536
            }),
        decreases s@.len() - i,
    {
        proof {
            assert(s@.take(i + 1).drop_last() =~= s@.take(i as int));
            assert(s@.take(i + 1).last() == s@[i as int]);
        }
        match parse_hex_digit(s[i]) {
            Some(d) => {
                v = v * 16 + d;
                proof {
                    bound = bound * 16;
                }
            },
            None => {
                proof {
                    if hex_value(s@) is Some {
                        lemma_hex_front(s@, i + 1);
                    }
                }
                return None;
            },
        }
        i += 1;
    }
    proof {
        assert(s@.take(s@.len() as int) =~= s@);
    }
    Some(v)
}

/// Groups as mathematical numbers.
spec fn as_numbers(g: Seq<u32>) -> Seq<nat> {
    g.map_values(|x: u32| x as nat)
}

spec fn small(g: Seq<u32>) -> bool {
    forall|i: int| 0 <= i < g.len() ==> #[trigger] g[i] < 65536
}

proof fn lemma_groups_front(p: Seq<Seq<u8>>, n: int)
    requires
        0 <= n <= p.len(),
        plain_groups(p) is Some,
    ensures
        plain_groups(p.take(n)) is Some,
    decreases p.len() - n,
{
    if n == p.len() {
        assert(p.take(n) =~= p);
    } else {
        lemma_groups_front(p, n + 1);
        assert(p.take(n + 1).drop_last() =~= p.take(n));
    }
}

fn parse_plain_groups(p: &Vec<Vec<u8>>, n: usize) -> (r: Option<Vec<u32>>)
    requires
        n <= p@.len(),
    ensures
        match r {
            Some(g) => plain_groups(byte_views(p@).take(n as int)) == Some(as_numbers(g@)) && small(
                g@,
            ),
            None => plain_groups(byte_views(p@).take(n as int)) is None,
        },
{
    let ghost all = byte_views(p@).take(n as int);
    let mut g: Vec<u32> = Vec::new();
    let mut i: usize = 0;
    proof {
        assert(as_numbers(g@) =~= Seq::<nat>::empty());
        assert(all.take(0) =~= Seq::<Seq<u8>>::empty());
    }
    while i < n
        invariant
            i <= n <= p@.len(),
            all == byte_views(p@).take(n as int),
            plain_groups(all.take(i as int)) == Some(as_numbers(g@)),
            small(g@),
        decreases n - i,
    {
        proof {
            assert(all.take(i + 1).drop_last() =~= all.take(i as int));
            assert(all.take(i + 1).last() == p@[i as int]@);
        }
        match parse_group(p[i].as_slice()) {
            Some(v) => {
                let ghost g0 = g@;
                g.push(v);
                proof {
                    assert(as_numbers(g@) =~= as_numbers(g0).push(v as nat));
                }
            },
            None => {
                proof {
                    if plain_groups(all) is Some {
                        lemma_groups_front(all, i + 1);
                    }
                }
                return None;
            },
        }
        i += 1;
    }
    proof {
        assert(all.take(n as int) =~= all);
    }
    Some(g)
}

fn parse_groups(s: &[u8], tail_v4: bool) -> (r: Option<Vec<u32>>)
    ensures
        match r {
            Some(g) => groups_of(s@, tail_v4) == Some(as_numbers(g@)) && small(g@),
            None => groups_of(s@, tail_v4) is None,
        },
{
    if s.len() == 0 {
        let g: Vec<u32> = Vec::new();
        proof {
            assert(as_numbers(g@) =~= Seq::<nat>::empty());
        }
        return Some(g);
    }
    let p = split_bytes(s, 58);
    let n: usize = p.len();
    proof {
        assert(byte_views(p@).last() == p@[n - 1]@);
        assert(byte_views(p@).take(n as int) =~= byte_views(p@));
        assert(byte_views(p@).take(n - 1) =~= byte_views(p@).drop_last());
    }
    if tail_v4 && contains_byte(p[n - 1].as_slice(), 46) {
        match (parse_plain_groups(&p, n - 1), parse_v4(p[n - 1].as_slice())) {
            (Some(mut g), Some(v)) => {
                let ghost g0 = g@;
                g.push(v / 65536);
                g.push(v % 65536);
                proof {
                    assert(as_numbers(g@) =~= as_numbers(g0).push((v / 65536) as nat).push(
                        (v % 65536) as nat,
                    ));
                }
                Some(g)
            },
            _ => None,
        }
    } else {
        parse_plain_groups(&p, n)
    }
}

proof fn lemma_group_bound(g: Seq<u32>, n: int)
    requires
        small(g),
        0 <= n <= g.len(),
        n <= 8,
    ensures
        groups_number(as_numbers(g).take(n)) < pow2((16 * n) as nat),
    decreases n,
{
    let a = as_numbers(g);
    if n == 0 {
        assert(pow2(0) == 1) by {
            vstd::arithmetic::power2::lemma2_to64();
        }
    } else {
        lemma_group_bound(g, n - 1);
        assert(a.take(n).drop_last() =~= a.take(n - 1));
        let x = groups_number(a.take(n - 1));
        assert(a.take(n).last() == g[n - 1]);
        vstd::arithmetic::power2::lemma_pow2_adds((16 * (n - 1)) as nat, 16);
        vstd::arithmetic::power2::lemma2_to64();
        let y = pow2((16 * (n - 1)) as nat);
        assert(x * 65536 + g[n - 1] < y * 65536) by (nonlinear_arith)
            requires
                x + 1 <= y,
                g[n - 1] < 65536,
        ;
    }
}

proof fn lemma_pow2_128()
    ensures
        pow2(128) == u128::MAX + 1,
{
    vstd::arithmetic::power2::lemma2_to64();
    vstd::arithmetic::power2::lemma_pow2_adds(64, 64);
    assert(0x1_0000_0000_0000_0000int * 0x1_0000_0000_0000_0000int == u128::MAX + 1) by (
        nonlinear_arith);
}

fn number_of(g: &Vec<u32>) -> (r: u128)
    requires
        g@.len() == 8,
        small(g@),
    ensures
        r == groups_number(as_numbers(g@)),
{
    let mut v: u128 = 0;
    let mut i: usize = 0;
    let ghost a = as_numbers(g@);
    while i < 8
        invariant
            i <= 8,
            g@.len() == 8,
            small(g@),
            a == as_numbers(g@),
            v == groups_number(a.take(i as int)),
        decreases 8 - i,
    {
        proof {
            assert(a.take(i + 1).drop_last() =~= a.take(i as int));
            assert(a.take(i + 1).last() == g@[i as int]);
            lemma_group_bound(g@, i + 1);
            lemma_pow2_128();
            if i + 1 < 8 {
                vstd::arithmetic::power2::lemma_pow2_strictly_increases(
                    (16 * (i + 1)) as nat,
                    128,
                );
            }
        }
        v = v * 65536 + g[i] as u128;
        i += 1;
    }
    proof {
        assert(a.take(8) =~= a);
    }
    v
}

fn find_double_colon(s: &[u8]) -> (r: usize)
    ensures
        r == double_colon(s@),
        r <= s@.len(),
        r < s@.len() ==> r + 2 <= s@.len(),
{
    let ghost cc = seq![58u8, 58u8];
    let mut i: usize = 0;
    while i < s.len()
        invariant
            i <= s@.len(),
            cc == seq![58u8, 58u8],
            forall|q: int| 0 <= q < i ==> !occurs_at(s@, cc, q),
        decreases s@.len() - i,
    {
        if s[i] == 58 && i < s.len() - 1 && s[i + 1] == 58 {
            proof {
                assert(s@.subrange(i as int, i + 2) =~= cc);
                assert(occurs_at(s@, cc, i as int));
                lemma_double_colon(s@, i as int);
            }
            return i;
        }
        proof {
            if occurs_at(s@, cc, i as int) {
                assert(s@.subrange(i as int, i + 2)[0] == s@[i as int]);
                assert(s@.subrange(i as int, i + 2)[1] == s@[i + 1]);
            }
        }
        i += 1;
    }
    proof {
        lemma_double_colon(s@, s@.len() as int);
    }
    i
}

proof fn lemma_double_colon(s: Seq<u8>, p: int)
    requires
        0 <= p <= s.len(),
        p == s.len() || occurs_at(s, seq![58u8, 58u8], p),
        forall|q: int| 0 <= q < p ==> !occurs_at(s, seq![58u8, 58u8], q),
    ensures
        double_colon(s) == p,
{
    let d = double_colon(s);
    assert(is_double_colon(s, p));
    assert(is_double_colon(s, d));
    if d < p {
        assert(!occurs_at(s, seq![58u8, 58u8], d));
    } else if p < d {
        assert(!occurs_at(s, seq![58u8, 58u8], p));
    }
}

/// Parses IPv6 text.
pub fn parse_v6(s: &[u8]) -> (r: Option<u128>)
    ensures
        r == v6_value(s@),
{
    let p: usize = find_double_colon(s);
    if p == s.len() {
        match parse_groups(s, true) {
            Some(g) => {
                proof {
                    assert(as_numbers(g@).len() == g@.len());
                }
                if g.len() == 8 {
                    Some(number_of(&g))
                } else {
                    None
                }
            },
            None => None,
        }
    } else {
        let left = slice_subrange(s, 0, p);
        let right = slice_subrange(s, p + 2, s.len());
        proof {
            assert(left@ =~= s@.take(p as int));
            assert(right@ =~= s@.skip(p + 2));
        }
        match (parse_groups(left, false), parse_groups(right, true)) {
            (Some(l), Some(mut rest)) => {
                proof {
                    assert(as_numbers(l@).len() == l@.len());
                    assert(as_numbers(rest@).len() == rest@.len());
                }
                if l.len() > 7 || rest.len() > 7 - l.len() {
                    return None;
                }
                let zeros: usize = 8 - l.len() - rest.len();
                let ghost l0 = l@;
                let ghost r0 = rest@;
                let ghost nl = as_numbers(l0);
                let ghost nr = as_numbers(r0);
                let mut g = l;
                let mut k: usize = 0;
                while k < zeros
                    invariant
                        k <= zeros,
                        small(g@),
                        g@ == l0 + Seq::new(k as nat, |i: int| 0u32),
                    decreases zeros - k,
                {
                    g.push(0);
                    k += 1;
                    proof {
                        assert(g@ =~= l0 + Seq::new(k as nat, |i: int| 0u32));
                    }
                }
                g.append(&mut rest);
                proof {
                    let full = nl + Seq::new((8 - nl.len() - nr.len()) as nat, |i: int| 0nat) + nr;
                    assert(as_numbers(g@) =~= full);
                }
                Some(number_of(&g))
            },
            _ => None,
        }
    }
}

/// Parses address text of either family.
pub fn parse_ip(s: &[u8]) -> (r: Option<IpAddr>)
    ensures
        r == ip_value(s@),
{
    match parse_v4(s) {
        Some(v) => Some(IpAddr::V4(v)),
        None => match parse_v6(s) {
            Some(v) => Some(IpAddr::V6(v)),
            None => None,
        },
    }
}

/// Two to the power `n`.
fn power_of_two(n: u32) -> (r: u128)
    requires
        n <= 127,
    ensures
        r == pow2(n as nat),
{
    let mut size: u128 = 1;
    let mut i: u32 = 0;
    proof {
        vstd::arithmetic::power2::lemma2_to64();
    }
    while i < n
        invariant
            i <= n <= 127,
            size == pow2(i as nat),
        decreases n - i,
    {
        proof {
            lemma_pow2_128();
            vstd::arithmetic::power2::lemma_pow2_unfold((i + 1) as nat);
            vstd::arithmetic::power2::lemma_pow2_strictly_increases((i + 1) as nat, 128);
        }
        size = size * 2;
        i += 1;
    }
    size
}

proof fn lemma_block(a: int, size: int, whole: int, k: int)
    requires
        0 <= a < whole,
        size > 0,
        k > 0,
        whole == size * k,
    ensures
        0 <= a - a % size,
        a - a % size + size <= whole,
{
    vstd::arithmetic::div_mod::lemma_fundamental_div_mod(a, size);
    let q = a / size;
    assert(a == size * q + a % size);
    assert(0 <= a % size < size) by {
        vstd::arithmetic::div_mod::lemma_mod_bound(a, size);
    }
    assert(q < k) by (nonlinear_arith)
        requires
            a == size * q + a % size,
            0 <= a % size,
            a < size * k,
            size > 0,
    ;
    assert(0 <= size * q) by (nonlinear_arith)
        requires
            a == size * q + a % size,
            a % size < size,
            0 <= a,
            size > 0,
    ;
    assert(size * q + size <= size * k) by (nonlinear_arith)
        requires
            q + 1 <= k,
            size > 0,
    ;
}

/// Parses block text into its first and last address.
pub fn parse_cidr(s: &[u8]) -> (r: Option<(IpAddr, IpAddr)>)
    ensures
        r == cidr_value(s@),
{
    if !contains_byte(s, 47) {
        return match parse_ip(s) {
            Some(a) => Some((a, a)),
            None => None,
        };
    }
    let p = split_bytes(s, 47);
    proof {
        assert(byte_views(p@).len() == p@.len());
    }
    if p.len() != 2 {
        return None;
    }
    proof {
        assert(byte_views(p@)[0] == p@[0]@);
        assert(byte_views(p@)[1] == p@[1]@);
    }
    let digits = p[1].as_slice();
    if digits.len() == 0 || digits.len() > 3 || digits[0] == 43 {
        proof {
            if digits@.len() > 0 && digits@[0] == 43 {
                assert(!is_digit(digits@[0]));
            }
        }
        return None;
    }
    let len: u64 = match parse_u64(digits) {
        Some(n) => n,
        None => {
            proof {
                if is_decimal(digits@) {
                    lemma_three_digits(digits@);
                }
            }
            return None;
        },
    };
    match parse_ip(p[0].as_slice()) {
        Some(IpAddr::V4(a)) => {
            if len > 32 {
                return None;
            }
            let size: u128 = power_of_two((32 - len) as u32);
            let wide: u128 = a as u128;
            proof {
                vstd::arithmetic::power2::lemma_pow2_adds((32 - len) as nat, len as nat);
                vstd::arithmetic::power2::lemma2_to64();
                vstd::arithmetic::power2::lemma_pow2_pos((32 - len) as nat);
                vstd::arithmetic::power2::lemma_pow2_pos(len as nat);
                lemma_block(a as int, size as int, 0x1_0000_0000, pow2(len as nat) as int);
            }
            let from: u128 = wide - wide % size;
            let to: u128 = from + (size - 1);
            Some((IpAddr::V4(from as u32), IpAddr::V4(to as u32)))
        },
        Some(IpAddr::V6(a)) => {
            if len > 128 {
                return None;
            }
            proof {
                lemma_pow2_128();
            }
            if len == 0 {
                proof {
                    assert(a as int % (u128::MAX + 1) == a);
                }
                return Some((IpAddr::V6(0), IpAddr::V6(u128::MAX)));
            }
            let size: u128 = power_of_two((128 - len) as u32);
            proof {
                vstd::arithmetic::power2::lemma_pow2_adds((128 - len) as nat, len as nat);
                vstd::arithmetic::power2::lemma_pow2_pos((128 - len) as nat);
                vstd::arithmetic::power2::lemma_pow2_pos(len as nat);
                lemma_block(a as int, size as int, u128::MAX + 1, pow2(len as nat) as int);
            }
            let from: u128 = a - a % size;
            let to: u128 = from + (size - 1);
            Some((IpAddr::V6(from), IpAddr::V6(to)))
        },
        None => None,
    }
}

// What ranges and blocks mean.

/// A range holds the addresses of its family from its first to its last, and none of the other
/// family.
pub proof fn law_ranges_keep_to_their_family(a: u32, b: u32, x: u32, c: u128, d: u128, y: u128)
    ensures
        in_range(IpAddr::V4(a), IpAddr::V4(b), IpAddr::V4(x)) <==> a <= x <= b,
        in_range(IpAddr::V6(c), IpAddr::V6(d), IpAddr::V6(y)) <==> c <= y <= d,
        !in_range(IpAddr::V4(a), IpAddr::V4(b), IpAddr::V6(y)),
        !in_range(IpAddr::V6(c), IpAddr::V6(d), IpAddr::V4(x)),
{
}

/// A block holds exactly the addresses that agree with its own in the leading bits that it fixes:
/// those with the same quotient by the size of the block.
pub proof fn law_block_fixes_leading_bits(s: Seq<u8>, x: IpAddr)
    requires
        has_byte(s, 47),
        split_on(s, 47).len() == 2,
        is_decimal(split_on(s, 47)[1]),
        split_on(s, 47)[1].len() <= 3,
    ensures
        match (ip_value(split_on(s, 47)[0]), x) {
            (Some(IpAddr::V4(a)), IpAddr::V4(x)) => {
                let len = decimal_value(split_on(s, 47)[1]);
                &&& len <= 32 ==> (cidr_value(s) matches Some((from, to)) && (in_range(
                    from,
                    to,
                    IpAddr::V4(x),
                ) <==> x as int / pow2((32 - len) as nat) as int == a as int / pow2(
                    (32 - len) as nat,
                ) as int))
                &&& len > 32 ==> cidr_value(s) is None
            },
            (Some(IpAddr::V6(a)), IpAddr::V6(x)) => {
                let len = decimal_value(split_on(s, 47)[1]);
                &&& len <= 128 ==> (cidr_value(s) matches Some((from, to)) && (in_range(
                    from,
                    to,
                    IpAddr::V6(x),
                ) <==> x as int / pow2((128 - len) as nat) as int == a as int / pow2(
                    (128 - len) as nat,
                ) as int))
                &&& len > 128 ==> cidr_value(s) is None
            },
            (None, _) => cidr_value(s) is None,
            _ => true,
        },
{
    let len = decimal_value(split_on(s, 47)[1]);
    match (ip_value(split_on(s, 47)[0]), x) {
        (Some(IpAddr::V4(a)), IpAddr::V4(x)) => {
            if len <= 32 {
                let size = pow2((32 - len) as nat) as int;
                vstd::arithmetic::power2::lemma_pow2_pos((32 - len) as nat);
                vstd::arithmetic::power2::lemma_pow2_adds((32 - len) as nat, len);
                vstd::arithmetic::power2::lemma2_to64();
                vstd::arithmetic::power2::lemma_pow2_pos(len);
                lemma_block_members(a as int, x as int, size, pow2(len) as int);
            }
        },
        (Some(IpAddr::V6(a)), IpAddr::V6(x)) => {
            if len <= 128 {
                let size = pow2((128 - len) as nat) as int;
                vstd::arithmetic::power2::lemma_pow2_pos((128 - len) as nat);
                vstd::arithmetic::power2::lemma_pow2_adds((128 - len) as nat, len);
                vstd::arithmetic::power2::lemma2_to64();
                vstd::arithmetic::power2::lemma_pow2_adds(64, 64);
                vstd::arithmetic::power2::lemma_pow2_pos(len);
                lemma_block_members(a as int, x as int, size, pow2(len) as int);
            }
        },
        _ => {},
    }
}

/// Rounding down to a multiple of the size gives a block that lies within the family's space.
proof fn lemma_block_members(a: int, x: int, size: int, count: int)
    requires
        0 < size,
        0 < count,
        0 <= a < size * count,
        0 <= x,
    ensures
        0 <= a - a % size,
        a - a % size + size - 1 < size * count,
        a - a % size <= x <= a - a % size + size - 1 <==> x / size == a / size,
{
    let q = a / size;
    let p = x / size;
    vstd::arithmetic::div_mod::lemma_fundamental_div_mod(a, size);
    vstd::arithmetic::div_mod::lemma_fundamental_div_mod(x, size);
    vstd::arithmetic::div_mod::lemma_mod_bound(a, size);
    vstd::arithmetic::div_mod::lemma_mod_bound(x, size);
    assert(a - a % size == size * q);
    assert(q < count) by (nonlinear_arith)
        requires
            size * q <= a,
            a < size * count,
            0 < size,
    ;
    assert(size * q + size <= size * count) by (nonlinear_arith)
        requires
            q + 1 <= count,
            0 < size,
    ;
    assert(q >= 0) by {
        vstd::arithmetic::div_mod::lemma_div_pos_is_pos(a, size);
    }
    assert(size * q >= 0) by (nonlinear_arith)
        requires
            q >= 0,
            size > 0,
    ;
    if p < q {
        assert(size * p + size <= size * q) by (nonlinear_arith)
            requires
                p + 1 <= q,
                0 < size,
        ;
    } else if p > q {
        assert(size * q + size <= size * p) by (nonlinear_arith)
            requires
                q + 1 <= p,
                0 < size,
        ;
    }
}

/// A block text without a slash is the one address that it writes.
pub proof fn law_bare_address_is_its_own_block(s: Seq<u8>)
    requires
        !has_byte(s, 47),
    ensures
        match ip_value(s) {
            Some(a) => cidr_value(s) == Some((a, a)),
            None => cidr_value(s) is None,
        },
{
}

// What address texts mean.

/// Bytes of a number in decimal.
pub open spec fn digits_of(n: nat) -> Seq<u8> {
    decimal_text(n).map_values(|c: char| c as u8)
}

/// An octet is a number up to 255 as it is usually written; a greater number, a text with a zero in
/// front and an empty text are none.
pub proof fn law_octets_are_numbers(n: nat, s: Seq<u8>)
    ensures
        n <= 255 ==> octet_value(digits_of(n)) == Some(n),
        n > 255 ==> octet_value(digits_of(n)) is None,
        s.len() > 0 ==> octet_value(seq![48u8] + s) is None,
        octet_value(Seq::empty()) is None,
        !digits_of(n).contains(46u8),
        !digits_of(n).contains(58u8),
        !digits_of(n).contains(47u8),
        digits_of(n).len() > 0,
{
    law_decimal_text_reads_back(n);
    let d = digits_of(n);
    if d.contains(46u8) || d.contains(58u8) || d.contains(47u8) {
        let i = choose|i: int| 0 <= i < d.len() && (d[i] == 46u8 || d[i] == 58u8 || d[i] == 47u8);
        assert(is_digit(d[i]));
    }
    reveal_with_fuel(decimal_text, 4);
    if n <= 255 {
        assert(d.len() <= 3);
        assert(n >= 10 ==> d[0] != 48);
    }
    let z = seq![48u8] + s;
    assert(z[0] == 48u8);
}

/// Four octets with dots between them are the address with these bytes, the first the highest.
pub proof fn law_dotted_text_is_read(a: u8, b: u8, c: u8, d: u8)
    ensures
        ({
            let s = digits_of(a as nat) + seq![46u8] + (digits_of(b as nat) + seq![46u8] + (
            digits_of(c as nat) + seq![46u8] + digits_of(d as nat)));
            &&& v4_value(s) == Some((a * 16777216 + b * 65536 + c * 256 + d) as u32)
            &&& ip_value(s) == Some(
                IpAddr::V4((a * 16777216 + b * 65536 + c * 256 + d) as u32),
            )
            &&& v4_value(
                digits_of(b as nat) + seq![46u8] + (digits_of(c as nat) + seq![46u8] + digits_of(
                    d as nat,
                )),
            ) is None
        }),
{
    let x = digits_of(a as nat);
    let y = digits_of(b as nat);
    let z = digits_of(c as nat);
    let w = digits_of(d as nat);
    law_octets_are_numbers(a as nat, x);
    law_octets_are_numbers(b as nat, x);
    law_octets_are_numbers(c as nat, x);
    law_octets_are_numbers(d as nat, x);
    law_split_of_piece(x, 46);
    law_split_of_piece(y, 46);
    law_split_of_piece(z, 46);
    law_split_of_piece(w, 46);
    law_split_around(z, w, 46);
    law_split_around(y, z + seq![46u8] + w, 46);
    law_split_around(x, y + seq![46u8] + (z + seq![46u8] + w), 46);
    let p = seq![x] + (seq![y] + (seq![z] + seq![w]));
    assert(p.len() == 4 && p[0] == x && p[1] == y && p[2] == z && p[3] == w);
    assert((seq![y] + (seq![z] + seq![w])).len() == 3);
}

/// A group of an IPv6 address is a number of up to four hexadecimal digits in either case of
/// letters, the first digit the highest.
pub proof fn law_groups_are_hexadecimal(s: Seq<u8>, b: u8, d: u8)
    ensures
        d < 10 ==> hex_digit((48 + d) as u8) == Some(d as nat),
        d < 6 ==> hex_digit((97 + d) as u8) == Some((10 + d) as nat),
        d < 6 ==> hex_digit((65 + d) as u8) == Some((10 + d) as nat),
        hex_digit(b) is Some ==> hex_digit(b)->0 < 16 && (48 <= b <= 57 || 65 <= b <= 70 || 97 <= b
            <= 102),
        group_value(Seq::empty()) is None,
        s.len() > 4 ==> group_value(s) is None,
        hex_digit(b) is Some ==> group_value(seq![b]) == hex_digit(b),
        1 <= s.len() <= 3 && group_value(s) is Some && hex_digit(b) is Some ==> group_value(
            s.push(b),
        ) == Some(group_value(s)->0 * 16 + hex_digit(b)->0),
        hex_digit(b) is None ==> group_value(s.push(b)) is None,
{
    assert(s.push(b).drop_last() =~= s);
    assert(seq![b].drop_last() =~= Seq::empty());
    reveal_with_fuel(hex_value, 2);
}

proof fn lemma_groups_join(a: Seq<nat>, b: Seq<nat>)
    ensures
        groups_number(a + b) == groups_number(a) * pow(65536, b.len()) + groups_number(b),
    decreases b.len(),
{
    lemma_pow0(65536);
    if b.len() == 0 {
        assert(a + b =~= a);
        assert(groups_number(a) * 1 == groups_number(a)) by (nonlinear_arith);
    } else {
        let front = b.drop_last();
        lemma_groups_join(a, front);
        assert((a + b).drop_last() =~= a + front);
        let n = front.len();
        assert(pow(65536, b.len()) == 65536 * pow(65536, n)) by {
            reveal(pow);
        }
        let x = groups_number(a) as int;
        let y = groups_number(front) as int;
        let p = pow(65536, n);
        assert((x * p + y) * 65536 + b.last() == x * (65536 * p) + (y * 65536 + b.last()))
            by (nonlinear_arith);
    }
}

proof fn lemma_zero_groups(n: nat)
    ensures
        groups_number(Seq::new(n, |i: int| 0nat)) == 0,
    decreases n,
{
    let z = Seq::new(n, |i: int| 0nat);
    if n > 0 {
        lemma_zero_groups((n - 1) as nat);
        assert(z.drop_last() =~= Seq::new((n - 1) as nat, |i: int| 0nat));
    }
}

/// Without a double colon an IPv6 text has exactly eight groups, each of which weighs 65536 times
/// the next.
pub proof fn law_eight_groups_make_an_address(s: Seq<u8>)
    requires
        forall|q: int| 0 <= q <= s.len() ==> !occurs_at(s, seq![58u8, 58u8], q),
        !has_byte(split_on(s, 58).last(), 46),
        s.len() > 0,
    ensures
        ({
            let p = split_on(s, 58);
            let sound = p.len() == 8 && forall|i: int|
                0 <= i < 8 ==> group_value(#[trigger] p[i]) is Some;
            &&& v6_value(s) is Some <==> sound
            &&& sound ==> v6_value(s)->0 == (((((((group_value(p[0])->0 * 65536 + group_value(
                p[1],
            )->0) * 65536 + group_value(p[2])->0) * 65536 + group_value(p[3])->0) * 65536
                + group_value(p[4])->0) * 65536 + group_value(p[5])->0) * 65536 + group_value(
                p[6],
            )->0) * 65536 + group_value(p[7])->0) as u128
        }),
{
    lemma_double_colon(s, s.len() as int);
    let p = split_on(s, 58);
    lemma_plain_groups(p);
    if let Some(g) = plain_groups(p) {
        if p.len() == 8 {
            reveal_with_fuel(groups_number, 9);
            assert(g.drop_last().last() == g[6]);
            assert(g.drop_last().drop_last().last() == g[5]);
            assert(g.drop_last().drop_last().drop_last().last() == g[4]);
            assert(g.drop_last().drop_last().drop_last().drop_last().last() == g[3]);
            assert(g.take(3) =~= g.drop_last().drop_last().drop_last().drop_last().drop_last());
            assert(g.take(3).last() == g[2]);
            assert(g.take(3).drop_last() =~= seq![g[0], g[1]]);
            assert(seq![g[0], g[1]].drop_last() =~= seq![g[0]]);
            assert(seq![g[0]].drop_last() =~= Seq::empty());
        }
    }
}

proof fn lemma_plain_groups(p: Seq<Seq<u8>>)
    ensures
        plain_groups(p) is Some <==> forall|i: int|
            0 <= i < p.len() ==> group_value(#[trigger] p[i]) is Some,
        plain_groups(p) matches Some(g) ==> g.len() == p.len() && forall|i: int|
            0 <= i < p.len() ==> #[trigger] g[i] == group_value(p[i])->0,
    decreases p.len(),
{
    if p.len() > 0 {
        let front = p.drop_last();
        lemma_plain_groups(front);
        assert forall|i: int| 0 <= i < front.len() implies front[i] == #[trigger] p[i] by {}
        if plain_groups(p) is None && plain_groups(front) is Some {
            assert(group_value(p[p.len() - 1]) is None);
        }
        if plain_groups(p) is None && plain_groups(front) is None {
            let i = choose|i: int| 0 <= i < front.len() && group_value(#[trigger] front[i]) is None;
            assert(group_value(p[i]) is None);
        }
    }
}

/// A double colon stands for as many groups of zeros as are missing, and for one at least: what
/// stands before it keeps its place at the top, what stands behind it its place at the bottom.
pub proof fn law_double_colon_fills_up(left: Seq<u8>, right: Seq<u8>)
    requires
        forall|q: int|
            0 <= q < left.len() ==> !occurs_at(
                left + seq![58u8, 58u8] + right,
                seq![58u8, 58u8],
                q,
            ),
    ensures
        ({
            let s = left + seq![58u8, 58u8] + right;
            match (groups_of(left, false), groups_of(right, true)) {
                (Some(l), Some(r)) => {
                    &&& l.len() + r.len() <= 7 ==> v6_value(s) == Some(
                        (groups_number(l) * pow(65536, (8 - l.len()) as nat) + groups_number(
                            r,
                        )) as u128,
                    )
                    &&& l.len() + r.len() > 7 ==> v6_value(s) is None
                },
                _ => v6_value(s) is None,
            }
        }),
        left.len() == 0 ==> groups_of(left, false) == Some(Seq::<nat>::empty()),
        right.len() == 0 ==> groups_of(right, true) == Some(Seq::<nat>::empty()),
{
    let s = left + seq![58u8, 58u8] + right;
    let p = left.len() as int;
    assert(s.subrange(p, p + 2) =~= seq![58u8, 58u8]);
    assert(occurs_at(s, seq![58u8, 58u8], p));
    lemma_double_colon(s, p);
    assert(s.take(p) =~= left);
    assert(s.skip(p + 2) =~= right);
    if let (Some(l), Some(r)) = (groups_of(left, false), groups_of(right, true)) {
        if l.len() + r.len() <= 7 {
            let n = (8 - l.len() - r.len()) as nat;
            let z = Seq::new(n, |i: int| 0nat);
            lemma_zero_groups(n);
            lemma_groups_join(z, r);
            lemma_groups_join(l, z + r);
            assert(l + z + r =~= l + (z + r));
            assert((z + r).len() == 8 - l.len());
            assert(0 * pow(65536, r.len()) == 0) by (nonlinear_arith);
        }
    }
}

/// A dotted quad at the end of an IPv6 text stands for its last two groups, and nowhere else can
/// one stand.
pub proof fn law_dotted_tail_is_two_groups(front: Seq<u8>, quad: Seq<u8>)
    requires
        !quad.contains(58u8),
        has_byte(quad, 46),
    ensures
        groups_of(quad, true) == (match v4_value(quad) {
            Some(v) => Some(seq![(v / 65536) as nat, (v % 65536) as nat]),
            None => None,
        }),
        groups_of(quad, false) is None,
        groups_of(front + seq![58u8] + quad, true) == (match (
            plain_groups(split_on(front, 58)),
            v4_value(quad),
        ) {
            (Some(g), Some(v)) => Some(g + seq![(v / 65536) as nat, (v % 65536) as nat]),
            _ => None,
        }),
        groups_of(front + seq![58u8] + quad, false) is None,
{
    law_split_of_piece(quad, 58);
    law_split_around(front, quad, 58);
    let p = split_on(front, 58) + seq![quad];
    assert(p.last() == quad);
    assert(p.drop_last() =~= split_on(front, 58));
    assert(seq![quad].drop_last() =~= Seq::empty());
    lemma_dot_is_no_digit(quad);
    assert(quad.len() > 0);
    if let Some(v) = v4_value(quad) {
        assert(Seq::<nat>::empty().push((v / 65536) as nat).push((v % 65536) as nat) =~= seq![
            (v / 65536) as nat,
            (v % 65536) as nat,
        ]);
        if let Some(g) = plain_groups(split_on(front, 58)) {
            assert(g.push((v / 65536) as nat).push((v % 65536) as nat) =~= g + seq![
                (v / 65536) as nat,
                (v % 65536) as nat,
            ]);
        }
    }
    reveal_with_fuel(plain_groups, 2);
}

proof fn lemma_dot_is_no_digit(s: Seq<u8>)
    requires
        has_byte(s, 46),
    ensures
        hex_value(s) is None,
    decreases s.len(),
{
    let i = choose|i: int| 0 <= i < s.len() && s[i] == 46;
    if i < s.len() - 1 {
        assert(s.drop_last()[i] == 46);
        lemma_dot_is_no_digit(s.drop_last());
    }
}

} // verus!
