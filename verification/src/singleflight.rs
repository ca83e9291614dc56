//! Deduplication of concurrent identical requests.
//!
//! The first caller to register a key leads: it asks upstream and then publishes what it got.
//! Callers that register the key meanwhile follow: they wait for what the leader publishes. A
//! leader that ends without publishing removes the key, and its followers are abandoned.
//!
//! Waiting callers are known by a ticket number of the caller's choice.

use rustc_hash::FxBuildHasher;
use smallvec::SmallVec;
use std::collections::HashMap;
use vstd::prelude::*;
use vstd::slice::slice_to_vec;

verus! {

/// Key of a request.
pub type CacheKey = u64;

pub const SHARDS: usize = 64;

/// Tickets of the callers that wait for one leader, with room for two before they need the heap.
#[verifier::external_body]
pub struct Waiters {
    inner: SmallVec<[u64; 2]>,
}

/// The tickets, in the order in which they came.
pub uninterp spec fn waiting_tickets(waiters: Waiters) -> Seq<u64>;

impl View for Waiters {
    type V = Seq<u64>;

    open spec fn view(&self) -> Seq<u64> {
        waiting_tickets(*self)
    }
}

impl Waiters {
    /// `SmallVec::new`: no tickets.
    #[verifier::external_body]
    fn new() -> (r: Self)
        ensures
            waiting_tickets(r) == Seq::<u64>::empty(),
    {
        Waiters { inner: SmallVec::new() }
    }

    /// `SmallVec::push`: one more ticket at the end.
    #[verifier::external_body]
    fn push(&mut self, ticket: u64)
        ensures
            waiting_tickets(*final(self)) == waiting_tickets(*old(self)).push(ticket),
    {
        self.inner.push(ticket);
    }

    /// `SmallVec::into_vec`: the tickets as an ordinary vector.
    #[verifier::external_body]
    fn into_vec(self) -> (r: Vec<u64>)
        ensures
            r@ == waiting_tickets(self),
    {
        self.inner.into_vec()
    }
}

/// One shard: requests in flight, by key.
type Shard = HashMap<u64, Waiters, FxBuildHasher>;

/// `HashMap::default` with the `rustc_hash` hasher: an empty map.
#[verifier::external_body]
fn new_shard() -> (r: Shard)
    ensures
        forall|k: u64| !r@.contains_key(k),
{
    HashMap::default()
}

/// `HashMap::insert` with the `rustc_hash` hasher.
#[verifier::external_body]
fn shard_insert(shard: &mut Shard, key: u64, waiters: Waiters)
    ensures
        final(shard)@ == old(shard)@.insert(key, waiters),
{
    shard.insert(key, waiters);
}

/// `HashMap::remove` with the `rustc_hash` hasher.
#[verifier::external_body]
fn shard_remove(shard: &mut Shard, key: u64) -> (r: Option<Waiters>)
    ensures
        final(shard)@ == old(shard)@.remove(key),
        r == (if old(shard)@.contains_key(key) {
            Some(old(shard)@[key])
        } else {
            None
        }),
{
    shard.remove(&key)
}

/// What a registration makes of its caller.
#[derive(Clone, Copy, Debug, PartialEq, Eq, Structural)]
pub enum Role {
    /// Nobody was asking: ask, then publish or remove.
    Leader,
    /// Somebody is asking: wait for what is published.
    Follower,
}

/// What a waiting caller is told.
pub enum Outcome {
    /// The leader's response.
    Reply(Vec<u8>),
    /// The leader decided to send no reply; neither shall its followers.
    NoReply,
    /// The leader ended without publishing.
    Abandoned,
}

impl Outcome {
    /// The response bytes of a reply.
    pub open spec fn reply(self) -> Option<Seq<u8>> {
        match self {
            Outcome::Reply(b) => Some(b@),
            _ => None,
        }
    }
}

/// Requests in flight.
pub struct InflightTable {
    shards: Vec<Shard>,
}

impl InflightTable {
    /// All shards are there.
    pub closed spec fn wf(self) -> bool {
        self.shards@.len() == SHARDS
    }

    spec fn shard_of(key: u64) -> int {
        (key % 64) as int
    }
}

impl View for InflightTable {
    type V = Map<u64, Seq<u64>>;

    /// The tickets that wait for each key in flight.
    closed spec fn view(&self) -> Map<u64, Seq<u64>> {
        Map::new(
            |k: u64| self.shards@[InflightTable::shard_of(k)]@.contains_key(k),
            |k: u64| self.shards@[InflightTable::shard_of(k)]@[k]@,
        )
    }
}

impl InflightTable {
    /// No request in flight.
    pub fn new() -> (r: Self)
        ensures
            r.wf(),
            r@ == Map::<u64, Seq<u64>>::empty(),
    {
        let mut shards: Vec<Shard> = Vec::new();
        let mut i: usize = 0;
        while i < SHARDS
            invariant
                i <= SHARDS,
                shards@.len() == i,
                forall|s: int, k: u64|
                    0 <= s < i ==> !(#[trigger] shards@[s]@.contains_key(k)),
            decreases SHARDS - i,
        {
            shards.push(new_shard());
            i += 1;
        }
        let r = InflightTable { shards };
        proof {
            assert(r@ =~= Map::<u64, Seq<u64>>::empty());
        }
        r
    }

    /// Takes the tickets of a key out of the table.
    fn take_waiters(&mut self, key: CacheKey) -> (r: Option<Waiters>)
        requires
            old(self).wf(),
        ensures
            final(self).wf(),
            final(self)@ == old(self)@.remove(key),
            match r {
                Some(w) => old(self)@.contains_key(key) && w@ == old(self)@[key],
                None => !old(self)@.contains_key(key),
            },
    {
        let ghost before = *self;
        let i: usize = (key % 64) as usize;
        let taken = shard_remove(&mut self.shards[i], key);
        proof {
            assert(self@ =~= before@.remove(key));
        }
        taken
    }

    fn put_waiters(&mut self, key: CacheKey, waiters: Waiters)
        requires
            old(self).wf(),
        ensures
            final(self).wf(),
            final(self)@ == old(self)@.insert(key, waiters@),
    {
        let ghost before = *self;
        let i: usize = (key % 64) as usize;
        shard_insert(&mut self.shards[i], key, waiters);
        proof {
            assert(self@ =~= before@.insert(key, waiters@));
        }
    }
}

impl Default for InflightTable {
    fn default() -> (r: Self)
        ensures
            r.wf(),
            r@ == Map::<u64, Seq<u64>>::empty(),
    {
        Self::new()
    }
}

/// What registering a key makes of a caller.
pub open spec fn role_in(table: Map<u64, Seq<u64>>, key: u64) -> Role {
    if table.contains_key(key) {
        Role::Follower
    } else {
        Role::Leader
    }
}

/// The table after a caller with this ticket registered a key.
pub open spec fn registered(table: Map<u64, Seq<u64>>, key: u64, ticket: u64) -> Map<
    u64,
    Seq<u64>,
> {
    if table.contains_key(key) {
        table.insert(key, table[key].push(ticket))
    } else {
        table.insert(key, Seq::empty())
    }
}

/// The tickets that wait for a key.
pub open spec fn waiting(table: Map<u64, Seq<u64>>, key: u64) -> Seq<u64> {
    if table.contains_key(key) {
        table[key]
    } else {
        Seq::empty()
    }
}

/// Registers interest in a key. The first caller leads; later ones wait under their ticket.
pub fn register(table: &mut InflightTable, key: CacheKey, ticket: u64) -> (r: Role)
    requires
        old(table).wf(),
    ensures
        final(table).wf(),
        r == role_in(old(table)@, key),
        final(table)@ == registered(old(table)@, key, ticket),
{
    let ghost before = table@;
    match table.take_waiters(key) {
        Some(waiters) => {
            let mut more = waiters;
            more.push(ticket);
            table.put_waiters(key, more);
            proof {
                assert(table@ =~= registered(before, key, ticket));
            }
            Role::Follower
        },
        None => {
            table.put_waiters(key, Waiters::new());
            proof {
                assert(table@ =~= registered(before, key, ticket));
            }
            Role::Leader
        },
    }
}

fn take_tickets(table: &mut InflightTable, key: CacheKey) -> (r: Vec<u64>)
    requires
        old(table).wf(),
    ensures
        final(table).wf(),
        final(table)@ == old(table)@.remove(key),
        r@ == waiting(old(table)@, key),
{
    match table.take_waiters(key) {
        Some(waiters) => waiters.into_vec(),
        None => Vec::new(),
    }
}

/// Publishes a response: every waiting caller gets it, in the order in which they came, and the
/// key is free again.
pub fn publish_bytes(table: &mut InflightTable, key: CacheKey, resp: &[u8]) -> (r: Vec<
    (u64, Outcome),
>)
    requires
        old(table).wf(),
    ensures
        final(table).wf(),
        final(table)@ == old(table)@.remove(key),
        r@.len() == waiting(old(table)@, key).len(),
        forall|i: int|
            0 <= i < r@.len() ==> (#[trigger] r@[i]).0 == waiting(old(table)@, key)[i]
                && r@[i].1.reply() == Some(resp@),
{
    let tickets = take_tickets(table, key);
    let mut out: Vec<(u64, Outcome)> = Vec::new();
    let mut i: usize = 0;
    while i < tickets.len()
        invariant
            i <= tickets@.len(),
            out@.len() == i,
            forall|j: int|
                0 <= j < i ==> (#[trigger] out@[j]).0 == tickets@[j] && out@[j].1.reply() == Some(
                    resp@,
                ),
        decreases tickets@.len() - i,
    {
        out.push((tickets[i], Outcome::Reply(slice_to_vec(resp))));
        i += 1;
    }
    out
}

/// Publishes the decision to send no reply to every waiting caller, and frees the key.
pub fn publish_drop(table: &mut InflightTable, key: CacheKey) -> (r: Vec<(u64, Outcome)>)
    requires
        old(table).wf(),
    ensures
        final(table).wf(),
        final(table)@ == old(table)@.remove(key),
        r@.len() == waiting(old(table)@, key).len(),
        forall|i: int|
            0 <= i < r@.len() ==> (#[trigger] r@[i]).0 == waiting(old(table)@, key)[i] && r@[i].1
                is NoReply,
{
    let tickets = take_tickets(table, key);
    let mut out: Vec<(u64, Outcome)> = Vec::new();
    let mut i: usize = 0;
    while i < tickets.len()
        invariant
            i <= tickets@.len(),
            out@.len() == i,
            forall|j: int|
                0 <= j < i ==> (#[trigger] out@[j]).0 == tickets@[j] && out@[j].1 is NoReply,
        decreases tickets@.len() - i,
    {
        out.push((tickets[i], Outcome::NoReply));
        i += 1;
    }
    out
}

/// Frees a key without publishing; every waiting caller is abandoned.
pub fn remove(table: &mut InflightTable, key: CacheKey) -> (r: Vec<(u64, Outcome)>)
    requires
        old(table).wf(),
    ensures
        final(table).wf(),
        final(table)@ == old(table)@.remove(key),
        r@.len() == waiting(old(table)@, key).len(),
        forall|i: int|
            0 <= i < r@.len() ==> (#[trigger] r@[i]).0 == waiting(old(table)@, key)[i] && r@[i].1
                is Abandoned,
{
    let tickets = take_tickets(table, key);
    let mut out: Vec<(u64, Outcome)> = Vec::new();
    let mut i: usize = 0;
    while i < tickets.len()
        invariant
            i <= tickets@.len(),
            out@.len() == i,
            forall|j: int|
                0 <= j < i ==> (#[trigger] out@[j]).0 == tickets@[j] && out@[j].1 is Abandoned,
        decreases tickets@.len() - i,
    {
        out.push((tickets[i], Outcome::Abandoned));
        i += 1;
    }
    out
}

/// Of two callers that register a key that nobody holds, the first leads and only the second
/// waits; once the key is freed the next caller leads again.
pub proof fn law_one_leader(table: Map<u64, Seq<u64>>, key: u64, first: u64, second: u64)
    requires
        !table.contains_key(key),
    ensures
        registered(table, key, first).contains_key(key),
        waiting(registered(registered(table, key, first), key, second), key) == seq![second],
        !registered(registered(table, key, first), key, second).remove(key).contains_key(key),
        registered(registered(table, key, first), key, second).remove(key) == table,
{
    let once = registered(table, key, first);
    let twice = registered(once, key, second);
    assert(twice[key] =~= seq![second]);
    assert(twice.remove(key) =~= table);
}

/// Registering a key touches no other key.
pub proof fn law_keys_are_independent(
    table: Map<u64, Seq<u64>>,
    key: u64,
    ticket: u64,
    other: u64,
)
    requires
        other != key,
    ensures
        waiting(registered(table, key, ticket), other) == waiting(table, other),
        waiting(table.remove(key), other) == waiting(table, other),
        registered(table, key, ticket).contains_key(other) == table.contains_key(other),
{
}

/// Of the callers that register a key, the first leads and all later ones follow until the key is
/// freed; then the next one leads. Callers of other keys do not matter. A leader has no ticket to
/// wait with, and followers wait in the order in which they came.
pub proof fn law_roles_follow_registration(
    table: Map<u64, Seq<u64>>,
    key: u64,
    other: u64,
    ticket: u64,
)
    requires
        other != key,
    ensures
        role_in(Map::empty(), key) == Role::Leader,
        role_in(registered(table, key, ticket), key) == Role::Follower,
        role_in(registered(table, other, ticket), key) == role_in(table, key),
        role_in(table.remove(key), key) == Role::Leader,
        role_in(table, key) == Role::Leader ==> waiting(registered(table, key, ticket), key).len()
            == 0,
        role_in(table, key) == Role::Follower ==> waiting(registered(table, key, ticket), key)
            == waiting(table, key).push(ticket),
{
}

} // verus!
