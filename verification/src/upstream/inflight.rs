//! Queries in flight on a transport that tells responses apart by their identifier.
//!
//! Identifiers are given out so that no two queries in flight share one. A response reaches its
//! waiting query only when it repeats the question of that query; any other response under a live
//! identifier is dropped and the query keeps waiting.

use crate::dns::{
    be16, get_id, is_reply, opcode, opcode_of, qdcount, questions_match, reply_flag, set_id,
    with_id,
};
use crate::text::same_ignoring_case;
use crate::clock::clock_reading;
use crate::upstream::{mix16, mixed, question_of, question_part, random_id_seed, seed_of};
use dashmap::DashMap;
use rustc_hash::FxBuildHasher;
use std::time::SystemTime;
use vstd::prelude::*;
use vstd::wrapping::u32_specs;
verus! {

/// Queries in flight by identifier: the ticket of the waiting caller, the client's identifier and
/// the question.
type Pending = DashMap<u16, (u64, u16, Vec<u8>), FxBuildHasher>;

/// What is known of a query in flight.
pub ghost struct Flight {
    pub ticket: u64,
    pub client_id: u16,
    pub question: Seq<u8>,
}

/// The queries that a map holds.
pub uninterp spec fn pending_queries(
    map: DashMap<u16, (u64, u16, Vec<u8>), FxBuildHasher>,
) -> Map<u16, Flight>;

/// The query that a map entry stands for.
pub open spec fn flight_of(entry: (u64, u16, Vec<u8>)) -> Flight {
    Flight { ticket: entry.0, client_id: entry.1, question: entry.2@ }
}

/// `dashmap::DashMap::with_hasher`: an empty map.
#[verifier::external_body]
fn new_pending() -> (r: Pending)
    ensures
        forall|id: u16| !pending_queries(r).contains_key(id),
{
    DashMap::with_hasher(FxBuildHasher)
}

/// `dashmap::DashMap::entry`, and `VacantEntry::insert` where the entry is vacant: puts the value
/// in under an unused key; under a used one nothing changes and the value comes back.
#[verifier::external_body]
fn claim(map: &mut Pending, id: u16, entry: (u64, u16, Vec<u8>)) -> (r: Option<
    (u64, u16, Vec<u8>),
>)
    ensures
        if pending_queries(*old(map)).contains_key(id) {
            r == Some(entry) && pending_queries(*final(map)) == pending_queries(*old(map))
        } else {
            r is None && pending_queries(*final(map)) == pending_queries(*old(map)).insert(
                id,
                flight_of(entry),
            )
        },
{
    match map.entry(id) {
        dashmap::mapref::entry::Entry::Vacant(e) => {
            e.insert(entry);
            None
        },
        dashmap::mapref::entry::Entry::Occupied(_) => Some(entry),
    }
}

/// `dashmap::DashMap::get`: a copy of the question held under the key.
#[verifier::external_body]
fn pending_question(map: &Pending, id: u16) -> (r: Option<Vec<u8>>)
    ensures
        match r {
            Some(q) => pending_queries(*map).contains_key(id) && q@ == pending_queries(
                *map,
            )[id].question,
            None => !pending_queries(*map).contains_key(id),
        },
{
    map.get(&id).map(|e| e.2.clone())
}

/// `dashmap::DashMap::remove`: takes out what is held under the key.
#[verifier::external_body]
fn take_pending(map: &mut Pending, id: u16) -> (r: Option<(u64, u16, Vec<u8>)>)
    ensures
        pending_queries(*final(map)) == pending_queries(*old(map)).remove(id),
        match r {
            Some(e) => pending_queries(*old(map)).contains_key(id) && flight_of(e)
                == pending_queries(*old(map))[id],
            None => !pending_queries(*old(map)).contains_key(id),
        },
{
    map.remove(&id).map(|(_, e)| e)
}

/// `dashmap::DashMap::is_empty`: nothing is held.
#[verifier::external_body]
fn none_pending(map: &Pending) -> (r: bool)
    ensures
        r == forall|id: u16| !pending_queries(*map).contains_key(id),
{
    map.is_empty()
}

/// `dashmap::DashMap::clear`: takes out everything.
#[verifier::external_body]
fn clear_pending(map: &mut Pending)
    ensures
        forall|id: u16| !pending_queries(*final(map)).contains_key(id),
{
    map.clear();
}

/// Why a query was not registered.
#[derive(Clone, Copy, Debug, PartialEq, Eq, Structural)]
pub enum RegisterError {
    /// As many queries are in flight as the server is given at once.
    CapReached,
    /// No unused identifier was found.
    TableFull,
}

/// What became of a message from the server.
#[derive(Clone, Copy, Debug, PartialEq, Eq, Structural)]
pub enum Completion {
    /// It is the response that this ticket waits for.
    Delivered(u64),
    /// Nobody waits for it.
    NoWaiter,
    /// It has the identifier of a query in flight but another question; that query keeps waiting.
    Mismatch(u16),
}

/// Identifiers tried for one query.
pub const MAX_TRIES: u32 = 65535;

/// How many identifiers, from counter `next` on, are in use before the first unused one. At most
/// `tries` are looked at.
pub open spec fn used_run(queries: Map<u16, Flight>, next: u32, tries: nat) -> nat
    decreases tries,
{
    if tries == 0 || !queries.contains_key(mixed(next)) {
        0
    } else {
        1 + used_run(queries, u32_specs::wrapping_add(next, 1), (tries - 1) as nat)
    }
}

/// The counter after `n` identifiers.
pub open spec fn advanced(next: u32, n: nat) -> u32
    decreases n,
{
    if n == 0 {
        next
    } else {
        advanced(u32_specs::wrapping_add(next, 1), (n - 1) as nat)
    }
}

/// What comes of registering a query while these are in flight, with this counter and room.
pub open spec fn registration(
    queries: Map<u16, Flight>,
    counter: u32,
    room: Option<usize>,
) -> Result<u16, RegisterError> {
    let run = used_run(queries, counter, MAX_TRIES as nat);
    if room == Some(0usize) {
        Err(RegisterError::CapReached)
    } else if run == MAX_TRIES {
        Err(RegisterError::TableFull)
    } else {
        Ok(mixed(advanced(counter, run)))
    }
}

/// Registry of the queries in flight.
pub struct InflightRegistry {
    entries: Pending,
    next_id: u32,
    /// Permits left; `None` for no bound.
    permits: Option<usize>,
}

impl View for InflightRegistry {
    type V = Map<u16, Flight>;

    /// The queries in flight by identifier.
    closed spec fn view(&self) -> Map<u16, Flight> {
        pending_queries(self.entries)
    }
}

impl InflightRegistry {
    /// Counter of the next identifier.
    pub closed spec fn counter(self) -> u32 {
        self.next_id
    }

    /// Queries that may still be registered; `None` for no bound.
    pub closed spec fn room(self) -> Option<usize> {
        self.permits
    }

    /// A registry for at most `max_inflight` queries at once, or any number when that is zero. Its
    /// identifiers start from `seed`.
    pub fn with_seed(max_inflight: usize, seed: u32) -> (r: Self)
        ensures
            r@ == Map::<u16, Flight>::empty(),
            r.counter() == seed,
            r.room() == (if max_inflight > 0 {
                Some(max_inflight)
            } else {
                None
            }),
    {
        let r = InflightRegistry {
            entries: new_pending(),
            next_id: seed,
            permits: if max_inflight > 0 {
                Some(max_inflight)
            } else {
                None
            },
        };
        proof {
            assert(r@ =~= Map::<u16, Flight>::empty());
        }
        r
    }

    /// A registry whose identifiers start from the time of day.
    pub fn new(max_inflight: usize) -> (r: Self)
        ensures
            r@ == Map::<u16, Flight>::empty(),
            exists|at: SystemTime| r.counter() == seed_of(#[trigger] clock_reading(at)),
            r.room() == (if max_inflight > 0 {
                Some(max_inflight)
            } else {
                None
            }),
    {
        let seed: u32 = random_id_seed();
        Self::with_seed(max_inflight, seed)
    }

    /// Registers a query and gives it an identifier that no query in flight has. It counts against
    /// the bound until it is released.
    pub fn register(&mut self, ticket: u64, client_id: u16, question: Vec<u8>) -> (r: Result<
        u16,
        RegisterError,
    >)
        ensures
            ({
                let run = used_run(old(self)@, old(self).counter(), MAX_TRIES as nat);
                &&& r == registration(old(self)@, old(self).counter(), old(self).room())
                &&& if old(self).room() == Some(0usize) {
                    *final(self) == *old(self)
                } else if run == MAX_TRIES {
                    &&& final(self)@ == old(self)@
                    &&& final(self).room() == old(self).room()
                    &&& final(self).counter() == advanced(old(self).counter(), MAX_TRIES as nat)
                } else {
                    let id = mixed(advanced(old(self).counter(), run));
                    &&& id != 0
                    &&& !old(self)@.contains_key(id)
                    &&& final(self)@ == old(self)@.insert(
                        id,
                        Flight { ticket, client_id, question: question@ },
                    )
                    &&& final(self).counter() == advanced(old(self).counter(), run + 1)
                    &&& final(self).room() == (match old(self).room() {
                        Some(n) => Some((n - 1) as usize),
                        None => None,
                    })
                }
            }),
    {
        if let Some(n) = self.permits {
            if n == 0 {
                return Err(RegisterError::CapReached);
            }
        }
        let ghost start = self.next_id;
        let ghost whole = used_run(self@, start, MAX_TRIES as nat);
        let ghost flight = Flight { ticket, client_id, question: question@ };
        let mut entry: (u64, u16, Vec<u8>) = (ticket, client_id, question);
        let mut tries: u32 = 0;
        while tries < MAX_TRIES
            invariant
                tries <= MAX_TRIES,
                flight_of(entry) == flight,
                flight == (Flight { ticket, client_id, question: question@ }),
                self@ == old(self)@,
                self.permits == old(self).permits,
                self.permits != Some(0usize),
                start == old(self).next_id,
                self.next_id == advanced(start, tries as nat),
                whole == used_run(self@, start, MAX_TRIES as nat),
                whole == tries + used_run(self@, self.next_id, (MAX_TRIES - tries) as nat),
            decreases MAX_TRIES - tries,
        {
            let id: u16 = mix16(self.next_id);
            let ghost here = self.next_id;
            self.next_id = self.next_id.wrapping_add(1);
            proof {
                lemma_advanced(start, tries as nat);
            }
            match claim(&mut self.entries, id, entry) {
                None => {
                    if let Some(n) = self.permits {
                        self.permits = Some(n - 1);
                    }
                    proof {
                        assert(used_run(old(self)@, here, (MAX_TRIES - tries) as nat) == 0);
                        assert(self@ =~= old(self)@.insert(id, flight));
                    }
                    return Ok(id);
                },
                Some(back) => {
                    entry = back;
                },
            }
            tries += 1;
        }
        Err(RegisterError::TableFull)
    }

    /// Takes in a message from the server. The response to a query in flight is given the client's
    /// identifier, and the query leaves the registry.
    pub fn complete(&mut self, packet: &mut Vec<u8>) -> (r: Completion)
        ensures
            final(self).room() == old(self).room(),
            final(self).counter() == old(self).counter(),
            r == completion_of(old(self)@, old(packet)@),
            match r {
                Completion::Delivered(_) => {
                    let id = be16(old(packet)@, 0);
                    &&& final(self)@ == old(self)@.remove(id)
                    &&& final(packet)@ == with_id(old(packet)@, old(self)@[id].client_id)
                },
                _ => final(self)@ == old(self)@ && final(packet)@ == old(packet)@,
            },
    {
        if !is_reply(packet.as_slice()) || opcode(packet.as_slice()) != 0 || qdcount(
            packet.as_slice(),
        ) != 1 {
            return Completion::NoWaiter;
        }
        let id: u16 = match get_id(packet.as_slice()) {
            Some(id) => id,
            None => {
                return Completion::NoWaiter;
            },
        };
        let question = match pending_question(&self.entries, id) {
            Some(q) => q,
            None => {
                return Completion::NoWaiter;
            },
        };
        let resp_question = question_of(packet.as_slice());
        if !questions_match(resp_question.as_slice(), question.as_slice()) {
            return Completion::Mismatch(id);
        }
        match take_pending(&mut self.entries, id) {
            Some(entry) => {
                let _had_header = set_id(packet, entry.1);
                Completion::Delivered(entry.0)
            },
            None => Completion::NoWaiter,
        }
    }

    /// A query that was registered under `id` has ended: it leaves the registry, if it has not
    /// already, and no longer counts against the bound.
    pub fn release(&mut self, id: u16)
        requires
            match old(self).room() {
                Some(n) => n < usize::MAX,
                None => true,
            },
        ensures
            final(self)@ == old(self)@.remove(id),
            final(self).counter() == old(self).counter(),
            final(self).room() == (match old(self).room() {
                Some(n) => Some((n + 1) as usize),
                None => None,
            }),
    {
        let _gone = take_pending(&mut self.entries, id);
        if let Some(n) = self.permits {
            self.permits = Some(n + 1);
        }
    }

    /// No query is in flight.
    pub fn is_empty(&self) -> (r: bool)
        ensures
            r == (self@ == Map::<u16, Flight>::empty()),
    {
        let r = none_pending(&self.entries);
        proof {
            if r {
                assert(self@ =~= Map::<u16, Flight>::empty());
            }
        }
        r
    }

    /// Forgets all queries: the connection is gone. They still count against the bound until they
    /// are released.
    pub fn clear(&mut self)
        ensures
            final(self)@ == Map::<u16, Flight>::empty(),
            final(self).counter() == old(self).counter(),
            final(self).room() == old(self).room(),
    {
        clear_pending(&mut self.entries);
        proof {
            assert(self@ =~= Map::<u16, Flight>::empty());
        }
    }
}

proof fn lemma_advanced(next: u32, n: nat)
    ensures
        advanced(next, n + 1) == u32_specs::wrapping_add(advanced(next, n), 1),
    decreases n,
{
    reveal_with_fuel(advanced, 2);
    if n > 0 {
        lemma_advanced(u32_specs::wrapping_add(next, 1), (n - 1) as nat);
    }
}

/// What becomes of a message from the server.
pub open spec fn completion_of(queries: Map<u16, Flight>, p: Seq<u8>) -> Completion {
    if !reply_flag(p) || opcode_of(p) != 0 || be16(p, 4) != 1 {
        Completion::NoWaiter
    } else {
        let id = be16(p, 0);
        if !queries.contains_key(id) {
            Completion::NoWaiter
        } else if !same_ignoring_case(question_part(p), queries[id].question) {
            Completion::Mismatch(id)
        } else {
            Completion::Delivered(queries[id].ticket)
        }
    }
}

/// Only a response that repeats the question of a query in flight, under its identifier, is
/// delivered; a message under the same identifier with another question leaves every query in
/// flight where it is, so that its response can still come.
pub proof fn law_delivery_needs_own_question(queries: Map<u16, Flight>, p: Seq<u8>)
    ensures
        match completion_of(queries, p) {
            Completion::Delivered(ticket) => {
                &&& reply_flag(p)
                &&& queries.contains_key(be16(p, 0))
                &&& queries[be16(p, 0)].ticket == ticket
                &&& same_ignoring_case(question_part(p), queries[be16(p, 0)].question)
            },
            Completion::Mismatch(id) => queries.contains_key(id) && !same_ignoring_case(
                question_part(p),
                queries[id].question,
            ),
            Completion::NoWaiter => true,
        },
{
}

/// The response to a query in flight is delivered to whoever waits for it: it is marked as a
/// response to a lookup, counts one question, has the query's identifier, and repeats its question
/// up to the case of letters. No message without all of these is.
pub proof fn law_response_reaches_its_waiter(queries: Map<u16, Flight>, p: Seq<u8>, ticket: u64)
    ensures
        completion_of(queries, p) == Completion::Delivered(ticket) <==> {
            &&& p.len() >= 12
            &&& p[2] >= 128
            &&& (p[2] / 8) % 16 == 0
            &&& p[4] == 0 && p[5] == 1
            &&& queries.contains_key((p[0] * 256 + p[1]) as u16)
            &&& queries[(p[0] * 256 + p[1]) as u16].ticket == ticket
            &&& same_ignoring_case(
                question_part(p),
                queries[(p[0] * 256 + p[1]) as u16].question,
            )
        },
{
    if p.len() >= 12 {
        crate::dns::law_header_bits(p);
    }
}

/// A query gets the first identifier, in the order of the counter, that no query in flight has.
pub proof fn law_first_free_identifier(queries: Map<u16, Flight>, next: u32, tries: nat, k: nat)
    ensures
        used_run(queries, next, tries) <= tries,
        used_run(queries, next, tries) < tries ==> !queries.contains_key(
            mixed(advanced(next, used_run(queries, next, tries))),
        ),
        k < used_run(queries, next, tries) ==> queries.contains_key(mixed(advanced(next, k))),
    decreases tries,
{
    if tries > 0 && queries.contains_key(mixed(next)) {
        let after = u32_specs::wrapping_add(next, 1);
        let rest = used_run(queries, after, (tries - 1) as nat);
        law_first_free_identifier(
            queries,
            after,
            (tries - 1) as nat,
            if k > 0 {
                (k - 1) as nat
            } else {
                0
            },
        );
        assert(used_run(queries, next, tries) == 1 + rest);
        assert(advanced(next, 1 + rest) == advanced(after, rest));
        if k > 0 {
            assert(advanced(next, k) == advanced(after, (k - 1) as nat));
        } else {
            assert(advanced(next, 0) == next);
        }
    } else if tries > 0 {
        assert(advanced(next, 0) == next);
    }
}

/// A query is registered under an identifier that no query in flight has and that is not zero. It is
/// refused where the server has as many as it is given at once, and else only where none of the
/// identifiers that are tried is free.
pub proof fn law_registered_query_has_its_own_identifier(
    queries: Map<u16, Flight>,
    counter: u32,
    room: Option<usize>,
)
    ensures
        match registration(queries, counter, room) {
            Ok(id) => id != 0 && !queries.contains_key(id) && room != Some(0usize),
            Err(RegisterError::CapReached) => room == Some(0usize),
            Err(RegisterError::TableFull) => room != Some(0usize) && forall|k: nat|
                k < 65535 ==> queries.contains_key(#[trigger] mixed(advanced(counter, k))),
        },
        room == Some(0usize) ==> registration(queries, counter, room) == Err::<u16, RegisterError>(
            RegisterError::CapReached,
        ),
        room != Some(0usize) && !queries.contains_key(mixed(counter)) ==> registration(
            queries,
            counter,
            room,
        ) == Ok::<u16, RegisterError>(mixed(counter)),
{
    law_first_free_identifier(queries, counter, MAX_TRIES as nat, 0);
    if used_run(queries, counter, MAX_TRIES as nat) == MAX_TRIES {
        assert forall|k: nat| k < 65535 implies queries.contains_key(
            #[trigger] mixed(advanced(counter, k)),
        ) by {
            law_first_free_identifier(queries, counter, MAX_TRIES as nat, k);
        }
    }
    assert(advanced(counter, 0) == counter);
}

} // verus!
