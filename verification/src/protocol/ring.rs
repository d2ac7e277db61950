//! The hash ring on which a pushed message picks its one recipient.
//!
//! The candidates are put in the order of their digests, two candidates with
//! the same digest in the order of their addresses.  The message then picks
//! the candidate at the place that its own digest selects.  Nothing but the
//! identifiers enters the choice, so every replica picks the same endpoint.
use vstd::prelude::*;
use crate::protocol::endpoint::{EndpointAddr, MessageId};

verus! {

/// True when `a` stands strictly before `b` on the ring.
pub open spec fn ring_before(a: EndpointAddr, b: EndpointAddr) -> bool {
    a.spec_hash64() < b.spec_hash64() || (a.spec_hash64() == b.spec_hash64() && a.bits < b.bits)
}

/// True when `ring` lists exactly `members`, each once, in ring order.
pub open spec fn is_hash_ring(ring: Seq<EndpointAddr>, members: Set<EndpointAddr>) -> bool {
    &&& ring.to_set() == members
    &&& forall|i: int, j: int| 0 <= i < j < ring.len() ==> ring_before(ring[i], ring[j])
}

/// The ring of `members`.
pub open spec fn hash_ring(members: Set<EndpointAddr>) -> Seq<EndpointAddr> {
    choose|ring: Seq<EndpointAddr>| is_hash_ring(ring, members)
}

/// The member of a non-empty ring that message `id` picks: the one at place
/// `hash64(id) mod len`.
pub open spec fn ring_pick(ring: Seq<EndpointAddr>, id: MessageId) -> EndpointAddr {
    ring[(id.spec_hash64() as int) % (ring.len() as int)]
}

/// The recipient of a pushed message among `members`.
pub open spec fn push_target(members: Set<EndpointAddr>, id: MessageId) -> EndpointAddr {
    ring_pick(hash_ring(members), id)
}

/// A set of endpoints has at most one ring.
pub proof fn lemma_hash_ring_unique(
    a: Seq<EndpointAddr>,
    b: Seq<EndpointAddr>,
    members: Set<EndpointAddr>,
)
    requires
        is_hash_ring(a, members),
        is_hash_ring(b, members),
    ensures
        a == b,
    decreases a.len(),
{
    if a.len() == 0 {
        if b.len() > 0 {
            assert(b.to_set().contains(b[0]));
            assert(a.to_set().contains(b[0]));
        }
        assert(a =~= b);
    } else {
        assert(a.to_set().contains(a[0]));
        assert(b.contains(a[0]));
        let j = choose|j: int| 0 <= j < b.len() && b[j] == a[0];
        assert(b.to_set().contains(b[0]));
        assert(a.contains(b[0]));
        let k = choose|k: int| 0 <= k < a.len() && a[k] == b[0];
        if j > 0 {
            assert(ring_before(b[0], b[j]));
            if k > 0 {
                assert(ring_before(a[0], a[k]));
            }
        }
        assert(a[0] == b[0]);
        let rest = members.remove(a[0]);
        assert(is_hash_ring(a.skip(1), rest)) by {
            assert forall|x: EndpointAddr| a.skip(1).to_set().contains(x) == rest.contains(x) by {
                if a.skip(1).contains(x) {
                    let i = choose|i: int| 0 <= i < a.skip(1).len() && a.skip(1)[i] == x;
                    assert(a[i + 1] == x);
                    assert(ring_before(a[0], a[i + 1]));
                    assert(a.to_set().contains(x));
                }
                if rest.contains(x) {
                    assert(a.to_set().contains(x));
                    let i = choose|i: int| 0 <= i < a.len() && a[i] == x;
                    assert(a.skip(1)[i - 1] == x);
                }
            }
            assert(a.skip(1).to_set() =~= rest);
        }
        assert(is_hash_ring(b.skip(1), rest)) by {
            assert forall|x: EndpointAddr| b.skip(1).to_set().contains(x) == rest.contains(x) by {
                if b.skip(1).contains(x) {
                    let i = choose|i: int| 0 <= i < b.skip(1).len() && b.skip(1)[i] == x;
                    assert(b[i + 1] == x);
                    assert(ring_before(b[0], b[i + 1]));
                    assert(b.to_set().contains(x));
                }
                if rest.contains(x) {
                    assert(b.to_set().contains(x));
                    let i = choose|i: int| 0 <= i < b.len() && b[i] == x;
                    assert(b.skip(1)[i - 1] == x);
                }
            }
            assert(b.skip(1).to_set() =~= rest);
        }
        lemma_hash_ring_unique(a.skip(1), b.skip(1), rest);
        assert(a =~= seq![a[0]] + a.skip(1));
        assert(b =~= seq![b[0]] + b.skip(1));
    }
}

/// A ring of `members` is the ring of `members`.
pub proof fn lemma_hash_ring_is(ring: Seq<EndpointAddr>, members: Set<EndpointAddr>)
    requires
        is_hash_ring(ring, members),
    ensures
        hash_ring(members) == ring,
{
    lemma_hash_ring_unique(hash_ring(members), ring, members);
}

/// The place at which `x` enters a ring that does not list it: after the
/// members that stand before it, and before the others.
pub proof fn lemma_ring_place(ring: Seq<EndpointAddr>, x: EndpointAddr) -> (place: int)
    requires
        forall|i: int, j: int| 0 <= i < j < ring.len() ==> ring_before(ring[i], ring[j]),
        !ring.contains(x),
    ensures
        0 <= place <= ring.len(),
        forall|i: int| 0 <= i < place ==> ring_before(#[trigger] ring[i], x),
        forall|i: int| place <= i < ring.len() ==> ring_before(x, #[trigger] ring[i]),
    decreases ring.len(),
{
    if ring.len() == 0 {
        0
    } else {
        let last = ring.last();
        assert(ring.contains(last));
        if ring_before(last, x) {
            assert forall|i: int| 0 <= i < ring.len() implies ring_before(#[trigger] ring[i], x) by {
                if i < ring.len() - 1 {
                    assert(ring_before(ring[i], ring[ring.len() - 1]));
                }
            }
            ring.len() as int
        } else {
            let front = ring.drop_last();
            assert(!front.contains(x)) by {
                if front.contains(x) {
                    let k = choose|k: int| 0 <= k < front.len() && front[k] == x;
                    assert(ring[k] == x);
                }
            }
            let place = lemma_ring_place(front, x);
            assert forall|i: int| place <= i < ring.len() implies ring_before(x, #[trigger] ring[i]) by {
                if i < ring.len() - 1 {
                    assert(ring_before(x, front[i]));
                }
            }
            assert forall|i: int| 0 <= i < place implies ring_before(#[trigger] ring[i], x) by {
                assert(ring_before(front[i], x));
            }
            place
        }
    }
}

/// The endpoints of a list have a ring.
pub proof fn lemma_ring_of_list(members: Seq<EndpointAddr>) -> (ring: Seq<EndpointAddr>)
    ensures
        is_hash_ring(ring, members.to_set()),
    decreases members.len(),
{
    if members.len() == 0 {
        let ring = Seq::<EndpointAddr>::empty();
        assert(ring.to_set() =~= members.to_set());
        ring
    } else {
        let front = members.drop_last();
        let x = members.last();
        let before = lemma_ring_of_list(front);
        assert(members =~= front.push(x));
        front.lemma_push_to_set_commute(x);
        assert(members.to_set() =~= front.to_set().insert(x));
        if before.contains(x) {
            assert(before.to_set().contains(x));
            assert(front.to_set().insert(x) =~= front.to_set());
            before
        } else {
            let place = lemma_ring_place(before, x);
            let ring = before.insert(place, x);
            assert forall|a: int, b: int| 0 <= a < b < ring.len()
                implies ring_before(ring[a], ring[b]) by {
                let oa = if a < place { a } else { a - 1 };
                let ob = if b < place { b } else { b - 1 };
                if a != place && b != place {
                    assert(ring[a] == before[oa] && ring[b] == before[ob]);
                } else if a == place {
                    assert(ring[b] == before[ob]);
                } else {
                    assert(ring[a] == before[oa]);
                }
            }
            assert(ring.to_set() =~= before.to_set().insert(x)) by {
                assert forall|y: EndpointAddr| ring.to_set().contains(y)
                    == before.to_set().insert(x).contains(y) by {
                    if ring.contains(y) {
                        let k = choose|k: int| 0 <= k < ring.len() && ring[k] == y;
                        if k < place {
                            assert(before[k] == y);
                            assert(before.to_set().contains(y));
                        } else if k > place {
                            assert(before[k - 1] == y);
                            assert(before.to_set().contains(y));
                        }
                    }
                    if before.to_set().contains(y) {
                        let k = choose|k: int| 0 <= k < before.len() && before[k] == y;
                        if k < place {
                            assert(ring[k] == y);
                        } else {
                            assert(ring[k + 1] == y);
                        }
                    }
                    if y == x {
                        assert(ring[place] == y);
                    }
                }
            }
            ring
        }
    }
}

/// A finite set of endpoints has a ring.
pub proof fn lemma_hash_ring_exists(members: Set<EndpointAddr>)
    requires
        members.finite(),
    ensures
        is_hash_ring(hash_ring(members), members),
{
    members.lemma_to_seq_to_set_id();
    let ring = lemma_ring_of_list(members.to_seq());
    assert(is_hash_ring(ring, members));
}

/// A pushed message picks one of the endpoints that it may pick from.
pub proof fn lemma_push_target_is_member(members: Set<EndpointAddr>, id: MessageId)
    requires
        members.finite(),
        members != Set::<EndpointAddr>::empty(),
    ensures
        members.contains(push_target(members, id)),
{
    lemma_hash_ring_exists(members);
    let ring = hash_ring(members);
    if ring.len() == 0 {
        assert(ring.to_set() =~= Set::<EndpointAddr>::empty());
    }
    let place = (id.spec_hash64() as int) % (ring.len() as int);
    assert(ring.to_set().contains(ring[place]));
}

/// True when `a` stands strictly before `b` on the ring.
pub fn stands_before(a: EndpointAddr, b: EndpointAddr) -> (yes: bool)
    ensures
        yes == ring_before(a, b),
{
    let ha = a.hash64();
    let hb = b.hash64();
    ha < hb || (ha == hb && a.bits < b.bits)
}

/// The ring of the given endpoints.  An endpoint that is given more than
/// once stands on the ring once.
pub fn build_ring(members: &Vec<EndpointAddr>) -> (ring: Vec<EndpointAddr>)
    ensures
        is_hash_ring(ring@, members@.to_set()),
        ring@ == hash_ring(members@.to_set()),
{
    let mut ring: Vec<EndpointAddr> = Vec::new();
    let mut i: usize = 0;
    proof {
        assert(members@.take(0).to_set() =~= Set::<EndpointAddr>::empty());
        assert(ring@.to_set() =~= Set::<EndpointAddr>::empty());
    }
    while i < members.len()
        invariant
            i <= members.len(),
            is_hash_ring(ring@, members@.take(i as int).to_set()),
        decreases members.len() - i,
    {
        let member = members[i];
        let ghost done = members@.take(i as int).to_set();
        proof {
            assert(members@.take(i + 1) =~= members@.take(i as int).push(member));
            members@.take(i as int).lemma_push_to_set_commute(member);
            assert(members@.take(i + 1).to_set() =~= done.insert(member));
        }
        let mut at: usize = 0;
        while at < ring.len() && stands_before(ring[at], member)
            invariant
                at <= ring.len(),
                is_hash_ring(ring@, done),
                forall|k: int| 0 <= k < at ==> ring_before(#[trigger] ring@[k], member),
            decreases ring.len() - at,
        {
            at += 1;
        }
        if at < ring.len() && ring[at].bits == member.bits {
            proof {
                assert(ring@.to_set().contains(ring@[at as int]));
                assert(done.insert(member) =~= done);
            }
        } else {
            let ghost before = ring@;
            proof {
                assert forall|k: int| at <= k < before.len()
                    implies ring_before(member, #[trigger] before[k]) by {
                    assert(!ring_before(before[at as int], member));
                    assert(before[at as int] != member);
                    if k > at {
                        assert(ring_before(before[at as int], before[k]));
                    }
                }
            }
            ring.insert(at, member);
            proof {
                let after = ring@;
                assert forall|a: int, b: int| 0 <= a < b < after.len()
                    implies ring_before(after[a], after[b]) by {
                    let oa = if a < at { a } else { a - 1 };
                    let ob = if b < at { b } else { b - 1 };
                    if a != at && b != at {
                        assert(after[a] == before[oa] && after[b] == before[ob]);
                    } else if a == at {
                        assert(after[b] == before[ob]);
                    } else {
                        assert(after[a] == before[oa]);
                    }
                }
                assert(after.to_set() =~= done.insert(member)) by {
                    assert forall|x: EndpointAddr| after.to_set().contains(x)
                        == done.insert(member).contains(x) by {
                        if after.contains(x) {
                            let k = choose|k: int| 0 <= k < after.len() && after[k] == x;
                            if k < at {
                                assert(before[k] == x);
                                assert(before.to_set().contains(x));
                            } else if k > at {
                                assert(before[k - 1] == x);
                                assert(before.to_set().contains(x));
                            }
                        }
                        if done.contains(x) {
                            assert(before.to_set().contains(x));
                            let k = choose|k: int| 0 <= k < before.len() && before[k] == x;
                            if k < at {
                                assert(after[k] == x);
                            } else {
                                assert(after[k + 1] == x);
                            }
                        }
                        if x == member {
                            assert(after[at as int] == x);
                        }
                    }
                }
            }
        }
        i += 1;
    }
    proof {
        assert(members@.take(members.len() as int) =~= members@);
        lemma_hash_ring_is(ring@, members@.to_set());
    }
    ring
}

/// The recipient of a pushed message `id` among the given endpoints, if
/// there is any endpoint to pick from.
pub fn pick_push_target(
    members: &Vec<EndpointAddr>,
    id: MessageId,
) -> (target: Option<EndpointAddr>)
    ensures
        target is Some <==> members@.len() > 0,
        target matches Some(ep) ==> ep == push_target(members@.to_set(), id) && members@.contains(ep),
{
    let ring = build_ring(members);
    if ring.len() == 0 {
        proof {
            if members@.len() > 0 {
                assert(members@.to_set().contains(members@[0]));
                assert(ring@.to_set().contains(members@[0]));
            }
        }
        None
    } else {
        proof {
            assert(ring@.to_set().contains(ring@[0]));
            assert(members@.contains(ring@[0]));
        }
        let place = (id.hash64() % (ring.len() as u64)) as usize;
        proof {
            assert(ring@.to_set().contains(ring@[place as int]));
        }
        Some(ring[place])
    }
}

} // verus!
