//! The mathematical model of the ring: which positions a node's replicas take,
//! what placing and clearing them does to the map from positions to owner
//! identities, and which position owns a key.
use vstd::prelude::*;

use crate::hashing::replica_position;
use crate::node::Node;

verus! {

/// The positions of the first `n` replicas of the node whose identity is `id`.
pub open spec fn replica_positions(id: Seq<char>, n: nat) -> Set<u64> {
    Set::new(|p: u64| exists|i: nat| i < n && p == #[trigger] replica_position(id, i))
}

/// The entries that the first `n` replicas of the node whose identity is `id` make.
pub open spec fn replicas(id: Seq<char>, n: nat) -> Map<u64, Seq<char>> {
    Map::new(|p: u64| replica_positions(id, n).contains(p), |p: u64| id)
}

/// `m` after placing `n` replicas of the node `id`, each overwriting its position.
pub open spec fn placed(m: Map<u64, Seq<char>>, id: Seq<char>, n: nat) -> Map<u64, Seq<char>> {
    m.union_prefer_right(replicas(id, n))
}

/// `m` after clearing the positions of `n` replicas of the node `id`.
pub open spec fn cleared(m: Map<u64, Seq<char>>, id: Seq<char>, n: nat) -> Map<u64, Seq<char>> {
    m.remove_keys(replica_positions(id, n))
}

/// `m` after placing each of `ids`, in order.
pub open spec fn placed_all(m: Map<u64, Seq<char>>, ids: Seq<Seq<char>>, n: nat) -> Map<
    u64,
    Seq<char>,
>
    decreases ids.len(),
{
    if ids.len() == 0 {
        m
    } else {
        placed(placed_all(m, ids.drop_last(), n), ids.last(), n)
    }
}

/// `m` after clearing the positions of each of `ids`, in order.
pub open spec fn cleared_all(m: Map<u64, Seq<char>>, ids: Seq<Seq<char>>, n: nat) -> Map<
    u64,
    Seq<char>,
>
    decreases ids.len(),
{
    if ids.len() == 0 {
        m
    } else {
        cleared(cleared_all(m, ids.drop_last(), n), ids.last(), n)
    }
}

/// The identities of `nodes`, in order.
pub open spec fn identities<T: Node>(nodes: Seq<T>) -> Seq<Seq<char>> {
    nodes.map_values(|x: T| x.identity_view())
}

/// `p` owns `key` among `positions`: it is the smallest position at or after
/// `key`, or, where every position lies before `key`, the smallest of all.
pub open spec fn is_successor(positions: Set<u64>, key: u64, p: u64) -> bool {
    &&& positions.contains(p)
    &&& {
        ||| key <= p && (forall|q: u64| #[trigger] positions.contains(q) && key <= q ==> p <= q)
        ||| (forall|q: u64| #[trigger] positions.contains(q) ==> q < key) && (forall|q: u64|
            #[trigger] positions.contains(q) ==> p <= q)
    }
}

pub(crate) proof fn lemma_positions_step(id: Seq<char>, i: nat)
    ensures
        replica_positions(id, i + 1) == replica_positions(id, i).insert(replica_position(id, i)),
{
    let a = replica_positions(id, i + 1);
    let b = replica_positions(id, i).insert(replica_position(id, i));
    assert forall|p: u64| a.contains(p) implies b.contains(p) by {
        let j = choose|j: nat| j < i + 1 && p == #[trigger] replica_position(id, j);
        if j < i {
            assert(replica_positions(id, i).contains(p));
        }
    }
    assert forall|p: u64| b.contains(p) implies a.contains(p) by {
        if p != replica_position(id, i) {
            let j = choose|j: nat| j < i && p == #[trigger] replica_position(id, j);
            assert(j < i + 1);
        }
    }
    assert(a =~= b);
}

pub(crate) proof fn lemma_positions_empty(id: Seq<char>)
    ensures
        replica_positions(id, 0) == Set::<u64>::empty(),
{
    assert(replica_positions(id, 0) =~= Set::<u64>::empty());
}

/// Once clearing a prefix of `ids` leaves nothing, clearing all of them does too.
pub(crate) proof fn lemma_cleared_stays_empty(m: Map<u64, Seq<char>>, ids: Seq<Seq<char>>, n: nat, i: nat)
    requires
        i <= ids.len(),
        cleared_all(m, ids.take(i as int), n).is_empty(),
    ensures
        cleared_all(m, ids, n).is_empty(),
    decreases ids.len() - i,
{
    if i < ids.len() {
        let next = ids.take((i + 1) as int);
        assert(next.drop_last() =~= ids.take(i as int));
        let before = cleared_all(m, ids.take(i as int), n);
        assert(cleared(before, next.last(), n) =~= before);
        lemma_cleared_stays_empty(m, ids, n, i + 1);
    } else {
        assert(ids.take(i as int) =~= ids);
    }
}

proof fn lemma_positions_len(id: Seq<char>, n: nat, k: nat)
    requires
        k <= n,
        forall|i: nat, j: nat|
            i < j < n ==> #[trigger] replica_position(id, i) != #[trigger] replica_position(id, j),
    ensures
        replica_positions(id, k).finite(),
        replica_positions(id, k).len() == k,
    decreases k,
{
    if k == 0 {
        lemma_positions_empty(id);
    } else {
        let j = (k - 1) as nat;
        lemma_positions_len(id, n, j);
        lemma_positions_step(id, j);
        if replica_positions(id, j).contains(replica_position(id, j)) {
            let i = choose|i: nat| i < j && replica_position(id, j) == #[trigger] replica_position(
                id,
                i,
            );
            assert(replica_position(id, i) != replica_position(id, j));
        }
    }
}

/// Placing a node on an empty ring occupies exactly as many positions as it has
/// replicas, provided no two of its replica positions collide.
pub proof fn lemma_replica_count(id: Seq<char>, n: nat)
    requires
        forall|i: nat, j: nat|
            i < j < n ==> #[trigger] replica_position(id, i) != #[trigger] replica_position(id, j),
    ensures
        placed(Map::<u64, Seq<char>>::empty(), id, n).len() == n,
{
    lemma_positions_len(id, n, n);
    assert(placed(Map::<u64, Seq<char>>::empty(), id, n).dom() =~= replica_positions(id, n));
}

/// Every position occupied after placing `ids` was occupied before or belongs to
/// a replica of one of them.
proof fn lemma_placed_all_dom(m: Map<u64, Seq<char>>, ids: Seq<Seq<char>>, n: nat, p: u64)
    requires
        placed_all(m, ids, n).contains_key(p),
    ensures
        m.contains_key(p) || exists|k: int|
            0 <= k < ids.len() && #[trigger] replica_positions(ids[k], n).contains(p),
    decreases ids.len(),
{
    if ids.len() > 0 {
        let rest = ids.drop_last();
        if placed_all(m, rest, n).contains_key(p) {
            lemma_placed_all_dom(m, rest, n, p);
            if !m.contains_key(p) {
                let k = choose|k: int|
                    0 <= k < rest.len() && #[trigger] replica_positions(rest[k], n).contains(p);
                assert(rest[k] == ids[k]);
            }
        } else {
            assert(replica_positions(ids[ids.len() - 1], n).contains(p));
        }
    }
}

/// No position that a replica of one of `ids` takes is occupied after clearing them.
proof fn lemma_cleared_all_dom(m: Map<u64, Seq<char>>, ids: Seq<Seq<char>>, n: nat, p: u64, k: int)
    requires
        0 <= k < ids.len(),
        replica_positions(ids[k], n).contains(p),
    ensures
        !cleared_all(m, ids, n).contains_key(p),
    decreases ids.len(),
{
    let rest = ids.drop_last();
    if k < ids.len() - 1 {
        assert(rest[k] == ids[k]);
        lemma_cleared_all_dom(m, rest, n, p, k);
    }
}

/// Placing a sequence of nodes on an empty ring and then removing the same
/// sequence leaves the ring empty, whatever positions their replicas share.
pub proof fn lemma_add_remove_round_trip<T: Node>(nodes: Seq<T>, n: nat)
    ensures
        cleared_all(
            placed_all(Map::<u64, Seq<char>>::empty(), identities(nodes), n),
            identities(nodes),
            n,
        ) == Map::<u64, Seq<char>>::empty(),
{
    let ids = identities(nodes);
    let full = placed_all(Map::<u64, Seq<char>>::empty(), ids, n);
    let after = cleared_all(full, ids, n);
    assert forall|p: u64| !after.contains_key(p) by {
        if after.contains_key(p) {
            lemma_cleared_all_keys_from(full, ids, n, p);
            lemma_placed_all_dom(Map::<u64, Seq<char>>::empty(), ids, n, p);
            let k = choose|k: int| 0 <= k < ids.len() && #[trigger] replica_positions(ids[k], n).contains(p);
            lemma_cleared_all_dom(full, ids, n, p, k);
        }
    }
    assert(after =~= Map::<u64, Seq<char>>::empty());
}

/// Clearing only ever takes positions away.
proof fn lemma_cleared_all_keys_from(m: Map<u64, Seq<char>>, ids: Seq<Seq<char>>, n: nat, p: u64)
    requires
        cleared_all(m, ids, n).contains_key(p),
    ensures
        m.contains_key(p),
    decreases ids.len(),
{
    if ids.len() > 0 {
        lemma_cleared_all_keys_from(m, ids.drop_last(), n, p);
    }
}

/// Lookup is deterministic: at most one position owns a key, so two lookups of
/// the same key on the same ring return the node at the same position.
pub proof fn lemma_owner_unique(positions: Set<u64>, key: u64, p1: u64, p2: u64)
    requires
        is_successor(positions, key, p1),
        is_successor(positions, key, p2),
    ensures
        p1 == p2,
{
}

} // verus!
