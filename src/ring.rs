//! The ring: an ordered map from replica positions to copies of the nodes that
//! own them, with registration, removal and successor lookup.
use std::collections::BTreeMap;
use vstd::prelude::*;
use vstd::std_specs::cmp::OrdSpec;
use vstd::std_specs::iter::IteratorSpec;

use crate::hashing::replica_hash;
use crate::node::Node;
use crate::placement::{
    cleared, cleared_all, identities, is_successor, lemma_cleared_stays_empty, lemma_positions_empty,
    lemma_positions_step, placed, placed_all,
};

verus! {

broadcast use {vstd::std_specs::btree::group_btree_axioms, vstd::laws_cmp::group_laws_cmp};

/// Finds the position that owns `key`, if there is any position.
fn successor<T>(m: &BTreeMap<u64, T>, key: u64) -> (r: Option<u64>)
    ensures
        r is None <==> m@.is_empty(),
        r matches Some(p) ==> is_successor(m@.dom(), key, p),
{
    let mut first: Option<u64> = None;
    let mut found: Option<u64> = None;
    let ghost s = vstd::std_specs::btree::spec_keys_iter(m).remaining();
    for k in it: m.keys()
        invariant
            it.seq() == s,
            it.seq().unref().to_set() == m@.dom(),
            vstd::std_specs::btree::increasing_seq(it.seq()),
            first is None <==> it.index() == 0,
            it.index() > 0 ==> first == Some(*it.seq()[0]),
            found is None ==> forall|j: int| 0 <= j < it.index() ==> *it.seq()[j] < key,
            found matches Some(f) ==> exists|j: int|
                0 <= j < it.index() && *it.seq()[j] == f && key <= f && forall|i: int|
                    0 <= i < j ==> *it.seq()[i] < key,
    {
        if first.is_none() {
            first = Some(*k);
        }
        if found.is_none() && *k >= key {
            found = Some(*k);
        }
    }
    proof {
        assert(vstd::laws_cmp::obeys_cmp::<&u64>());
        assert forall|i: int, j: int| 0 <= i < j < s.len() implies *s[i] < *s[j] by {
            assert(<&u64 as OrdSpec>::cmp_spec(&s[i], &s[j]) is Less);
        }
        assert forall|q: u64| #[trigger] m@.dom().contains(q) implies exists|j: int|
            0 <= j < s.len() && *s[j] == q by {
            assert(s.unref().to_set().contains(q));
            let j = choose|j: int| 0 <= j < s.unref().len() && s.unref()[j] == q;
            assert(*s[j] == q);
        }
        assert forall|j: int| 0 <= j < s.len() implies #[trigger] m@.dom().contains(*s[j]) by {
            assert(s.unref()[j] == *s[j]);
            assert(s.unref().to_set().contains(s.unref()[j]));
        }
    }
    if found.is_some() {
        found
    } else {
        first
    }
}

/// Returned by a removal from a ring that holds no entry.
#[derive(Debug, Clone, Copy, PartialEq, Eq)]
pub struct EmptyRingError;

/// An ordered map from 64-bit replica positions to copies of the nodes that own them.
pub struct Ring<T: Node> {
    num_replicas: usize,
    ring: BTreeMap<u64, T>,
}

impl<T: Node> View for Ring<T> {
    type V = Map<u64, Seq<char>>;

    /// Each occupied position, with the identity of the node that holds it.
    closed spec fn view(&self) -> Map<u64, Seq<char>> {
        self.ring@.map_values(|x: T| x.identity_view())
    }
}

impl<T: Node> Ring<T> {
    /// The number of replicas placed for each node, fixed at creation.
    pub closed spec fn replica_count(&self) -> nat {
        self.num_replicas as nat
    }

    /// An empty ring that places `num_replicas` replicas of each node.
    pub fn new(num_replicas: usize) -> (r: Ring<T>)
        ensures
            r@ == Map::<u64, Seq<char>>::empty(),
            r.replica_count() == num_replicas,
    {
        let r = Ring { num_replicas: num_replicas, ring: BTreeMap::new() };
        assert(r@ =~= Map::<u64, Seq<char>>::empty());
        r
    }

    /// The number of replicas placed for each node.
    pub fn num_replicas(&self) -> (r: usize)
        ensures
            r == self.replica_count(),
    {
        self.num_replicas
    }

    /// The number of occupied positions.
    pub fn len(&self) -> (r: usize)
        ensures
            r == self@.len(),
    {
        assert(self@.dom() =~= self.ring@.dom());
        self.ring.len()
    }

    /// Whether no position is occupied.
    pub fn is_empty(&self) -> (r: bool)
        ensures
            r == self@.is_empty(),
    {
        assert(self@.dom() =~= self.ring@.dom());
        self.ring.is_empty()
    }

    /// Places `num_replicas` copies of `node`: replica `i` at the hash of the
    /// node's identity followed by `i` in decimal, overwriting what held it.
    pub fn add_node(&mut self, node: &T)
        ensures
            final(self)@ == placed(old(self)@, node.identity_view(), old(self).replica_count()),
            final(self).replica_count() == old(self).replica_count(),
    {
        let id = node.identity();
        let n = self.num_replicas;
        proof {
            lemma_positions_empty(id@);
            assert(self@ =~= placed(old(self)@, id@, 0));
        }
        for i in 0..n
            invariant
                self.num_replicas == n,
                n == old(self).replica_count(),
                id@ == node.identity_view(),
                self@ == placed(old(self)@, id@, i as nat),
        {
            let key = replica_hash(id.as_str(), i);
            let copy = node.duplicate();
            let ghost before = self@;
            self.ring.insert(key, copy);
            proof {
                lemma_positions_step(id@, i as nat);
                assert(self@ =~= before.insert(key, id@));
                assert(self@ =~= placed(old(self)@, id@, (i + 1) as nat));
            }
        }
    }

    /// Places each of `nodes`, in order, as `add_node` does.
    pub fn add_nodes(&mut self, nodes: &[T])
        ensures
            final(self)@ == placed_all(old(self)@, identities(nodes@), old(self).replica_count()),
            final(self).replica_count() == old(self).replica_count(),
    {
        let ghost n = old(self).replica_count();
        assert(identities(nodes@.take(0)) =~= Seq::<Seq<char>>::empty());
        let mut i: usize = 0;
        while i < nodes.len()
            invariant
                i <= nodes@.len(),
                self.replica_count() == n,
                n == old(self).replica_count(),
                self@ == placed_all(old(self)@, identities(nodes@.take(i as int)), n),
            decreases nodes@.len() - i,
        {
            self.add_node(&nodes[i]);
            assert(identities(nodes@.take(i + 1)).drop_last() =~= identities(nodes@.take(i as int)));
            i = i + 1;
        }
        assert(nodes@.take(i as int) =~= nodes@);
    }

    /// Clears the `num_replicas` positions computed from `node`'s identity, whatever
    /// holds them. Fails, changing nothing, on a ring with no entry.
    pub fn remove_node(&mut self, node: &T) -> (r: Result<(), EmptyRingError>)
        ensures
            r is Err <==> old(self)@.is_empty(),
            final(self)@ == cleared(old(self)@, node.identity_view(), old(self).replica_count()),
            final(self).replica_count() == old(self).replica_count(),
    {
        if self.ring.is_empty() {
            assert(self@.dom() =~= self.ring@.dom());
            assert(cleared(self@, node.identity_view(), self.replica_count()) =~= self@);
            return Err(EmptyRingError);
        }
        assert(self@.dom() =~= self.ring@.dom());
        let id = node.identity();
        let n = self.num_replicas;
        proof {
            lemma_positions_empty(id@);
            assert(self@ =~= cleared(old(self)@, id@, 0));
        }
        for i in 0..n
            invariant
                self.num_replicas == n,
                n == old(self).replica_count(),
                id@ == node.identity_view(),
                self@ == cleared(old(self)@, id@, i as nat),
        {
            let key = replica_hash(id.as_str(), i);
            let ghost before = self@;
            self.ring.remove(&key);
            proof {
                assert(self@ =~= before.remove(key));
                lemma_positions_step(id@, i as nat);
                assert(self@ =~= cleared(old(self)@, id@, (i + 1) as nat));
            }
        }
        Ok(())
    }

    /// Removes each of `nodes`, in order, as `remove_node` does. Stops at the first
    /// removal that finds the ring empty and returns its error; what came before
    /// stays done.
    pub fn remove_nodes(&mut self, nodes: &[T]) -> (r: Result<(), EmptyRingError>)
        ensures
            r is Err <==> nodes@.len() > 0 && cleared_all(
                old(self)@,
                identities(nodes@.drop_last()),
                old(self).replica_count(),
            ).is_empty(),
            final(self)@ == cleared_all(old(self)@, identities(nodes@), old(self).replica_count()),
            final(self).replica_count() == old(self).replica_count(),
    {
        let ghost n = old(self).replica_count();
        let ghost ids = identities(nodes@);
        assert(ids.take(0) =~= Seq::<Seq<char>>::empty());
        let mut i: usize = 0;
        while i < nodes.len()
            invariant
                i <= nodes@.len(),
                ids == identities(nodes@),
                self.replica_count() == n,
                n == old(self).replica_count(),
                self@ == cleared_all(old(self)@, ids.take(i as int), n),
                i > 0 ==> !cleared_all(old(self)@, ids.take(i - 1), n).is_empty(),
            decreases nodes@.len() - i,
        {
            let r = self.remove_node(&nodes[i]);
            assert(ids.take(i + 1).drop_last() =~= ids.take(i as int));
            if r.is_err() {
                proof {
                    let rest = ids.drop_last();
                    assert(rest.take(i as int) =~= ids.take(i as int));
                    assert(rest =~= identities(nodes@.drop_last()));
                    lemma_cleared_stays_empty(old(self)@, rest, n, i as nat);
                    lemma_cleared_stays_empty(old(self)@, ids, n, i as nat);
                    assert(self@ =~= cleared_all(old(self)@, ids, n));
                }
                return r;
            }
            i = i + 1;
        }
        assert(ids.take(i as int) =~= ids);
        proof {
            if nodes@.len() > 0 {
                assert(identities(nodes@.drop_last()) =~= ids.take(i - 1));
            }
        }
        Ok(())
    }

    /// The node that owns `key`: the one at the smallest position at or after
    /// `key`, wrapping round to the smallest position of all. `None` exactly when
    /// the ring holds no entry.
    pub fn get_node(&self, key: u64) -> (r: Option<&T>)
        ensures
            r is None <==> self@.is_empty(),
            r matches Some(v) ==> exists|p: u64|
                is_successor(self@.dom(), key, p) && self@[p] == v.identity_view(),
    {
        assert(self@.dom() =~= self.ring@.dom());
        match successor(&self.ring, key) {
            Some(p) => {
                let r = self.ring.get(&p);
                assert(r matches Some(v) && self@[p] == v.identity_view());
                r
            },
            None => None,
        }
    }
}

} // verus!
