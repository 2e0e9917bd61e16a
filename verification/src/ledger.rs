//! The balance ledger itself: an identifier-to-balance mapping together with
//! the ordered leaf digests of every insertion and the Merkle root over them.

use vstd::prelude::*;

verus! {

use crate::decimal::dec_of;
use crate::decimal::decimal_string;
use crate::digest::hash_pair;
use crate::digest::hash_pair_spec;

/// The digest that one insertion appends: the pair hash of the identifier and
/// the decimal rendering of the balance.
pub open spec fn leaf_hash(user: Seq<char>, balance: u64) -> Seq<char> {
    hash_pair_spec(user, dec_of(balance))
}

/// The views of a sequence of owned strings.
pub open spec fn views_of(s: Seq<String>) -> Seq<Seq<char>> {
    s.map_values(|x: String| x@)
}

/// One level of the bottom-up reduction: disjoint consecutive pairs are
/// hashed together, and a lone node at the end of an odd level is promoted
/// unchanged.
pub open spec fn reduce_level(level: Seq<Seq<char>>) -> Seq<Seq<char>>
    decreases level.len(),
{
    if level.len() >= 2 {
        seq![hash_pair_spec(level[0], level[1])] + reduce_level(level.skip(2))
    } else {
        level
    }
}

proof fn lemma_reduce_level_len(level: Seq<Seq<char>>)
    ensures
        level.len() >= 2 ==> reduce_level(level).len() == (level.len() + 1) / 2,
        level.len() < 2 ==> reduce_level(level) == level,
    decreases level.len(),
{
    if level.len() >= 2 {
        lemma_reduce_level_len(level.skip(2));
    }
}

/// The root of the tree over a non-empty leaf sequence: reduce level by level
/// until a single digest remains.
pub open spec fn root_of(leaves: Seq<Seq<char>>) -> Seq<char>
    recommends
        leaves.len() >= 1,
    decreases leaves.len(),
    when leaves.len() >= 1
    via root_of_decreases
{
    if leaves.len() == 1 {
        leaves[0]
    } else {
        root_of(reduce_level(leaves))
    }
}

#[via_fn]
proof fn root_of_decreases(leaves: Seq<Seq<char>>) {
    lemma_reduce_level_len(leaves);
}

/// A ledger of account balances committed to by a Merkle root.
pub struct MerkleTree {
    balances: Vec<(String, u64)>,
    root: Option<String>,
    leaves: Vec<String>,
}

/// The mapping that an association list denotes, last write winning.
pub open spec fn assoc_map(s: Seq<(String, u64)>) -> Map<Seq<char>, u64>
    decreases s.len(),
{
    if s.len() == 0 {
        Map::empty()
    } else {
        assoc_map(s.drop_last()).insert(s.last().0@, s.last().1)
    }
}

/// No two entries share an identifier.
pub open spec fn keys_unique(s: Seq<(String, u64)>) -> bool {
    forall|i: int, j: int| 0 <= i < j < s.len() ==> s[i].0@ != s[j].0@
}

proof fn lemma_assoc_map_contains(s: Seq<(String, u64)>, k: Seq<char>)
    ensures
        assoc_map(s).contains_key(k) <==> exists|i: int| 0 <= i < s.len() && s[i].0@ == k,
    decreases s.len(),
{
    if s.len() > 0 {
        lemma_assoc_map_contains(s.drop_last(), k);
        if s.last().0@ == k {
            assert(s[s.len() - 1].0@ == k);
        } else if assoc_map(s).contains_key(k) {
            let i = choose|i: int| 0 <= i < s.drop_last().len() && s.drop_last()[i].0@ == k;
            assert(s[i].0@ == k);
        } else if exists|i: int| 0 <= i < s.len() && s[i].0@ == k {
            let i = choose|i: int| 0 <= i < s.len() && s[i].0@ == k;
            assert(s.drop_last()[i].0@ == k);
        }
    }
}

proof fn lemma_assoc_map_update(s: Seq<(String, u64)>, k: int, p: (String, u64))
    requires
        0 <= k < s.len(),
        s[k].0@ == p.0@,
        keys_unique(s),
    ensures
        assoc_map(s.update(k, p)) == assoc_map(s).insert(p.0@, p.1),
        keys_unique(s.update(k, p)),
    decreases s.len(),
{
    let t = s.update(k, p);
    assert(keys_unique(t));
    if k == s.len() - 1 {
        assert(t.drop_last() =~= s.drop_last());
        assert(t.last() == p);
        assert(assoc_map(t) =~= assoc_map(s).insert(p.0@, p.1));
    } else {
        assert(keys_unique(s.drop_last()));
        assert(s.drop_last()[k] == s[k]);
        lemma_assoc_map_update(s.drop_last(), k, p);
        assert(t.drop_last() =~= s.drop_last().update(k, p));
        assert(t.last() == s.last());
        assert(s.last().0@ != p.0@);
        assert(assoc_map(t) =~= assoc_map(s).insert(p.0@, p.1));
    }
}

proof fn lemma_assoc_map_index(s: Seq<(String, u64)>, i: int)
    requires
        0 <= i < s.len(),
        forall|j: int| i < j < s.len() ==> s[j].0@ != s[i].0@,
    ensures
        assoc_map(s).contains_key(s[i].0@),
        assoc_map(s)[s[i].0@] == s[i].1,
    decreases s.len(),
{
    if i < s.len() - 1 {
        lemma_assoc_map_index(s.drop_last(), i);
        assert(s.drop_last()[i] == s[i]);
    }
}

impl MerkleTree {
    /// The identifier-to-balance mapping this ledger holds.
    pub closed spec fn balances_map(&self) -> Map<Seq<char>, u64> {
        assoc_map(self.balances@)
    }

    /// The leaf digests in insertion order, one per insertion ever made.
    pub closed spec fn leaves_seq(&self) -> Seq<Seq<char>> {
        views_of(self.leaves@)
    }

    /// The stored root digest.
    pub closed spec fn root_spec(&self) -> Option<Seq<char>> {
        match self.root {
            None => None,
            Some(r) => Some(r@),
        }
    }

    /// Well-formedness: identifiers are stored once each, and the root is
    /// absent exactly when no leaf exists, otherwise the reduction of the
    /// leaf sequence.
    pub closed spec fn wf(&self) -> bool {
        &&& keys_unique(self.balances@)
        &&& match self.root {
            None => self.leaves@.len() == 0,
            Some(r) => self.leaves@.len() > 0 && r@ == root_of(self.leaves_seq()),
        }
    }

    /// Creates an empty ledger: no balances, no leaves, no root.
    pub fn new() -> (r: MerkleTree)
        ensures
            r.wf(),
            r.balances_map() == Map::<Seq<char>, u64>::empty(),
            r.leaves_seq() == Seq::<Seq<char>>::empty(),
            r.root_spec() is None,
    {
        let r = MerkleTree { balances: Vec::new(), root: None, leaves: Vec::new() };
        proof {
            assert(r.leaves_seq() =~= Seq::<Seq<char>>::empty());
        }
        r
    }

    /// Looks up the balance most recently inserted for `user`, or `None`
    /// when no insertion ever used that identifier.
    pub fn get_balance(&self, user: &str) -> (r: Option<u64>)
        requires
            self.wf(),
        ensures
            self.balances_map().contains_key(user@) ==> r == Some(self.balances_map()[user@]),
            !self.balances_map().contains_key(user@) ==> r is None,
    {
        let key: String = user.to_owned();
        let mut i: usize = 0;
        while i < self.balances.len()
            invariant
                i <= self.balances@.len(),
                key@ == user@,
                self.wf(),
                forall|j: int| 0 <= j < i ==> self.balances@[j].0@ != user@,
            decreases self.balances@.len() - i,
        {
            if self.balances[i].0 == key {
                let v = self.balances[i].1;
                proof {
                    lemma_assoc_map_index(self.balances@, i as int);
                }
                return Some(v);
            }
            i += 1;
        }
        proof {
            lemma_assoc_map_contains(self.balances@, user@);
        }
        None
    }

    /// Returns the current root digest, or `None` when the tree is empty.
    pub fn get_root(&self) -> (r: Option<String>)
        ensures
            (r is None) == (self.root_spec() is None),
            r matches Some(s) ==> self.root_spec() == Some(s@),
            self.wf() ==> ((r is None) <==> self.leaves_seq().len() == 0),
            self.wf() ==> (r matches Some(s) ==> s@ == root_of(self.leaves_seq())),
    {
        match &self.root {
            None => None,
            Some(r) => Some(r.clone()),
        }
    }

    /// Rebuilds the root from the current leaves: reduce the level in
    /// disjoint consecutive pairs, promoting a lone final node unchanged,
    /// until one digest remains.
    fn update_root(&mut self)
        ensures
            final(self).balances == old(self).balances,
            final(self).leaves == old(self).leaves,
            (final(self).root is None) <==> (old(self).leaves@.len() == 0),
            final(self).root matches Some(r) ==> r@ == root_of(views_of(old(self).leaves@)),
    {
        if self.leaves.len() == 0 {
            self.root = None;
            return;
        }
        let mut current: Vec<String> = Vec::new();
        let mut i: usize = 0;
        proof {
            assert(current@ =~= self.leaves@.take(0));
        }
        while i < self.leaves.len()
            invariant
                i <= self.leaves@.len(),
                current@ == self.leaves@.take(i as int),
                self.balances == old(self).balances,
                self.leaves == old(self).leaves,
                self.root == old(self).root,
            decreases self.leaves@.len() - i,
        {
            let next_leaf = self.leaves[i].clone();
            proof {
                assert(self.leaves@.take(i as int).push(self.leaves@[i as int]) =~= self.leaves@.take(
                    i + 1,
                ));
            }
            current.push(next_leaf);
            i += 1;
        }
        proof {
            assert(self.leaves@.take(self.leaves@.len() as int) =~= self.leaves@);
        }
        while current.len() > 1
            invariant
                current@.len() >= 1,
                old(self).leaves@.len() >= 1,
                root_of(views_of(current@)) == root_of(views_of(old(self).leaves@)),
                self.balances == old(self).balances,
                self.leaves == old(self).leaves,
                self.root == old(self).root,
            decreases current@.len(),
        {
            let ghost cur_v: Seq<Seq<char>> = views_of(current@);
            let mut next: Vec<String> = Vec::new();
            let mut j: usize = 0;
            proof {
                assert(cur_v.skip(0) =~= cur_v);
                assert(views_of(next@) + reduce_level(cur_v) =~= reduce_level(cur_v));
            }
            while j + 1 < current.len()
                invariant
                    j % 2 == 0,
                    j <= current@.len(),
                    cur_v == views_of(current@),
                    views_of(next@) + reduce_level(cur_v.skip(j as int)) == reduce_level(cur_v),
                decreases current@.len() - j,
            {
                let h = hash_pair(current[j].as_str(), current[j + 1].as_str());
                proof {
                    let tail = cur_v.skip(j as int);
                    assert(tail.len() >= 2);
                    assert(tail[0] == cur_v[j as int]);
                    assert(tail[1] == cur_v[j + 1]);
                    assert(tail.skip(2) =~= cur_v.skip(j + 2));
                    assert(views_of(next@.push(h)) =~= views_of(next@).push(h@));
                    assert(views_of(next@).push(h@) + reduce_level(cur_v.skip(j + 2)) =~= views_of(
                        next@,
                    ) + reduce_level(tail));
                }
                next.push(h);
                j += 2;
            }
            if j < current.len() {
                let lone = current[j].clone();
                proof {
                    let tail = cur_v.skip(j as int);
                    assert(tail.len() == 1);
                    assert(tail[0] == cur_v[j as int]);
                    assert(views_of(next@.push(lone)) =~= views_of(next@).push(lone@));
                    assert(views_of(next@).push(cur_v[j as int]) =~= views_of(next@) + tail);
                }
                next.push(lone);
            } else {
                proof {
                    assert(cur_v.skip(j as int).len() == 0);
                    assert(views_of(next@) + cur_v.skip(j as int) =~= views_of(next@));
                }
            }
            proof {
                assert(views_of(next@) == reduce_level(cur_v));
                lemma_reduce_level_len(cur_v);
                assert(root_of(cur_v) == root_of(reduce_level(cur_v)));
            }
            current = next;
        }
        let root_val = current[0].clone();
        proof {
            assert(views_of(current@).len() == 1);
            assert(root_of(views_of(current@)) == views_of(current@)[0]);
            assert(views_of(current@)[0] == current@[0]@);
        }
        self.root = Some(root_val);
    }

    /// Inserts (or overwrites) the balance stored for `user`, appends the
    /// leaf digest of the pair, and rebuilds the root over all leaves.
    pub fn add_balance(&mut self, user: String, balance: u64)
        requires
            old(self).wf(),
        ensures
            final(self).wf(),
            final(self).balances_map() == old(self).balances_map().insert(user@, balance),
            final(self).leaves_seq() == old(self).leaves_seq().push(leaf_hash(user@, balance)),
    {
        let mut idx_opt: Option<usize> = None;
        let mut i: usize = 0;
        while i < self.balances.len()
            invariant
                i <= self.balances@.len(),
                *self == *old(self),
                idx_opt is None ==> forall|j: int| 0 <= j < i ==> self.balances@[j].0@ != user@,
                idx_opt matches Some(k) ==> k < self.balances@.len() && self.balances@[
                    k as int
                ].0@ == user@,
            decreases self.balances@.len() - i,
        {
            if idx_opt.is_none() && self.balances[i].0 == user {
                idx_opt = Some(i);
            }
            i += 1;
        }
        match idx_opt {
            Some(k) => {
                let pair = (user.clone(), balance);
                proof {
                    lemma_assoc_map_update(self.balances@, k as int, pair);
                }
                self.balances.set(k, pair);
            },
            None => {
                proof {
                    assert(self.balances@.push((user, balance)).drop_last() =~= self.balances@);
                    assert(keys_unique(self.balances@.push((user, balance))));
                }
                self.balances.push((user.clone(), balance));
            },
        }
        let bal_str = decimal_string(balance);
        let leaf = hash_pair(user.as_str(), bal_str.as_str());
        proof {
            assert(views_of(self.leaves@.push(leaf)) =~= views_of(self.leaves@).push(
                leaf_hash(user@, balance),
            ));
        }
        self.leaves.push(leaf);
        self.update_root();
    }

    /// The stored (identifier, balance) entries.
    pub fn entries(&self) -> (r: &Vec<(String, u64)>)
        ensures
            assoc_map(r@) == self.balances_map(),
            self.wf() ==> keys_unique(r@),
    {
        &self.balances
    }

    /// The leaf digests, one per insertion ever made, in insertion order.
    pub fn leaf_hashes(&self) -> (r: &Vec<String>)
        ensures
            views_of(r@) == self.leaves_seq(),
    {
        &self.leaves
    }
}

/// The root is absent exactly when the ledger holds no leaf, that is, when
/// no insertion has ever occurred.
pub proof fn lemma_root_none_iff_no_leaves(t: MerkleTree)
    requires
        t.wf(),
    ensures
        (t.root_spec() is None) <==> t.leaves_seq().len() == 0,
{
}

/// Determinism: two well-formed ledgers holding the same leaf sequence hold
/// the same root digest, whatever order either was built in.
pub proof fn lemma_root_deterministic(a: MerkleTree, b: MerkleTree)
    requires
        a.wf(),
        b.wf(),
        a.leaves_seq() == b.leaves_seq(),
    ensures
        a.root_spec() == b.root_spec(),
{
}

} // verus!
