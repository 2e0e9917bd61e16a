//! Properties of insertion histories, stated over the same spec functions
//! that the executable contracts use.  An insertion history is the ordered
//! sequence of `(identifier, balance)` pairs handed to `add_balance`; the
//! contracts of `MerkleTree::new` and `MerkleTree::add_balance` make a ledger
//! built from such a history carry exactly `balances_after` and
//! `leaves_after` of it.

use vstd::prelude::*;

verus! {

use crate::digest::hash_pair_spec;
use crate::ledger::leaf_hash;
use crate::ledger::reduce_level;
use crate::ledger::root_of;

/// The mapping after a sequence of insertions applied in order, last write
/// winning.
pub open spec fn balances_after(inserts: Seq<(Seq<char>, u64)>) -> Map<Seq<char>, u64>
    decreases inserts.len(),
{
    if inserts.len() == 0 {
        Map::empty()
    } else {
        balances_after(inserts.drop_last()).insert(inserts.last().0, inserts.last().1)
    }
}

/// The leaf digests after a sequence of insertions: one per insertion, in
/// insertion order, never removed.
pub open spec fn leaves_after(inserts: Seq<(Seq<char>, u64)>) -> Seq<Seq<char>> {
    inserts.map_values(|p: (Seq<char>, u64)| leaf_hash(p.0, p.1))
}

/// Every insertion contributes exactly one leaf: a history of N insertions
/// leaves exactly N leaf digests behind.
pub proof fn lemma_leaf_count(inserts: Seq<(Seq<char>, u64)>)
    ensures
        leaves_after(inserts).len() == inserts.len(),
{
}

/// An identifier inserted and never re-inserted afterward keeps its balance
/// through any number of later insertions of other identifiers.
pub proof fn lemma_unrepeated_insert_kept(inserts: Seq<(Seq<char>, u64)>, i: int)
    requires
        0 <= i < inserts.len(),
        forall|j: int| i < j < inserts.len() ==> inserts[j].0 != inserts[i].0,
    ensures
        balances_after(inserts).contains_key(inserts[i].0),
        balances_after(inserts)[inserts[i].0] == inserts[i].1,
    decreases inserts.len(),
{
    if i < inserts.len() - 1 {
        assert(inserts.drop_last()[i] == inserts[i]);
        lemma_unrepeated_insert_kept(inserts.drop_last(), i);
    }
}

/// Re-inserting an identifier updates its balance yet removes no leaf: the
/// leaf count grows by one and every earlier leaf stays in place.
pub proof fn lemma_reinsert_updates_balance_keeps_leaves(
    inserts: Seq<(Seq<char>, u64)>,
    k: Seq<char>,
    v: u64,
)
    ensures
        balances_after(inserts.push((k, v))).contains_key(k),
        balances_after(inserts.push((k, v)))[k] == v,
        leaves_after(inserts.push((k, v))).len() == leaves_after(inserts).len() + 1,
        leaves_after(inserts.push((k, v))).take(inserts.len() as int) == leaves_after(inserts),
{
    assert(inserts.push((k, v)).drop_last() =~= inserts);
    assert(leaves_after(inserts.push((k, v))).take(inserts.len() as int) =~= leaves_after(
        inserts,
    ));
}

/// Odd-leaf promotion: with exactly three leaves, the first two are paired
/// and the third is carried up unhashed, so the root is the pair hash of
/// their combination with the promoted third.
pub proof fn lemma_three_leaf_root(a: Seq<char>, b: Seq<char>, c: Seq<char>)
    ensures
        root_of(seq![a, b, c]) == hash_pair_spec(hash_pair_spec(a, b), c),
{
    let bottom = seq![a, b, c];
    assert(bottom.skip(2) =~= seq![c]);
    assert(reduce_level(seq![c]) =~= seq![c]);
    assert(reduce_level(bottom) =~= seq![hash_pair_spec(a, b), c]);
    let middle = seq![hash_pair_spec(a, b), c];
    assert(middle.skip(2) =~= Seq::<Seq<char>>::empty());
    assert(reduce_level(Seq::<Seq<char>>::empty()) =~= Seq::<Seq<char>>::empty());
    assert(reduce_level(middle) =~= seq![hash_pair_spec(hash_pair_spec(a, b), c)]);
    assert(root_of(bottom) == root_of(middle));
    assert(root_of(middle) == root_of(reduce_level(middle)));
}

} // verus!
