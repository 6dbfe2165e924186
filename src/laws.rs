//! Laws of the tree, stated over the model that the operations' contracts use.
use vstd::prelude::*;
use crate::model::{TreeModel, ProofModel, level_len};
use crate::tree::{IMT, built_model, views, deterministic, total_on};
use crate::keccak::keccak256_hash_function;

verus! {

/// Trees built with the same hash, depth, zero leaf and arity over leaf
/// sequences of equal values have equal roots.
pub proof fn lemma_build_deterministic<H: Fn(Vec<String>) -> String>(
    hash: H,
    depth: nat,
    zero_value: Seq<char>,
    arity: nat,
    leaves1: Vec<String>,
    leaves2: Vec<String>,
)
    requires
        views(leaves1@) == views(leaves2@),
    ensures
        built_model(hash, depth, zero_value, arity, Some(leaves1)).root() == built_model(
            hash,
            depth,
            zero_value,
            arity,
            Some(leaves2),
        ).root(),
{
    let m1 = built_model(hash, depth, zero_value, arity, Some(leaves1));
    let m2 = built_model(hash, depth, zero_value, arity, Some(leaves2));
    assert(views(leaves1@).len() == leaves1@.len());
    assert(views(leaves2@).len() == leaves2@.len());
    assert forall|i: int| 0 <= i < m1.leaves.len() implies m1.leaves[i] == m2.leaves[i] by {
        assert(views(leaves1@)[i] == leaves1@[i]@);
        assert(views(leaves2@)[i] == leaves2@[i]@);
    }
    assert(m1.leaves =~= m2.leaves);
    assert(m1 == m2);
}

/// For every leaf of a well-formed tree, the proof made of it verifies.
pub proof fn lemma_round_trip<H: Fn(Vec<String>) -> String>(t: &IMT<H>, i: nat)
    requires
        t.wf(),
        i < t@.leaves.len(),
    ensures
        t@.verifies(t@.proof_for(i)),
{
    t.lemma_wf_bounds();
    t@.lemma_proof_for_verifies(i);
}

/// Folding a proof depends on the hash alone.
proof fn lemma_fold_same(m1: TreeModel, m2: TreeModel, p: ProofModel, n: nat)
    requires
        m1.hash == m2.hash,
    ensures
        m1.fold_proof(p, n) == m2.fold_proof(p, n),
    decreases n,
{
    if n > 0 {
        lemma_fold_same(m1, m2, p, (n - 1) as nat);
    }
}

/// A proof made before a leaf is inserted, updated or deleted still
/// verifies afterwards against the root it carries.
pub proof fn lemma_stale_proof<H: Fn(Vec<String>) -> String>(
    before: &IMT<H>,
    i: nat,
    j: int,
    v: Seq<char>,
)
    requires
        before.wf(),
        i < before@.leaves.len(),
    ensures
        before@.with_leaf(j, v).verifies(before@.proof_for(i)),
{
    lemma_round_trip(before, i);
    let after = before@.with_leaf(j, v);
    lemma_fold_same(before@, after, before@.proof_for(i), before@.depth);
}

/// Setting a leaf to a value twice gives the same tree, and so the same
/// root, as setting it once.
pub proof fn lemma_update_idempotent(m: TreeModel, i: int, v: Seq<char>)
    requires
        0 <= i < m.leaves.len(),
    ensures
        m.with_leaf(i, v).with_leaf(i, v) == m.with_leaf(i, v),
        m.with_leaf(i, v).with_leaf(i, v).root() == m.with_leaf(i, v).root(),
{
    assert(m.with_leaf(i, v).with_leaf(i, v).leaves =~= m.with_leaf(i, v).leaves);
}

/// After leaf `i` is deleted, the proof made of it is for the zero leaf
/// and verifies.
pub proof fn lemma_delete_then_verify<H: Fn(Vec<String>) -> String>(t: &IMT<H>, i: nat)
    requires
        t.wf(),
        i < t@.leaves.len(),
    ensures
        t@.with_leaf(i as int, t@.zero).proof_for(i).leaf == t@.zero,
        t@.with_leaf(i as int, t@.zero).verifies(t@.with_leaf(i as int, t@.zero).proof_for(i)),
{
    t.lemma_wf_bounds();
    let m = t@.with_leaf(i as int, t@.zero);
    m.lemma_proof_for_verifies(i);
}

proof fn lemma_level_len_empty(a: nat, level: nat)
    requires
        a >= 1,
    ensures
        level_len(0, a, level) == 0,
    decreases level,
{
    if level > 0 {
        lemma_level_len_empty(a, (level - 1) as nat);
        assert((a - 1) / (a as int) == 0) by (nonlinear_arith)
            requires
                a >= 1,
        ;
    }
}

/// A tree built with no leaves has the top level's zero value as its root;
/// at depth zero that is the zero leaf itself.
pub proof fn lemma_empty_root<H: Fn(Vec<String>) -> String>(
    hash: H,
    depth: nat,
    zero_value: Seq<char>,
    arity: nat,
)
    requires
        arity >= 1,
    ensures
        built_model(hash, depth, zero_value, arity, None).root() == built_model(
            hash,
            depth,
            zero_value,
            arity,
            None,
        ).zero_at(depth),
        depth == 0 ==> built_model(hash, depth, zero_value, arity, None).root() == zero_value,
{
    let m = built_model(hash, depth, zero_value, arity, None);
    lemma_level_len_empty(arity, depth);
    m.lemma_beyond(depth, 0);
}

/// The Keccak node hash meets what a tree asks of its hash, for any arity.
pub proof fn lemma_keccak_usable(arity: nat)
    ensures
        deterministic(keccak256_hash_function),
        total_on(keccak256_hash_function, arity),
{
}

} // verus!
