//! The mathematical model of a tree: its leaves, the hash as a function on
//! node values, and the values of every node and proof that follow from them.
use vstd::prelude::*;
use vstd::arithmetic::div_mod::{lemma_fundamental_div_mod, lemma_fundamental_div_mod_converse, lemma_div_denominator};
use vstd::arithmetic::power::pow;

verus! {

/// A tree seen as its configuration and its leaf slots (`None` is a slot
/// that was never written).
pub struct TreeModel {
    pub hash: spec_fn(Seq<Seq<char>>) -> Seq<char>,
    pub depth: nat,
    pub arity: nat,
    pub zero: Seq<char>,
    pub leaves: Seq<Option<Seq<char>>>,
}

/// A membership proof seen as plain values.
pub struct ProofModel {
    pub root: Seq<char>,
    pub leaf: Seq<char>,
    pub path_indices: Seq<int>,
    pub siblings: Seq<Seq<Seq<char>>>,
    pub leaf_index: int,
}

/// The number of slots stored at `level` when `n` leaves are stored.
pub open spec fn level_len(n: nat, arity: nat, level: nat) -> nat
    decreases level,
{
    if level == 0 {
        n
    } else {
        ((level_len(n, arity, (level - 1) as nat) + arity - 1) / (arity as int)) as nat
    }
}

/// The position at `level` of the ancestor of leaf `i`.
pub open spec fn path_index(i: nat, arity: nat, level: nat) -> nat
    decreases level,
{
    if level == 0 {
        i
    } else {
        path_index(i, arity, (level - 1) as nat) / arity
    }
}

impl TreeModel {
    /// The value of leaf slot `i`: the zero leaf where nothing was written.
    pub open spec fn leaf(self, i: int) -> Seq<char> {
        if 0 <= i < self.leaves.len() {
            match self.leaves[i] {
                Some(v) => v,
                None => self.zero,
            }
        } else {
            self.zero
        }
    }

    /// The root of an all-zero subtree whose root stands at `level`.
    pub open spec fn zero_at(self, level: nat) -> Seq<char>
        decreases level,
    {
        if level == 0 {
            self.zero
        } else {
            let below = self.zero_at((level - 1) as nat);
            (self.hash)(Seq::new(self.arity, |k: int| below))
        }
    }

    /// The value of the node at `index` of `level`.
    pub open spec fn node_at(self, level: nat, index: int) -> Seq<char>
        decreases level, 0nat,
    {
        if level == 0 {
            self.leaf(index)
        } else {
            (self.hash)(self.children((level - 1) as nat, index))
        }
    }

    /// The `arity` nodes of `level` whose parent is node `parent` of the
    /// level above.
    pub open spec fn children(self, level: nat, parent: int) -> Seq<Seq<char>>
        decreases level, 1nat,
    {
        Seq::new(self.arity, |k: int| self.node_at(level, parent * self.arity + k))
    }

    pub open spec fn root(self) -> Seq<char> {
        self.node_at(self.depth, 0)
    }

    /// How many leaves the tree can hold.
    pub open spec fn capacity(self) -> int {
        pow(self.arity as int, self.depth)
    }

    /// The tree after leaf `i` is set to `v`; `i` one past the end appends.
    pub open spec fn with_leaf(self, i: int, v: Seq<char>) -> TreeModel {
        TreeModel {
            leaves: if i < self.leaves.len() {
                self.leaves.update(i, Some(v))
            } else {
                self.leaves.push(Some(v))
            },
            ..self
        }
    }
}


impl TreeModel {
    /// The sibling group that holds node `index` of `level`.
    pub open spec fn block(self, level: nat, index: int) -> Seq<Seq<char>> {
        self.children(level, index / (self.arity as int))
    }

    /// The position of the ancestor of leaf `i` among its siblings at `level`.
    pub open spec fn offset(self, i: nat, level: nat) -> int {
        (path_index(i, self.arity, level) % self.arity) as int
    }

    /// The siblings of the ancestor of leaf `i` at `level`, in order, without it.
    pub open spec fn siblings_at(self, i: nat, level: nat) -> Seq<Seq<char>> {
        self.block(level, path_index(i, self.arity, level) as int).remove(self.offset(i, level))
    }

    /// The proof of membership of leaf `i` in the tree as it stands.
    pub open spec fn proof_for(self, i: nat) -> ProofModel {
        ProofModel {
            root: self.root(),
            leaf: self.leaf(i as int),
            path_indices: Seq::new(self.depth, |l: int| self.offset(i, l as nat)),
            siblings: Seq::new(self.depth, |l: int| self.siblings_at(i, l as nat)),
            leaf_index: i as int,
        }
    }

    /// A proof has one entry per level, and each entry makes a full sibling
    /// group once the path node is put back.
    pub open spec fn well_shaped(self, p: ProofModel) -> bool {
        &&& p.siblings.len() == self.depth
        &&& p.path_indices.len() == self.depth
        &&& forall|l: int|
            0 <= l < self.depth ==> #[trigger] p.siblings[l].len() + 1 == self.arity && 0
                <= p.path_indices[l] < self.arity
    }

    /// The node reached from the proof's leaf after `n` levels.
    pub open spec fn fold_proof(self, p: ProofModel, n: nat) -> Seq<char>
        decreases n,
    {
        if n == 0 {
            p.leaf
        } else {
            let below = self.fold_proof(p, (n - 1) as nat);
            (self.hash)(p.siblings[n - 1].insert(p.path_indices[n - 1], below))
        }
    }

    /// A proof holds when it is well shaped and leads from its leaf to its own root.
    pub open spec fn verifies(self, p: ProofModel) -> bool {
        self.well_shaped(p) && self.fold_proof(p, self.depth) == p.root
    }

    /// Folding the first `level` entries of the proof of leaf `i` gives the
    /// ancestor of leaf `i` at `level`.
    pub proof fn lemma_fold_proof_for(self, i: nat, level: nat)
        requires
            self.arity >= 1,
            level <= self.depth,
        ensures
            self.fold_proof(self.proof_for(i), level) == self.node_at(
                level,
                path_index(i, self.arity, level) as int,
            ),
        decreases level,
    {
        if level > 0 {
            let l1 = (level - 1) as nat;
            self.lemma_fold_proof_for(i, l1);
            let p = self.proof_for(i);
            let pi = path_index(i, self.arity, l1) as int;
            let a = self.arity as int;
            lemma_block_split(pi, a);
            let blk = self.block(l1, pi);
            assert(blk[pi % a] == self.node_at(l1, pi));
            assert(p.siblings[l1 as int].insert(p.path_indices[l1 as int], self.node_at(l1, pi))
                =~= blk);
        }
    }

    /// The proof made of any leaf within capacity verifies.
    pub proof fn lemma_proof_for_verifies(self, i: nat)
        requires
            self.arity >= 1,
            i < self.capacity(),
        ensures
            self.verifies(self.proof_for(i)),
    {
        self.lemma_fold_proof_for(i, self.depth);
        lemma_path_root(i, self.arity, self.depth);
        let p = self.proof_for(i);
        assert forall|l: int| 0 <= l < self.depth implies #[trigger] p.siblings[l].len() + 1
            == self.arity && 0 <= p.path_indices[l] < self.arity by {
            lemma_block_split(path_index(i, self.arity, l as nat) as int, self.arity as int);
        }
    }
}

/// `q * a + k` divided by `a` is `q`, with remainder `k`.
pub proof fn lemma_div_exact(q: int, a: int, k: int)
    requires
        a >= 1,
        q >= 0,
        0 <= k < a,
    ensures
        (q * a + k) / a == q,
        (q * a + k) % a == k,
{
    lemma_fundamental_div_mod_converse(q * a + k, a, q, k);
}

/// A position splits into its block's start and its offset in the block.
pub proof fn lemma_block_split(p: int, a: int)
    requires
        a >= 1,
        p >= 0,
    ensures
        (p / a) * a + p % a == p,
        0 <= p % a < a,
        p / a >= 0,
{
    lemma_fundamental_div_mod(p, a);
    assert((p / a) * a == a * (p / a)) by (nonlinear_arith);
}

/// Splits `ceil(n / a)` into quotient and a carry, and bounds the blocks below it.
pub proof fn lemma_ceil_count(n: int, a: int, idx: int)
    requires
        a >= 1,
        n >= 0,
        0 <= idx < (n + a - 1) / a,
    ensures
        idx * a < n,
        idx * a >= 0,
{
    let c = (n + a - 1) / a;
    lemma_block_split(n + a - 1, a);
    assert(idx * a < n && idx * a >= 0) by (nonlinear_arith)
        requires
            c * a + (n + a - 1) % a == n + a - 1,
            (n + a - 1) % a >= 0,
            0 <= idx < c,
            a >= 1,
    ;
}

/// `ceil(n / a)` is the quotient, plus one when there is a remainder.
pub proof fn lemma_ceil_parts(n: int, a: int)
    requires
        a >= 1,
        n >= 0,
    ensures
        (n + a - 1) / a == n / a + if n % a == 0 {
            0int
        } else {
            1int
        },
{
    lemma_block_split(n, a);
    let q = n / a;
    let r = n % a;
    if r == 0 {
        lemma_div_exact(q, a, a - 1);
    } else {
        assert(n + a - 1 == (q + 1) * a + (r - 1)) by (nonlinear_arith)
            requires
                q * a + r == n,
        ;
        lemma_div_exact(q + 1, a, r - 1);
    }
}

/// A position at or past `ceil(n / a)` has all its children at or past `n`.
proof fn lemma_ceil_div(n: int, a: int, q: int)
    requires
        a >= 1,
        n >= 0,
        q >= (n + a - 1) / a,
    ensures
        q * a >= n,
{
    let c = (n + a - 1) / a;
    lemma_block_split(n + a - 1, a);
    assert(q * a >= c * a) by (nonlinear_arith)
        requires
            q >= c,
            a >= 1,
    ;
}

/// How the stored length of a level relates to the path of leaf `j`, when
/// leaf `j` is rewritten (`j < n`) or appended (`j == n`).
pub proof fn lemma_level_len_path(n: nat, j: nat, a: nat, level: nat)
    requires
        a >= 1,
        j <= n,
    ensures
        j < n ==> path_index(j, a, level) < level_len(n, a, level),
        j == n ==> level_len(n, a, level) <= path_index(j, a, level) + 1,
        j == n ==> path_index(j, a, level) <= level_len(n, a, level),
        j == n ==> level_len(n + 1, a, level) == path_index(j, a, level) + 1,
    decreases level,
{
    if level > 0 {
        let l1 = (level - 1) as nat;
        lemma_level_len_path(n, j, a, l1);
        let p = path_index(j, a, l1) as int;
        let ln = level_len(n, a, l1) as int;
        let ai = a as int;
        lemma_block_split(p, ai);
        let q = p / ai;
        let r = p % ai;
        if j < n {
            let c = (ln + ai - 1) / ai;
            lemma_block_split(ln + ai - 1, ai);
            assert(q < c) by (nonlinear_arith)
                requires
                    q * ai + r == p,
                    p < ln,
                    c * ai + (ln + ai - 1) % ai == ln + ai - 1,
                    (ln + ai - 1) % ai < ai,
                    0 <= r,
                    ai >= 1,
            ;
        } else {
            let ln1 = level_len(n + 1, a, l1) as int;
            assert(p + ai == (q + 1) * ai + r) by (nonlinear_arith)
                requires
                    q * ai + r == p,
            ;
            lemma_div_exact(q + 1, ai, r);
            assert(ln1 + ai - 1 == p + ai);
            if ln == p {
                if r == 0 {
                    assert(p + ai - 1 == q * ai + (ai - 1));
                    lemma_div_exact(q, ai, ai - 1);
                } else {
                    assert(p + ai - 1 == (q + 1) * ai + (r - 1)) by (nonlinear_arith)
                        requires
                            q * ai + r == p,
                    ;
                    lemma_div_exact(q + 1, ai, r - 1);
                }
            }
        }
    }
}

/// The ancestor of leaf `i` at `level` is `i / arity^level`.
pub proof fn lemma_path_index_pow(i: nat, a: nat, level: nat)
    requires
        a >= 1,
    ensures
        pow(a as int, level) >= 1,
        path_index(i, a, level) == i as int / pow(a as int, level),
    decreases level,
{
    reveal(pow);
    if level > 0 {
        let l1 = (level - 1) as nat;
        lemma_path_index_pow(i, a, l1);
        let pw = pow(a as int, l1);
        lemma_div_denominator(i as int, pw, a as int);
        assert(pw * a >= 1) by (nonlinear_arith)
            requires
                pw >= 1,
                a >= 1,
        ;
        reveal(pow);
        assert(pow(a as int, level) == a * pw);
        assert(a * pw == pw * a) by (nonlinear_arith);
    }
}

/// A leaf within capacity lies below the single root slot.
pub proof fn lemma_path_root(i: nat, a: nat, depth: nat)
    requires
        a >= 1,
        i < pow(a as int, depth),
    ensures
        path_index(i, a, depth) == 0,
{
    lemma_path_index_pow(i, a, depth);
    vstd::arithmetic::div_mod::lemma_basic_div(i as int, pow(a as int, depth));
}

impl TreeModel {
    /// What setting leaf `j` (at most one past the end) changes.
    pub proof fn lemma_with_leaf(self, j: int, v: Seq<char>)
        requires
            0 <= j <= self.leaves.len(),
        ensures
            forall|i: int| i != j ==> #[trigger] self.with_leaf(j, v).leaf(i) == self.leaf(i),
            self.with_leaf(j, v).leaf(j) == v,
            self.with_leaf(j, v).leaves.len() == if j < self.leaves.len() {
                self.leaves.len()
            } else {
                self.leaves.len() + 1
            },
    {
    }

    /// The zero values depend on the configuration alone.
    pub proof fn lemma_zero_same(self, other: TreeModel, level: nat)
        requires
            other.hash == self.hash,
            other.arity == self.arity,
            other.zero == self.zero,
        ensures
            self.zero_at(level) == other.zero_at(level),
        decreases level,
    {
        if level > 0 {
            self.lemma_zero_same(other, (level - 1) as nat);
        }
    }

    /// Every slot past the stored length of a level holds the zero value.
    pub proof fn lemma_beyond(self, level: nat, q: int)
        requires
            self.arity >= 1,
            q >= level_len(self.leaves.len(), self.arity, level),
        ensures
            self.node_at(level, q) == self.zero_at(level),
        decreases level,
    {
        if level > 0 {
            let l1 = (level - 1) as nat;
            lemma_ceil_div(level_len(self.leaves.len(), self.arity, l1) as int, self.arity as int, q);
            let below = self.zero_at(l1);
            let zs = Seq::new(self.arity, |k: int| below);
            assert forall|k: int| 0 <= k < self.arity implies #[trigger] self.children(l1, q)[k]
                == zs[k] by {
                self.lemma_beyond(l1, q * self.arity + k);
            }
            assert(self.children(l1, q) =~= zs);
        }
    }

    /// Rewriting leaf `j` changes no node off the path from `j` to the root.
    pub proof fn lemma_frame(self, other: TreeModel, j: int, level: nat, q: int)
        requires
            self.arity >= 1,
            j >= 0,
            q >= 0,
            other.hash == self.hash,
            other.arity == self.arity,
            other.zero == self.zero,
            forall|i: int| i != j ==> #[trigger] self.leaf(i) == other.leaf(i),
            q != path_index(j as nat, self.arity, level),
        ensures
            self.node_at(level, q) == other.node_at(level, q),
        decreases level,
    {
        if level > 0 {
            let l1 = (level - 1) as nat;
            assert forall|k: int| 0 <= k < self.arity implies #[trigger] self.children(l1, q)[k]
                == other.children(l1, q)[k] by {
                lemma_div_exact(q, self.arity as int, k);
                let c = q * self.arity + k;
                assert(c >= 0) by (nonlinear_arith)
                    requires
                        q >= 0,
                        self.arity >= 1,
                        k >= 0,
                        c == q * self.arity + k,
                ;
                self.lemma_frame(other, j, l1, c);
            }
            assert(self.children(l1, q) =~= other.children(l1, q));
        }
    }
}

} // verus!
