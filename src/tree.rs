//! The tree itself: per-level slot storage, the zero cache, and the
//! operations that keep them in step with the model.
use vstd::prelude::*;
use vstd::arithmetic::power::{pow, lemma_pow_increases, lemma_pow_positive};
use crate::model::{
    TreeModel, ProofModel, level_len, path_index, lemma_level_len_path, lemma_path_root,
    lemma_block_split, lemma_ceil_count, lemma_ceil_parts, lemma_div_exact,
};

verus! {

/// A node value.
pub type IMTNode = String;

/// A plain function that hashes a sibling group, usable as a tree's hash.
pub type IMTHashFunction = fn(Vec<IMTNode>) -> IMTNode;

/// Why an operation was refused.
#[derive(Clone, Copy, Debug, PartialEq, Eq, Structural)]
pub enum IMTError {
    /// More initial leaves than `arity^depth`.
    CapacityExceeded,
    /// An insert into a tree that holds `arity^depth` leaves.
    TreeFull,
    /// An index at or past the number of leaves.
    LeafNotFound,
}

/// The views of a sequence of strings.
pub open spec fn views(v: Seq<String>) -> Seq<Seq<char>> {
    v.map_values(|s: String| s@)
}

/// The view of a slot.
pub open spec fn slot_view(o: Option<String>) -> Option<Seq<char>> {
    match o {
        Some(s) => Some(s@),
        None => None,
    }
}

/// The hash as a function on node values, read off the closure's postcondition.
pub open spec fn hash_model<H: Fn(Vec<String>) -> String>(h: H) -> spec_fn(Seq<Seq<char>>) -> Seq<char> {
    |v: Seq<Seq<char>>|
        (choose|a: Vec<String>, r: String| #![trigger call_ensures(h, (a,), r)]
            views(a@) == v && call_ensures(h, (a,), r)).1@
}

/// The hash gives equal results on equal node values.
pub open spec fn deterministic<H: Fn(Vec<String>) -> String>(h: H) -> bool {
    forall|a: Vec<String>, b: Vec<String>, ra: String, rb: String|
        #![trigger call_ensures(h, (a,), ra), call_ensures(h, (b,), rb)]
        views(a@) == views(b@) && call_ensures(h, (a,), ra) && call_ensures(h, (b,), rb) ==> ra@
            == rb@
}

/// The hash accepts every sequence of `arity` nodes.
pub open spec fn total_on<H: Fn(Vec<String>) -> String>(h: H, arity: nat) -> bool {
    forall|a: Vec<String>| a.len() == arity ==> #[trigger] call_requires(h, (a,))
}

/// A deterministic hash's model gives, on the values of any input, the value
/// of what a call on that input returned.
pub proof fn lemma_hash_model<H: Fn(Vec<String>) -> String>(h: H, a: Vec<String>, r: String)
    requires
        deterministic(h),
        call_ensures(h, (a,), r),
    ensures
        hash_model(h)(views(a@)) == r@,
{
    let v = views(a@);
    assert(exists|a2: Vec<String>, r2: String| #![trigger call_ensures(h, (a2,), r2)]
        views(a2@) == v && call_ensures(h, (a2,), r2)) by {
        assert(views(a@) == v && call_ensures(h, (a,), r));
    }
    let (_a2, r2) = choose|a2: Vec<String>, r2: String| #![trigger call_ensures(h, (a2,), r2)]
        views(a2@) == v && call_ensures(h, (a2,), r2);
    assert(r2@ == r@);
}

/// A stored slot agrees with the model: a written node holds its value, an
/// unwritten one stands for the level's zero value.
pub open spec fn slot_ok(m: TreeModel, level: nat, i: int, o: Option<String>) -> bool {
    match o {
        Some(v) => v@ == m.node_at(level, i),
        None => m.node_at(level, i) == m.zero_at(level),
    }
}

/// The leaf slots a tree starts with.
pub open spec fn initial_leaves(leaves: Option<Vec<String>>) -> Seq<Option<Seq<char>>> {
    match leaves {
        Some(v) => v@.map_values(|s: String| Some(s@)),
        None => Seq::empty(),
    }
}

/// The model of the tree that `IMT::new` builds from its arguments.
pub open spec fn built_model<H: Fn(Vec<String>) -> String>(
    hash: H,
    depth: nat,
    zero_value: Seq<char>,
    arity: nat,
    leaves: Option<Vec<String>>,
) -> TreeModel {
    TreeModel {
        hash: hash_model(hash),
        depth,
        arity,
        zero: zero_value,
        leaves: initial_leaves(leaves),
    }
}

/// A membership proof: the leaf, the root it leads to, and per level the
/// path node's position and its siblings in order.
pub struct IMTMerkleProof {
    pub root: IMTNode,
    pub leaf: IMTNode,
    pub path_indices: Vec<usize>,
    pub siblings: Vec<Vec<IMTNode>>,
    pub leaf_index: usize,
}

impl View for IMTMerkleProof {
    type V = ProofModel;

    open spec fn view(&self) -> ProofModel {
        ProofModel {
            root: self.root@,
            leaf: self.leaf@,
            path_indices: self.path_indices@.map_values(|x: usize| x as int),
            siblings: self.siblings@.map_values(|v: Vec<String>| views(v@)),
            leaf_index: self.leaf_index as int,
        }
    }
}

/// An incremental Merkle tree over string nodes, with hash `H`.
pub struct IMT<H> {
    nodes: Vec<Vec<Option<String>>>,
    zeroes: Vec<String>,
    hash: H,
    depth: usize,
    arity: usize,
}

impl<H: Fn(Vec<String>) -> String> View for IMT<H> {
    type V = TreeModel;

    closed spec fn view(&self) -> TreeModel {
        TreeModel {
            hash: hash_model(self.hash),
            depth: self.depth as nat,
            arity: self.arity as nat,
            zero: self.zeroes[0]@,
            leaves: self.nodes[0]@.map_values(|o: Option<String>| slot_view(o)),
        }
    }
}

/// Writes `v` at `pos` of a level, growing it by one where `pos` is its length.
fn store(row: &mut Vec<Option<String>>, pos: usize, v: String)
    requires
        pos <= old(row).len(),
    ensures
        final(row)@ == if pos < old(row).len() {
            old(row)@.update(pos as int, Some(v))
        } else {
            old(row)@.push(Some(v))
        },
{
    if pos < row.len() {
        row.set(pos, Some(v));
    } else {
        row.push(Some(v));
    }
}

impl<H: Fn(Vec<String>) -> String> IMT<H> {
    /// The storage invariant: the configuration is sound, the zero cache
    /// holds the zero values, and every stored slot agrees with the model.
    pub closed spec fn wf(&self) -> bool {
        &&& self.arity >= 1
        &&& self.nodes.len() == self.depth + 1
        &&& self.zeroes.len() == self.depth + 1
        &&& total_on(self.hash, self.arity as nat)
        &&& deterministic(self.hash)
        &&& self.nodes[0].len() <= self@.capacity()
        &&& forall|l: int| 0 <= l <= self.depth ==> #[trigger] self.zeroes[l]@ == self@.zero_at(l as nat)
        &&& forall|l: int|
            0 <= l <= self.depth ==> #[trigger] self.nodes[l].len() == level_len(
                self.nodes[0].len() as nat,
                self.arity as nat,
                l as nat,
            )
        &&& forall|l: int, i: int|
            0 <= l <= self.depth && 0 <= i < self.nodes[l].len() ==> slot_ok(
                self@,
                l as nat,
                i,
                #[trigger] self.nodes[l][i],
            )
    }
}

/// The `arity` children of the block that holds `pos` in `row`, with
/// unwritten and missing slots read as `zero`.
fn block_of(arity: usize, row: &Vec<Option<String>>, pos: usize, zero: &String) -> (r: Vec<String>)
    requires
        arity >= 1,
        pos < row.len(),
    ensures
        r.len() == arity,
        forall|t: int|
            0 <= t < arity ==> #[trigger] r[t] == if (pos - pos % arity) + t < row.len() {
                match row[(pos - pos % arity) + t] {
                    Some(v) => v,
                    None => *zero,
                }
            } else {
                *zero
            },
{
    proof {
        lemma_block_split(pos as int, arity as int);
    }
    let start = pos - pos % arity;
    let mut children: Vec<String> = Vec::with_capacity(arity);
    let mut k: usize = 0;
    while k < arity
        invariant
            start <= pos < row.len(),
            start == pos - pos % arity,
            k <= arity,
            children.len() == k,
            forall|t: int|
                0 <= t < k ==> #[trigger] children[t] == if start + t < row.len() {
                    match row[start + t] {
                        Some(v) => v,
                        None => *zero,
                    }
                } else {
                    *zero
                },
        decreases arity - k,
    {
        if k < row.len() - start {
            match &row[start + k] {
                Some(v) => children.push(v.clone()),
                None => children.push(zero.clone()),
            }
        } else {
            children.push(zero.clone());
        }
        k += 1;
    }
    children
}

/// Whether `n` is below `arity^depth`, without computing a power that
/// does not fit in a `usize`.
fn below_capacity(n: usize, arity: usize, depth: usize) -> (r: bool)
    requires
        arity >= 1,
    ensures
        r == (n < pow(arity as int, depth as nat)),
{
    let mut p: usize = 1;
    let mut l: usize = 0;
    proof {
        reveal(pow);
    }
    while l < depth
        invariant
            arity >= 1,
            l <= depth,
            p == pow(arity as int, l as nat),
        decreases depth - l,
    {
        if p > n / arity {
            proof {
                lemma_block_split(n as int, arity as int);
                assert(p * arity > n) by (nonlinear_arith)
                    requires
                        p > n / arity,
                        (n / arity) * arity + n % arity == n,
                        n % arity < arity,
                        arity >= 1,
                ;
                reveal(pow);
                assert(pow(arity as int, (l + 1) as nat) == arity * p);
                assert(arity * p == p * arity) by (nonlinear_arith);
                lemma_pow_increases(arity as nat, (l + 1) as nat, depth as nat);
            }
            return true;
        }
        proof {
            lemma_block_split(n as int, arity as int);
            assert(p * arity <= n) by (nonlinear_arith)
                requires
                    p <= n / arity,
                    (n / arity) * arity + n % arity == n,
                    n % arity >= 0,
                    arity >= 1,
            ;
            reveal(pow);
            assert(pow(arity as int, (l + 1) as nat) == arity * p);
            assert(arity * p == p * arity) by (nonlinear_arith);
        }
        p = p * arity;
        l += 1;
    }
    n < p
}

impl<H: Fn(Vec<String>) -> String> IMT<H> {
    /// Sets leaf `index` (at most one past the end) to `leaf` and recomputes
    /// the path from it to the root.
    fn write_leaf(&mut self, index: usize, leaf: String)
        requires
            old(self).wf(),
            index <= old(self).nodes[0].len(),
            index < old(self)@.capacity(),
        ensures
            final(self).wf(),
            final(self)@ == old(self)@.with_leaf(index as int, leaf@),
    {
        let ghost m0 = self@;
        let ghost m = m0.with_leaf(index as int, leaf@);
        let ghost n = self.nodes[0].len() as nat;
        let ghost n2: nat = if index < n { n } else { (n + 1) as nat };
        let ghost a = self.arity as nat;
        proof {
            m0.lemma_with_leaf(index as int, leaf@);
        }
        let mut node = leaf;
        let mut pos = index;
        let mut level: usize = 0;
        while level < self.depth
            invariant
                self.depth == old(self).depth,
                self.arity == old(self).arity,
                self.hash == old(self).hash,
                self.zeroes == old(self).zeroes,
                self.nodes.len() == self.depth + 1,
                old(self).wf(),
                m0 == old(self)@,
                m == m0.with_leaf(index as int, leaf@),
                a == self.arity,
                n == old(self).nodes[0].len(),
                index <= n,
                n2 == m.leaves.len(),
                forall|i: int| i != index ==> #[trigger] m.leaf(i) == m0.leaf(i),
                0 <= level <= self.depth,
                pos == path_index(index as nat, a, level as nat),
                node@ == m.node_at(level as nat, pos as int),
                forall|l: int| level <= l <= self.depth ==> #[trigger] self.nodes[l] == old(self).nodes[l],
                forall|l: int| 0 <= l < level ==> #[trigger] self.nodes[l].len() == level_len(n2, a, l as nat),
                forall|l: int, i: int|
                    0 <= l < level && 0 <= i < self.nodes[l].len() ==> slot_ok(
                        m,
                        l as nat,
                        i,
                        #[trigger] self.nodes[l][i],
                    ),
                level > 0 ==> self.nodes[0]@.map_values(|o: Option<String>| slot_view(o)) == m.leaves,
            decreases self.depth - level,
        {
            proof {
                lemma_level_len_path(n, index as nat, a, level as nat);
                m0.lemma_zero_same(m, level as nat);
            }
            let mut row: Vec<Option<String>> = Vec::new();
            self.nodes.set_and_swap(level, &mut row);
            let ghost old_row = row@;
            proof {
                assert(old(self).nodes[level as int].len() == level_len(n, a, level as nat));
            }
            store(&mut row, pos, node);
            proof {
                assert forall|i: int| 0 <= i < row.len() implies slot_ok(m, level as nat, i, #[trigger] row[i]) by {
                    if i != pos {
                        assert(old(self).nodes[level as int][i] == old_row[i]);
                        assert(slot_ok(m0, level as nat, i, old_row[i]));
                        m.lemma_frame(m0, index as int, level as nat, i);
                    }
                }
                if level == 0 {
                    assert(row@.map_values(|o: Option<String>| slot_view(o)) =~= m.leaves);
                }
            }
            let children = block_of(self.arity, &row, pos, &self.zeroes[level]);
            let ghost parent = pos / self.arity;
            proof {
                lemma_block_split(pos as int, self.arity as int);
                assert forall|t: int| 0 <= t < a implies #[trigger] views(children@)[t] == m.children(level as nat, parent as int)[t] by {
                    let c = (pos - pos % self.arity) + t;
                    assert(c == parent * a + t);
                    if c < row.len() {
                        assert(slot_ok(m, level as nat, c, row[c]));
                    } else {
                        m.lemma_beyond(level as nat, c);
                    }
                }
                assert(views(children@) =~= m.children(level as nat, parent as int));
            }
            let h = (self.hash)(children);
            proof {
                lemma_hash_model(self.hash, children, h);
            }
            self.nodes.set_and_swap(level, &mut row);
            node = h;
            pos = pos / self.arity;
            level += 1;
        }
        proof {
            lemma_level_len_path(n, index as nat, a, level as nat);
            lemma_path_root(index as nat, a, level as nat);
            m0.lemma_zero_same(m, level as nat);
        }
        let mut row: Vec<Option<String>> = Vec::new();
        self.nodes.set_and_swap(level, &mut row);
        let ghost old_row = row@;
        proof {
            assert(old(self).nodes[level as int].len() == level_len(n, a, level as nat));
        }
        store(&mut row, pos, node);
        proof {
            assert forall|i: int| 0 <= i < row.len() implies slot_ok(m, level as nat, i, #[trigger] row[i]) by {
                if i != pos {
                    assert(old(self).nodes[level as int][i] == old_row[i]);
                    assert(slot_ok(m0, level as nat, i, old_row[i]));
                    m.lemma_frame(m0, index as int, level as nat, i);
                }
            }
            if level == 0 {
                assert(row@.map_values(|o: Option<String>| slot_view(o)) =~= m.leaves);
            }
        }
        self.nodes.set_and_swap(level, &mut row);
        proof {
            assert(self@ =~= m);
            assert forall|l: int| 0 <= l <= self.depth implies #[trigger] self.zeroes[l]@ == self@.zero_at(l as nat) by {
                m0.lemma_zero_same(m, l as nat);
            }
        }
    }
}

impl<H: Fn(Vec<String>) -> String> IMT<H> {
    /// A well-formed tree has arity at least one and holds no more leaves
    /// than its capacity.
    pub proof fn lemma_wf_bounds(&self)
        requires
            self.wf(),
        ensures
            self@.arity >= 1,
            self@.leaves.len() <= self@.capacity(),
    {
    }

    /// Appends `leaf` at the next free index and recomputes its path.
    /// Refused with `TreeFull` when the tree holds `arity^depth` leaves.
    pub fn insert(&mut self, leaf: IMTNode) -> (r: Result<(), IMTError>)
        requires
            old(self).wf(),
        ensures
            final(self).wf(),
            r is Ok <==> old(self)@.leaves.len() < old(self)@.capacity(),
            r is Ok ==> final(self)@ == old(self)@.with_leaf(old(self)@.leaves.len() as int, leaf@),
            r is Err ==> r == Err::<(), IMTError>(IMTError::TreeFull) && *final(self) == *old(self),
    {
        if !below_capacity(self.nodes[0].len(), self.arity, self.depth) {
            return Err(IMTError::TreeFull);
        }
        let index = self.nodes[0].len();
        self.write_leaf(index, leaf);
        Ok(())
    }

    /// Sets leaf `index` to `new_leaf` and recomputes its path. Refused with
    /// `LeafNotFound` when `index` is not below the number of leaves.
    pub fn update(&mut self, index: usize, new_leaf: IMTNode) -> (r: Result<(), IMTError>)
        requires
            old(self).wf(),
        ensures
            final(self).wf(),
            r is Ok <==> index < old(self)@.leaves.len(),
            r is Ok ==> final(self)@ == old(self)@.with_leaf(index as int, new_leaf@),
            r is Err ==> r == Err::<(), IMTError>(IMTError::LeafNotFound) && *final(self) == *old(self),
    {
        if index >= self.nodes[0].len() {
            return Err(IMTError::LeafNotFound);
        }
        self.write_leaf(index, new_leaf);
        Ok(())
    }

    /// Sets leaf `index` to the zero leaf; the leaf count does not change.
    pub fn delete(&mut self, index: usize) -> (r: Result<(), IMTError>)
        requires
            old(self).wf(),
        ensures
            final(self).wf(),
            r is Ok <==> index < old(self)@.leaves.len(),
            r is Ok ==> final(self)@ == old(self)@.with_leaf(index as int, old(self)@.zero),
            r is Err ==> r == Err::<(), IMTError>(IMTError::LeafNotFound) && *final(self) == *old(self),
    {
        let zero = self.zeroes[0].clone();
        self.update(index, zero)
    }

    /// The current root.
    fn root_value(&self) -> (r: String)
        requires
            self.wf(),
        ensures
            r@ == self@.root(),
    {
        let top = &self.nodes[self.depth];
        if top.len() > 0 {
            assert(slot_ok(self@, self.depth as nat, 0, self.nodes[self.depth as int][0]));
            match &top[0] {
                Some(v) => v.clone(),
                None => self.zeroes[self.depth].clone(),
            }
        } else {
            proof {
                self@.lemma_beyond(self.depth as nat, 0);
            }
            self.zeroes[self.depth].clone()
        }
    }

    /// The root: on a tree with no leaves, the zero value of the top level.
    pub fn root(&mut self) -> (r: Option<String>)
        requires
            old(self).wf(),
        ensures
            *final(self) == *old(self),
            r is Some && r->Some_0@ == old(self)@.root(),
    {
        Some(self.root_value())
    }

    /// The number of levels above the leaves.
    pub fn depth(&mut self) -> (r: usize)
        ensures
            *final(self) == *old(self),
            r == old(self)@.depth,
    {
        self.depth
    }

    /// The number of children of each internal node.
    pub fn arity(&mut self) -> (r: usize)
        ensures
            *final(self) == *old(self),
            r == old(self)@.arity,
    {
        self.arity
    }

    /// A copy of the leaf slots, in order; `None` is a slot never written.
    pub fn leaves(&mut self) -> (r: Vec<Option<String>>)
        requires
            old(self).wf(),
        ensures
            *final(self) == *old(self),
            r@.map_values(|o: Option<String>| slot_view(o)) == old(self)@.leaves,
    {
        let row = &self.nodes[0];
        let mut out: Vec<Option<String>> = Vec::with_capacity(row.len());
        let mut i: usize = 0;
        while i < row.len()
            invariant
                i <= row.len(),
                out.len() == i,
                forall|t: int| 0 <= t < i ==> slot_view(#[trigger] out[t]) == slot_view(row[t]),
            decreases row.len() - i,
        {
            match &row[i] {
                Some(v) => out.push(Some(v.clone())),
                None => out.push(None),
            }
            i += 1;
        }
        assert(out@.map_values(|o: Option<String>| slot_view(o)) =~= self@.leaves);
        out
    }
}

impl<H: Fn(Vec<String>) -> String> IMT<H> {
    /// Builds a tree of the given depth and arity over `leaves`, with the
    /// zero cache computed from `zero_value`. Refused with `CapacityExceeded`
    /// when there are more than `arity^depth` leaves.
    pub fn new(
        hash: H,
        depth: usize,
        zero_value: IMTNode,
        arity: usize,
        leaves: Option<Vec<IMTNode>>,
    ) -> (r: Result<IMT<H>, IMTError>)
        requires
            arity >= 1,
            depth < usize::MAX,
            total_on(hash, arity as nat),
            deterministic(hash),
        ensures
            r is Err <==> (leaves is Some && leaves->Some_0.len() > pow(arity as int, depth as nat)),
            r is Err ==> r->Err_0 == IMTError::CapacityExceeded,
            r is Ok ==> r->Ok_0.wf() && r->Ok_0@ == built_model(hash, depth as nat, zero_value@, arity as nat, leaves),
    {
        proof {
            lemma_pow_positive(arity as int, depth as nat);
        }
        if let Some(v) = &leaves {
            if v.len() > 0 && !below_capacity(v.len() - 1, arity, depth) {
                return Err(IMTError::CapacityExceeded);
            }
        }
        assert(leaves is Some ==> leaves->Some_0.len() <= pow(arity as int, depth as nat));
        let ghost m = built_model(hash, depth as nat, zero_value@, arity as nat, leaves);
        let ghost a = arity as nat;
        // the zero cache
        let mut zeroes: Vec<String> = Vec::new();
        let mut current = zero_value;
        let mut l: usize = 0;
        while l < depth
            invariant
                l <= depth,
                arity >= 1,
                a == arity,
                m == built_model(hash, depth as nat, m.zero, arity as nat, leaves),
                total_on(hash, arity as nat),
                deterministic(hash),
                zeroes.len() == l,
                forall|t: int| 0 <= t < l ==> #[trigger] zeroes[t]@ == m.zero_at(t as nat),
                current@ == m.zero_at(l as nat),
            decreases depth - l,
        {
            zeroes.push(current.clone());
            let mut children: Vec<String> = Vec::with_capacity(arity);
            let mut k: usize = 0;
            while k < arity
                invariant
                    k <= arity,
                    children.len() == k,
                    forall|t: int| 0 <= t < k ==> #[trigger] children[t] == current,
                decreases arity - k,
            {
                children.push(current.clone());
                k += 1;
            }
            let ghost below = m.zero_at(l as nat);
            assert(views(children@) =~= Seq::new(a, |t: int| below));
            let h = hash(children);
            proof {
                lemma_hash_model(hash, children, h);
            }
            current = h;
            l += 1;
        }
        zeroes.push(current);
        // the leaves
        let mut row: Vec<Option<String>> = Vec::new();
        if let Some(v) = &leaves {
            let mut i: usize = 0;
            while i < v.len()
                invariant
                    i <= v.len(),
                    row.len() == i,
                    forall|t: int| 0 <= t < i ==> #[trigger] row[t] == Some(v[t]),
                decreases v.len() - i,
            {
                row.push(Some(v[i].clone()));
                i += 1;
            }
        }
        assert(row@.map_values(|o: Option<String>| slot_view(o)) =~= m.leaves);
        let ghost n = row.len() as nat;
        let mut nodes: Vec<Vec<Option<String>>> = Vec::new();
        nodes.push(row);
        // the levels above
        let mut level: usize = 0;
        while level < depth
            invariant
                level <= depth,
                arity >= 1,
                a == arity,
                total_on(hash, arity as nat),
                deterministic(hash),
                m.hash == hash_model(hash),
                m.arity == a,
                m.leaves.len() == n,
                zeroes.len() == depth + 1,
                forall|t: int| 0 <= t <= depth ==> #[trigger] zeroes[t]@ == m.zero_at(t as nat),
                nodes.len() == level + 1,
                forall|t: int| 0 <= t <= level ==> #[trigger] nodes[t].len() == level_len(n, a, t as nat),
                forall|t: int, i: int|
                    0 <= t <= level && 0 <= i < nodes[t].len() ==> slot_ok(
                        m,
                        t as nat,
                        i,
                        #[trigger] nodes[t][i],
                    ),
                nodes[0]@.map_values(|o: Option<String>| slot_view(o)) == m.leaves,
            decreases depth - level,
        {
            let len = nodes[level].len();
            proof {
                lemma_ceil_parts(len as int, arity as int);
                lemma_block_split(len as int, arity as int);
                assert(len % arity != 0 ==> len / arity < len) by (nonlinear_arith)
                    requires
                        (len / arity) * arity + len % arity == len,
                        len / arity >= 0,
                        arity >= 1,
                ;
            }
            let count = len / arity + if len % arity == 0 { 0 } else { 1 };
            let mut next: Vec<Option<String>> = Vec::new();
            let mut idx: usize = 0;
            while idx < count
                invariant
                    idx <= count,
                    count == (len + arity - 1) / (arity as int),
                    nodes.len() == level + 1,
                    len == nodes[level as int].len(),
                    len == level_len(n, a, level as nat),
                    arity >= 1,
                    a == arity,
                    total_on(hash, arity as nat),
                    deterministic(hash),
                    m.hash == hash_model(hash),
                    m.arity == a,
                    m.leaves.len() == n,
                    level < zeroes.len(),
                    zeroes[level as int]@ == m.zero_at(level as nat),
                    forall|i: int|
                        0 <= i < len ==> slot_ok(m, level as nat, i, #[trigger] nodes[level as int][i]),
                    next.len() == idx,
                    forall|i: int| 0 <= i < idx ==> slot_ok(m, (level + 1) as nat, i, #[trigger] next[i]),
                decreases count - idx,
            {
                proof {
                    lemma_ceil_count(len as int, arity as int, idx as int);
                    lemma_div_exact(idx as int, arity as int, 0);
                }
                let pos = idx * arity;
                let children = block_of(arity, &nodes[level], pos, &zeroes[level]);
                proof {
                    assert forall|t: int| 0 <= t < a implies #[trigger] views(children@)[t] == m.children(level as nat, idx as int)[t] by {
                        let c = pos + t;
                        if c < len {
                            assert(slot_ok(m, level as nat, c, nodes[level as int][c]));
                        } else {
                            m.lemma_beyond(level as nat, c);
                        }
                    }
                    assert(views(children@) =~= m.children(level as nat, idx as int));
                }
                let h = hash(children);
                proof {
                    lemma_hash_model(hash, children, h);
                }
                next.push(Some(h));
                idx += 1;
            }
            nodes.push(next);
            level += 1;
        }
        let t = IMT { nodes, zeroes, hash, depth, arity };
        assert(t@ =~= m);
        Ok(t)
    }

    /// The proof of membership of leaf `index`, against the current root.
    /// Refused with `LeafNotFound` when `index` is not below the number of leaves.
    pub fn create_proof(&self, index: usize) -> (r: Result<IMTMerkleProof, IMTError>)
        requires
            self.wf(),
        ensures
            r is Ok <==> index < self@.leaves.len(),
            r is Ok ==> r->Ok_0@ == self@.proof_for(index as nat),
            r is Err ==> r->Err_0 == IMTError::LeafNotFound,
    {
        if index >= self.nodes[0].len() {
            return Err(IMTError::LeafNotFound);
        }
        let ghost m = self@;
        let ghost a = self.arity as nat;
        let ghost n = self.nodes[0].len() as nat;
        let mut siblings: Vec<Vec<String>> = Vec::with_capacity(self.depth);
        let mut path_indices: Vec<usize> = Vec::with_capacity(self.depth);
        let mut pos = index;
        let mut level: usize = 0;
        while level < self.depth
            invariant
                self.wf(),
                m == self@,
                a == self.arity,
                n == self.nodes[0].len(),
                index < n,
                level <= self.depth,
                pos == path_index(index as nat, a, level as nat),
                siblings.len() == level,
                path_indices.len() == level,
                forall|l: int| 0 <= l < level ==> #[trigger] path_indices[l] as int == m.offset(index as nat, l as nat),
                forall|l: int| 0 <= l < level ==> views(#[trigger] siblings[l]@) == m.siblings_at(index as nat, l as nat),
            decreases self.depth - level,
        {
            proof {
                lemma_level_len_path(n, index as nat, a, level as nat);
                assert(self.nodes[level as int].len() == level_len(n, a, level as nat));
                lemma_block_split(pos as int, self.arity as int);
            }
            let offset = pos % self.arity;
            let mut children = block_of(self.arity, &self.nodes[level], pos, &self.zeroes[level]);
            let ghost parent = pos / self.arity;
            proof {
                assert forall|t: int| 0 <= t < a implies #[trigger] views(children@)[t] == m.children(level as nat, parent as int)[t] by {
                    let c = (pos - pos % self.arity) + t;
                    assert(c == parent * a + t);
                    if c < self.nodes[level as int].len() {
                        assert(slot_ok(m, level as nat, c, self.nodes[level as int][c]));
                    } else {
                        m.lemma_beyond(level as nat, c);
                    }
                }
                assert(views(children@) =~= m.children(level as nat, parent as int));
            }
            children.remove(offset);
            assert(views(children@) =~= m.siblings_at(index as nat, level as nat));
            siblings.push(children);
            path_indices.push(offset);
            pos = pos / self.arity;
            level += 1;
        }
        assert(slot_ok(m, 0, index as int, self.nodes[0][index as int]));
        let leaf = match &self.nodes[0][index] {
            Some(v) => v.clone(),
            None => self.zeroes[0].clone(),
        };
        let root = self.root_value();
        let p = IMTMerkleProof { root, leaf, path_indices, siblings, leaf_index: index };
        assert(p@.path_indices =~= m.proof_for(index as nat).path_indices);
        assert(p@.siblings =~= m.proof_for(index as nat).siblings);
        Ok(p)
    }

    /// Whether `proof` leads from its leaf to its own root under this tree's
    /// hash. The live tree is not consulted: a proof made before later
    /// changes still verifies against the root it carries.
    pub fn verify_proof(&self, proof: &IMTMerkleProof) -> (r: bool)
        requires
            self.wf(),
        ensures
            r == self@.verifies(proof@),
    {
        let ghost m = self@;
        let ghost p = proof@;
        if proof.siblings.len() != self.depth || proof.path_indices.len() != self.depth {
            return false;
        }
        let mut l: usize = 0;
        while l < self.depth
            invariant
                l <= self.depth,
                m == self@,
                p == proof@,
                self.wf(),
                proof.siblings.len() == self.depth,
                proof.path_indices.len() == self.depth,
                forall|t: int| 0 <= t < l ==> #[trigger] p.siblings[t].len() + 1 == m.arity && 0 <= p.path_indices[t] < m.arity,
            decreases self.depth - l,
        {
            if proof.siblings[l].len() != self.arity - 1 || proof.path_indices[l] >= self.arity {
                assert(!m.well_shaped(p)) by {
                    assert(p.siblings[l as int].len() == proof.siblings[l as int].len());
                }
                return false;
            }
            l += 1;
        }
        assert(m.well_shaped(p));
        let mut node = proof.leaf.clone();
        let mut level: usize = 0;
        while level < self.depth
            invariant
                level <= self.depth,
                m == self@,
                p == proof@,
                self.wf(),
                m.well_shaped(p),
                proof.siblings.len() == self.depth,
                proof.path_indices.len() == self.depth,
                node@ == m.fold_proof(p, level as nat),
            decreases self.depth - level,
        {
            let sib = &proof.siblings[level];
            let pi = proof.path_indices[level];
            assert(p.siblings[level as int].len() + 1 == m.arity && 0 <= p.path_indices[level as int] < m.arity);
            let mut children: Vec<String> = Vec::with_capacity(self.arity);
            let mut k: usize = 0;
            while k < self.arity
                invariant
                    k <= self.arity,
                    sib.len() + 1 == self.arity,
                    pi < self.arity,
                    children.len() == k,
                    forall|t: int| 0 <= t < k ==> #[trigger] children[t]@ == views(sib@).insert(pi as int, node@)[t],
                decreases self.arity - k,
            {
                if k < pi {
                    children.push(sib[k].clone());
                } else if k == pi {
                    children.push(node.clone());
                } else {
                    children.push(sib[k - 1].clone());
                }
                k += 1;
            }
            assert(views(children@) =~= p.siblings[level as int].insert(p.path_indices[level as int], node@));
            let h = (self.hash)(children);
            proof {
                lemma_hash_model(self.hash, children, h);
            }
            node = h;
            level += 1;
        }
        node == proof.root
    }
}

} // verus!
