//! The mathematical model of a transform hierarchy: a forest given by parent
//! links, the local and world transform of each entity, and its change markers.
use vstd::prelude::*;
use crate::affine::{affine_bits, affine_product_bits, has_nan, TransformComponent};

verus! {

/// What a transform hierarchy holds, entity by entity (an entity is an index).
pub struct HierarchyModel {
    pub parents: Seq<Option<usize>>,
    pub children: Seq<Seq<usize>>,
    /// The number of ancestors of each entity.
    pub depths: Seq<nat>,
    pub locals: Seq<TransformComponent>,
    pub worlds: Seq<glam::Affine3A>,
    /// The dirty marker: set on an entity whose subtree may hold a stale world transform.
    pub tree_changed: Seq<bool>,
    /// Set on the entities whose world transform the last propagation rewrote.
    pub world_changed: Seq<bool>,
    /// Entities whose local transform, parent or membership changed since the last marking pass.
    pub pending: Seq<usize>,
}

impl HierarchyModel {
    pub open spec fn len(self) -> nat {
        self.parents.len()
    }

    pub open spec fn valid(self, x: int) -> bool {
        0 <= x < self.len()
    }

    /// The parent links form a forest: every link names an entity one level
    /// higher, and the children lists are the reverse of the links.
    pub open spec fn forest_wf(self) -> bool {
        &&& self.len() <= usize::MAX
        &&& self.children.len() == self.len()
        &&& self.depths.len() == self.len()
        &&& self.locals.len() == self.len()
        &&& self.worlds.len() == self.len()
        &&& self.tree_changed.len() == self.len()
        &&& self.world_changed.len() == self.len()
        &&& forall|x: int|
            #![trigger self.parents[x]]
            self.valid(x) ==> match self.parents[x] {
                None => self.depths[x] == 0,
                Some(p) => self.valid(p as int) && self.depths[x] == self.depths[p as int] + 1,
            }
        &&& forall|p: int, i: int|
            #![trigger self.children[p][i]]
            self.valid(p) && 0 <= i < self.children[p].len() ==> {
                &&& self.valid(self.children[p][i] as int)
                &&& self.parents[self.children[p][i] as int] == Some(p as usize)
            }
        &&& forall|x: int|
            #![trigger self.parents[x]]
            self.valid(x) && self.parents[x] is Some ==> self.children[self.parents[x].unwrap() as int].contains(
                x as usize,
            )
        &&& forall|p: int| #![trigger self.children[p]] self.valid(p) ==> self.children[p].no_duplicates()
        &&& forall|i: int| #![trigger self.pending[i]] 0 <= i < self.pending.len() ==> self.valid(self.pending[i] as int)
    }

    pub open spec fn ancestor_within(self, a: int, x: int, fuel: nat) -> bool
        decreases fuel,
    {
        x == a || (fuel > 0 && match self.parents[x] {
            Some(p) => self.ancestor_within(a, p as int, (fuel - 1) as nat),
            None => false,
        })
    }

    /// `a` is `x` or one of the ancestors of `x`: `x` is in the subtree of `a`.
    pub open spec fn is_ancestor_or_self(self, a: int, x: int) -> bool {
        self.ancestor_within(a, x, self.depths[x])
    }

    pub open spec fn local_bits(self, x: int) -> Seq<u32> {
        self.locals[x].bits()
    }

    pub open spec fn world_bits(self, x: int) -> Seq<u32> {
        affine_bits(self.worlds[x])
    }

    pub open spec fn expected_within(self, x: int, fuel: nat) -> Seq<u32>
        decreases fuel,
    {
        match self.parents[x] {
            None => self.local_bits(x),
            Some(p) => if fuel > 0 {
                affine_product_bits(self.expected_within(p as int, (fuel - 1) as nat), self.local_bits(x))
            } else {
                self.local_bits(x)
            },
        }
    }

    /// The product of the local transforms from the root down to `x`, taken
    /// from the root: `((L_root * L_1) * ...) * L_x`.
    pub open spec fn expected_world_bits(self, x: int) -> Seq<u32> {
        self.expected_within(x, self.depths[x])
    }

    /// The parent's world transform times the local transform of `x` (the
    /// local transform alone, for a root).
    pub open spec fn composed_bits(self, x: int) -> Seq<u32> {
        match self.parents[x] {
            None => self.local_bits(x),
            Some(p) => affine_product_bits(self.world_bits(p as int), self.local_bits(x)),
        }
    }

    /// Computing the world transform of `x` from its parent's meets a NaN.
    pub open spec fn composed_nan(self, x: int) -> bool {
        has_nan(self.local_bits(x)) || match self.parents[x] {
            None => false,
            Some(p) => has_nan(self.world_bits(p as int)) || has_nan(self.composed_bits(x)),
        }
    }

    /// The world transform of `x` is its parent's times its local transform,
    /// with no NaN on the way.
    pub open spec fn locally_consistent(self, x: int) -> bool {
        !self.composed_nan(x) && self.world_bits(x) == self.composed_bits(x)
    }

    /// The world transform of `x` is what computing it from its parent's gives:
    /// the same bits, or a NaN where the computation meets one.
    pub open spec fn locally_agrees(self, x: int) -> bool {
        if self.composed_nan(x) {
            has_nan(self.world_bits(x))
        } else {
            self.world_bits(x) == self.composed_bits(x)
        }
    }

    pub open spec fn nan_free_within(self, x: int, fuel: nat) -> bool
        decreases fuel,
    {
        &&& !has_nan(self.local_bits(x))
        &&& !has_nan(self.expected_within(x, fuel))
        &&& match self.parents[x] {
            None => true,
            Some(p) => fuel > 0 && self.nan_free_within(p as int, (fuel - 1) as nat),
        }
    }

    /// No local transform on the chain from the root down to `x`, and no
    /// product along it, holds a NaN.
    pub open spec fn nan_free_chain(self, x: int) -> bool {
        self.nan_free_within(x, self.depths[x])
    }

    /// Every world transform whose chain computes without NaN is the product
    /// of its ancestor chain's local transforms.
    pub open spec fn consistent(self) -> bool {
        forall|x: int| #![trigger self.world_bits(x)]
            self.valid(x) && self.nan_free_chain(x) ==> self.world_bits(x) == self.expected_world_bits(x)
    }

    pub open spec fn same_forest(self, other: HierarchyModel) -> bool {
        &&& self.parents == other.parents
        &&& self.children == other.children
        &&& self.depths == other.depths
        &&& self.locals == other.locals
    }

    /// Some ancestor of `x`, or `x` itself, had a world transform that did not
    /// follow from its parent's and its local transform.
    pub open spec fn stale_above(self, x: int) -> bool {
        exists|a: int| #![trigger self.is_ancestor_or_self(a, x)]
            self.is_ancestor_or_self(a, x) && !self.locally_consistent(a)
    }

    /// Where the walk up from `x` ends.
    pub open spec fn root_within(self, x: int, fuel: nat) -> int
        decreases fuel,
    {
        match self.parents[x] {
            None => x,
            Some(p) => if fuel > 0 {
                self.root_within(p as int, (fuel - 1) as nat)
            } else {
                x
            },
        }
    }

    /// The root of the tree that holds `x`.
    pub open spec fn root_of(self, x: int) -> int {
        self.root_within(x, self.depths[x])
    }

    /// `x` is an ancestor-or-self of an entity whose change is pending.
    pub open spec fn above_pending(self, x: int) -> bool {
        exists|j: int|
            #![trigger self.pending[j]]
            0 <= j < self.pending.len() && self.is_ancestor_or_self(x, self.pending[j] as int)
    }

    /// Everything the marking pass guarantees, from the hierarchy before it
    /// (`self`) to the hierarchy after it.
    pub open spec fn marks_to(self, post: HierarchyModel) -> bool {
        &&& post.forest_wf()
        &&& self.same_forest(post)
        &&& post.worlds == self.worlds
        &&& post.world_changed == self.world_changed
        &&& post.pending.len() == 0
        &&& forall|x: int|
            #![trigger post.tree_changed[x]]
            post.valid(x) ==> (post.tree_changed[x] == (self.tree_changed[x] || self.above_pending(x)))
    }

    /// Everything the propagation pass guarantees, from the hierarchy before it
    /// (`self`) to the hierarchy after it.
    pub open spec fn propagates_to(self, post: HierarchyModel) -> bool {
        &&& post.forest_wf()
        &&& self.same_forest(post)
        &&& post.pending.len() == 0
        &&& forall|x: int| #![trigger post.locally_agrees(x)] post.valid(x) ==> post.locally_agrees(x)
        &&& post.consistent()
        &&& forall|x: int| #![trigger post.tree_changed[x]] post.valid(x) ==> !post.tree_changed[x]
        // Only a stale transform, and what lies below it, is rewritten.
        &&& forall|x: int| #![trigger post.world_changed[x]]
            post.valid(x) && post.world_changed[x] ==> self.stale_above(x)
        &&& forall|x: int| #![trigger post.worlds[x]]
            post.valid(x) && !post.world_changed[x] ==> post.worlds[x] == self.worlds[x]
        // Below a rewritten transform, every transform is rewritten.
        &&& forall|x: int|
            #![trigger post.world_changed[x], post.parents[x]]
            post.valid(x) && post.parents[x] is Some && post.world_changed[post.parents[x].unwrap() as int]
                ==> post.world_changed[x]
        // A tree whose root is unmarked, with no pending change in it, is not visited.
        &&& forall|x: int|
            #![trigger post.world_changed[x]]
            post.valid(x) && !self.tree_changed[self.root_of(x)] && !self.above_pending(self.root_of(x))
                ==> !post.world_changed[x]
    }
}

/// The dirty markers are closed under taking parents, except at entities
/// whose change is still pending.
pub open spec fn markers_closed_but_pending(m: HierarchyModel) -> bool {
    forall|x: int|
        #![trigger m.tree_changed[x], m.parents[x]]
        m.valid(x) && m.tree_changed[x] && m.parents[x] is Some && !m.tree_changed[m.parents[x].unwrap() as int]
            ==> m.pending.contains(x as usize)
}

/// A world transform that disagrees with its computation from its parent's is
/// marked or pending.
pub open spec fn stale_is_marked(m: HierarchyModel) -> bool {
    forall|x: int|
        #![trigger m.locally_agrees(x)]
        m.valid(x) && !m.locally_agrees(x) ==> m.tree_changed[x] || m.pending.contains(x as usize)
}

// Lemmas on the forest structure.

/// Two hierarchies with the same forest have the same ancestry.
pub proof fn lemma_same_forest_ancestry(m1: HierarchyModel, m2: HierarchyModel, a: int, x: int, fuel: nat)
    requires
        m1.parents == m2.parents,
    ensures
        m1.ancestor_within(a, x, fuel) == m2.ancestor_within(a, x, fuel),
    decreases fuel,
{
    if fuel > 0 {
        if let Some(p) = m1.parents[x] {
            lemma_same_forest_ancestry(m1, m2, a, p as int, (fuel - 1) as nat);
        }
    }
}

pub proof fn lemma_root_of(m: HierarchyModel, x: int)
    requires
        m.forest_wf(),
        m.valid(x),
    ensures
        m.valid(m.root_of(x)),
        m.parents[m.root_of(x)] is None,
        m.is_ancestor_or_self(m.root_of(x), x),
        forall|r: int| #![trigger m.is_ancestor_or_self(r, x)]
            m.valid(r) && m.parents[r] is None && m.is_ancestor_or_self(r, x) ==> r == m.root_of(x),
    decreases m.depths[x],
{
    lemma_ancestor_step(m, m.root_of(x), x);
    if let Some(p) = m.parents[x] {
        assert(m.depths[x] == m.depths[p as int] + 1);
        lemma_root_of(m, p as int);
        assert(m.root_of(x) == m.root_of(p as int));
        assert forall|r: int| #![trigger m.is_ancestor_or_self(r, x)]
            m.valid(r) && m.parents[r] is None && m.is_ancestor_or_self(r, x) implies r == m.root_of(x) by {
            lemma_ancestor_step(m, r, x);
            if r == x {
            }
        }
    }
}

/// In a subtree other than the root, an entity lies in the subtree of one
/// child of the root.
pub proof fn lemma_child_subtree(m: HierarchyModel, x: int, y: int) -> (k: int)
    requires
        m.forest_wf(),
        m.valid(x),
        m.valid(y),
        m.is_ancestor_or_self(x, y),
        y != x,
    ensures
        0 <= k < m.children[x].len(),
        m.is_ancestor_or_self(m.children[x][k] as int, y),
    decreases m.depths[y],
{
    lemma_ancestor_step(m, x, y);
    let q = m.parents[y].unwrap() as int;
    if q == x {
        assert(m.children[x].contains(y as usize));
        let k = choose|k: int| 0 <= k < m.children[x].len() && m.children[x][k] == y as usize;
        lemma_ancestor_step(m, y, y);
        k
    } else {
        let k = lemma_child_subtree(m, x, q);
        lemma_ancestor_step(m, m.children[x][k] as int, y);
        k
    }
}

pub proof fn lemma_ancestor_within_fuel(m: HierarchyModel, a: int, x: int, fuel: nat)
    requires
        m.forest_wf(),
        m.valid(x),
        fuel >= m.depths[x],
    ensures
        m.ancestor_within(a, x, fuel) == m.is_ancestor_or_self(a, x),
    decreases m.depths[x],
{
    if x != a {
        if let Some(p) = m.parents[x] {
            lemma_ancestor_within_fuel(m, a, p as int, (fuel - 1) as nat);
            lemma_ancestor_within_fuel(m, a, p as int, (m.depths[x] - 1) as nat);
        }
    }
}

/// `x` is in the subtree of `a` exactly when it is `a` or its parent is.
pub proof fn lemma_ancestor_step(m: HierarchyModel, a: int, x: int)
    requires
        m.forest_wf(),
        m.valid(x),
    ensures
        m.is_ancestor_or_self(a, x) == (x == a || match m.parents[x] {
            Some(p) => m.is_ancestor_or_self(a, p as int),
            None => false,
        }),
{
    if let Some(p) = m.parents[x] {
        assert(m.depths[x] == m.depths[p as int] + 1);
        lemma_ancestor_within_fuel(m, a, p as int, m.depths[p as int]);
    }
}

pub proof fn lemma_ancestor_depth(m: HierarchyModel, a: int, x: int)
    requires
        m.forest_wf(),
        m.valid(x),
        m.is_ancestor_or_self(a, x),
    ensures
        m.valid(a),
        m.depths[a] <= m.depths[x],
        m.depths[a] == m.depths[x] ==> a == x,
    decreases m.depths[x],
{
    lemma_ancestor_step(m, a, x);
    if x != a {
        let p = m.parents[x].unwrap() as int;
        lemma_ancestor_depth(m, a, p);
    }
}

/// Each entity has at most one ancestor at each depth.
pub proof fn lemma_ancestor_unique(m: HierarchyModel, a: int, b: int, x: int)
    requires
        m.forest_wf(),
        m.valid(x),
        m.is_ancestor_or_self(a, x),
        m.is_ancestor_or_self(b, x),
        m.depths[a] == m.depths[b],
    ensures
        a == b,
    decreases m.depths[x],
{
    lemma_ancestor_step(m, a, x);
    lemma_ancestor_step(m, b, x);
    lemma_ancestor_depth(m, a, x);
    lemma_ancestor_depth(m, b, x);
    if x != a && x != b {
        let p = m.parents[x].unwrap() as int;
        lemma_ancestor_unique(m, a, b, p);
    }
}

pub proof fn lemma_ancestor_trans(m: HierarchyModel, a: int, b: int, x: int)
    requires
        m.forest_wf(),
        m.valid(x),
        m.is_ancestor_or_self(a, b),
        m.is_ancestor_or_self(b, x),
    ensures
        m.is_ancestor_or_self(a, x),
    decreases m.depths[x],
{
    lemma_ancestor_step(m, b, x);
    lemma_ancestor_step(m, a, x);
    if x != b {
        let p = m.parents[x].unwrap() as int;
        lemma_ancestor_trans(m, a, b, p);
    }
}

/// The subtrees of two different children of one entity are disjoint.
pub proof fn lemma_sibling_subtrees_disjoint(m: HierarchyModel, c1: int, c2: int, y: int)
    requires
        m.forest_wf(),
        m.valid(y),
        m.valid(c1),
        m.valid(c2),
        m.parents[c1] is Some,
        m.parents[c1] == m.parents[c2],
        m.is_ancestor_or_self(c1, y),
        m.is_ancestor_or_self(c2, y),
    ensures
        c1 == c2,
{
    lemma_ancestor_unique(m, c1, c2, y);
}

/// The world transform of `x` from its parent's.
pub proof fn lemma_expected_step(m: HierarchyModel, x: int)
    requires
        m.forest_wf(),
        m.valid(x),
    ensures
        m.expected_world_bits(x) == match m.parents[x] {
            None => m.local_bits(x),
            Some(p) => affine_product_bits(m.expected_world_bits(p as int), m.local_bits(x)),
        },
{
    if let Some(p) = m.parents[x] {
        assert(m.depths[x] == m.depths[p as int] + 1);
    }
}

/// Two hierarchies with the same forest find the same roots.
pub proof fn lemma_same_forest_root(m1: HierarchyModel, m2: HierarchyModel, x: int, fuel: nat)
    requires
        m1.parents == m2.parents,
    ensures
        m1.root_within(x, fuel) == m2.root_within(x, fuel),
    decreases fuel,
{
    if fuel > 0 {
        if let Some(p) = m1.parents[x] {
            lemma_same_forest_root(m1, m2, p as int, (fuel - 1) as nat);
        }
    }
}

/// Where every world transform agrees with its computation from its parent's,
/// each whose chain computes without NaN is the product of that chain.
pub proof fn lemma_consistent_from_agreement(m: HierarchyModel)
    requires
        m.forest_wf(),
        forall|x: int| m.valid(x) ==> #[trigger] m.locally_agrees(x),
    ensures
        m.consistent(),
{
    assert forall|x: int| #![trigger m.world_bits(x)] m.valid(x) && m.nan_free_chain(x) implies m.world_bits(x)
        == m.expected_world_bits(x) by {
        lemma_consistent_at(m, x);
    }
}

proof fn lemma_consistent_at(m: HierarchyModel, x: int)
    requires
        m.forest_wf(),
        m.valid(x),
        m.nan_free_chain(x),
        forall|y: int| m.valid(y) ==> #[trigger] m.locally_agrees(y),
    ensures
        m.world_bits(x) == m.expected_world_bits(x),
    decreases m.depths[x],
{
    assert(m.locally_agrees(x));
    lemma_expected_step(m, x);
    if let Some(p) = m.parents[x] {
        assert(m.depths[x] == m.depths[p as int] + 1);
        lemma_consistent_at(m, p as int);
    }
}

/// Running the propagation pass twice in succession, with nothing changed in
/// between, leaves every world transform as the first run left it, and the
/// second run rewrites none, where the first run left no NaN in any world
/// transform.
pub proof fn lemma_propagation_idempotent(a: HierarchyModel, b: HierarchyModel, c: HierarchyModel)
    requires
        a.propagates_to(b),
        b.propagates_to(c),
        forall|x: int| b.valid(x) ==> !has_nan(#[trigger] b.world_bits(x)),
    ensures
        c.worlds == b.worlds,
        forall|x: int| #![trigger c.world_changed[x]] c.valid(x) ==> !c.world_changed[x],
{
    assert forall|x: int| #![trigger c.world_changed[x]] c.valid(x) implies !c.world_changed[x] by {
        if c.world_changed[x] {
            let y = choose|y: int| #![trigger b.is_ancestor_or_self(y, x)] b.is_ancestor_or_self(y, x) && !b.locally_consistent(y);
            lemma_ancestor_depth(b, y, x);
            assert(b.locally_agrees(y));
            assert(!has_nan(b.world_bits(y)));
        }
    }
    assert(c.worlds =~= b.worlds);
}

/// Propagation rewrites a world transform only in the subtree of an entity
/// that is marked or has a pending change; every other keeps its value. After
/// any propagation no marker is set, so this is the subtree of an entity
/// changed since. This holds where no world transform holds a NaN before the
/// pass: a NaN never compares equal, so a NaN on the marked path is rewritten
/// with its whole subtree.
pub proof fn lemma_rewrites_below_changes(a: HierarchyModel, b: HierarchyModel)
    requires
        a.forest_wf(),
        stale_is_marked(a),
        forall|x: int| a.valid(x) ==> !has_nan(#[trigger] a.world_bits(x)),
        a.propagates_to(b),
    ensures
        forall|x: int| #![trigger b.world_changed[x]]
            b.valid(x) && b.world_changed[x] ==> exists|y: int| #![trigger a.is_ancestor_or_self(y, x)]
                a.is_ancestor_or_self(y, x) && (a.tree_changed[y] || a.pending.contains(y as usize)),
        forall|x: int| #![trigger b.worlds[x]] b.valid(x) && !b.world_changed[x] ==> b.worlds[x] == a.worlds[x],
{
    assert forall|x: int| #![trigger b.world_changed[x]] b.valid(x) && b.world_changed[x] implies exists|y: int|
        #![trigger a.is_ancestor_or_self(y, x)]
        a.is_ancestor_or_self(y, x) && (a.tree_changed[y] || a.pending.contains(y as usize)) by {
        let y = choose|y: int| #![trigger a.is_ancestor_or_self(y, x)] a.is_ancestor_or_self(y, x) && !a.locally_consistent(y);
        lemma_ancestor_depth(a, y, x);
        assert(!has_nan(a.world_bits(y)));
        assert(!a.locally_agrees(y));
    }
}

/// After `e` is moved under `b`, one propagation pass makes the world
/// transform of `e` that of `b` times the local transform of `e`, where that
/// product meets no NaN; where it does, the world transform of `e` holds one.
pub proof fn lemma_reparent(s: HierarchyModel, a: HierarchyModel, c: HierarchyModel, e: int, b: int)
    requires
        s.valid(e),
        a.valid(b),
        a.parents == s.parents.update(e, Some(b as usize)),
        a.propagates_to(c),
    ensures
        c.parents[e] == Some(b as usize),
        !c.composed_nan(e) ==> c.world_bits(e) == affine_product_bits(c.world_bits(b), c.local_bits(e)),
        c.composed_nan(e) ==> has_nan(c.world_bits(e)),
{
    assert(a.parents[e] == Some(b as usize));
    assert(c.locally_agrees(e));
}

} // verus!
