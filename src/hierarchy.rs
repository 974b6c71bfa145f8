//! A table-per-component store of entities with transforms, and the two passes
//! that keep world transforms up to date: dirty marking and propagation.
use vstd::prelude::*;
use crate::affine::{
    affine_bits, affine_mul, affine_to_bits, bits_have_nan, has_nan, same_bits, GlobalTransformComponent,
    TransformComponent,
};
use crate::model::{
    lemma_ancestor_depth, lemma_ancestor_step, lemma_ancestor_trans, lemma_child_subtree,
    lemma_consistent_from_agreement, lemma_root_of, lemma_same_forest_ancestry, lemma_same_forest_root,
    markers_closed_but_pending, stale_is_marked,
    lemma_sibling_subtrees_disjoint, HierarchyModel,
};

verus! {

/// An entity: an index into the component tables of one hierarchy.
#[derive(Clone, Copy, Debug, PartialEq, Eq, Structural)]
pub struct Entity {
    index: usize,
}

impl View for Entity {
    type V = int;

    closed spec fn view(&self) -> int {
        self.index as int
    }
}

impl Entity {
    pub fn from_index(index: usize) -> (r: Entity)
        ensures
            r@ == index,
    {
        Entity { index }
    }

    pub fn index(&self) -> (r: usize)
        ensures
            r == self@,
    {
        self.index
    }
}

#[derive(Clone, Copy, Debug, PartialEq, Eq, Structural)]
pub enum HierarchyError {
    /// The entity does not belong to this hierarchy.
    UnknownEntity,
    /// The new parent lies in the subtree of the entity being moved.
    WouldCreateCycle,
}

/// Entities with a local transform, a world transform and a dirty marker each,
/// arranged in a forest.
pub struct TransformHierarchy {
    parents: Vec<Option<usize>>,
    children: Vec<Vec<usize>>,
    locals: Vec<TransformComponent>,
    worlds: Vec<glam::Affine3A>,
    tree_changed: Vec<bool>,
    world_changed: Vec<bool>,
    pending: Vec<usize>,
    /// Every entity whose dirty marker is set.
    marked: Vec<usize>,
    /// Every entity whose world transform the last propagation rewrote.
    rewritten: Vec<usize>,
    depths: Ghost<Seq<nat>>,
    depth_bound: Ghost<nat>,
}

impl View for TransformHierarchy {
    type V = HierarchyModel;

    closed spec fn view(&self) -> HierarchyModel {
        HierarchyModel {
            parents: self.parents@,
            children: self.children@.map_values(|c: Vec<usize>| c@),
            depths: self.depths@,
            locals: self.locals@,
            worlds: self.worlds@,
            tree_changed: self.tree_changed@,
            world_changed: self.world_changed@,
            pending: self.pending@,
        }
    }
}

impl TransformHierarchy {
    pub closed spec fn wf(&self) -> bool {
        let m = self@;
        &&& m.forest_wf()
        &&& forall|x: int| #![trigger m.depths[x]] m.valid(x) ==> m.depths[x] <= self.depth_bound@
        &&& markers_closed_but_pending(m)
        &&& stale_is_marked(m)
        &&& forall|x: int| #![trigger m.tree_changed[x]] m.valid(x) && m.tree_changed[x] ==> self.marked@.contains(x as usize)
        &&& forall|i: int| #![trigger self.marked@[i]] 0 <= i < self.marked@.len() ==> m.valid(self.marked@[i] as int)
        &&& forall|x: int| #![trigger m.world_changed[x]] m.valid(x) && m.world_changed[x] ==> self.rewritten@.contains(x as usize)
        &&& forall|i: int| #![trigger self.rewritten@[i]] 0 <= i < self.rewritten@.len() ==> m.valid(self.rewritten@[i] as int)
    }

    /// What a well-formed hierarchy guarantees of its model: a forest, dirty
    /// markers closed under taking parents but at pending entities, and every
    /// stale world transform marked or pending.
    pub proof fn lemma_wf_facts(&self)
        requires
            self.wf(),
        ensures
            self@.forest_wf(),
            markers_closed_but_pending(self@),
            stale_is_marked(self@),
    {
    }

    /// An empty hierarchy.
    pub fn new() -> (r: Self)
        ensures
            r.wf(),
            r@.len() == 0,
            r@.pending.len() == 0,
    {
        let r = TransformHierarchy {
            parents: Vec::new(),
            children: Vec::new(),
            locals: Vec::new(),
            worlds: Vec::new(),
            tree_changed: Vec::new(),
            world_changed: Vec::new(),
            pending: Vec::new(),
            marked: Vec::new(),
            rewritten: Vec::new(),
            depths: Ghost(Seq::empty()),
            depth_bound: Ghost(0),
        };
        assert(r@.children =~= Seq::<Seq<usize>>::empty());
        r
    }

    /// The number of entities.
    pub fn len(&self) -> (r: usize)
        requires
            self.wf(),
        ensures
            r == self@.len(),
    {
        self.parents.len()
    }

    /// Whether the entity belongs to this hierarchy.
    pub fn contains(&self, e: Entity) -> (r: bool)
        requires
            self.wf(),
        ensures
            r == self@.valid(e@),
    {
        e.index < self.parents.len()
    }

    proof fn lemma_view_children(&self, p: int)
        requires
            0 <= p < self.children@.len(),
        ensures
            self@.children[p] == self.children@[p]@,
    {
    }

    /// Adds an entity with the given local transform, as a root. Its world
    /// transform is written by the next propagation.
    pub fn spawn(&mut self, local: TransformComponent) -> (e: Entity)
        requires
            old(self).wf(),
            old(self)@.len() < usize::MAX,
        ensures
            final(self).wf(),
            e@ == old(self)@.len(),
            final(self)@.parents == old(self)@.parents.push(None),
            final(self)@.locals == old(self)@.locals.push(local),
            final(self)@.worlds.drop_last() == old(self)@.worlds,
            final(self)@.worlds.len() == old(self)@.worlds.len() + 1,
            final(self)@.tree_changed == old(self)@.tree_changed.push(false),
            final(self)@.world_changed == old(self)@.world_changed.push(false),
            final(self)@.pending == old(self)@.pending.push(e@ as usize),
    {
        self.push_entity(local, None)
    }

    /// Adds an entity with the given local transform, as a child of `parent`.
    pub fn spawn_child(&mut self, local: TransformComponent, parent: Entity) -> (r: Result<
        Entity,
        HierarchyError,
    >)
        requires
            old(self).wf(),
            old(self)@.len() < usize::MAX,
        ensures
            final(self).wf(),
            !old(self)@.valid(parent@) ==> r == Err::<Entity, HierarchyError>(HierarchyError::UnknownEntity)
                && final(self)@ == old(self)@,
            old(self)@.valid(parent@) ==> r is Ok && {
                let e = r.unwrap();
                &&& e@ == old(self)@.len()
                &&& final(self)@.parents == old(self)@.parents.push(Some(parent@ as usize))
                &&& final(self)@.locals == old(self)@.locals.push(local)
                &&& final(self)@.worlds.drop_last() == old(self)@.worlds
                &&& final(self)@.worlds.len() == old(self)@.worlds.len() + 1
                &&& final(self)@.tree_changed == old(self)@.tree_changed.push(false)
                &&& final(self)@.world_changed == old(self)@.world_changed.push(false)
                &&& final(self)@.pending == old(self)@.pending.push(e@ as usize)
            },
    {
        if parent.index >= self.parents.len() {
            return Err(HierarchyError::UnknownEntity);
        }
        Ok(self.push_entity(local, Some(parent.index)))
    }

    fn push_entity(&mut self, local: TransformComponent, parent: Option<usize>) -> (e: Entity)
        requires
            old(self).wf(),
            old(self)@.len() < usize::MAX,
            parent matches Some(p) ==> old(self)@.valid(p as int),
        ensures
            final(self).wf(),
            e@ == old(self)@.len(),
            final(self)@.parents == old(self)@.parents.push(parent),
            final(self)@.locals == old(self)@.locals.push(local),
            final(self)@.worlds.drop_last() == old(self)@.worlds,
            final(self)@.worlds.len() == old(self)@.worlds.len() + 1,
            final(self)@.tree_changed == old(self)@.tree_changed.push(false),
            final(self)@.world_changed == old(self)@.world_changed.push(false),
            final(self)@.pending == old(self)@.pending.push(e@ as usize),
    {
        let ghost m0 = self@;
        let index = self.parents.len();
        let world = local.to_affine();
        self.parents.push(parent);
        self.children.push(Vec::new());
        self.locals.push(local);
        self.worlds.push(world);
        self.tree_changed.push(false);
        self.world_changed.push(false);
        self.pending.push(index);
        match parent {
            None => {
                proof {
                    self.depths@ = self.depths@.push(0);
                }
            },
            Some(p) => {
                let mut siblings: Vec<usize> = Vec::new();
                let n = self.children[p].len();
                let mut k: usize = 0;
                while k < n
                    invariant
                        p < self.children@.len(),
                        n == self.children@[p as int]@.len(),
                        0 <= k <= n,
                        siblings@ == self.children@[p as int]@.subrange(0, k as int),
                    decreases n - k,
                {
                    siblings.push(self.children[p][k]);
                    k = k + 1;
                }
                assert(siblings@ == self.children@[p as int]@);
                siblings.push(index);
                self.children.set(p, siblings);
                proof {
                    self.depths@ = self.depths@.push(self.depths@[p as int] + 1);
                    self.depth_bound@ = self.depth_bound@ + 1;
                }
            },
        }
        let ghost m = self@;
        proof {
            assert(m.parents == m0.parents.push(parent));
            assert forall|q: int| 0 <= q < m0.len() implies m.children[q] == (if parent == Some(q as usize) {
                m0.children[q].push(index)
            } else {
                m0.children[q]
            }) by {
                self.lemma_view_children(q);
            }
            self.lemma_view_children(index as int);
            assert(m.children[index as int] =~= Seq::<usize>::empty());
            assert forall|x: int| #![trigger m.parents[x]] m.valid(x) implies match m.parents[x] {
                None => m.depths[x] == 0,
                Some(q) => m.valid(q as int) && m.depths[x] == m.depths[q as int] + 1,
            } by {
                if x < index {
                    assert(m.parents[x] == m0.parents[x]);
                }
            }
            assert forall|q: int, i: int| #![trigger m.children[q][i]]
                m.valid(q) && 0 <= i < m.children[q].len() implies {
                &&& m.valid(m.children[q][i] as int)
                &&& m.parents[m.children[q][i] as int] == Some(q as usize)
            } by {
                if q < index && !(parent == Some(q as usize) && i == m0.children[q].len()) {
                    assert(m.children[q][i] == m0.children[q][i]);
                }
            }
            assert forall|x: int| #![trigger m.parents[x]] m.valid(x) && m.parents[x] is Some implies m.children[m.parents[x].unwrap() as int].contains(x as usize) by {
                if x < index {
                    let q = m.parents[x].unwrap() as int;
                    let j = choose|j: int| 0 <= j < m0.children[q].len() && m0.children[q][j] == x as usize;
                    assert(m.children[q][j] == x as usize);
                } else {
                    let q = parent.unwrap() as int;
                    assert(m.children[q][m.children[q].len() - 1] == x as usize);
                }
            }
            assert forall|q: int| #![trigger m.children[q]] m.valid(q) implies m.children[q].no_duplicates() by {
                if q < index && parent == Some(q as usize) {
                    assert forall|i: int| 0 <= i < m0.children[q].len() implies m0.children[q][i] != index by {
                    }
                }
            }
            assert forall|x: int| #![trigger m.tree_changed[x], m.parents[x]]
                m.valid(x) && m.tree_changed[x] && m.parents[x] is Some && !m.tree_changed[m.parents[x].unwrap() as int]
                implies m.pending.contains(x as usize) by {
                assert(x < index);
                assert(m0.pending.contains(x as usize));
                let j = choose|j: int| 0 <= j < m0.pending.len() && m0.pending[j] == x as usize;
                assert(m.pending[j] == x as usize);
            }
            assert forall|x: int| #![trigger m.locally_agrees(x)]
                m.valid(x) && !m.locally_agrees(x) implies m.tree_changed[x] || m.pending.contains(x as usize) by {
                if x < index {
                    assert(m.parents[x] == m0.parents[x]);
                    assert(m.worlds[x] == m0.worlds[x]);
                    if let Some(q) = m.parents[x] {
                        assert(m.worlds[q as int] == m0.worlds[q as int]);
                    }
                    assert(m.locals[x] == m0.locals[x]);
                    assert(!m0.locally_agrees(x));
                    if !m.tree_changed[x] {
                        let j = choose|j: int| 0 <= j < m0.pending.len() && m0.pending[j] == x as usize;
                        assert(m.pending[j] == x as usize);
                    }
                } else {
                    assert(m.pending[m.pending.len() - 1] == x as usize);
                }
            }
            assert forall|x: int| #![trigger m.tree_changed[x]] m.valid(x) && m.tree_changed[x] implies self.marked@.contains(x as usize) by {
                assert(x < index);
            }
            assert forall|x: int| #![trigger m.world_changed[x]] m.valid(x) && m.world_changed[x] implies self.rewritten@.contains(x as usize) by {
                assert(x < index);
            }
            assert forall|x: int| #![trigger m.depths[x]] m.valid(x) implies m.depths[x] <= self.depth_bound@ by {
                if x < index {
                    assert(m.depths[x] == m0.depths[x]);
                }
            }
        }
        Entity { index }
    }
}


/// Markers closed under taking parents make every ancestor of a marked entity marked.
proof fn lemma_marker_closed(m: HierarchyModel, a: int, y: int)
    requires
        m.forest_wf(),
        m.valid(y),
        m.tree_changed[y],
        m.is_ancestor_or_self(a, y),
        forall|x: int|
            #![trigger m.tree_changed[x], m.parents[x]]
            m.valid(x) && m.tree_changed[x] && m.parents[x] is Some ==> m.tree_changed[m.parents[x].unwrap() as int],
    ensures
        m.tree_changed[a],
    decreases m.depths[y],
{
    lemma_ancestor_step(m, a, y);
    if y != a {
        let p = m.parents[y].unwrap() as int;
        assert(m.tree_changed[y] && m.parents[y] is Some);
        lemma_marker_closed(m, a, p);
    }
}

impl TransformHierarchy {
    /// Marks every entity whose change is pending, and its ancestors, as dirty.
    /// A walk up from a pending entity stops below the first ancestor that is
    /// already marked: that ancestor's own ancestors are marked as well.
    fn mark_pending(&mut self)
        requires
            old(self).wf(),
        ensures
            final(self).wf(),
            old(self)@.marks_to(final(self)@),
            final(self).depth_bound@ == old(self).depth_bound@,
            final(self).rewritten@ == old(self).rewritten@,
    {
        let ghost m0 = self@;
        let ghost bound0 = self.depth_bound@;
        let ghost rewritten0 = self.rewritten@;
        let n = self.pending.len();
        let mut i: usize = 0;
        while i < n
            invariant
                self.wf_but_markers(m0),
                self.depth_bound@ == bound0,
                self.rewritten@ == rewritten0,
                self.pending@ == m0.pending,
                n == m0.pending.len(),
                0 <= i <= n,
                forall|x: int| #![trigger self@.tree_changed[x]] m0.valid(x) && m0.tree_changed[x] ==> self@.tree_changed[x],
                forall|j: int| #![trigger m0.pending[j]] 0 <= j < i ==> self@.tree_changed[m0.pending[j] as int],
                forall|x: int| #![trigger self@.tree_changed[x]]
                    m0.valid(x) && self@.tree_changed[x] ==> m0.tree_changed[x] || exists|j: int|
                        #![trigger m0.pending[j]]
                        0 <= j < i && m0.is_ancestor_or_self(x, m0.pending[j] as int),
                forall|x: int|
                    #![trigger self@.tree_changed[x], self@.parents[x]]
                    m0.valid(x) && self@.tree_changed[x] && m0.parents[x] is Some
                        && !self@.tree_changed[m0.parents[x].unwrap() as int] ==> exists|j: int|
                        #![trigger m0.pending[j]]
                        i <= j < n && m0.pending[j] == x as usize,
            decreases n - i,
        {
            let t = self.pending[i];
            let mut cur = t;
            proof {
                lemma_ancestor_step(m0, t as int, t as int);
            }
            self.mark_one(cur, Ghost(m0));
            loop
                invariant_except_break
                    forall|x: int|
                        #![trigger self@.tree_changed[x], self@.parents[x]]
                        m0.valid(x) && self@.tree_changed[x] && m0.parents[x] is Some
                            && !self@.tree_changed[m0.parents[x].unwrap() as int] ==> x == cur
                            || exists|j: int|
                            #![trigger m0.pending[j]]
                            i < j < n && m0.pending[j] == x as usize,
                invariant
                    self.wf_but_markers(m0),
                    self.depth_bound@ == bound0,
                    self.rewritten@ == rewritten0,
                    self.pending@ == m0.pending,
                    n == m0.pending.len(),
                    0 <= i < n,
                    t == m0.pending[i as int],
                    m0.valid(cur as int),
                    m0.is_ancestor_or_self(cur as int, t as int),
                    self@.tree_changed[t as int],
                    self@.tree_changed[cur as int],
                    forall|x: int| #![trigger self@.tree_changed[x]] m0.valid(x) && m0.tree_changed[x] ==> self@.tree_changed[x],
                    forall|j: int| #![trigger m0.pending[j]] 0 <= j < i ==> self@.tree_changed[m0.pending[j] as int],
                    forall|x: int| #![trigger self@.tree_changed[x]]
                        m0.valid(x) && self@.tree_changed[x] ==> m0.tree_changed[x] || m0.is_ancestor_or_self(x, t as int)
                            || exists|j: int|
                            #![trigger m0.pending[j]]
                            0 <= j < i && m0.is_ancestor_or_self(x, m0.pending[j] as int),
                ensures
                    self.wf_but_markers(m0),
                    self.depth_bound@ == bound0,
                    self.rewritten@ == rewritten0,
                    self.pending@ == m0.pending,
                    self@.tree_changed[t as int],
                    forall|x: int|
                        #![trigger self@.tree_changed[x], self@.parents[x]]
                        m0.valid(x) && self@.tree_changed[x] && m0.parents[x] is Some
                            && !self@.tree_changed[m0.parents[x].unwrap() as int] ==> exists|j: int|
                            #![trigger m0.pending[j]]
                            i < j < n && m0.pending[j] == x as usize,
                decreases m0.depths[cur as int],
            {
                match self.parents[cur] {
                    None => {
                        break ;
                    },
                    Some(p) => {
                        if self.tree_changed[p] {
                            break ;
                        }
                        proof {
                            lemma_ancestor_step(m0, p as int, t as int);
                            lemma_ancestor_step(m0, p as int, p as int);
                            lemma_ancestor_step(m0, p as int, cur as int);
                            lemma_ancestor_trans(m0, p as int, cur as int, t as int);
                        }
                        cur = p;
                        self.mark_one(cur, Ghost(m0));
                    },
                }
            }
            i = i + 1;
        }
        self.pending.clear();
        let ghost m = self@;
        proof {
            assert forall|x: int|
                #![trigger m.tree_changed[x], m.parents[x]]
                m.valid(x) && m.tree_changed[x] && m.parents[x] is Some implies m.tree_changed[m.parents[x].unwrap() as int] by {
            }
            assert forall|x: int| #![trigger m.tree_changed[x]] m.valid(x) implies (m.tree_changed[x] == (m0.tree_changed[x] || m0.above_pending(x))) by {
                if m0.above_pending(x) {
                    let j = choose|j: int| #![trigger m0.pending[j]] 0 <= j < m0.pending.len() && m0.is_ancestor_or_self(x, m0.pending[j] as int);
                    lemma_same_forest_ancestry(m0, m, x, m0.pending[j] as int, m0.depths[m0.pending[j] as int]);
                    lemma_marker_closed(m, x, m0.pending[j] as int);
                }
                if m.tree_changed[x] && !m0.tree_changed[x] {
                    let j = choose|j: int| #![trigger m0.pending[j]] 0 <= j < n && m0.is_ancestor_or_self(x, m0.pending[j] as int);
                    assert(m0.above_pending(x));
                }
            }
            assert forall|x: int| #![trigger m.locally_agrees(x)]
                m.valid(x) && !m.locally_agrees(x) implies m.tree_changed[x] || m.pending.contains(x as usize) by {
                assert(!m0.locally_agrees(x));
                if !m0.tree_changed[x] {
                    let j = choose|j: int| 0 <= j < m0.pending.len() && m0.pending[j] == x as usize;
                    assert(m.tree_changed[m0.pending[j] as int]);
                }
            }
            assert(m0.marks_to(m));
        }
    }

    /// Sets the dirty marker of `x`.
    fn mark_one(&mut self, x: usize, Ghost(m0): Ghost<HierarchyModel>)
        requires
            old(self).wf_but_markers(m0),
            m0.valid(x as int),
        ensures
            final(self).wf_but_markers(m0),
            final(self)@.tree_changed == old(self)@.tree_changed.update(x as int, true),
            final(self)@.pending == old(self)@.pending,
            final(self).depth_bound == old(self).depth_bound,
            final(self).rewritten == old(self).rewritten,
    {
        if !self.tree_changed[x] {
            let ghost marked0 = self.marked@;
            self.tree_changed.set(x, true);
            self.marked.push(x);
            proof {
                assert forall|y: int| #![trigger self@.tree_changed[y]] self@.valid(y) && self@.tree_changed[y] implies self.marked@.contains(y as usize) by {
                    if y != x {
                        let j = choose|j: int| 0 <= j < marked0.len() && marked0[j] == y as usize;
                        assert(self.marked@[j] == y as usize);
                    } else {
                        assert(self.marked@[marked0.len() as int] == y as usize);
                    }
                }
            }
        } else {
            assert(self@.tree_changed =~= self@.tree_changed.update(x as int, true));
        }
    }

    /// All of `wf` but what it says of the dirty markers and the pending list,
    /// with the forest, the transforms and the change records of `m0`.
    closed spec fn wf_but_markers(&self, m0: HierarchyModel) -> bool {
        let m = self@;
        &&& m0.forest_wf()
        &&& m.same_forest(m0)
        &&& m.worlds == m0.worlds
        &&& m.world_changed == m0.world_changed
        &&& m.tree_changed.len() == m0.len()
        &&& forall|x: int| #![trigger m.depths[x]] m.valid(x) ==> m.depths[x] <= self.depth_bound@
        &&& forall|x: int| #![trigger m.tree_changed[x]] m.valid(x) && m.tree_changed[x] ==> self.marked@.contains(x as usize)
        &&& forall|i: int| #![trigger self.marked@[i]] 0 <= i < self.marked@.len() ==> m.valid(self.marked@[i] as int)
        &&& forall|x: int| #![trigger m.world_changed[x]] m.valid(x) && m.world_changed[x] ==> self.rewritten@.contains(x as usize)
        &&& forall|i: int| #![trigger self.rewritten@[i]] 0 <= i < self.rewritten@.len() ==> m.valid(self.rewritten@[i] as int)
        &&& stale_is_marked(m0)
        &&& markers_closed_but_pending(m0)
    }
}

/// `y` still holds what it held when the traversal began.
spec fn untouched(m: HierarchyModel, s0: HierarchyModel, y: int) -> bool {
    &&& m.worlds[y] == s0.worlds[y]
    &&& m.tree_changed[y] == s0.tree_changed[y]
    &&& !m.world_changed[y]
}

/// The traversal is done with `y`.
spec fn settled(m: HierarchyModel, s0: HierarchyModel, y: int) -> bool {
    &&& m.locally_agrees(y)
    &&& (m.parents[y] is Some && m.world_changed[m.parents[y].unwrap() as int]) ==> m.world_changed[y]
    &&& !m.tree_changed[y]
    &&& m.world_changed[y] ==> s0.stale_above(y)
    &&& !m.world_changed[y] ==> m.worlds[y] == s0.worlds[y]
}

/// What holds when the traversal begins: markers are closed under taking
/// parents, and every stale world transform is marked.
spec fn traversal_start(s0: HierarchyModel) -> bool {
    &&& s0.forest_wf()
    &&& s0.pending.len() == 0
    &&& forall|x: int|
        #![trigger s0.tree_changed[x], s0.parents[x]]
        s0.valid(x) && s0.tree_changed[x] && s0.parents[x] is Some ==> s0.tree_changed[s0.parents[x].unwrap() as int]
    &&& forall|x: int| #![trigger s0.locally_agrees(x)] s0.valid(x) && !s0.locally_agrees(x) ==> s0.tree_changed[x]
    &&& forall|x: int| #![trigger s0.world_changed[x]] s0.valid(x) ==> !s0.world_changed[x]
}

proof fn lemma_stale_above_parent(s0: HierarchyModel, p: int, x: int)
    requires
        s0.forest_wf(),
        s0.valid(x),
        s0.valid(p),
        s0.parents[x] == Some(p as usize),
        s0.stale_above(p),
    ensures
        s0.stale_above(x),
{
    let a = choose|a: int| #![trigger s0.is_ancestor_or_self(a, p)] s0.is_ancestor_or_self(a, p) && !s0.locally_consistent(a);
    lemma_ancestor_step(s0, p, x);
    lemma_ancestor_step(s0, p, p);
    lemma_ancestor_trans(s0, a, p, x);
}

impl TransformHierarchy {
    /// What the traversal keeps: the forest, the pending list and the bookkeeping.
    closed spec fn traversal_frame(&self, s0: HierarchyModel) -> bool {
        let m = self@;
        &&& m.same_forest(s0)
        &&& m.pending == s0.pending
        &&& m.worlds.len() == s0.len()
        &&& m.tree_changed.len() == s0.len()
        &&& m.world_changed.len() == s0.len()
        &&& forall|x: int| #![trigger m.depths[x]] m.valid(x) ==> m.depths[x] <= self.depth_bound@
        &&& forall|i: int| #![trigger self.marked@[i]] 0 <= i < self.marked@.len() ==> m.valid(self.marked@[i] as int)
        &&& forall|x: int| #![trigger m.world_changed[x]] m.valid(x) && m.world_changed[x] ==> self.rewritten@.contains(x as usize)
        &&& forall|i: int| #![trigger self.rewritten@[i]] 0 <= i < self.rewritten@.len() ==> m.valid(self.rewritten@[i] as int)
    }

    /// Visits `x` and the part of its subtree that may need it: recomputes the
    /// world transform of `x` from its parent's, writes it when an ancestor's
    /// was rewritten or when it differs, and goes on into every child after a
    /// write, or else into the children whose dirty marker is set.
    fn visit(&mut self, x: usize, any_parent_changed: bool, Ghost(s0): Ghost<HierarchyModel>)
        requires
            traversal_start(s0),
            old(self).traversal_frame(s0),
            s0.valid(x as int),
            forall|y: int| #![trigger s0.is_ancestor_or_self(x as int, y)]
                s0.valid(y) && s0.is_ancestor_or_self(x as int, y) ==> untouched(old(self)@, s0, y),
            any_parent_changed ==> s0.parents[x as int] is Some && s0.stale_above(s0.parents[x as int].unwrap() as int),
            !any_parent_changed ==> s0.tree_changed[x as int] && (s0.parents[x as int] matches Some(p) ==> old(
                self,
            )@.worlds[p as int] == s0.worlds[p as int] && !old(self)@.world_changed[p as int]),
        ensures
            final(self).traversal_frame(s0),
            final(self).depth_bound == old(self).depth_bound,
            final(self).marked == old(self).marked,
            forall|y: int| #![trigger final(self)@.worlds[y]]
                s0.valid(y) && !s0.is_ancestor_or_self(x as int, y) ==> {
                    &&& final(self)@.worlds[y] == old(self)@.worlds[y]
                    &&& final(self)@.tree_changed[y] == old(self)@.tree_changed[y]
                    &&& final(self)@.world_changed[y] == old(self)@.world_changed[y]
                },
            forall|y: int| #![trigger s0.is_ancestor_or_self(x as int, y)]
                s0.valid(y) && s0.is_ancestor_or_self(x as int, y) ==> settled(final(self)@, s0, y),
        decreases self.depth_bound@ - s0.depths[x as int],
    {
        let ghost pre = self@;
        proof {
            lemma_ancestor_step(s0, x as int, x as int);
            assert(untouched(pre, s0, x as int));
        }
        let local = self.locals[x].to_affine();
        let candidate = match self.parents[x] {
            None => local,
            Some(p) => affine_mul(&self.worlds[p], &local),
        };
        proof {
            assert(pre.locals[x as int] == self.locals@[x as int]);
            if let Some(p) = pre.parents[x as int] {
                assert(pre.worlds[p as int] == self.worlds@[p as int]);
            }
            assert(pre.composed_nan(x as int) ==> has_nan(affine_bits(candidate)));
            assert(!pre.composed_nan(x as int) ==> affine_bits(candidate) == pre.composed_bits(x as int));
        }
        // A candidate that holds a NaN counts as changed: NaN equals nothing.
        let candidate_bits = affine_to_bits(&candidate);
        let rewrite = if any_parent_changed || bits_have_nan(&candidate_bits) {
            true
        } else {
            let current_bits = affine_to_bits(&self.worlds[x]);
            !same_bits(&candidate_bits, &current_bits)
        };
        self.tree_changed.set(x, false);
        if rewrite {
            let ghost rewritten0 = self.rewritten@;
            self.worlds.set(x, candidate);
            self.world_changed.set(x, true);
            self.rewritten.push(x);
            proof {
                assert forall|y: int| #![trigger self@.world_changed[y]] self@.valid(y) && self@.world_changed[y] implies self.rewritten@.contains(y as usize) by {
                    if y == x {
                        assert(self.rewritten@[rewritten0.len() as int] == y as usize);
                    } else {
                        let j = choose|j: int| 0 <= j < rewritten0.len() && rewritten0[j] == y as usize;
                        assert(self.rewritten@[j] == y as usize);
                    }
                }
            }
        }
        let ghost after_x = self@;
        proof {
            if rewrite {
                if any_parent_changed {
                    lemma_stale_above_parent(s0, s0.parents[x as int].unwrap() as int, x as int);
                } else {
                    if s0.locally_consistent(x as int) {
                        assert(s0.composed_bits(x as int) == pre.composed_bits(x as int));
                        assert(s0.composed_nan(x as int) == pre.composed_nan(x as int));
                    }
                    assert(!s0.locally_consistent(x as int));
                    assert(s0.is_ancestor_or_self(x as int, x as int));
                }
            }
            assert(after_x.composed_bits(x as int) == pre.composed_bits(x as int));
            assert(after_x.composed_nan(x as int) == pre.composed_nan(x as int));
            if let Some(p) = pre.parents[x as int] {
                assert(after_x.world_changed[p as int] == pre.world_changed[p as int]);
            }
            assert(settled(after_x, s0, x as int));
            assert forall|k: int, y: int| #![trigger s0.is_ancestor_or_self(s0.children[x as int][k] as int, y)]
                0 <= k < s0.children[x as int].len() && s0.valid(y) && s0.is_ancestor_or_self(s0.children[x as int][k] as int, y)
                    implies untouched(after_x, s0, y) by {
                let ck = s0.children[x as int][k] as int;
                assert(s0.parents[ck] == Some(x));
                lemma_ancestor_step(s0, x as int, x as int);
                lemma_ancestor_step(s0, x as int, ck);
                lemma_ancestor_trans(s0, x as int, ck, y);
                lemma_ancestor_depth(s0, ck, y);
                assert(untouched(pre, s0, y));
            }
        }
        let n = self.children[x].len();
        let mut i: usize = 0;
        while i < n
            invariant
                traversal_start(s0),
                self.traversal_frame(s0),
                self.depth_bound == old(self).depth_bound,
                self.marked == old(self).marked,
                s0.valid(x as int),
                n == s0.children[x as int].len(),
                0 <= i <= n,
                rewrite ==> s0.stale_above(x as int),
                !rewrite ==> self@.worlds[x as int] == s0.worlds[x as int],
                self@.worlds[x as int] == after_x.worlds[x as int],
                self@.world_changed[x as int] == rewrite,
                settled(self@, s0, x as int),
                forall|y: int| #![trigger self@.worlds[y]]
                    s0.valid(y) && !s0.is_ancestor_or_self(x as int, y) ==> {
                        &&& self@.worlds[y] == pre.worlds[y]
                        &&& self@.tree_changed[y] == pre.tree_changed[y]
                        &&& self@.world_changed[y] == pre.world_changed[y]
                    },
                forall|k: int, y: int| #![trigger s0.is_ancestor_or_self(s0.children[x as int][k] as int, y)]
                    0 <= k < i && s0.valid(y) && s0.is_ancestor_or_self(s0.children[x as int][k] as int, y)
                        ==> settled(self@, s0, y),
                forall|k: int, y: int| #![trigger s0.is_ancestor_or_self(s0.children[x as int][k] as int, y)]
                    i <= k < n && s0.valid(y) && s0.is_ancestor_or_self(s0.children[x as int][k] as int, y)
                        ==> untouched(self@, s0, y),
            decreases n - i,
        {
            let c = self.children[x][i];
            let ghost before = self@;
            proof {
                assert(self@.children[x as int] == self.children@[x as int]@);
                assert(c == s0.children[x as int][i as int]);
                assert(s0.parents[c as int] == Some(x));
                lemma_ancestor_step(s0, c as int, c as int);
                assert(untouched(before, s0, c as int));
                assert(s0.depths[c as int] == s0.depths[x as int] + 1);
            }
            if rewrite || self.tree_changed[c] {
                self.visit(c, rewrite, Ghost(s0));
                proof {
                    assert forall|y: int| #![trigger self@.worlds[y]]
                        s0.valid(y) && !s0.is_ancestor_or_self(c as int, y) implies {
                            &&& self@.worlds[y] == before.worlds[y]
                            &&& self@.tree_changed[y] == before.tree_changed[y]
                            &&& self@.world_changed[y] == before.world_changed[y]
                        } by {}
                    // `x` lies outside the subtree of `c`.
                    if s0.is_ancestor_or_self(c as int, x as int) {
                        lemma_ancestor_depth(s0, c as int, x as int);
                    }
                    if let Some(p) = s0.parents[x as int] {
                        if s0.is_ancestor_or_self(c as int, p as int) {
                            lemma_ancestor_depth(s0, c as int, p as int);
                        }
                    }
                    assert(settled(self@, s0, x as int));
                    assert forall|y: int| #![trigger self@.worlds[y]]
                        s0.valid(y) && !s0.is_ancestor_or_self(x as int, y) implies {
                            &&& self@.worlds[y] == pre.worlds[y]
                            &&& self@.tree_changed[y] == pre.tree_changed[y]
                            &&& self@.world_changed[y] == pre.world_changed[y]
                        } by {
                        if s0.is_ancestor_or_self(c as int, y) {
                            lemma_ancestor_step(s0, x as int, x as int);
                            lemma_ancestor_step(s0, x as int, c as int);
                            lemma_ancestor_trans(s0, x as int, c as int, y);
                        }
                        assert(self@.worlds[y] == before.worlds[y]);
                        assert(self@.tree_changed[y] == before.tree_changed[y]);
                        assert(self@.world_changed[y] == before.world_changed[y]);
                        assert(before.worlds[y] == pre.worlds[y]);
                    }
                    assert(s0.children[x as int].no_duplicates());
                    assert forall|k: int, y: int| #![trigger s0.is_ancestor_or_self(s0.children[x as int][k] as int, y)]
                        0 <= k < i + 1 && s0.valid(y) && s0.is_ancestor_or_self(s0.children[x as int][k] as int, y)
                            implies settled(self@, s0, y) by {
                        if k < i {
                            let ck = s0.children[x as int][k] as int;
                            assert(s0.parents[ck] == Some(x));
                            if s0.is_ancestor_or_self(c as int, y) {
                                lemma_sibling_subtrees_disjoint(s0, ck, c as int, y);
                            }
                            assert(self@.worlds[y] == before.worlds[y]);
                            assert(self@.tree_changed[y] == before.tree_changed[y]);
                            assert(self@.world_changed[y] == before.world_changed[y]);
                            lemma_ancestor_step(s0, ck, y);
                            if y != ck {
                                let q = s0.parents[y].unwrap() as int;
                                if s0.is_ancestor_or_self(c as int, q) {
                                    lemma_ancestor_step(s0, c as int, y);
                                    lemma_sibling_subtrees_disjoint(s0, ck, c as int, y);
                                }
                                assert(self@.worlds[q] == before.worlds[q]);
                            } else {
                                if s0.is_ancestor_or_self(c as int, x as int) {
                                    lemma_ancestor_depth(s0, c as int, x as int);
                                }
                                assert(self@.worlds[x as int] == before.worlds[x as int]);
                            }
                            assert(settled(before, s0, y));
                        } else {
                            assert(s0.is_ancestor_or_self(c as int, y));
                        }
                    }
                    assert forall|k: int, y: int| #![trigger s0.is_ancestor_or_self(s0.children[x as int][k] as int, y)]
                        i + 1 <= k < n && s0.valid(y) && s0.is_ancestor_or_self(s0.children[x as int][k] as int, y)
                            implies untouched(self@, s0, y) by {
                        let ck = s0.children[x as int][k] as int;
                        assert(s0.parents[ck] == Some(x));
                        if s0.is_ancestor_or_self(c as int, y) {
                            lemma_sibling_subtrees_disjoint(s0, ck, c as int, y);
                        }
                        assert(self@.worlds[y] == before.worlds[y]);
                        assert(self@.tree_changed[y] == before.tree_changed[y]);
                        assert(self@.world_changed[y] == before.world_changed[y]);
                        assert(untouched(before, s0, y));
                    }
                }
            } else {
                proof {
                    assert forall|y: int| #![trigger s0.is_ancestor_or_self(c as int, y)]
                        s0.valid(y) && s0.is_ancestor_or_self(c as int, y) implies settled(self@, s0, y) by {
                        assert(s0.is_ancestor_or_self(s0.children[x as int][i as int] as int, y));
                        assert(untouched(before, s0, y));
                        if s0.tree_changed[y] {
                            lemma_marker_closed(s0, c as int, y);
                        }
                        assert(s0.locally_agrees(y));
                        lemma_ancestor_step(s0, c as int, y);
                        if y != c {
                            let q = s0.parents[y].unwrap() as int;
                            assert(s0.is_ancestor_or_self(s0.children[x as int][i as int] as int, q));
                            assert(untouched(before, s0, q));
                            assert(before.worlds[q] == s0.worlds[q]);
                        } else {
                            assert(before.worlds[x as int] == s0.worlds[x as int]);
                        }
                        assert(before.locally_agrees(y));
                    }
                    assert forall|k: int, y: int| #![trigger s0.is_ancestor_or_self(s0.children[x as int][k] as int, y)]
                        0 <= k < i + 1 && s0.valid(y) && s0.is_ancestor_or_self(s0.children[x as int][k] as int, y)
                            implies settled(self@, s0, y) by {
                        if k == i {
                            assert(s0.is_ancestor_or_self(c as int, y));
                        }
                    }
                }
            }
            i = i + 1;
        }
        proof {
            assert forall|y: int| #![trigger s0.is_ancestor_or_self(x as int, y)]
                s0.valid(y) && s0.is_ancestor_or_self(x as int, y) implies settled(self@, s0, y) by {
                if y != x {
                    let k = lemma_child_subtree(s0, x as int, y);
                }
            }
        }
    }
}

/// Two entities of one tree have the same root.
proof fn lemma_root_of_parent(s0: HierarchyModel, y: int)
    requires
        s0.forest_wf(),
        s0.valid(y),
        s0.parents[y] is Some,
    ensures
        s0.root_of(y) == s0.root_of(s0.parents[y].unwrap() as int),
{
    let q = s0.parents[y].unwrap() as int;
    assert(s0.depths[y] == s0.depths[q] + 1);
}

/// A root lies in no other subtree than its own.
proof fn lemma_root_alone(s0: HierarchyModel, r: int, x: int)
    requires
        s0.forest_wf(),
        s0.valid(x),
        s0.parents[x] is None,
        s0.is_ancestor_or_self(r, x),
    ensures
        r == x,
{
    lemma_ancestor_depth(s0, r, x);
}

impl TransformHierarchy {
    fn forget_rewrites(&mut self)
        requires
            old(self).wf(),
        ensures
            final(self).wf(),
            final(self)@ == (HierarchyModel { world_changed: Seq::new(old(self)@.len(), |x: int| false), ..old(self)@ }),
            final(self).depth_bound == old(self).depth_bound,
            final(self).marked == old(self).marked,
            final(self).rewritten@.len() == 0,
    {
        let ghost m0 = self@;
        let n = self.rewritten.len();
        let mut i: usize = 0;
        while i < n
            invariant
                0 <= i <= n,
                n == self.rewritten@.len(),
                self.rewritten == old(self).rewritten,
                self.depth_bound == old(self).depth_bound,
                self.marked == old(self).marked,
                self@ == (HierarchyModel { world_changed: self@.world_changed, ..m0 }),
                self@.world_changed.len() == m0.len(),
                forall|i: int| #![trigger self.rewritten@[i]] 0 <= i < self.rewritten@.len() ==> m0.valid(self.rewritten@[i] as int),
                forall|k: int| #![trigger self.rewritten@[k]] 0 <= k < i ==> !self@.world_changed[self.rewritten@[k] as int],
                forall|x: int| #![trigger self@.world_changed[x]] m0.valid(x) && self@.world_changed[x] ==> m0.world_changed[x],
            decreases n - i,
        {
            let r = self.rewritten[i];
            self.world_changed.set(r, false);
            i = i + 1;
        }
        self.rewritten.clear();
        proof {
            assert forall|x: int| #![trigger self@.world_changed[x]] m0.valid(x) implies !self@.world_changed[x] by {
                if self@.world_changed[x] {
                    assert(old(self).rewritten@.contains(x as usize));
                    let k = choose|k: int| 0 <= k < old(self).rewritten@.len() && old(self).rewritten@[k] == x as usize;
                }
            }
            assert(self@.world_changed =~= Seq::new(m0.len(), |x: int| false));
            let m = self@;
            assert forall|x: int| #![trigger m.locally_agrees(x)]
                m.valid(x) && !m.locally_agrees(x) implies m.tree_changed[x] || m.pending.contains(x as usize) by {
                assert(!m0.locally_agrees(x));
            }
        }
    }

    /// Runs the marking pass on what is pending, then visits every dirty root.
    fn propagate(&mut self)
        requires
            old(self).wf(),
        ensures
            final(self).wf(),
            old(self)@.propagates_to(final(self)@),
    {
        let ghost m_old = self@;
        self.mark_pending();
        let ghost m1 = self@;
        self.forget_rewrites();
        let ghost s0 = self@;
        let ghost marked0 = self.marked@;
        proof {
            assert forall|x: int| #![trigger s0.locally_agrees(x)] s0.valid(x) && !s0.locally_agrees(x) implies s0.tree_changed[x] by {
                assert(!s0.pending.contains(x as usize));
            }
            assert forall|x: int|
                #![trigger s0.tree_changed[x], s0.parents[x]]
                s0.valid(x) && s0.tree_changed[x] && s0.parents[x] is Some implies s0.tree_changed[s0.parents[x].unwrap() as int] by {
                assert(!s0.pending.contains(x as usize));
            }
            assert(traversal_start(s0));
            assert forall|y: int| #![trigger s0.root_of(y)] s0.valid(y) && !s0.tree_changed[s0.root_of(y)] implies settled(s0, s0, y) by {
                lemma_root_of(s0, y);
                if s0.tree_changed[y] {
                    lemma_marker_closed(s0, s0.root_of(y), y);
                }
                assert(s0.locally_agrees(y));
                if let Some(q) = s0.parents[y] {
                    lemma_root_of_parent(s0, y);
                    assert(!s0.world_changed[q as int]);
                }
            }
        }
        let n = self.marked.len();
        let mut i: usize = 0;
        while i < n
            invariant
                traversal_start(s0),
                self.traversal_frame(s0),
                self.marked@ == marked0,
                n == marked0.len(),
                0 <= i <= n,
                forall|x: int| #![trigger self@.tree_changed[x]] s0.valid(x) && self@.tree_changed[x] ==> s0.tree_changed[x],
                forall|x: int| #![trigger s0.tree_changed[x]] s0.valid(x) && s0.tree_changed[x] ==> marked0.contains(x as usize),
                forall|k: int| #![trigger marked0[k]]
                    0 <= k < i && s0.parents[marked0[k] as int] is None ==> !self@.tree_changed[marked0[k] as int],
                forall|y: int| #![trigger s0.root_of(y)]
                    s0.valid(y) && self@.tree_changed[s0.root_of(y)] ==> untouched(self@, s0, y),
                forall|y: int| #![trigger s0.root_of(y)]
                    s0.valid(y) && !self@.tree_changed[s0.root_of(y)] ==> settled(self@, s0, y),
                forall|y: int| #![trigger s0.root_of(y)]
                    s0.valid(y) && !s0.tree_changed[s0.root_of(y)] ==> untouched(self@, s0, y),
            decreases n - i,
        {
            let r = self.marked[i];
            if self.parents[r].is_none() && self.tree_changed[r] {
                let ghost before = self@;
                proof {
                    assert forall|y: int| #![trigger s0.is_ancestor_or_self(r as int, y)]
                        s0.valid(y) && s0.is_ancestor_or_self(r as int, y) implies untouched(before, s0, y) by {
                        lemma_root_of(s0, y);
                    }
                    lemma_root_of(s0, r as int);
                    assert(untouched(before, s0, r as int));
                }
                self.visit(r, false, Ghost(s0));
                proof {
                    lemma_ancestor_step(s0, r as int, r as int);
                    assert(settled(self@, s0, r as int));
                    assert forall|x: int| #![trigger self@.tree_changed[x]] s0.valid(x) && self@.tree_changed[x] implies s0.tree_changed[x] by {
                        if s0.is_ancestor_or_self(r as int, x) {
                            assert(settled(self@, s0, x));
                        } else {
                            assert(self@.worlds[x] == before.worlds[x]);
                        }
                    }
                    assert forall|y: int| #![trigger s0.root_of(y)]
                        s0.valid(y) && self@.tree_changed[s0.root_of(y)] implies untouched(self@, s0, y) by {
                        lemma_root_of(s0, y);
                        if s0.is_ancestor_or_self(r as int, y) {
                            assert(settled(self@, s0, y));
                        }
                        if s0.is_ancestor_or_self(r as int, s0.root_of(y)) {
                            lemma_root_alone(s0, r as int, s0.root_of(y));
                        }
                        assert(self@.worlds[y] == before.worlds[y]);
                        assert(self@.worlds[s0.root_of(y)] == before.worlds[s0.root_of(y)]);
                    }
                    assert forall|y: int| #![trigger s0.root_of(y)]
                        s0.valid(y) && !self@.tree_changed[s0.root_of(y)] implies settled(self@, s0, y) by {
                        lemma_root_of(s0, y);
                        if !s0.is_ancestor_or_self(r as int, y) {
                            if s0.is_ancestor_or_self(r as int, s0.root_of(y)) {
                                lemma_root_alone(s0, r as int, s0.root_of(y));
                            }
                            assert(self@.worlds[y] == before.worlds[y]);
                            assert(self@.worlds[s0.root_of(y)] == before.worlds[s0.root_of(y)]);
                            if let Some(q) = s0.parents[y] {
                                lemma_root_of_parent(s0, y);
                                lemma_root_of(s0, q as int);
                                if s0.is_ancestor_or_self(r as int, q as int) {
                                    lemma_ancestor_trans(s0, r as int, q as int, y);
                                    lemma_ancestor_step(s0, q as int, y);
                                    lemma_ancestor_step(s0, q as int, q as int);
                                }
                                assert(self@.worlds[q as int] == before.worlds[q as int]);
                                assert(self@.world_changed[q as int] == before.world_changed[q as int]);
                            }
                            assert(settled(before, s0, y));
                        }
                    }
                    assert forall|y: int| #![trigger s0.root_of(y)]
                        s0.valid(y) && !s0.tree_changed[s0.root_of(y)] implies untouched(self@, s0, y) by {
                        lemma_root_of(s0, y);
                        if s0.is_ancestor_or_self(r as int, y) {
                            assert(untouched(before, s0, r as int));
                        }
                        assert(self@.worlds[y] == before.worlds[y]);
                        assert(untouched(before, s0, y));
                    }
                    assert forall|k: int| #![trigger marked0[k]]
                        0 <= k < i + 1 && s0.parents[marked0[k] as int] is None implies !self@.tree_changed[marked0[k] as int] by {
                        if k < i {
                            if s0.is_ancestor_or_self(r as int, marked0[k] as int) {
                                lemma_root_alone(s0, r as int, marked0[k] as int);
                            } else {
                                assert(self@.worlds[marked0[k] as int] == before.worlds[marked0[k] as int]);
                            }
                        }
                    }
                }
            }
            i = i + 1;
        }
        self.marked.clear();
        let ghost m = self@;
        proof {
            assert forall|y: int| s0.valid(y) implies #[trigger] settled(m, s0, y) by {
                lemma_root_of(s0, y);
                let rt = s0.root_of(y);
                if m.tree_changed[rt] {
                    let k = choose|k: int| 0 <= k < marked0.len() && marked0[k] == rt as usize;
                }
            }
            assert forall|x: int| m.valid(x) implies #[trigger] m.locally_agrees(x) by {
                assert(settled(m, s0, x));
            }
            lemma_consistent_from_agreement(m);
            assert forall|x: int|
                #![trigger m.world_changed[x], m.parents[x]]
                m.valid(x) && m.parents[x] is Some && m.world_changed[m.parents[x].unwrap() as int]
                    implies m.world_changed[x] by {
                assert(settled(m, s0, x));
            }
            assert forall|x: int|
                #![trigger m.world_changed[x]]
                m.valid(x) && !m_old.tree_changed[m_old.root_of(x)] && !m_old.above_pending(m_old.root_of(x))
                    implies !m.world_changed[x] by {
                lemma_same_forest_root(m_old, s0, x, s0.depths[x]);
                lemma_root_of(s0, x);
                assert(m1.tree_changed[s0.root_of(x)] == (m_old.tree_changed[s0.root_of(x)] || m_old.above_pending(s0.root_of(x))));
                assert(!s0.tree_changed[s0.root_of(x)]);
                assert(untouched(m, s0, x));
            }
            assert forall|x: int| #![trigger m.world_changed[x]] m.valid(x) && m.world_changed[x] implies m_old.stale_above(x) by {
                assert(settled(m, s0, x));
                let a = choose|a: int| #![trigger s0.is_ancestor_or_self(a, x)] s0.is_ancestor_or_self(a, x) && !s0.locally_consistent(a);
                lemma_same_forest_ancestry(s0, m_old, a, x, s0.depths[x]);
                assert(m_old.is_ancestor_or_self(a, x));
                assert(!m_old.locally_consistent(a));
            }
            assert forall|x: int| #![trigger m.worlds[x]] m.valid(x) && !m.world_changed[x] implies m.worlds[x] == m_old.worlds[x] by {
                assert(settled(m, s0, x));
            }
            assert forall|x: int| #![trigger m.tree_changed[x]] m.valid(x) implies !m.tree_changed[x] by {
                assert(settled(m, s0, x));
            }
            assert(m_old.propagates_to(m));
            assert forall|x: int|
                #![trigger m.tree_changed[x], m.parents[x]]
                m.valid(x) && m.tree_changed[x] && m.parents[x] is Some && !m.tree_changed[m.parents[x].unwrap() as int]
                    implies m.pending.contains(x as usize) by {
            }
            assert forall|x: int| #![trigger m.locally_agrees(x)]
                m.valid(x) && !m.locally_agrees(x) implies m.tree_changed[x] || m.pending.contains(x as usize) by {
            }
        }
    }
}

/// The propagation pass: brings every world transform up to date with the
/// local transforms, rewriting only those that change.
pub fn propagate_parent_transforms_system(hierarchy: &mut TransformHierarchy)
    requires
        old(hierarchy).wf(),
    ensures
        final(hierarchy).wf(),
        old(hierarchy)@.propagates_to(final(hierarchy)@),
{
    hierarchy.propagate();
}

/// `list` without `e`, for a list without repeats.
fn list_without(list: &Vec<usize>, e: usize) -> (r: Vec<usize>)
    requires
        list@.no_duplicates(),
    ensures
        r@.no_duplicates(),
        forall|v: usize| #![trigger r@.contains(v)] r@.contains(v) == (list@.contains(v) && v != e),
{
    let mut r: Vec<usize> = Vec::new();
    let n = list.len();
    let mut k: usize = 0;
    while k < n
        invariant
            n == list@.len(),
            0 <= k <= n,
            list@.no_duplicates(),
            r@.no_duplicates(),
            forall|j: int| #![trigger r@[j]] 0 <= j < r@.len() ==> r@[j] != e && exists|i: int| 0 <= i < k && list@[i] == r@[j],
            forall|i: int| #![trigger list@[i]] 0 <= i < k && list@[i] != e ==> r@.contains(list@[i]),
        decreases n - k,
    {
        let v = list[k];
        if v != e {
            let ghost r0 = r@;
            r.push(v);
            proof {
                assert forall|j: int| 0 <= j < r0.len() implies r0[j] != v by {
                    let i = choose|i: int| 0 <= i < k && list@[i] == r0[j];
                }
                assert forall|i: int| #![trigger list@[i]] 0 <= i < k + 1 && list@[i] != e implies r@.contains(list@[i]) by {
                    if i < k {
                        let j = choose|j: int| 0 <= j < r0.len() && r0[j] == list@[i];
                        assert(r@[j] == list@[i]);
                    } else {
                        assert(r@[r0.len() as int] == list@[i]);
                    }
                }
                assert forall|j: int| #![trigger r@[j]] 0 <= j < r@.len() implies r@[j] != e && exists|i: int| 0 <= i < k + 1 && list@[i] == r@[j] by {
                    if j < r0.len() {
                        assert(r@[j] == r0[j]);
                        let i = choose|i: int| 0 <= i < k && list@[i] == r0[j];
                    } else {
                        assert(list@[k as int] == r@[j]);
                    }
                }
            }
        }
        k = k + 1;
    }
    proof {
        assert forall|v: usize| #![trigger r@.contains(v)] r@.contains(v) == (list@.contains(v) && v != e) by {
            if r@.contains(v) {
                let j = choose|j: int| 0 <= j < r@.len() && r@[j] == v;
                assert(r@[j] == v);
            }
            if list@.contains(v) && v != e {
                let i = choose|i: int| 0 <= i < n && list@[i] == v;
                assert(list@[i] == v);
            }
        }
    }
    r
}

/// `list` with `e` added at the end, for a list without `e`.
fn list_with(list: &Vec<usize>, e: usize) -> (r: Vec<usize>)
    requires
        !list@.contains(e),
    ensures
        r@ == list@.push(e),
{
    let mut r: Vec<usize> = Vec::new();
    let n = list.len();
    let mut k: usize = 0;
    while k < n
        invariant
            n == list@.len(),
            0 <= k <= n,
            r@ == list@.subrange(0, k as int),
        decreases n - k,
    {
        r.push(list[k]);
        k = k + 1;
    }
    assert(r@ == list@);
    r.push(e);
    r
}

impl TransformHierarchy {
    /// Whether `a` is `x` or an ancestor of `x`, by a walk up from `x`.
    fn in_subtree(&self, a: usize, x: usize) -> (r: bool)
        requires
            self.wf(),
            self@.valid(x as int),
        ensures
            r == self@.is_ancestor_or_self(a as int, x as int),
    {
        let ghost m = self@;
        let mut cur = x;
        proof {
            lemma_ancestor_step(m, cur as int, x as int);
            lemma_ancestor_step(m, cur as int, cur as int);
        }
        loop
            invariant
                self.wf(),
                m == self@,
                m.valid(x as int),
                m.valid(cur as int),
                m.is_ancestor_or_self(cur as int, x as int),
                m.is_ancestor_or_self(a as int, x as int) ==> m.is_ancestor_or_self(a as int, cur as int),
            decreases m.depths[cur as int],
        {
            if cur == a {
                return true;
            }
            proof {
                lemma_ancestor_step(m, a as int, cur as int);
            }
            match self.parents[cur] {
                None => {
                    return false;
                },
                Some(p) => {
                    proof {
                        lemma_ancestor_step(m, p as int, cur as int);
                        lemma_ancestor_step(m, p as int, p as int);
                        lemma_ancestor_trans(m, p as int, cur as int, x as int);
                    }
                    cur = p;
                },
            }
        }
    }

    /// Gives `e` a new parent (or none), for a parent outside the subtree of `e`.
    fn relink(&mut self, e: usize, new_parent: Option<usize>)
        requires
            old(self).wf(),
            old(self)@.valid(e as int),
            new_parent matches Some(b) ==> old(self)@.valid(b as int) && !old(self)@.is_ancestor_or_self(
                e as int,
                b as int,
            ),
        ensures
            final(self).wf(),
            final(self)@.parents == old(self)@.parents.update(e as int, new_parent),
            final(self)@.locals == old(self)@.locals,
            final(self)@.worlds == old(self)@.worlds,
            final(self)@.tree_changed == old(self)@.tree_changed,
            final(self)@.world_changed == old(self)@.world_changed,
            final(self)@.pending == old(self)@.pending.push(e),
    {
        let ghost m0 = self@;
        if let Some(a) = self.parents[e] {
            proof {
                assert(m0.children[a as int].no_duplicates());
            }
            let list = list_without(&self.children[a], e);
            self.children.set(a, list);
        }
        let ghost mid = self.children@;
        proof {
            assert forall|q: int, v: usize| 0 <= q < m0.len() implies #[trigger] mid[q]@.contains(v) == (m0.children[q].contains(v)
                && !(m0.parents[e as int] == Some(q as usize) && v == e)) && mid[q]@.no_duplicates() by {
                assert(m0.children[q].no_duplicates());
                if m0.parents[e as int] != Some(q as usize) {
                    assert(mid[q]@ == m0.children[q]);
                }
            }
        }
        if let Some(b) = new_parent {
            proof {
                if mid[b as int]@.contains(e) {
                    assert(m0.children[b as int].contains(e));
                    let j = choose|j: int| 0 <= j < m0.children[b as int].len() && m0.children[b as int][j] == e;
                    assert(m0.children[b as int][j] == e);
                }
            }
            let list = list_with(&self.children[b], e);
            self.children.set(b, list);
        }
        proof {
            assert forall|q: int, v: usize| 0 <= q < m0.len() implies #[trigger] self.children@[q]@.contains(v) == (
                (m0.children[q].contains(v) && !(m0.parents[e as int] == Some(q as usize) && v == e)) || (new_parent
                    == Some(q as usize) && v == e)) && self.children@[q]@.no_duplicates() by {
                assert(mid[q]@.contains(v) == (m0.children[q].contains(v) && !(m0.parents[e as int] == Some(q as usize)
                    && v == e)));
                if new_parent == Some(q as usize) {
                    assert(self.children@[q]@ == mid[q]@.push(e));
                    if v == e {
                        assert(self.children@[q]@[mid[q]@.len() as int] == e);
                    }
                    if mid[q]@.contains(v) {
                        let j = choose|j: int| 0 <= j < mid[q]@.len() && mid[q]@[j] == v;
                        assert(self.children@[q]@[j] == v);
                    }
                    if self.children@[q]@.contains(v) && v != e {
                        let j = choose|j: int| 0 <= j < self.children@[q]@.len() && self.children@[q]@[j] == v;
                        assert(mid[q]@[j] == v);
                    }
                } else {
                    assert(self.children@[q]@ == mid[q]@);
                }
            }
        }
        self.parents.set(e, new_parent);
        self.pending.push(e);
        let ghost new_depth_e: nat = match new_parent {
            None => 0,
            Some(b) => m0.depths[b as int] + 1,
        };
        proof {
            self.depths@ = Seq::new(
                m0.len(),
                |y: int|
                    if m0.is_ancestor_or_self(e as int, y) {
                        (m0.depths[y] - m0.depths[e as int] + new_depth_e) as nat
                    } else {
                        m0.depths[y]
                    },
            );
            self.depth_bound@ = self.depth_bound@ + self.depth_bound@ + 1;
        }
        let ghost m = self@;
        proof {
            lemma_ancestor_step(m0, e as int, e as int);
            assert forall|y: int| m0.valid(y) && m0.is_ancestor_or_self(e as int, y) implies m0.depths[e as int] <= m0.depths[y] by {
                lemma_ancestor_depth(m0, e as int, y);
            }
            assert forall|q: int| 0 <= q < m0.len() implies #[trigger] m.children[q] == self.children@[q]@ by {}
            assert forall|x: int| #![trigger m.parents[x]] m.valid(x) implies match m.parents[x] {
                None => m.depths[x] == 0,
                Some(q) => m.valid(q as int) && m.depths[x] == m.depths[q as int] + 1,
            } by {
                if x == e {
                    if let Some(b) = new_parent {
                        assert(!m0.is_ancestor_or_self(e as int, b as int));
                    }
                } else {
                    assert(m.parents[x] == m0.parents[x]);
                    lemma_ancestor_step(m0, e as int, x);
                    match m0.parents[x] {
                        None => {},
                        Some(q) => {
                            assert(m0.depths[x] == m0.depths[q as int] + 1);
                        },
                    }
                }
            }
            assert forall|q: int, i: int| #![trigger m.children[q][i]]
                m.valid(q) && 0 <= i < m.children[q].len() implies {
                &&& m.valid(m.children[q][i] as int)
                &&& m.parents[m.children[q][i] as int] == Some(q as usize)
            } by {
                let c = m.children[q][i];
                assert(m.children[q] == self.children@[q]@);
                assert(m.children[q].contains(c));
                assert(self.children@[q]@.contains(c));
                if c != e || new_parent != Some(q as usize) {
                    assert(m0.children[q].contains(c));
                    let j = choose|j: int| 0 <= j < m0.children[q].len() && m0.children[q][j] == c;
                    assert(m0.children[q][j] == c);
                }
            }
            assert forall|x: int| #![trigger m.parents[x]] m.valid(x) && m.parents[x] is Some implies m.children[m.parents[x].unwrap() as int].contains(x as usize) by {
                let q = m.parents[x].unwrap() as int;
                assert(m.children[q] == self.children@[q]@);
                if x != e {
                    assert(m0.parents[x] == m.parents[x]);
                    assert(m0.children[q].contains(x as usize));
                }
                assert(self.children@[q]@.contains(x as usize));
            }
            assert forall|q: int| #![trigger m.children[q]] m.valid(q) implies m.children[q].no_duplicates() by {
                assert(m.children[q] == self.children@[q]@);
                assert(self.children@[q]@.contains(e) == self.children@[q]@.contains(e));
            }
            assert forall|i: int| #![trigger m.pending[i]] 0 <= i < m.pending.len() implies m.valid(m.pending[i] as int) by {
                if i < m0.pending.len() {
                    assert(m.pending[i] == m0.pending[i]);
                }
            }
            assert forall|x: int| #![trigger m.depths[x]] m.valid(x) implies m.depths[x] <= self.depth_bound@ by {}
            assert forall|x: int|
                #![trigger m.tree_changed[x], m.parents[x]]
                m.valid(x) && m.tree_changed[x] && m.parents[x] is Some && !m.tree_changed[m.parents[x].unwrap() as int]
                    implies m.pending.contains(x as usize) by {
                if x == e {
                    assert(m.pending[m.pending.len() - 1] == e);
                } else {
                    assert(m.parents[x] == m0.parents[x]);
                    let j = choose|j: int| 0 <= j < m0.pending.len() && m0.pending[j] == x as usize;
                    assert(m.pending[j] == x as usize);
                }
            }
            assert forall|x: int| #![trigger m.locally_agrees(x)]
                m.valid(x) && !m.locally_agrees(x) implies m.tree_changed[x] || m.pending.contains(x as usize) by {
                if x == e {
                    assert(m.pending[m.pending.len() - 1] == e);
                } else {
                    assert(m.parents[x] == m0.parents[x]);
                    assert(!m0.locally_agrees(x));
                    if !m.tree_changed[x] {
                        let j = choose|j: int| 0 <= j < m0.pending.len() && m0.pending[j] == x as usize;
                        assert(m.pending[j] == x as usize);
                    }
                }
            }
        }
    }

    /// Replaces the local transform of `e`.
    pub fn set_local_transform(&mut self, e: Entity, local: TransformComponent) -> (r: Result<
        (),
        HierarchyError,
    >)
        requires
            old(self).wf(),
        ensures
            final(self).wf(),
            !old(self)@.valid(e@) ==> r == Err::<(), HierarchyError>(HierarchyError::UnknownEntity)
                && final(self)@ == old(self)@,
            old(self)@.valid(e@) ==> r is Ok && final(self)@ == (HierarchyModel {
                locals: old(self)@.locals.update(e@, local),
                pending: old(self)@.pending.push(e@ as usize),
                ..old(self)@
            }),
    {
        if e.index >= self.parents.len() {
            return Err(HierarchyError::UnknownEntity);
        }
        let ghost m0 = self@;
        self.locals.set(e.index, local);
        self.pending.push(e.index);
        let ghost m = self@;
        proof {
            assert(m.children =~= m0.children);
            assert forall|x: int|
                #![trigger m.tree_changed[x], m.parents[x]]
                m.valid(x) && m.tree_changed[x] && m.parents[x] is Some && !m.tree_changed[m.parents[x].unwrap() as int]
                    implies m.pending.contains(x as usize) by {
                let j = choose|j: int| 0 <= j < m0.pending.len() && m0.pending[j] == x as usize;
                assert(m.pending[j] == x as usize);
            }
            assert forall|x: int| #![trigger m.locally_agrees(x)]
                m.valid(x) && !m.locally_agrees(x) implies m.tree_changed[x] || m.pending.contains(x as usize) by {
                if x == e@ {
                    assert(m.pending[m.pending.len() - 1] == e.index);
                } else {
                    assert(!m0.locally_agrees(x));
                    if !m.tree_changed[x] {
                        let j = choose|j: int| 0 <= j < m0.pending.len() && m0.pending[j] == x as usize;
                        assert(m.pending[j] == x as usize);
                    }
                }
            }
            assert forall|i: int| #![trigger m.pending[i]] 0 <= i < m.pending.len() implies m.valid(m.pending[i] as int) by {
                if i < m0.pending.len() {
                    assert(m.pending[i] == m0.pending[i]);
                }
            }
            assert(m =~= (HierarchyModel { locals: m0.locals.update(e@, local), pending: m0.pending.push(e@ as usize), ..m0 }));
        }
        Ok(())
    }

    /// Makes `e` a child of `parent`. Refused when `parent` lies in the subtree
    /// of `e`, which would close a cycle.
    pub fn set_parent(&mut self, e: Entity, parent: Entity) -> (r: Result<(), HierarchyError>)
        requires
            old(self).wf(),
        ensures
            final(self).wf(),
            r is Err ==> final(self)@ == old(self)@,
            (!old(self)@.valid(e@) || !old(self)@.valid(parent@)) ==> r == Err::<(), HierarchyError>(
                HierarchyError::UnknownEntity,
            ),
            old(self)@.valid(e@) && old(self)@.valid(parent@) ==> (r == Err::<(), HierarchyError>(
                HierarchyError::WouldCreateCycle,
            ) <==> old(self)@.is_ancestor_or_self(e@, parent@)),
            old(self)@.valid(e@) && old(self)@.valid(parent@) && !old(self)@.is_ancestor_or_self(e@, parent@)
                ==> r is Ok,
            r is Ok ==> {
                &&& final(self)@.parents == old(self)@.parents.update(e@, Some(parent@ as usize))
                &&& final(self)@.locals == old(self)@.locals
                &&& final(self)@.worlds == old(self)@.worlds
                &&& final(self)@.tree_changed == old(self)@.tree_changed
                &&& final(self)@.world_changed == old(self)@.world_changed
                &&& final(self)@.pending == old(self)@.pending.push(e@ as usize)
            },
    {
        if e.index >= self.parents.len() || parent.index >= self.parents.len() {
            return Err(HierarchyError::UnknownEntity);
        }
        if self.in_subtree(e.index, parent.index) {
            return Err(HierarchyError::WouldCreateCycle);
        }
        self.relink(e.index, Some(parent.index));
        Ok(())
    }

    /// Makes `e` a root.
    pub fn remove_parent(&mut self, e: Entity) -> (r: Result<(), HierarchyError>)
        requires
            old(self).wf(),
        ensures
            final(self).wf(),
            !old(self)@.valid(e@) ==> r == Err::<(), HierarchyError>(HierarchyError::UnknownEntity)
                && final(self)@ == old(self)@,
            old(self)@.valid(e@) ==> r is Ok && {
                &&& final(self)@.parents == old(self)@.parents.update(e@, None)
                &&& final(self)@.locals == old(self)@.locals
                &&& final(self)@.worlds == old(self)@.worlds
                &&& final(self)@.tree_changed == old(self)@.tree_changed
                &&& final(self)@.world_changed == old(self)@.world_changed
                &&& final(self)@.pending == old(self)@.pending.push(e@ as usize)
            },
    {
        if e.index >= self.parents.len() {
            return Err(HierarchyError::UnknownEntity);
        }
        self.relink(e.index, None);
        Ok(())
    }

    /// The parent of `e`, or `None` for a root.
    pub fn parent(&self, e: Entity) -> (r: Result<Option<Entity>, HierarchyError>)
        requires
            self.wf(),
        ensures
            !self@.valid(e@) ==> r == Err::<Option<Entity>, HierarchyError>(HierarchyError::UnknownEntity),
            self@.valid(e@) ==> r is Ok && match self@.parents[e@] {
                None => r.unwrap() is None,
                Some(p) => r.unwrap() is Some && r.unwrap().unwrap()@ == p,
            },
    {
        if e.index >= self.parents.len() {
            return Err(HierarchyError::UnknownEntity);
        }
        match self.parents[e.index] {
            None => Ok(None),
            Some(p) => Ok(Some(Entity { index: p })),
        }
    }

    /// The children of `e`.
    pub fn children(&self, e: Entity) -> (r: Result<Vec<Entity>, HierarchyError>)
        requires
            self.wf(),
        ensures
            !self@.valid(e@) ==> r == Err::<Vec<Entity>, HierarchyError>(HierarchyError::UnknownEntity),
            self@.valid(e@) ==> r is Ok && r.unwrap()@.len() == self@.children[e@].len() && forall|i: int|
                0 <= i < r.unwrap()@.len() ==> #[trigger] r.unwrap()@[i]@ == self@.children[e@][i],
    {
        if e.index >= self.children.len() {
            return Err(HierarchyError::UnknownEntity);
        }
        let list = &self.children[e.index];
        let mut r: Vec<Entity> = Vec::new();
        let n = list.len();
        let mut k: usize = 0;
        while k < n
            invariant
                n == list@.len(),
                list@ == self@.children[e@],
                0 <= k <= n,
                r@.len() == k,
                forall|i: int| 0 <= i < k ==> #[trigger] r@[i]@ == list@[i],
            decreases n - k,
        {
            r.push(Entity { index: list[k] });
            k = k + 1;
        }
        Ok(r)
    }

    /// The local transform of `e`.
    pub fn local_transform(&self, e: Entity) -> (r: Option<TransformComponent>)
        requires
            self.wf(),
        ensures
            !self@.valid(e@) ==> r is None,
            self@.valid(e@) ==> r == Some(self@.locals[e@]),
    {
        if e.index >= self.locals.len() {
            return None;
        }
        Some(self.locals[e.index])
    }

    /// The world transform of `e`, as last written by propagation.
    pub fn global_transform(&self, e: Entity) -> (r: Option<GlobalTransformComponent>)
        requires
            self.wf(),
        ensures
            !self@.valid(e@) ==> r is None,
            self@.valid(e@) ==> r is Some && r.unwrap().affine() == self@.worlds[e@],
    {
        if e.index >= self.worlds.len() {
            return None;
        }
        Some(GlobalTransformComponent::from_affine(self.worlds[e.index]))
    }

    /// Whether the dirty marker of `e` is set.
    pub fn is_tree_changed(&self, e: Entity) -> (r: Option<bool>)
        requires
            self.wf(),
        ensures
            !self@.valid(e@) ==> r is None,
            self@.valid(e@) ==> r == Some(self@.tree_changed[e@]),
    {
        if e.index >= self.tree_changed.len() {
            return None;
        }
        Some(self.tree_changed[e.index])
    }

    /// Whether the last propagation rewrote the world transform of `e`.
    pub fn is_global_transform_changed(&self, e: Entity) -> (r: Option<bool>)
        requires
            self.wf(),
        ensures
            !self@.valid(e@) ==> r is None,
            self@.valid(e@) ==> r == Some(self@.world_changed[e@]),
    {
        if e.index >= self.world_changed.len() {
            return None;
        }
        Some(self.world_changed[e.index])
    }
}

/// The dirty-marking pass: walks up from every entity whose local transform,
/// parent or membership changed since the last pass, setting dirty markers.
pub fn mark_dirty_trees_system(hierarchy: &mut TransformHierarchy)
    requires
        old(hierarchy).wf(),
    ensures
        final(hierarchy).wf(),
        old(hierarchy)@.marks_to(final(hierarchy)@),
{
    hierarchy.mark_pending();
}

} // verus!
