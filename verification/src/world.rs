//! The entity arena: slots that are reused under a new generation, each live
//! slot holding one node of the hierarchy.

use vstd::prelude::*;
use crate::entity::{Entity, Isometry, Kind, Node};
use crate::tree::{
    Nodes, ancestor, attached, child_of, descends, despawned, detached, lemma_ancestor_ended,
    lemma_ancestor_next, lemma_attached_linked, lemma_child_index, lemma_descends_down,
    lemma_descends_up, lemma_detached_linked, lemma_removed_linked, lemma_spawned_linked, linked,
    lists, spawned,
};

verus! {

/// Why a hierarchy operation was refused. The world is unchanged then.
#[derive(Clone, Copy, Debug, PartialEq, Eq, Structural)]
pub enum WorldError {
    /// A handle that the operation needs does not name a live entity.
    Missing,
    /// The entity to attach already has a parent.
    NotRoot,
    /// The new parent is the entity itself or lies below it.
    Cycle,
}

struct Slot {
    generation: u64,
    live: bool,
    kind: Kind,
    pose: Isometry,
    parent: Option<Entity>,
    children: Vec<Entity>,
}

/// The entities of a game and their hierarchy. Its abstract value is the
/// map from each live entity to its node.
pub struct World {
    slots: Vec<Slot>,
    /// Indices of slots that may be free. Checked again when taken.
    free: Vec<usize>,
    /// A number for each slot that grows from parent to child: the hierarchy
    /// has no cycle.
    rank: Ghost<Seq<nat>>,
}

/// What one slot adds to the measure that destruction counts down: one for a
/// live entity and one more for its link to a parent.
spec fn slot_weight(s: Slot) -> nat {
    if !s.live {
        0
    } else if s.parent is Some {
        2
    } else {
        1
    }
}

spec fn weight(s: Seq<Slot>) -> nat
    decreases s.len(),
{
    if s.len() == 0 {
        0
    } else {
        weight(s.drop_last()) + slot_weight(s.last())
    }
}

/// Two slot sequences that differ in weight at one place only differ in
/// total by as much.
proof fn lemma_weight_at(a: Seq<Slot>, b: Seq<Slot>, i: int)
    requires
        a.len() == b.len(),
        0 <= i < a.len(),
        forall|j: int| 0 <= j < a.len() && j != i ==> slot_weight(#[trigger] a[j]) == slot_weight(b[j]),
    ensures
        weight(a) - slot_weight(a[i]) == weight(b) - slot_weight(b[i]),
    decreases a.len(),
{
    if i == a.len() - 1 {
        lemma_weight_same(a.drop_last(), b.drop_last());
    } else {
        assert(slot_weight(a[a.len() - 1]) == slot_weight(b[a.len() - 1]));
        lemma_weight_at(a.drop_last(), b.drop_last(), i);
    }
}

proof fn lemma_weight_same(a: Seq<Slot>, b: Seq<Slot>)
    requires
        a.len() == b.len(),
        forall|j: int| 0 <= j < a.len() ==> slot_weight(#[trigger] a[j]) == slot_weight(b[j]),
    ensures
        weight(a) == weight(b),
    decreases a.len(),
{
    if a.len() > 0 {
        assert(slot_weight(a[a.len() - 1]) == slot_weight(b[a.len() - 1]));
        lemma_weight_same(a.drop_last(), b.drop_last());
    }
}

/// A destruction under way. `m0` is the hierarchy when it began, with `e` a
/// root; `m` is the hierarchy now; `stack` holds the roots still to be taken
/// apart. Whatever is gone descended from `e`, and whatever is left is as it
/// was, but for the entities on the stack.
spec fn reaping(m0: Nodes, m: Nodes, stack: Seq<Entity>, e: Entity) -> bool {
    &&& stack.no_duplicates()
    &&& forall|i: int|
        0 <= i < stack.len() ==> m.dom().contains(#[trigger] stack[i]) && m[stack[i]].parent is None
            && descends(m0, stack[i], e)
    &&& forall|x: Entity|
        #![trigger m.dom().contains(x)]
        m.dom().contains(x) ==> m0.dom().contains(x) && kept(m0, m, stack, x)
    &&& forall|x: Entity|
        #![trigger m.dom().contains(x)]
        m0.dom().contains(x) && !m.dom().contains(x) ==> descends(m0, x, e)
    &&& stack.contains(e) || !m.dom().contains(e)
}

spec fn kept(m0: Nodes, m: Nodes, stack: Seq<Entity>, x: Entity) -> bool {
    &&& m[x].kind == m0[x].kind
    &&& m[x].pose == m0[x].pose
    &&& m[x].parent == m0[x].parent || (m[x].parent is None && stack.contains(x))
    &&& m[x].children == m0[x].children || stack.contains(x)
}

proof fn lemma_reap_detach(m0: Nodes, m: Nodes, stack: Seq<Entity>, e: Entity, c: Entity)
    requires
        reaping(m0, m, stack, e),
        linked(m),
        stack.len() > 0,
        child_of(m, c, stack.last()),
        stack.last() != c,
    ensures
        reaping(m0, detached(m, c), stack.push(c), e),
{
    let s = stack.last();
    let m2 = detached(m, c);
    let stack2 = stack.push(c);
    assert(m.dom().contains(s));
    assert(kept(m0, m, stack, c));
    assert(m0[c].parent == Some(s));
    lemma_descends_up(m0, c, s, e);
    assert(!stack.contains(c));
    assert forall|i: int| 0 <= i < stack2.len() implies m2.dom().contains(#[trigger] stack2[i])
        && m2[stack2[i]].parent is None && descends(m0, stack2[i], e) by {
        if i < stack.len() {
            assert(stack2[i] == stack[i]);
            assert(m.dom().contains(stack[i]));
        }
    }
    assert forall|x: Entity| #![trigger m2.dom().contains(x)] m2.dom().contains(x) implies m0.dom().contains(x)
        && kept(m0, m2, stack2, x) by {
        assert(m.dom().contains(x));
        assert(kept(m0, m, stack, x));
        assert(stack2.last() == c);
        if stack.contains(x) {
            let i = choose|i: int| 0 <= i < stack.len() && stack[i] == x;
            assert(stack2[i] == x);
        }
        assert(stack2[stack.len() - 1] == s);
    }
    assert forall|x: Entity|
        #![trigger m2.dom().contains(x)]
        m0.dom().contains(x) && !m2.dom().contains(x) implies descends(m0, x, e) by {
        assert(!m.dom().contains(x));
    }
    if stack.contains(e) {
        let i = choose|i: int| 0 <= i < stack.len() && stack[i] == e;
        assert(stack2[i] == e);
    }
}

proof fn lemma_reap_kill(m0: Nodes, m: Nodes, stack: Seq<Entity>, e: Entity)
    requires
        reaping(m0, m, stack, e),
        stack.len() > 0,
    ensures
        reaping(m0, m.remove(stack.last()), stack.drop_last(), e),
{
    let s = stack.last();
    let m2 = m.remove(s);
    let stack2 = stack.drop_last();
    assert forall|i: int| 0 <= i < stack2.len() implies m2.dom().contains(#[trigger] stack2[i])
        && m2[stack2[i]].parent is None && descends(m0, stack2[i], e) by {
        assert(stack2[i] == stack[i]);
    }
    assert forall|x: Entity| #![trigger m2.dom().contains(x)] m2.dom().contains(x) implies m0.dom().contains(x)
        && kept(m0, m2, stack2, x) by {
        assert(m.dom().contains(x));
        assert(kept(m0, m, stack, x));
        if stack.contains(x) {
            let i = choose|i: int| 0 <= i < stack.len() && stack[i] == x;
            assert(stack2[i] == x);
        }
    }
    assert forall|x: Entity|
        #![trigger m2.dom().contains(x)]
        m0.dom().contains(x) && !m2.dom().contains(x) implies descends(m0, x, e) by {
        if x != s {
            assert(!m.dom().contains(x));
        }
    }
    if stack.contains(e) && e != s {
        let i = choose|i: int| 0 <= i < stack.len() && stack[i] == e;
        assert(stack2[i] == e);
    }
}

/// Once nothing is left to take apart, no survivor has `e` above it.
proof fn lemma_survivor(m0: Nodes, m: Nodes, e: Entity, x: Entity, n: nat)
    requires
        reaping(m0, m, Seq::empty(), e),
        linked(m),
        m.dom().contains(x),
    ensures
        ancestor(m0, x, n) != Some(e),
    decreases n,
{
    assert(kept(m0, m, Seq::empty(), x));
    if n > 0 {
        if let Some(p) = m0[x].parent {
            assert(child_of(m, x, p));
            assert(lists(m, p, x));
            lemma_survivor(m0, m, e, p, (n - 1) as nat);
        }
    }
}

proof fn lemma_reap_done(m0: Nodes, m: Nodes, e: Entity)
    requires
        reaping(m0, m, Seq::empty(), e),
        linked(m),
    ensures
        m == m0.remove_keys(Set::new(|x: Entity| descends(m0, x, e))),
{
    let gone = Set::new(|x: Entity| descends(m0, x, e));
    let m2 = m0.remove_keys(gone);
    assert forall|x: Entity| m.dom().contains(x) implies !descends(m0, x, e) by {
        assert forall|n: nat| ancestor(m0, x, n) != Some(e) by {
            lemma_survivor(m0, m, e, x, n);
        }
    }
    assert forall|x: Entity| m.dom().contains(x) implies m[x] == m0[x] by {
        assert(kept(m0, m, Seq::empty(), x));
    }
    assert(m =~= m2);
}

impl View for World {
    type V = Nodes;

    /// The live entities, each with its node.
    closed spec fn view(&self) -> Nodes {
        Map::new(|e: Entity| self.alive(e), |e: Entity| self.node_at(e.index as int))
    }
}

impl World {
    spec fn alive(&self, e: Entity) -> bool {
        &&& e.index < self.slots@.len()
        &&& self.slots@[e.index as int].live
        &&& self.slots@[e.index as int].generation == e.generation
    }

    spec fn node_at(&self, i: int) -> Node {
        Node {
            kind: self.slots@[i].kind,
            pose: self.slots@[i].pose,
            parent: self.slots@[i].parent,
            children: self.slots@[i].children@,
        }
    }

    /// Every handle that this world has ever handed out, live or not.
    pub closed spec fn issued(&self) -> Set<Entity> {
        Set::new(
            |e: Entity|
                e.index < self.slots@.len() && e.generation <= self.slots@[e.index as int].generation,
        )
    }

    spec fn ranked(&self) -> bool {
        forall|e: Entity| #[trigger]
            self.alive(e) ==> (self.slots@[e.index as int].parent matches Some(p)
                ==> self.rank@[p.index as int] < self.rank@[e.index as int])
    }

    /// The invariant of the arena. Every operation keeps it.
    pub closed spec fn wf(&self) -> bool {
        &&& self.rank@.len() == self.slots@.len()
        &&& forall|k: int| 0 <= k < self.free@.len() ==> #[trigger] self.free@[k] < self.slots@.len()
        &&& linked(self@)
        &&& self.ranked()
    }

    /// In a well-formed world the hierarchy is consistent, only issued
    /// handles are live, and following parent links from an entity never
    /// leads back to it.
    pub proof fn lemma_wf(&self)
        requires
            self.wf(),
        ensures
            linked(self@),
            self@.dom().subset_of(self.issued()),
            forall|x: Entity, n: nat| n > 0 ==> ancestor(self@, x, n) != Some(x),
    {
        assert forall|x: Entity, n: nat| n > 0 implies ancestor(self@, x, n) != Some(x) by {
            if self.alive(x) && ancestor(self@, x, n) is Some {
                self.lemma_rank_falls(x, n);
            }
        }
    }

    /// Every ancestor of a live entity is live and of lower rank.
    proof fn lemma_rank_falls(&self, x: Entity, n: nat)
        requires
            self.wf(),
            self.alive(x),
            n > 0,
            ancestor(self@, x, n) is Some,
        ensures
            self.alive(ancestor(self@, x, n)->0),
            self.rank@[ancestor(self@, x, n)->0.index as int] < self.rank@[x.index as int],
        decreases n,
    {
        let m = self@;
        let p = m[x].parent->0;
        assert(child_of(m, x, p));
        assert(lists(m, p, x));
        if n > 1 {
            self.lemma_rank_falls(p, (n - 1) as nat);
        }
    }

    /// A world without entities.
    pub fn new() -> (w: World)
        ensures
            w.wf(),
            w@ == Nodes::empty(),
            w.issued() == Set::<Entity>::empty(),
    {
        let w = World { slots: Vec::new(), free: Vec::new(), rank: Ghost(Seq::empty()) };
        assert(w@ =~= Nodes::empty());
        assert(w.issued() =~= Set::<Entity>::empty());
        w
    }

    /// Whether `e` names a live entity.
    pub fn contains(&self, e: Entity) -> (r: bool)
        ensures
            r == self@.dom().contains(e),
    {
        e.index < self.slots.len() && self.slots[e.index].live && self.slots[e.index].generation
            == e.generation
    }

    pub fn kind(&self, e: Entity) -> (r: Option<Kind>)
        ensures
            r == if self@.dom().contains(e) {
                Some(self@[e].kind)
            } else {
                None
            },
    {
        if self.contains(e) {
            Some(self.slots[e.index].kind)
        } else {
            None
        }
    }

    pub fn pose(&self, e: Entity) -> (r: Option<Isometry>)
        ensures
            r == if self@.dom().contains(e) {
                Some(self@[e].pose)
            } else {
                None
            },
    {
        if self.contains(e) {
            Some(self.slots[e.index].pose)
        } else {
            None
        }
    }

    /// The parent of `e`; `None` for a root and for a handle that is not live.
    pub fn parent(&self, e: Entity) -> (r: Option<Entity>)
        ensures
            r == if self@.dom().contains(e) {
                self@[e].parent
            } else {
                None
            },
    {
        if self.contains(e) {
            self.slots[e.index].parent
        } else {
            None
        }
    }

    /// The children of `e` in the order they were attached; empty for a
    /// handle that is not live.
    pub fn children(&self, e: Entity) -> (r: Vec<Entity>)
        ensures
            r@ == if self@.dom().contains(e) {
                self@[e].children
            } else {
                Seq::empty()
            },
    {
        if self.contains(e) {
            self.slots[e.index].children.clone()
        } else {
            Vec::new()
        }
    }

    /// Takes candidates from the end of the free list until one is a dead
    /// slot whose generation can still grow, and returns it. The candidates
    /// before it stay listed; those taken after it were of no use and are
    /// dropped. `None` when no candidate is of use; the list is empty then.
    fn take_free(&mut self) -> (r: Option<usize>)
        requires
            old(self).wf(),
        ensures
            final(self).wf(),
            final(self).slots == old(self).slots,
            final(self).rank == old(self).rank,
            final(self).free@.len() <= old(self).free@.len(),
            final(self).free@ == old(self).free@.take(final(self).free@.len() as int),
            match r {
                Some(i) => {
                    &&& final(self).free@.len() < old(self).free@.len()
                    &&& i == old(self).free@[final(self).free@.len() as int]
                    &&& old(self).reusable(i)
                    &&& forall|k: int|
                        final(self).free@.len() < k < old(self).free@.len() ==> !old(self).reusable(
                            #[trigger] old(self).free@[k],
                        )
                },
                None => {
                    &&& final(self).free@.len() == 0
                    &&& forall|k: int|
                        0 <= k < old(self).free@.len() ==> !old(self).reusable(
                            #[trigger] old(self).free@[k],
                        )
                },
            },
    {
        while self.free.len() > 0
            invariant
                self.wf(),
                self.slots == old(self).slots,
                self.rank == old(self).rank,
                self.free@.len() <= old(self).free@.len(),
                self.free@ == old(self).free@.take(self.free@.len() as int),
                forall|k: int|
                    self.free@.len() <= k < old(self).free@.len() ==> !old(self).reusable(
                        #[trigger] old(self).free@[k],
                    ),
            decreases self.free.len(),
        {
            let ghost before = *self;
            let i = self.free.pop().unwrap();
            assert(self@ == before@);
            assert(self.ranked()) by {
                assert forall|e: Entity| #[trigger] self.alive(e) implies (
                self.slots@[e.index as int].parent matches Some(p) ==> self.rank@[p.index as int]
                    < self.rank@[e.index as int]) by {
                    assert(before.alive(e));
                }
            }
            proof {
                assert(i == old(self).free@[self.free@.len() as int]);
                assert(self.free@ == old(self).free@.take(self.free@.len() as int));
            }
            if !self.slots[i].live && self.slots[i].generation < u64::MAX {
                return Some(i);
            }
        }
        None
    }

    /// The slot at `i` can be given out again: it is dead and its generation
    /// can still grow.
    spec fn reusable(&self, i: usize) -> bool {
        &&& i < self.slots@.len()
        &&& !self.slots@[i as int].live
        &&& self.slots@[i as int].generation < u64::MAX
    }

    /// Creates a leaf of the given kind, as the last child of `parent` if one
    /// is given. The entity and its place in the hierarchy appear together.
    /// Refused when `parent` is given and is not live.
    pub fn spawn(&mut self, kind: Kind, pose: Isometry, parent: Option<Entity>) -> (r: Result<
        Entity,
        WorldError,
    >)
        requires
            old(self).wf(),
        ensures
            final(self).wf(),
            match r {
                Ok(e) => {
                    &&& parent matches Some(p) ==> old(self)@.dom().contains(p)
                    &&& !old(self).issued().contains(e)
                    &&& final(self).issued() == old(self).issued().insert(e)
                    &&& final(self)@ == spawned(old(self)@, e, kind, pose, parent)
                },
                Err(err) => {
                    &&& err == WorldError::Missing
                    &&& parent matches Some(p) && !old(self)@.dom().contains(p)
                    &&& final(self)@ == old(self)@
                    &&& final(self).issued() == old(self).issued()
                },
            },
    {
        if let Some(p) = parent {
            if !self.contains(p) {
                return Err(WorldError::Missing);
            }
        }
        let ghost m0 = self@;
        let ghost iss0 = self.issued();
        let taken = self.take_free();
        assert(self@ == m0);
        assert(self.issued() == iss0);
        let ghost w1 = *self;
        let index = match taken {
            Some(i) => {
                let generation = self.slots[i].generation + 1;
                self.slots.set(
                    i,
                    Slot { generation, live: true, kind, pose, parent, children: Vec::new() },
                );
                i
            },
            None => {
                self.slots.push(
                    Slot { generation: 0, live: true, kind, pose, parent, children: Vec::new() },
                );
                proof {
                    self.rank@ = self.rank@.push(0);
                }
                self.slots.len() - 1
            },
        };
        let e = Entity { index, generation: self.slots[index].generation };
        proof {
            let r: nat = match parent {
                Some(p) => self.rank@[p.index as int] + 1,
                None => 0,
            };
            self.rank@ = self.rank@.update(index as int, r);
        }
        let ghost w2 = *self;
        assert(!w1.alive(e));
        assert(forall|x: Entity| x != e ==> (w2.alive(x) <==> w1.alive(x)));
        assert(forall|x: Entity| w1.alive(x) ==> w2.node_at(x.index as int) == w1.node_at(x.index as int));
        if let Some(p) = parent {
            self.slots[p.index].children.push(e);
        }
        proof {
            let m = spawned(m0, e, kind, pose, parent);
            assert(forall|x: Entity| self.alive(x) <==> w2.alive(x));
            assert(self@ =~= m);
            assert(self.issued() =~= iss0.insert(e));
            lemma_spawned_linked(m0, e, kind, pose, parent);
            assert(self.ranked()) by {
                assert forall|x: Entity| #[trigger] self.alive(x) implies (
                self.slots@[x.index as int].parent matches Some(q) ==> self.rank@[q.index as int]
                    < self.rank@[x.index as int]) by {
                    if x != e {
                        assert(w1.alive(x));
                        if let Some(q) = self.slots@[x.index as int].parent {
                            assert(child_of(m0, x, q));
                            assert(lists(m0, q, x));
                        }
                    }
                }
            }
        }
        Ok(e)
    }

    /// Gives the entity a new pose. Returns whether the handle was live.
    pub fn set_pose(&mut self, e: Entity, pose: Isometry) -> (r: bool)
        requires
            old(self).wf(),
        ensures
            final(self).wf(),
            final(self).issued() == old(self).issued(),
            r == old(self)@.dom().contains(e),
            final(self)@ == if r {
                old(self)@.insert(e, Node { pose, ..old(self)@[e] })
            } else {
                old(self)@
            },
    {
        if !self.contains(e) {
            return false;
        }
        let ghost w0 = *self;
        self.slots[e.index].pose = pose;
        proof {
            let m = w0@.insert(e, Node { pose, ..w0@[e] });
            assert(forall|x: Entity| self.alive(x) <==> w0.alive(x));
            assert(self@ =~= m);
            assert(self.issued() =~= w0.issued());
            assert(linked(m)) by {
                assert forall|c: Entity, p: Entity| #[trigger] child_of(m, c, p) implies lists(m, p, c) by {
                    assert(child_of(w0@, c, p));
                    assert(lists(w0@, p, c));
                }
                assert forall|p: Entity, c: Entity| #[trigger] lists(m, p, c) implies child_of(m, c, p) by {
                    assert(lists(w0@, p, c));
                    assert(child_of(w0@, c, p));
                }
                assert forall|x: Entity| #[trigger] m.dom().contains(x) implies m[x].children.no_duplicates() by {
                    assert(w0@[x].children.no_duplicates());
                }
            }
            assert(self.ranked()) by {
                assert forall|x: Entity| #[trigger] self.alive(x) implies (
                self.slots@[x.index as int].parent matches Some(q) ==> self.rank@[q.index as int]
                    < self.rank@[x.index as int]) by {
                    assert(w0.alive(x));
                }
            }
        }
        true
    }

    /// Cuts the last child of `s` loose and returns it; `None` when `s` has
    /// no child.
    fn pop_last_child(&mut self, s: Entity) -> (r: Option<Entity>)
        requires
            old(self).wf(),
            old(self)@.dom().contains(s),
        ensures
            final(self).wf(),
            final(self).issued() == old(self).issued(),
            match r {
                Some(c) => {
                    &&& old(self)@[s].children.len() > 0
                    &&& c == old(self)@[s].children.last()
                    &&& c != s
                    &&& child_of(old(self)@, c, s)
                    &&& final(self)@ == detached(old(self)@, c)
                    &&& weight(final(self).slots@) < weight(old(self).slots@)
                },
                None => {
                    &&& old(self)@[s].children.len() == 0
                    &&& final(self)@ == old(self)@
                    &&& final(self).slots == old(self).slots
                },
            },
    {
        let ghost w0 = *self;
        let ghost m0 = self@;
        let n = self.slots[s.index].children.len();
        if n == 0 {
            return None;
        }
        let c = self.slots[s.index].children[n - 1];
        proof {
            lemma_child_index(m0, c, s, n - 1);
            assert(w0.alive(c));
            assert(c != s);
        }
        self.detach_at(c, s, n - 1);
        Some(c)
    }

    /// Unlinks `c` from its parent `p`, where `c` stands at place `k` of the
    /// parent's list.
    fn detach_at(&mut self, c: Entity, p: Entity, k: usize)
        requires
            old(self).wf(),
            child_of(old(self)@, c, p),
            old(self)@.dom().contains(p),
            k < old(self)@[p].children.len(),
            old(self)@[p].children[k as int] == c,
        ensures
            final(self).wf(),
            final(self).issued() == old(self).issued(),
            final(self)@ == detached(old(self)@, c),
            weight(final(self).slots@) < weight(old(self).slots@),
    {
        let ghost w0 = *self;
        let ghost m0 = self@;
        proof {
            lemma_child_index(m0, c, p, k as int);
            assert(w0.alive(c));
            assert(w0.alive(p));
            assert(c != p);
        }
        self.slots[p.index].children.remove(k);
        let ghost w1 = *self;
        self.slots[c.index].parent = None;
        proof {
            let m = detached(m0, c);
            assert(forall|x: Entity| self.alive(x) <==> w0.alive(x));
            assert(self@ =~= m);
            assert(self.issued() =~= w0.issued());
            lemma_detached_linked(m0, c);
            assert(self.ranked()) by {
                assert forall|x: Entity| #[trigger] self.alive(x) implies (
                self.slots@[x.index as int].parent matches Some(q) ==> self.rank@[q.index as int]
                    < self.rank@[x.index as int]) by {
                    assert(w0.alive(x));
                }
            }
            lemma_weight_same(w0.slots@, w1.slots@);
            lemma_weight_at(w1.slots@, self.slots@, c.index as int);
        }
    }

    /// Cuts `c` loose from its parent; `c` keeps everything below it.
    /// Returns whether there was a link to cut.
    pub fn remove_parent(&mut self, c: Entity) -> (r: bool)
        requires
            old(self).wf(),
        ensures
            final(self).wf(),
            final(self).issued() == old(self).issued(),
            r == (old(self)@.dom().contains(c) && old(self)@[c].parent is Some),
            old(self)@.dom().contains(c) ==> final(self)@.dom().contains(c) && final(self)@[c].parent is None,
            final(self)@ == if old(self)@.dom().contains(c) {
                detached(old(self)@, c)
            } else {
                old(self)@
            },
    {
        if !self.contains(c) {
            return false;
        }
        let ghost m0 = self@;
        match self.slots[c.index].parent {
            None => false,
            Some(p) => {
                proof {
                    assert(child_of(m0, c, p));
                    assert(lists(m0, p, c));
                    assert(self.alive(p));
                }
                let n = self.slots[p.index].children.len();
                let mut k: usize = 0;
                while self.slots[p.index].children[k] != c
                    invariant
                        self@ == m0,
                        m0[p].children.len() == n,
                        self.alive(p),
                        m0[p].children.contains(c),
                        m0[p].children == self.slots@[p.index as int].children@,
                        0 <= k < m0[p].children.len(),
                        forall|j: int| 0 <= j < k ==> m0[p].children[j] != c,
                    decreases m0[p].children.len() - k,
                {
                    proof {
                        let i = choose|i: int| 0 <= i < m0[p].children.len() && m0[p].children[i] == c;
                        assert(i > k);
                    }
                    k = k + 1;
                }
                self.detach_at(c, p, k);
                true
            },
        }
    }

    /// Frees the slot of a root that has no children.
    fn kill(&mut self, s: Entity)
        requires
            old(self).wf(),
            old(self)@.dom().contains(s),
            old(self)@[s].parent is None,
            old(self)@[s].children.len() == 0,
        ensures
            final(self).wf(),
            final(self).issued() == old(self).issued(),
            final(self)@ == old(self)@.remove(s),
            weight(final(self).slots@) < weight(old(self).slots@),
    {
        let ghost w0 = *self;
        let ghost m0 = self@;
        self.slots[s.index].live = false;
        self.free.push(s.index);
        proof {
            let m = m0.remove(s);
            assert(forall|x: Entity| self.alive(x) <==> w0.alive(x) && x != s);
            assert(self@ =~= m);
            assert(self.issued() =~= w0.issued());
            lemma_removed_linked(m0, s);
            assert(self.ranked()) by {
                assert forall|x: Entity| #[trigger] self.alive(x) implies (
                self.slots@[x.index as int].parent matches Some(q) ==> self.rank@[q.index as int]
                    < self.rank@[x.index as int]) by {
                    assert(w0.alive(x));
                }
            }
            lemma_weight_at(w0.slots@, self.slots@, s.index as int);
        }
    }

    /// Destroys `e` and everything that descends from it. Returns whether
    /// the handle was live.
    pub fn despawn(&mut self, e: Entity) -> (r: bool)
        requires
            old(self).wf(),
        ensures
            final(self).wf(),
            final(self).issued() == old(self).issued(),
            r == old(self)@.dom().contains(e),
            final(self)@ == if r {
                despawned(old(self)@, e)
            } else {
                old(self)@
            },
    {
        if !self.contains(e) {
            return false;
        }
        self.remove_parent(e);
        let ghost m0 = self@;
        let mut stack: Vec<Entity> = Vec::new();
        stack.push(e);
        proof {
            assert(ancestor(m0, e, 0) == Some(e));
            assert(stack@[0] == e);
            assert forall|x: Entity| #![trigger m0.dom().contains(x)] m0.dom().contains(x) implies kept(
                m0,
                m0,
                stack@,
                x,
            ) by {}
        }
        while stack.len() > 0
            invariant
                self.wf(),
                self.issued() == old(self).issued(),
                reaping(m0, self@, stack@, e),
            decreases weight(self.slots@),
        {
            let s = stack[stack.len() - 1];
            let ghost m = self@;
            match self.pop_last_child(s) {
                Some(c) => {
                    proof {
                        lemma_reap_detach(m0, m, stack@, e, c);
                    }
                    stack.push(c);
                },
                None => {
                    proof {
                        lemma_reap_kill(m0, m, stack@, e);
                    }
                    stack.pop();
                    self.kill(s);
                },
            }
        }
        proof {
            assert(stack@ =~= Seq::empty());
            lemma_reap_done(m0, self@, e);
        }
        true
    }

    /// What `add_child` answers in the hierarchy `m`.
    pub open spec fn can_add_child(m: Nodes, parent: Entity, child: Entity) -> Result<(), WorldError> {
        if !m.dom().contains(parent) || !m.dom().contains(child) {
            Err(WorldError::Missing)
        } else if m[child].parent is Some {
            Err(WorldError::NotRoot)
        } else if descends(m, parent, child) {
            Err(WorldError::Cycle)
        } else {
            Ok(())
        }
    }

    /// Whether `x` is `above` or lies below it.
    pub fn is_descendant(&self, x: Entity, above: Entity) -> (r: bool)
        requires
            self.wf(),
        ensures
            r == descends(self@, x, above),
    {
        let ghost m = self@;
        if !self.contains(x) {
            proof {
                assert(ancestor(m, x, 0) == Some(x));
                assert forall|j: nat| j > 0 implies ancestor(m, x, j) is None by {}
            }
            return x == above;
        }
        let mut cur = x;
        let ghost mut k: nat = 0;
        loop
            invariant
                self.wf(),
                m == self@,
                self.alive(cur),
                ancestor(m, x, k) == Some(cur),
                forall|j: nat| j < k ==> ancestor(m, x, j) != Some(above),
            decreases self.rank@[cur.index as int],
        {
            if cur == above {
                return true;
            }
            match self.slots[cur.index].parent {
                Some(q) => {
                    proof {
                        assert(child_of(m, cur, q));
                        assert(lists(m, q, cur));
                        lemma_ancestor_next(m, x, k);
                        k = k + 1;
                    }
                    cur = q;
                },
                None => {
                    proof {
                        lemma_ancestor_next(m, x, k);
                        assert forall|j: nat| ancestor(m, x, j) != Some(above) by {
                            if j > k {
                                lemma_ancestor_ended(m, x, k + 1, j);
                            }
                        }
                    }
                    return false;
                },
            }
        }
    }

    /// Makes the root `child` the last child of `parent`. Refused, in this
    /// order, when a handle is not live, when `child` has a parent already,
    /// and when `parent` is `child` or lies below it.
    pub fn add_child(&mut self, parent: Entity, child: Entity) -> (r: Result<(), WorldError>)
        requires
            old(self).wf(),
        ensures
            final(self).wf(),
            final(self).issued() == old(self).issued(),
            r == Self::can_add_child(old(self)@, parent, child),
            final(self)@ == if r is Ok {
                attached(old(self)@, child, parent)
            } else {
                old(self)@
            },
    {
        if !self.contains(parent) || !self.contains(child) {
            return Err(WorldError::Missing);
        }
        if self.slots[child.index].parent.is_some() {
            return Err(WorldError::NotRoot);
        }
        if self.is_descendant(parent, child) {
            return Err(WorldError::Cycle);
        }
        let ghost w0 = *self;
        let ghost m0 = self@;
        self.slots[child.index].parent = Some(parent);
        self.slots[parent.index].children.push(child);
        proof {
            let shift = w0.rank@[parent.index as int] + 1;
            self.rank@ = Seq::new(
                w0.rank@.len(),
                |i: int|
                    if w0.slots@[i].live && descends(
                        m0,
                        Entity { index: i as usize, generation: w0.slots@[i].generation },
                        child,
                    ) {
                        w0.rank@[i] + shift
                    } else {
                        w0.rank@[i]
                    },
            );
            let m = attached(m0, child, parent);
            assert(ancestor(m0, child, 0) == Some(child));
            assert(child != parent);
            assert(forall|x: Entity| self.alive(x) <==> w0.alive(x));
            assert(self@ =~= m);
            assert(self.issued() =~= w0.issued());
            lemma_attached_linked(m0, child, parent);
            assert(self.ranked()) by {
                assert forall|x: Entity| #[trigger] self.alive(x) implies (
                self.slots@[x.index as int].parent matches Some(q) ==> self.rank@[q.index as int]
                    < self.rank@[x.index as int]) by {
                    assert(w0.alive(x));
                    let ex = Entity { index: x.index, generation: w0.slots@[x.index as int].generation };
                    assert(ex == x);
                    if x == child {
                        assert(w0.alive(parent));
                    } else if let Some(q) = w0.slots@[x.index as int].parent {
                        assert(child_of(m0, x, q));
                        assert(lists(m0, q, x));
                        assert(w0.alive(q));
                        let eq = Entity { index: q.index, generation: w0.slots@[q.index as int].generation };
                        assert(eq == q);
                        if descends(m0, x, child) {
                            lemma_descends_down(m0, x, child);
                        }
                        if descends(m0, q, child) {
                            lemma_descends_up(m0, x, q, child);
                        }
                    }
                }
            }
        }
        Ok(())
    }

    /// The live entities, by rising slot index.
    pub fn entities(&self) -> (r: Vec<Entity>)
        ensures
            forall|a: int, b: int| 0 <= a < b < r@.len() ==> r@[a].index < r@[b].index,
            forall|e: Entity| r@.contains(e) <==> self@.dom().contains(e),
    {
        self.collect(None)
    }

    /// The live entities of one kind, by rising slot index.
    pub fn entities_of_kind(&self, kind: Kind) -> (r: Vec<Entity>)
        ensures
            forall|a: int, b: int| 0 <= a < b < r@.len() ==> r@[a].index < r@[b].index,
            forall|e: Entity| r@.contains(e) <==> self@.dom().contains(e) && self@[e].kind == kind,
    {
        self.collect(Some(kind))
    }

    spec fn picked(&self, only: Option<Kind>, e: Entity) -> bool {
        self.alive(e) && (only matches Some(k) ==> self.slots@[e.index as int].kind == k)
    }

    /// The live entities, or those of one kind, by rising slot index.
    fn collect(&self, only: Option<Kind>) -> (r: Vec<Entity>)
        ensures
            forall|a: int, b: int| 0 <= a < b < r@.len() ==> r@[a].index < r@[b].index,
            forall|e: Entity| r@.contains(e) <==> self.picked(only, e),
    {
        let mut out: Vec<Entity> = Vec::new();
        let mut i: usize = 0;
        while i < self.slots.len()
            invariant
                0 <= i <= self.slots@.len(),
                forall|k: int| 0 <= k < out@.len() ==> (#[trigger] out@[k]).index < i,
                forall|a: int, b: int| 0 <= a < b < out@.len() ==> out@[a].index < out@[b].index,
                forall|e: Entity| #[trigger] out@.contains(e) ==> self.picked(only, e) && e.index < i,
                forall|e: Entity| #[trigger] self.picked(only, e) && e.index < i ==> out@.contains(e),
            decreases self.slots@.len() - i,
        {
            let wanted = match only {
                Some(k) => self.slots[i].kind == k,
                None => true,
            };
            if self.slots[i].live && wanted {
                let ghost before = out@;
                let e = Entity { index: i, generation: self.slots[i].generation };
                out.push(e);
                proof {
                    assert(out@ == before.push(e));
                    assert forall|x: Entity| #[trigger] self.picked(only, x) && x.index < i + 1 implies out@.contains(
                        x,
                    ) by {
                        if x.index < i {
                            assert(before.contains(x));
                            let k = choose|k: int| 0 <= k < before.len() && before[k] == x;
                            assert(out@[k] == x);
                        } else {
                            assert(x == e);
                            assert(out@[before.len() as int] == x);
                        }
                    }
                    assert forall|x: Entity| #[trigger] out@.contains(x) implies self.picked(only, x) && x.index < i
                        + 1 by {
                        let k = choose|k: int| 0 <= k < out@.len() && out@[k] == x;
                        if k < before.len() {
                            assert(before[k] == x);
                            assert(before.contains(x));
                        }
                    }
                }
            }
            i = i + 1;
        }
        out
    }
}

} // verus!
