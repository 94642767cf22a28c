//! The parent-child hierarchy as mathematics: what it means for one entity to
//! descend from another, and what each hierarchy operation does to the map of
//! live entities.

use vstd::prelude::*;
use crate::entity::{Entity, Isometry, Kind, Node};

verus! {

/// The live entities of a world, each with its node.
pub type Nodes = Map<Entity, Node>;

/// The entity reached from `x` by following `n` parent links, if the chain is
/// that long.
pub open spec fn ancestor(m: Nodes, x: Entity, n: nat) -> Option<Entity>
    decreases n,
{
    if n == 0 {
        Some(x)
    } else if m.dom().contains(x) {
        match m[x].parent {
            Some(p) => ancestor(m, p, (n - 1) as nat),
            None => None,
        }
    } else {
        None
    }
}

/// `x` is `a` or lies below `a` in the hierarchy.
pub open spec fn descends(m: Nodes, x: Entity, a: Entity) -> bool {
    exists|n: nat| ancestor(m, x, n) == Some(a)
}

/// `c` is live and names `p` as its parent.
pub open spec fn child_of(m: Nodes, c: Entity, p: Entity) -> bool {
    m.dom().contains(c) && m[c].parent == Some(p)
}

/// `p` is live and lists `c` among its children.
pub open spec fn lists(m: Nodes, p: Entity, c: Entity) -> bool {
    m.dom().contains(p) && m[p].children.contains(c)
}

/// Parent links and child lists say the same, so every link stays among the
/// live entities; no child is listed twice and no entity is its own parent.
pub open spec fn linked(m: Nodes) -> bool {
    &&& forall|c: Entity, p: Entity| #[trigger] child_of(m, c, p) ==> lists(m, p, c)
    &&& forall|p: Entity, c: Entity| #[trigger] lists(m, p, c) ==> child_of(m, c, p)
    &&& forall|e: Entity|
        #[trigger] m.dom().contains(e) ==> m[e].children.no_duplicates() && m[e].parent != Some(e)
}

/// The map after a new leaf `e` appears, as the last child of `parent` if one
/// is given.
pub open spec fn spawned(m: Nodes, e: Entity, kind: Kind, pose: Isometry, parent: Option<Entity>) -> Nodes {
    let m1 = m.insert(e, Node { kind, pose, parent, children: Seq::empty() });
    match parent {
        Some(p) => m1.insert(p, Node { children: m[p].children.push(e), ..m[p] }),
        None => m1,
    }
}

/// The map after `c` is cut loose from its parent; `c` keeps everything below
/// it. A root is left as it is.
pub open spec fn detached(m: Nodes, c: Entity) -> Nodes {
    match m[c].parent {
        Some(p) => m.insert(c, Node { parent: None, ..m[c] }).insert(
            p,
            Node { children: m[p].children.remove(m[p].children.index_of(c)), ..m[p] },
        ),
        None => m,
    }
}

/// The map after the root `c` becomes the last child of `p`.
pub open spec fn attached(m: Nodes, c: Entity, p: Entity) -> Nodes {
    m.insert(c, Node { parent: Some(p), ..m[c] }).insert(
        p,
        Node { children: m[p].children.push(c), ..m[p] },
    )
}

/// The map after `e` is destroyed together with everything that descends
/// from it.
pub open spec fn despawned(m: Nodes, e: Entity) -> Nodes {
    detached(m, e).remove_keys(Set::new(|x: Entity| descends(detached(m, e), x, e)))
}

/// Following one more link from the `n`-th ancestor gives the next one.
pub proof fn lemma_ancestor_next(m: Nodes, x: Entity, n: nat)
    ensures
        ancestor(m, x, n + 1) == match ancestor(m, x, n) {
            Some(y) => if m.dom().contains(y) {
                m[y].parent
            } else {
                None
            },
            None => None,
        },
    decreases n,
{
    reveal_with_fuel(ancestor, 2);
    if n > 0 && m.dom().contains(x) {
        match m[x].parent {
            Some(p) => {
                lemma_ancestor_next(m, p, (n - 1) as nat);
                assert(ancestor(m, x, n + 1) == ancestor(m, p, n));
                assert(ancestor(m, x, n) == ancestor(m, p, (n - 1) as nat));
            },
            None => {},
        }
    }
}

/// A chain that has ended stays ended.
pub proof fn lemma_ancestor_ended(m: Nodes, x: Entity, n: nat, k: nat)
    requires
        ancestor(m, x, n) is None,
        n <= k,
    ensures
        ancestor(m, x, k) is None,
    decreases k - n,
{
    if n < k {
        lemma_ancestor_next(m, x, n);
        lemma_ancestor_ended(m, x, n + 1, k);
    }
}

/// An entity descends from whatever its parent descends from.
pub proof fn lemma_descends_up(m: Nodes, x: Entity, p: Entity, a: Entity)
    requires
        m.dom().contains(x),
        m[x].parent == Some(p),
        descends(m, p, a),
    ensures
        descends(m, x, a),
{
    let n = choose|n: nat| ancestor(m, p, n) == Some(a);
    assert(ancestor(m, x, n + 1) == Some(a));
}

/// An entity that descends from another one does so through its parent.
pub proof fn lemma_descends_down(m: Nodes, x: Entity, a: Entity)
    requires
        descends(m, x, a),
        x != a,
    ensures
        m.dom().contains(x),
        m[x].parent is Some,
        descends(m, m[x].parent->0, a),
{
    let n = choose|n: nat| ancestor(m, x, n) == Some(a);
    assert(n > 0);
    assert(ancestor(m, m[x].parent->0, (n - 1) as nat) == Some(a));
}

/// A root descends from nothing but itself.
pub proof fn lemma_root_descends(m: Nodes, x: Entity, a: Entity)
    requires
        m.dom().contains(x) ==> m[x].parent is None,
    ensures
        descends(m, x, a) <==> x == a,
{
    if descends(m, x, a) && x != a {
        lemma_descends_down(m, x, a);
    }
    if x == a {
        assert(ancestor(m, x, 0) == Some(a));
    }
}

/// A new leaf keeps the hierarchy consistent.
pub proof fn lemma_spawned_linked(m: Nodes, e: Entity, kind: Kind, pose: Isometry, parent: Option<Entity>)
    requires
        linked(m),
        !m.dom().contains(e),
        parent matches Some(p) ==> m.dom().contains(p),
    ensures
        linked(spawned(m, e, kind, pose, parent)),
{
    let m2 = spawned(m, e, kind, pose, parent);
    assert forall|c: Entity, p: Entity| #[trigger] child_of(m2, c, p) implies lists(m2, p, c) by {
        if c == e {
            assert(m2[p].children.last() == e);
        } else {
            assert(child_of(m, c, p));
            assert(lists(m, p, c));
            let k = choose|k: int| 0 <= k < m[p].children.len() && m[p].children[k] == c;
            assert(m2[p].children[k] == c);
        }
    }
    assert forall|p: Entity, c: Entity| #[trigger] lists(m2, p, c) implies child_of(m2, c, p) by {
        let k = choose|k: int| 0 <= k < m2[p].children.len() && m2[p].children[k] == c;
        if p == e {
        } else if parent == Some(p) && k == m[p].children.len() {
        } else {
            assert(m[p].children[k] == c);
            assert(lists(m, p, c));
            assert(child_of(m, c, p));
        }
    }
    assert forall|x: Entity| #[trigger] m2.dom().contains(x) implies m2[x].children.no_duplicates()
        && m2[x].parent != Some(x) by {
        if x != e {
            assert(m[x].children.no_duplicates());
            if parent == Some(x) {
                if m[x].children.contains(e) {
                    assert(lists(m, x, e));
                    assert(child_of(m, e, x));
                }
            }
        }
    }
}

/// In a consistent hierarchy a child is listed by its parent at exactly one
/// place.
pub proof fn lemma_child_index(m: Nodes, c: Entity, p: Entity, k: int)
    requires
        linked(m),
        m.dom().contains(p),
        0 <= k < m[p].children.len(),
        m[p].children[k] == c,
    ensures
        child_of(m, c, p),
        m[p].children.index_of(c) == k,
{
    assert(lists(m, p, c));
    assert(m[p].children.no_duplicates());
}

/// Cutting an entity loose keeps the hierarchy consistent.
pub proof fn lemma_detached_linked(m: Nodes, c: Entity)
    requires
        linked(m),
        m.dom().contains(c),
    ensures
        linked(detached(m, c)),
{
    let m2 = detached(m, c);
    if let Some(holder) = m[c].parent {
        assert(child_of(m, c, holder));
        assert(lists(m, holder, c));
        let old_list = m[holder].children;
        let i = old_list.index_of(c);
        assert(old_list.no_duplicates());
        assert(m2[holder].children == old_list.remove(i));
        assert forall|j: int| 0 <= j < old_list.remove(i).len() implies old_list.remove(i)[j] != c
            && old_list.contains(#[trigger] old_list.remove(i)[j]) by {
            if j < i {
                assert(old_list.remove(i)[j] == old_list[j]);
            } else {
                assert(old_list.remove(i)[j] == old_list[j + 1]);
            }
        }
        assert forall|x: Entity, p: Entity| #[trigger] child_of(m2, x, p) implies lists(m2, p, x) by {
            assert(x != c);
            assert(child_of(m, x, p));
            assert(lists(m, p, x));
            if p == holder {
                let k = choose|k: int| 0 <= k < old_list.len() && old_list[k] == x;
                if k < i {
                    assert(old_list.remove(i)[k] == x);
                } else {
                    assert(old_list.remove(i)[k - 1] == x);
                }
            }
        }
        assert forall|p: Entity, x: Entity| #[trigger] lists(m2, p, x) implies child_of(m2, x, p) by {
            let k = choose|k: int| 0 <= k < m2[p].children.len() && m2[p].children[k] == x;
            if p == holder {
                assert(old_list.contains(old_list.remove(i)[k]));
                assert(x != c);
            }
            assert(lists(m, p, x));
            assert(child_of(m, x, p));
            if x == c {
                assert(p == holder);
            }
        }
        assert forall|x: Entity| #[trigger] m2.dom().contains(x) implies m2[x].children.no_duplicates()
            && m2[x].parent != Some(x) by {
            assert(m[x].children.no_duplicates());
            if x == holder {
                assert forall|a: int, b: int|
                    0 <= a < old_list.remove(i).len() && 0 <= b < old_list.remove(i).len() && a != b implies old_list.remove(
                    i,
                )[a] != old_list.remove(i)[b] by {
                    let a2 = if a < i { a } else { a + 1 };
                    let b2 = if b < i { b } else { b + 1 };
                    assert(old_list.remove(i)[a] == old_list[a2]);
                    assert(old_list.remove(i)[b] == old_list[b2]);
                }
            }
        }
    }
}

/// Hanging a root below another entity keeps the hierarchy consistent.
pub proof fn lemma_attached_linked(m: Nodes, c: Entity, p: Entity)
    requires
        linked(m),
        m.dom().contains(c),
        m.dom().contains(p),
        m[c].parent is None,
        c != p,
    ensures
        linked(attached(m, c, p)),
{
    let m2 = attached(m, c, p);
    assert(!m[p].children.contains(c)) by {
        if m[p].children.contains(c) {
            assert(lists(m, p, c));
            assert(child_of(m, c, p));
        }
    }
    assert forall|x: Entity, q: Entity| #[trigger] child_of(m2, x, q) implies lists(m2, q, x) by {
        if x == c {
            assert(m2[p].children.last() == c);
        } else {
            assert(child_of(m, x, q));
            assert(lists(m, q, x));
            let k = choose|k: int| 0 <= k < m[q].children.len() && m[q].children[k] == x;
            assert(m2[q].children[k] == x);
        }
    }
    assert forall|q: Entity, x: Entity| #[trigger] lists(m2, q, x) implies child_of(m2, x, q) by {
        let k = choose|k: int| 0 <= k < m2[q].children.len() && m2[q].children[k] == x;
        if q == p && k == m[p].children.len() {
        } else {
            assert(m[q].children[k] == x);
            assert(lists(m, q, x));
            assert(child_of(m, x, q));
        }
    }
    assert forall|x: Entity| #[trigger] m2.dom().contains(x) implies m2[x].children.no_duplicates()
        && m2[x].parent != Some(x) by {
        assert(m[x].children.no_duplicates());
    }
}

/// Removing a root that has no children keeps the hierarchy consistent.
pub proof fn lemma_removed_linked(m: Nodes, s: Entity)
    requires
        linked(m),
        m.dom().contains(s),
        m[s].parent is None,
        m[s].children.len() == 0,
    ensures
        linked(m.remove(s)),
{
    let m2 = m.remove(s);
    assert forall|x: Entity, q: Entity| #[trigger] child_of(m2, x, q) implies lists(m2, q, x) by {
        assert(child_of(m, x, q));
        assert(lists(m, q, x));
    }
    assert forall|q: Entity, x: Entity| #[trigger] lists(m2, q, x) implies child_of(m2, x, q) by {
        assert(lists(m, q, x));
        assert(child_of(m, x, q));
    }
    assert forall|x: Entity| #[trigger] m2.dom().contains(x) implies m2[x].children.no_duplicates()
        && m2[x].parent != Some(x) by {
        assert(m.dom().contains(x));
    }
}

/// A root that is destroyed takes along exactly what descends from it; the
/// rest stays as it was and stays consistent.
pub proof fn lemma_despawned_root(m: Nodes, e: Entity)
    requires
        linked(m),
        m.dom().contains(e),
        m[e].parent is None,
    ensures
        linked(despawned(m, e)),
        !despawned(m, e).dom().contains(e),
        forall|x: Entity|
            #![trigger despawned(m, e).dom().contains(x)]
            despawned(m, e).dom().contains(x) <==> m.dom().contains(x) && !descends(m, x, e),
        forall|x: Entity|
            #![trigger despawned(m, e).dom().contains(x)]
            despawned(m, e).dom().contains(x) ==> despawned(m, e)[x] == m[x],
{
    let m2 = despawned(m, e);
    assert(detached(m, e) == m);
    assert(ancestor(m, e, 0) == Some(e));
    assert forall|c: Entity, p: Entity| #[trigger] child_of(m2, c, p) implies lists(m2, p, c) by {
        assert(child_of(m, c, p));
        assert(lists(m, p, c));
        if descends(m, p, e) {
            lemma_descends_up(m, c, p, e);
        }
    }
    assert forall|p: Entity, c: Entity| #[trigger] lists(m2, p, c) implies child_of(m2, c, p) by {
        assert(lists(m, p, c));
        assert(child_of(m, c, p));
        if descends(m, c, e) {
            lemma_descends_down(m, c, e);
        }
    }
    assert forall|x: Entity| #[trigger] m2.dom().contains(x) implies m2[x].children.no_duplicates()
        && m2[x].parent != Some(x) by {
        assert(m.dom().contains(x));
    }
}

} // verus!
