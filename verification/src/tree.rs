//! The ownership tree: every element has at most one owner, owners exist, and
//! following owners always ends at a root. A depth map witnesses this: a root
//! has depth 0 and every owned element is one deeper than its owner.

use vstd::prelude::*;

use crate::id::ElementId;
use crate::model::ElementView;

verus! {

/// `dep` is a depth map of the elements `m`: an element without owner has
/// depth 0, and an owned element's owner exists and is one level shallower.
/// Such a map exists exactly when the owner relation is acyclic.
pub open spec fn forest(m: Map<ElementId, ElementView>, dep: Map<ElementId, nat>) -> bool {
    &&& dep.dom() == m.dom()
    &&& m.dom().finite()
    &&& forall|x: ElementId| #[trigger] m.contains_key(x) ==> owner_fits(m, dep, x)
}

/// The owner of `x` exists and `x` sits one level below it (or `x` is a root at
/// depth 0).
pub open spec fn owner_fits(m: Map<ElementId, ElementView>, dep: Map<ElementId, nat>, x: ElementId) -> bool {
    match m[x].owner {
        None => dep[x] == 0,
        Some(o) => m.contains_key(o) && dep[x] == dep[o] + 1,
    }
}

/// The ancestor `k` owner steps above `x` (`x` itself for `k == 0`), if the
/// chain is that long.
pub open spec fn ancestor_at(m: Map<ElementId, ElementView>, x: ElementId, k: nat) -> Option<ElementId>
    decreases k,
{
    if !m.contains_key(x) {
        None
    } else if k == 0 {
        Some(x)
    } else {
        match m[x].owner {
            Some(o) => ancestor_at(m, o, (k - 1) as nat),
            None => None,
        }
    }
}

/// `a` is `d` or one of its (transitive) owners; equivalently `d` is in the
/// subtree of `a`.
pub open spec fn is_ancestor(m: Map<ElementId, ElementView>, a: ElementId, d: ElementId) -> bool {
    exists|k: nat| #[trigger] ancestor_at(m, d, k) == Some(a)
}

/// `r` is an element of `m` without owner.
pub open spec fn is_root(m: Map<ElementId, ElementView>, r: ElementId) -> bool {
    m.contains_key(r) && m[r].owner is None
}

/// `m` holds at most one element without owner.
pub open spec fn one_root(m: Map<ElementId, ElementView>) -> bool {
    forall|a: ElementId, b: ElementId| #[trigger] is_root(m, a) && #[trigger] is_root(m, b) ==> a == b
}

/// Every way the model API changes its elements keeps at most one root,
/// except moving an element to no owner: leaving the elements as they were
/// (relationships and comments), removing one (delete), putting in an
/// element with an owner (creating a child, moving under an owner, renaming
/// an owned element), putting in a root where there is none (creating the
/// root), or changing the root itself (renaming it).
pub proof fn lemma_one_root_kept(m0: Map<ElementId, ElementView>, m1: Map<ElementId, ElementView>, id: ElementId, v: ElementView)
    requires
        one_root(m0),
        m1 == m0 || m1 == m0.remove(id) || (m1 == m0.insert(id, v) && (v.owner is Some || !has_root(m0) || is_root(m0, id))),
    ensures
        one_root(m1),
{
    assert forall|a: ElementId, b: ElementId| #[trigger] is_root(m1, a) && #[trigger] is_root(m1, b) implies a == b by {
        if m1 == m0.insert(id, v) && m1 != m0 && m1 != m0.remove(id) {
            if a != id && b != id {
                assert(is_root(m0, a) && is_root(m0, b));
            } else if a != id {
                assert(is_root(m0, a));
                assert(has_root(m0));
                assert(is_root(m0, id));
            } else if b != id {
                assert(is_root(m0, b));
                assert(has_root(m0));
                assert(is_root(m0, id));
            }
        } else {
            assert(is_root(m0, a) && is_root(m0, b));
        }
    }
}

/// Whether `m` holds an element without owner.
pub open spec fn has_root(m: Map<ElementId, ElementView>) -> bool {
    exists|r: ElementId| #[trigger] m.contains_key(r) && m[r].owner is None
}

/// One more step up the chain is one owner step from where the chain was.
pub proof fn lemma_ancestor_step(m: Map<ElementId, ElementView>, x: ElementId, k: nat)
    ensures
        ancestor_at(m, x, k + 1) == match ancestor_at(m, x, k) {
            Some(y) => if m.contains_key(y) {
                match m[y].owner {
                    Some(o) => ancestor_at(m, o, 0),
                    None => None,
                }
            } else {
                None
            },
            None => None,
        },
    decreases k,
{
    if m.contains_key(x) && k > 0 {
        if let Some(o) = m[x].owner {
            lemma_ancestor_step(m, o, (k - 1) as nat);
        }
    }
}

/// Along a chain the depth drops by one per step, and every member exists.
pub proof fn lemma_ancestor_depth(m: Map<ElementId, ElementView>, dep: Map<ElementId, nat>, x: ElementId, k: nat)
    requires
        forest(m, dep),
    ensures
        ancestor_at(m, x, k) matches Some(a) ==> m.contains_key(a) && dep[a] + k == dep[x],
    decreases k,
{
    if m.contains_key(x) && k > 0 {
        assert(owner_fits(m, dep, x));
        if let Some(o) = m[x].owner {
            lemma_ancestor_depth(m, dep, o, (k - 1) as nat);
        }
    }
}

/// The chain from `x` reaches a root after exactly `dep[x]` steps.
pub proof fn lemma_chain_ends_at_root(m: Map<ElementId, ElementView>, dep: Map<ElementId, nat>, x: ElementId)
    requires
        forest(m, dep),
        m.contains_key(x),
    ensures
        ancestor_at(m, x, dep[x]) is Some,
        m.contains_key(ancestor_at(m, x, dep[x])->0),
        m[ancestor_at(m, x, dep[x])->0].owner is None,
    decreases dep[x],
{
    assert(owner_fits(m, dep, x));
    if let Some(o) = m[x].owner {
        lemma_chain_ends_at_root(m, dep, o);
    }
}

/// Past the root the chain is empty.
pub proof fn lemma_chain_past_root(m: Map<ElementId, ElementView>, dep: Map<ElementId, nat>, x: ElementId, k: nat)
    requires
        forest(m, dep),
        m.contains_key(x),
        k > dep[x],
    ensures
        ancestor_at(m, x, k) is None,
    decreases dep[x],
{
    assert(owner_fits(m, dep, x));
    if let Some(o) = m[x].owner {
        lemma_chain_past_root(m, dep, o, (k - 1) as nat);
    }
}

/// An element is its own ancestor, at distance 0.
pub proof fn lemma_self_ancestor(m: Map<ElementId, ElementView>, x: ElementId)
    requires
        m.contains_key(x),
    ensures
        is_ancestor(m, x, x),
{
    assert(ancestor_at(m, x, 0) == Some(x));
}

/// A non-empty forest has a root.
pub proof fn lemma_nonempty_has_root(m: Map<ElementId, ElementView>, dep: Map<ElementId, nat>, x: ElementId)
    requires
        forest(m, dep),
        m.contains_key(x),
    ensures
        has_root(m),
{
    lemma_chain_ends_at_root(m, dep, x);
    let r = ancestor_at(m, x, dep[x])->0;
    assert(m.contains_key(r) && m[r].owner is None);
}

/// The depth of an element is below the number of elements: its chain to
/// the root visits `dep[x] + 1` distinct elements.
pub proof fn lemma_depth_below_size(m: Map<ElementId, ElementView>, dep: Map<ElementId, nat>, x: ElementId)
    requires
        forest(m, dep),
        m.contains_key(x),
    ensures
        dep[x] < m.dom().len(),
{
    let n = dep[x];
    let f = |k: int| ancestor_at(m, x, k as nat)->0;
    let r = vstd::set_lib::set_int_range(0, n as int + 1);
    vstd::set_lib::lemma_int_range(0, n as int + 1);
    assert forall|k: int| #[trigger] r.contains(k) implies ancestor_at(m, x, k as nat) is Some && m.contains_key(f(k)) && dep[f(k)] + k == n by {
        lemma_chain_ends_at_root(m, dep, x);
        lemma_chain_prefix(m, x, k as nat, n);
        lemma_ancestor_depth(m, dep, x, k as nat);
    }
    assert(vstd::relations::injective_on(f, r)) by {
        assert forall|a: int, b: int| r.contains(a) && r.contains(b) && #[trigger] f(a) == #[trigger] f(b) implies a == b by {}
    }
    let img = r.map(f);
    vstd::set_lib::lemma_map_size(r, img, f);
    assert(img.subset_of(m.dom()));
    vstd::set_lib::lemma_len_subset(img, m.dom());
}

/// A chain that reaches step `j` passes through every earlier step.
pub proof fn lemma_chain_prefix(m: Map<ElementId, ElementView>, x: ElementId, k: nat, j: nat)
    requires
        k <= j,
        ancestor_at(m, x, j) is Some,
    ensures
        ancestor_at(m, x, k) is Some,
    decreases j,
{
    if k < j {
        lemma_ancestor_step(m, x, (j - 1) as nat);
        lemma_chain_prefix(m, x, k, (j - 1) as nat);
    }
}

/// Adding a fresh element under an existing owner (or as a root at depth 0)
/// keeps the owner relation a forest.
pub proof fn lemma_forest_insert(
    m: Map<ElementId, ElementView>,
    dep: Map<ElementId, nat>,
    v: ElementView,
    d: nat,
)
    requires
        forest(m, dep),
        !m.contains_key(v.id),
        match v.owner {
            None => d == 0,
            Some(o) => m.contains_key(o) && d == dep[o] + 1,
        },
    ensures
        forest(m.insert(v.id, v), dep.insert(v.id, d)),
{
    let m2 = m.insert(v.id, v);
    let dep2 = dep.insert(v.id, d);
    assert(dep2.dom() =~= m2.dom());
    assert forall|x: ElementId| #[trigger] m2.contains_key(x) implies owner_fits(m2, dep2, x) by {
        if x != v.id {
            assert(owner_fits(m, dep, x));
            if let Some(o) = m[x].owner {
                assert(o != v.id);
            }
        }
    }
}

/// Changing anything but the owner of an element keeps the forest.
pub proof fn lemma_forest_same_owner(
    m: Map<ElementId, ElementView>,
    dep: Map<ElementId, nat>,
    v: ElementView,
)
    requires
        forest(m, dep),
        m.contains_key(v.id),
        m[v.id].owner == v.owner,
    ensures
        forest(m.insert(v.id, v), dep),
{
    let m2 = m.insert(v.id, v);
    assert(m2.dom() =~= m.dom());
    assert forall|x: ElementId| #[trigger] m2.contains_key(x) implies owner_fits(m2, dep, x) by {
        assert(owner_fits(m, dep, x));
    }
}

/// The depth map after `x` moves (with its subtree) under a new owner whose
/// depth plus one is `base` (0 for no owner): subtree depths shift by the
/// same amount, all others stay.
pub open spec fn reparented_depth(
    m: Map<ElementId, ElementView>,
    dep: Map<ElementId, nat>,
    x: ElementId,
    base: nat,
) -> Map<ElementId, nat> {
    Map::new(
        |z: ElementId| m.contains_key(z),
        |z: ElementId|
            if is_ancestor(m, x, z) {
                (dep[z] - dep[x] + base) as nat
            } else {
                dep[z]
            },
    )
}

/// Moving `x` under an owner outside its subtree (or making it a root) keeps
/// the owner relation a forest.
pub proof fn lemma_forest_reparent(
    m: Map<ElementId, ElementView>,
    dep: Map<ElementId, nat>,
    x: ElementId,
    new_owner: Option<ElementId>,
    base: nat,
)
    requires
        forest(m, dep),
        m.contains_key(x),
        match new_owner {
            None => base == 0,
            Some(o) => m.contains_key(o) && !is_ancestor(m, x, o) && base == dep[o] + 1,
        },
    ensures
        forest(
            m.insert(x, ElementView { owner: new_owner, ..m[x] }),
            reparented_depth(m, dep, x, base),
        ),
{
    let v = ElementView { owner: new_owner, ..m[x] };
    let m2 = m.insert(x, v);
    let dep2 = reparented_depth(m, dep, x, base);
    assert(m2.dom() =~= m.dom());
    assert(dep2.dom() =~= m2.dom());
    lemma_self_ancestor(m, x);
    assert forall|z: ElementId| #[trigger] m2.contains_key(z) implies owner_fits(m2, dep2, z) by {
        assert(owner_fits(m, dep, z));
        if z == x {
            if let Some(o) = new_owner {
                assert(dep2[o] == dep[o]);
            }
        } else if is_ancestor(m, x, z) {
            let k = choose|k: nat| #[trigger] ancestor_at(m, z, k) == Some(x);
            lemma_ancestor_depth(m, dep, z, k);
            assert(k > 0);
            let p = m[z].owner->0;
            assert(ancestor_at(m, p, (k - 1) as nat) == Some(x));
            assert(is_ancestor(m, x, p));
            lemma_ancestor_depth(m, dep, p, (k - 1) as nat);
        } else {
            if let Some(p) = m[z].owner {
                if is_ancestor(m, x, p) {
                    let k = choose|k: nat| #[trigger] ancestor_at(m, p, k) == Some(x);
                    assert(ancestor_at(m, z, k + 1) == Some(x));
                    assert(false);
                }
            }
        }
    }
}

/// Giving `x` another view leaves the owner chain of every element outside
/// `x`'s subtree as it was.
pub proof fn lemma_chain_frame(m: Map<ElementId, ElementView>, x: ElementId, w: ElementView, z: ElementId, k: nat)
    requires
        m.contains_key(x),
        !is_ancestor(m, x, z),
    ensures
        ancestor_at(m.insert(x, w), z, k) == ancestor_at(m, z, k),
    decreases k,
{
    let m2 = m.insert(x, w);
    if m.contains_key(z) {
        assert(ancestor_at(m, z, 0) == Some(z));
        assert(z != x);
        if k > 0 {
            if let Some(o) = m[z].owner {
                assert(!is_ancestor(m, x, o)) by {
                    if is_ancestor(m, x, o) {
                        let j = choose|j: nat| #[trigger] ancestor_at(m, o, j) == Some(x);
                        assert(ancestor_at(m, z, j + 1) == Some(x));
                    }
                }
                lemma_chain_frame(m, x, w, o, (k - 1) as nat);
            }
        }
    }
}

/// An element is never in the subtree of one of its own descendants'
/// owners below it: in particular its owner is outside its subtree.
pub proof fn lemma_owner_outside_subtree(m: Map<ElementId, ElementView>, dep: Map<ElementId, nat>, x: ElementId)
    requires
        forest(m, dep),
        m.contains_key(x),
        m[x].owner is Some,
    ensures
        !is_ancestor(m, x, m[x].owner->0),
{
    let o = m[x].owner->0;
    if is_ancestor(m, x, o) {
        let k = choose|k: nat| #[trigger] ancestor_at(m, o, k) == Some(x);
        assert(ancestor_at(m, x, k + 1) == Some(x));
        lemma_ancestor_depth(m, dep, x, k + 1);
    }
}

/// Removing an element that owns nothing keeps the forest.
pub proof fn lemma_forest_remove(m: Map<ElementId, ElementView>, dep: Map<ElementId, nat>, x: ElementId)
    requires
        forest(m, dep),
        forall|z: ElementId| #[trigger] m.contains_key(z) ==> m[z].owner != Some(x),
    ensures
        forest(m.remove(x), dep.remove(x)),
{
    let m2 = m.remove(x);
    let dep2 = dep.remove(x);
    assert(dep2.dom() =~= m2.dom());
    assert forall|z: ElementId| #[trigger] m2.contains_key(z) implies owner_fits(m2, dep2, z) by {
        assert(owner_fits(m, dep, z));
    }
}

} // verus!
