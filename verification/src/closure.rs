//! Ownership closure reads: the rows that answer "who owns this element
//! transitively" and "what does this element own transitively", each with
//! its distance.

use vstd::prelude::*;

use crate::id::ElementId;

verus! {

/// One row of a closure read: the other endpoint's id and its distance.
///
/// For a subtree read `id` is a descendant of the queried element; for an
/// ancestor read `id` is an ancestor. Both include the element itself at
/// depth 0.
#[derive(Debug, Clone, Copy, PartialEq, Eq, Structural)]
pub struct ClosureRow {
    /// The other endpoint's element id.
    pub id: ElementId,
    /// Owner steps between the queried element and `id` (0 = itself).
    pub depth: usize,
}

/// `a` comes no later than `b` when rows are ordered by depth, then by id.
pub open spec fn row_le(a: ClosureRow, b: ClosureRow) -> bool {
    a.depth < b.depth || (a.depth == b.depth && a.id.value() <= b.id.value())
}

/// The rows are ordered by depth, then by id.
pub open spec fn rows_sorted(s: Seq<ClosureRow>) -> bool {
    forall|i: int, j: int| 0 <= i < j < s.len() ==> row_le(#[trigger] s[i], #[trigger] s[j])
}

/// Whether `a` comes strictly after `b` in (depth, id) order.
fn row_gt(a: &ClosureRow, b: &ClosureRow) -> (r: bool)
    ensures
        r == !row_le(*a, *b),
{
    a.depth > b.depth || (a.depth == b.depth && a.id.as_u128() > b.id.as_u128())
}

/// Insert `x` into ordered rows at its place.
pub fn insert_sorted(v: &mut Vec<ClosureRow>, x: ClosureRow) -> (p: usize)
    requires
        rows_sorted(old(v)@),
    ensures
        rows_sorted(final(v)@),
        final(v)@.len() == old(v)@.len() + 1,
        p <= old(v)@.len(),
        forall|j: int| 0 <= j < final(v)@.len() ==> #[trigger] final(v)@[j] == if j < p {
            old(v)@[j]
        } else if j == p {
            x
        } else {
            old(v)@[j - 1]
        },
        forall|y: ClosureRow| final(v)@.contains(y) <==> (old(v)@.contains(y) || y == x),
{
    let n = v.len();
    let mut p: usize = 0;
    while p < n && !row_gt(&v[p], &x)
        invariant
            n == v@.len(),
            p <= n,
            forall|j: int| 0 <= j < p ==> row_le(#[trigger] v@[j], x),
        decreases n - p,
    {
        p = p + 1;
    }
    let ghost s = v@;
    v.insert(p, x);
    proof {
        let t = v@;
        assert(t =~= s.subrange(0, p as int).push(x) + s.subrange(p as int, s.len() as int));
        assert forall|j: int| 0 <= j < t.len() implies #[trigger] t[j] == if j < p {
            s[j]
        } else if j == p {
            x
        } else {
            s[j - 1]
        } by {}
        assert forall|i: int, j: int| 0 <= i < j < t.len() implies row_le(#[trigger] t[i], #[trigger] t[j]) by {
            if p < n {
                assert(!row_le(s[p as int], x));
            }
            if i < p && j > p {
                assert(row_le(s[i], x));
                if j - 1 >= p {
                    assert(row_le(s[p as int], s[j - 1]));
                }
            }
            if i == p && j > p {
                assert(row_le(s[p as int], s[j - 1]));
            }
        }
        assert forall|y: ClosureRow| t.contains(y) <==> (s.contains(y) || y == x) by {
            if t.contains(y) {
                let j = choose|j: int| 0 <= j < t.len() && t[j] == y;
                if j < p {
                    assert(s[j] == y);
                } else if j > p {
                    assert(s[j - 1] == y);
                }
            }
            if s.contains(y) {
                let j = choose|j: int| 0 <= j < s.len() && s[j] == y;
                if j < p {
                    assert(t[j] == y);
                } else {
                    assert(t[j + 1] == y);
                }
            }
            if y == x {
                assert(t[p as int] == y);
            }
        }
    }
    p
}

} // verus!
