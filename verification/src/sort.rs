//! Merge sort of positions: the order in which to read a list so that its
//! items come out ordered, in `O(n log n)` comparisons, for items with a
//! total preorder and an exact copy.

use vstd::prelude::*;

verus! {

/// Items with a total preorder.
pub trait Ordered: Sized {
    /// `self` may come before `other`.
    spec fn le(self, other: Self) -> bool;

    /// Any two items are comparable.
    proof fn lemma_total(a: Self, b: Self)
        ensures
            a.le(b) || b.le(a),
    ;

    /// The order is transitive.
    proof fn lemma_trans(a: Self, b: Self, c: Self)
        requires
            a.le(b),
            b.le(c),
        ensures
            a.le(c),
    ;

    /// Decides [`Ordered::le`].
    fn le_exec(&self, other: &Self) -> (r: bool)
        ensures
            r == self.le(*other),
    ;

    /// An equal copy of the item.
    fn duplicate(&self) -> (r: Self)
        ensures
            r == *self,
    ;
}

/// `p` lists every position in `lo..hi` exactly once.
pub open spec fn permutes(p: Seq<usize>, lo: int, hi: int) -> bool {
    &&& p.len() == hi - lo
    &&& forall|k: int| 0 <= k < p.len() ==> lo <= #[trigger] p[k] < hi
    &&& forall|a: int, b: int| 0 <= a < b < p.len() ==> #[trigger] p[a] != #[trigger] p[b]
}

/// Read in the order `p`, the items come out ordered.
pub open spec fn ordered_by<T: Ordered>(items: Seq<T>, p: Seq<usize>) -> bool {
    forall|a: int, b: int| 0 <= a < b < p.len() ==> (#[trigger] items[p[a] as int]).le(#[trigger] items[p[b] as int])
}

/// `r` holds the items of `s`, each once, in another order.
pub open spec fn rearranged<T>(r: Seq<T>, s: Seq<T>) -> bool {
    exists|p: Seq<usize>| #[trigger] permutes(p, 0, s.len() as int) && r == Seq::new(s.len(), |k: int| s[p[k] as int])
}

/// The positions of `items` in an order that reads them ordered.
pub fn sort_positions<T: Ordered>(items: &Vec<T>) -> (p: Vec<usize>)
    ensures
        permutes(p@, 0, items@.len() as int),
        ordered_by(items@, p@),
{
    sort_range(items, 0, items.len())
}

/// The positions `lo..hi` of `items` in an order that reads them ordered.
fn sort_range<T: Ordered>(items: &Vec<T>, lo: usize, hi: usize) -> (p: Vec<usize>)
    requires
        lo <= hi <= items@.len(),
    ensures
        permutes(p@, lo as int, hi as int),
        ordered_by(items@, p@),
    decreases hi - lo,
{
    if hi - lo <= 1 {
        let mut p: Vec<usize> = Vec::new();
        if lo < hi {
            p.push(lo);
        }
        return p;
    }
    let mid = lo + (hi - lo) / 2;
    let left = sort_range(items, lo, mid);
    let right = sort_range(items, mid, hi);
    merge(items, &left, &right, lo, mid, hi)
}

/// Merge two ordered runs of positions, `lo..mid` and `mid..hi`.
fn merge<T: Ordered>(items: &Vec<T>, left: &Vec<usize>, right: &Vec<usize>, lo: usize, mid: usize, hi: usize) -> (p: Vec<usize>)
    requires
        lo <= mid <= hi <= items@.len(),
        permutes(left@, lo as int, mid as int),
        permutes(right@, mid as int, hi as int),
        ordered_by(items@, left@),
        ordered_by(items@, right@),
    ensures
        permutes(p@, lo as int, hi as int),
        ordered_by(items@, p@),
{
    let nl = left.len();
    let nr = right.len();
    let mut out: Vec<usize> = Vec::new();
    let mut i: usize = 0;
    let mut j: usize = 0;
    while i < nl || j < nr
        invariant
            lo <= mid <= hi <= items@.len(),
            nl == left@.len(),
            nr == right@.len(),
            permutes(left@, lo as int, mid as int),
            permutes(right@, mid as int, hi as int),
            ordered_by(items@, left@),
            ordered_by(items@, right@),
            i <= nl,
            j <= nr,
            out@.len() == i + j,
            forall|k: int| 0 <= k < out@.len() ==> (exists|a: int| 0 <= a < i && left@[a] == #[trigger] out@[k])
                || (exists|b: int| 0 <= b < j && right@[b] == out@[k]),
            forall|a: int, b: int| 0 <= a < b < out@.len() ==> #[trigger] out@[a] != #[trigger] out@[b],
            ordered_by(items@, out@),
            forall|k: int| 0 <= k < out@.len() ==> (i < nl ==> (#[trigger] items@[out@[k] as int]).le(items@[left@[i as int] as int]))
                && (j < nr ==> items@[out@[k] as int].le(items@[right@[j as int] as int])),
        decreases nl + nr - i - j,
    {
        let take_left = if i < nl && j < nr {
            items[left[i]].le_exec(&items[right[j]])
        } else {
            i < nl
        };
        let ghost before = out@;
        let x = if take_left { left[i] } else { right[j] };
        proof {
            if !take_left && i < nl {
                T::lemma_total(items@[left@[i as int] as int], items@[right@[j as int] as int]);
            }
            assert forall|k: int| 0 <= k < before.len() implies before[k] != x by {
                if take_left {
                    if exists|b: int| 0 <= b < j && right@[b] == before[k] {
                        let b = choose|b: int| 0 <= b < j && right@[b] == before[k];
                        assert(mid <= right@[b]);
                        assert(left@[i as int] < mid);
                    } else {
                        let a = choose|a: int| 0 <= a < i && left@[a] == before[k];
                        assert(left@[a] != left@[i as int]);
                    }
                } else {
                    if exists|a: int| 0 <= a < i && left@[a] == before[k] {
                        let a = choose|a: int| 0 <= a < i && left@[a] == before[k];
                        assert(left@[a] < mid);
                        assert(mid <= right@[j as int]);
                    } else {
                        let b = choose|b: int| 0 <= b < j && right@[b] == before[k];
                        assert(right@[b] != right@[j as int]);
                    }
                }
            }
        }
        out.push(x);
        if take_left {
            i = i + 1;
        } else {
            j = j + 1;
        }
        proof {
            assert(out@ == before.push(x));
            assert forall|k: int| 0 <= k < out@.len() implies (exists|a: int| 0 <= a < i && left@[a] == #[trigger] out@[k])
                || (exists|b: int| 0 <= b < j && right@[b] == out@[k]) by {
                if k == before.len() {
                    if take_left {
                        assert(left@[i - 1] == out@[k]);
                    } else {
                        assert(right@[j - 1] == out@[k]);
                    }
                } else {
                    assert(out@[k] == before[k]);
                }
            }
            assert forall|a: int, b: int| 0 <= a < b < out@.len() implies #[trigger] out@[a] != #[trigger] out@[b] by {
                if b == before.len() {
                    assert(out@[a] == before[a]);
                }
            }
            assert forall|a: int, b: int| 0 <= a < b < out@.len() implies (#[trigger] items@[out@[a] as int]).le(
                #[trigger] items@[out@[b] as int],
            ) by {
                if b == before.len() {
                    assert(out@[a] == before[a]);
                }
            }
            assert forall|k: int| 0 <= k < out@.len() implies (i < nl ==> (#[trigger] items@[out@[k] as int]).le(
                items@[left@[i as int] as int],
            )) && (j < nr ==> items@[out@[k] as int].le(items@[right@[j as int] as int])) by {
                let xi = items@[x as int];
                if i < nl {
                    let li = items@[left@[i as int] as int];
                    if take_left {
                        assert(items@[left@[i - 1] as int].le(li));
                        if k < before.len() {
                            T::lemma_trans(items@[out@[k] as int], xi, li);
                        }
                    } else {
                        if k < before.len() {
                            assert(out@[k] == before[k]);
                        } else {
                            assert(out@[k] == x);
                        }
                    }
                }
                if j < nr {
                    let rj = items@[right@[j as int] as int];
                    if !take_left {
                        assert(items@[right@[j - 1] as int].le(rj));
                        if k < before.len() {
                            T::lemma_trans(items@[out@[k] as int], xi, rj);
                        }
                    } else {
                        if k < before.len() {
                            assert(out@[k] == before[k]);
                        } else {
                            assert(out@[k] == x);
                        }
                    }
                }
            }
        }
    }
    proof {
        assert forall|k: int| 0 <= k < out@.len() implies lo <= #[trigger] out@[k] < hi by {
            if exists|a: int| 0 <= a < i && left@[a] == out@[k] {
                let a = choose|a: int| 0 <= a < i && left@[a] == out@[k];
                assert(lo <= left@[a] < mid);
            } else {
                let b = choose|b: int| 0 <= b < j && right@[b] == out@[k];
                assert(mid <= right@[b] < hi);
            }
        }
    }
    out
}

} // verus!
