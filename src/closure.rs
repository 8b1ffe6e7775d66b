//! Which outline nodes are rendered as headings: those with highlights of
//! their own, and all of their ancestors.
use vstd::prelude::*;
use crate::toc::{TocEntry, levels_of};

verus! {

/// The smallest of `levels[lo..=hi]`.
pub open spec fn min_level(levels: Seq<int>, lo: int, hi: int) -> int
    decreases hi - lo,
{
    if lo >= hi {
        levels[hi]
    } else {
        let m = min_level(levels, lo + 1, hi);
        if levels[lo] < m {
            levels[lo]
        } else {
            m
        }
    }
}

/// Node `j` precedes node `i` and is shallower than every node after it up to
/// and including `i`.
pub open spec fn is_shallower_before(levels: Seq<int>, i: int, j: int) -> bool {
    0 <= j < i < levels.len() && levels[j] < min_level(levels, j + 1, i)
}

/// Node `j` is a structural ancestor of node `i`: it is shallower than every
/// node between them and `i` itself, and no such node of root level (at most
/// 1) lies between them.
pub open spec fn is_ancestor(levels: Seq<int>, i: int, j: int) -> bool {
    &&& is_shallower_before(levels, i, j)
    &&& !exists|k: int| j < k < i && #[trigger] is_shallower_before(levels, i, k) && levels[k] <= 1
}

/// Node `k` is node `i` or one of its ancestors, where `i` is among the first
/// `upto` nodes and has highlights of its own.
pub open spec fn covered_by(levels: Seq<int>, direct: Seq<bool>, upto: int, k: int) -> bool {
    exists|i: int|
        0 <= i < upto && #[trigger] direct[i] && (i == k || is_ancestor(levels, i, k))
}

/// Node `k` has highlights of its own or is an ancestor of a node that has.
pub open spec fn in_closure(levels: Seq<int>, direct: Seq<bool>, k: int) -> bool {
    covered_by(levels, direct, levels.len() as int, k)
}

proof fn lemma_min_level_le(levels: Seq<int>, lo: int, hi: int, k: int)
    requires
        lo <= k <= hi,
    ensures
        min_level(levels, lo, hi) <= levels[k],
    decreases hi - lo,
{
    if lo < hi && k > lo {
        lemma_min_level_le(levels, lo + 1, hi, k);
    }
}

/// Every ancestor of a node with highlights of its own is in the closure, as
/// is that node itself.
pub proof fn lemma_closure_holds_ancestors(levels: Seq<int>, direct: Seq<bool>, i: int, j: int)
    requires
        direct.len() == levels.len(),
        0 <= i < levels.len(),
        direct[i],
        j == i || is_ancestor(levels, i, j),
    ensures
        in_closure(levels, direct, j),
{
}

/// The closure holds nothing else: a node in it without highlights of its own
/// is an ancestor of a later node with highlights, and strictly shallower than
/// that node.
pub proof fn lemma_closure_holds_nothing_else(levels: Seq<int>, direct: Seq<bool>, k: int)
    requires
        direct.len() == levels.len(),
        0 <= k < levels.len(),
        in_closure(levels, direct, k),
        !direct[k],
    ensures
        exists|w: int|
            k < w < levels.len() && #[trigger] direct[w] && is_ancestor(levels, w, k) && levels[k]
                < levels[w],
{
    let w = choose|w: int|
        0 <= w < levels.len() && #[trigger] direct[w] && (w == k || is_ancestor(levels, w, k));
    lemma_min_level_le(levels, k + 1, w, w);
    assert(k < w < levels.len() && direct[w] && is_ancestor(levels, w, k) && levels[k] < levels[w]);
}

/// Where every level is at least 1, a node's ancestors are exactly the earlier
/// nodes shallower than every node after them up to and including it.
pub proof fn lemma_ancestor_at_positive_levels(levels: Seq<int>, i: int, j: int)
    requires
        forall|k: int| 0 <= k < levels.len() ==> levels[k] >= 1,
    ensures
        is_ancestor(levels, i, j) <==> is_shallower_before(levels, i, j),
{
    if is_shallower_before(levels, i, j) {
        assert forall|k: int|
            j < k < i && #[trigger] is_shallower_before(levels, i, k) implies levels[k] > 1 by {
            lemma_min_level_le(levels, j + 1, i, k);
        }
    }
}

/// Marks the nodes to render as headings: each node with `direct` set, and
/// each of its ancestors.
pub fn needed_headings(toc: &[TocEntry], direct: &Vec<bool>) -> (r: Vec<bool>)
    requires
        direct.len() == toc.len(),
    ensures
        r.len() == toc.len(),
        forall|k: int| 0 <= k < toc.len() ==> r[k] == in_closure(levels_of(toc@), direct@, k),
{
    let ghost levels = levels_of(toc@);
    let n = toc.len();
    let mut needed: Vec<bool> = Vec::new();
    let mut p: usize = 0;
    while p < n
        invariant
            p <= n == toc.len(),
            needed.len() == p,
            forall|k: int| 0 <= k < p ==> !(#[trigger] needed[k]),
        decreases n - p,
    {
        needed.push(false);
        p += 1;
    }
    let mut i: usize = 0;
    while i < n
        invariant
            i <= n == toc.len() == direct.len() == needed.len(),
            levels == levels_of(toc@),
            forall|k: int| 0 <= k < n ==> #[trigger] needed[k] == covered_by(levels, direct@, i as int, k),
        decreases n - i,
    {
        let ghost before = needed@;
        if direct[i] {
            needed.set(i, true);
            let mut need: u32 = toc[i].depth;
            let mut j: usize = i;
            let mut stop = false;
            while j > 0 && !stop
                invariant
                    j <= i < n == toc.len() == needed.len(),
                    levels == levels_of(toc@),
                    before.len() == n,
                    need == min_level(levels, j as int, i as int),
                    !stop ==> !exists|k: int|
                        j <= k < i && #[trigger] is_shallower_before(levels, i as int, k) && levels[k] <= 1,
                    stop ==> exists|k: int|
                        j <= k < i && #[trigger] is_shallower_before(levels, i as int, k) && levels[k] <= 1,
                    forall|k: int|
                        0 <= k < n ==> #[trigger] needed[k] == (before[k] || k == i || (j <= k < i
                            && is_ancestor(levels, i as int, k))),
                decreases j,
            {
                j -= 1;
                let d = toc[j].depth;
                if d < need {
                    needed.set(j, true);
                    need = d;
                    if need <= 1 {
                        stop = true;
                        assert(is_shallower_before(levels, i as int, j as int));
                    }
                }
            }
            assert forall|k: int| 0 <= k < n implies #[trigger] needed[k] == covered_by(
                levels,
                direct@,
                i + 1,
                k,
            ) by {
                if needed[k] && !before[k] {
                    assert(direct@[i as int]);
                }
                if covered_by(levels, direct@, i + 1, k) && !before[k] {
                    let w = choose|w: int|
                        0 <= w < i + 1 && #[trigger] direct@[w] && (w == k || is_ancestor(
                            levels,
                            w,
                            k,
                        ));
                    assert(w == i);
                }
            }
        } else {
            assert forall|k: int| 0 <= k < n implies #[trigger] needed[k] == covered_by(
                levels,
                direct@,
                i + 1,
                k,
            ) by {
                if covered_by(levels, direct@, i + 1, k) {
                    let w = choose|w: int|
                        0 <= w < i + 1 && #[trigger] direct@[w] && (w == k || is_ancestor(
                            levels,
                            w,
                            k,
                        ));
                    assert(w != i);
                }
            }
        }
        i += 1;
    }
    needed
}

} // verus!
