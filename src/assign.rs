//! Binding highlights to outline nodes by exact match-key lookup.
use vstd::prelude::*;
use crate::toc::{TocEntry, keys_of};

verus! {

/// A highlighted passage, with its optional note and creation date.
pub struct Highlight {
    pub text: String,
    pub annotation: Option<String>,
    /// The location the highlight was made in; compared verbatim with the
    /// outline's match keys.
    pub chapter_content_id: String,
    pub date_created: Option<String>,
}

/// The locations of a list of highlights, in order.
pub open spec fn locations_of(hs: Seq<Highlight>) -> Seq<Seq<char>> {
    hs.map_values(|h: Highlight| h.chapter_content_id@)
}

/// `i` is the first position whose key is `loc`.
pub open spec fn is_first_key(keys: Seq<Seq<char>>, loc: Seq<char>, i: int) -> bool {
    &&& 0 <= i < keys.len()
    &&& keys[i] == loc
    &&& forall|j: int| 0 <= j < i ==> keys[j] != loc
}

/// The node a location binds to: the first node with that key, or -1 where
/// no node has it.
pub open spec fn node_for(keys: Seq<Seq<char>>, loc: Seq<char>) -> int {
    if exists|i: int| is_first_key(keys, loc, i) {
        choose|i: int| is_first_key(keys, loc, i)
    } else {
        -1
    }
}

/// Positions, in arrival order, of the highlights (given by their locations)
/// that bind to node `i`; with `i == -1`, those that bind to none.
pub open spec fn bucket(keys: Seq<Seq<char>>, locs: Seq<Seq<char>>, i: int) -> Seq<usize>
    decreases locs.len(),
{
    if locs.len() == 0 {
        Seq::empty()
    } else {
        let prev = bucket(keys, locs.drop_last(), i);
        if node_for(keys, locs.last()) == i {
            prev.push((locs.len() - 1) as usize)
        } else {
            prev
        }
    }
}

/// Number of highlights bound to the nodes before position `n`.
pub open spec fn assigned_total(keys: Seq<Seq<char>>, locs: Seq<Seq<char>>, n: int) -> nat
    decreases n,
{
    if n <= 0 {
        0
    } else {
        assigned_total(keys, locs, n - 1) + bucket(keys, locs, n - 1).len()
    }
}

proof fn lemma_node_for_range(keys: Seq<Seq<char>>, loc: Seq<char>)
    ensures
        -1 <= node_for(keys, loc) < keys.len(),
        node_for(keys, loc) >= 0 ==> is_first_key(keys, loc, node_for(keys, loc)),
        node_for(keys, loc) == -1 ==> forall|j: int| 0 <= j < keys.len() ==> keys[j] != loc,
{
    if node_for(keys, loc) == -1 {
        assert forall|j: int| 0 <= j < keys.len() implies keys[j] != loc by {
            if keys[j] == loc {
                lemma_first_exists(keys, loc, j);
            }
        }
    }
}

proof fn lemma_first_exists(keys: Seq<Seq<char>>, loc: Seq<char>, j: int)
    requires
        0 <= j < keys.len(),
        keys[j] == loc,
    ensures
        exists|i: int| is_first_key(keys, loc, i),
    decreases j,
{
    if forall|k: int| 0 <= k < j ==> keys[k] != loc {
        assert(is_first_key(keys, loc, j));
    } else {
        let k = choose|k: int| 0 <= k < j && keys[k] == loc;
        lemma_first_exists(keys, loc, k);
    }
}

proof fn lemma_first_unique(keys: Seq<Seq<char>>, loc: Seq<char>, i: int)
    requires
        is_first_key(keys, loc, i),
    ensures
        node_for(keys, loc) == i,
{
    let c = choose|c: int| is_first_key(keys, loc, c);
    assert(is_first_key(keys, loc, c));
    if c < i {
        assert(keys[c] != loc);
    } else if i < c {
        assert(keys[i] != loc);
    }
}

proof fn lemma_total_step(keys: Seq<Seq<char>>, locs: Seq<Seq<char>>, n: int)
    requires
        locs.len() > 0,
        0 <= n,
    ensures
        assigned_total(keys, locs, n) == assigned_total(keys, locs.drop_last(), n) + (if 0
            <= node_for(keys, locs.last()) < n {
            1int
        } else {
            0int
        }),
    decreases n,
{
    if n > 0 {
        lemma_total_step(keys, locs, n - 1);
    }
}

/// Every highlight is bound to exactly one node or left unassigned: the
/// bucket sizes and the unassigned count add up to the number of highlights.
pub proof fn lemma_assignment_total(keys: Seq<Seq<char>>, locs: Seq<Seq<char>>)
    ensures
        assigned_total(keys, locs, keys.len() as int) + bucket(keys, locs, -1).len() == locs.len(),
    decreases locs.len(),
{
    if locs.len() > 0 {
        lemma_assignment_total(keys, locs.drop_last());
        lemma_total_step(keys, locs, keys.len() as int);
        lemma_node_for_range(keys, locs.last());
    } else {
        lemma_empty_total(keys, locs, keys.len() as int);
    }
}

proof fn lemma_empty_total(keys: Seq<Seq<char>>, locs: Seq<Seq<char>>, n: int)
    requires
        locs.len() == 0,
    ensures
        assigned_total(keys, locs, n) == 0,
    decreases n,
{
    if n > 0 {
        lemma_empty_total(keys, locs, n - 1);
    }
}

/// The first node whose match key equals `key`.
fn find_node(toc: &[TocEntry], key: &String) -> (r: Option<usize>)
    ensures
        match r {
            Some(i) => i == node_for(keys_of(toc@), key@),
            None => node_for(keys_of(toc@), key@) == -1,
        },
{
    let ghost keys = keys_of(toc@);
    let mut i: usize = 0;
    while i < toc.len()
        invariant
            i <= toc.len(),
            keys == keys_of(toc@),
            forall|j: int| 0 <= j < i ==> keys[j] != key@,
        decreases toc.len() - i,
    {
        if toc[i].match_id == *key {
            proof {
                lemma_first_unique(keys, key@, i as int);
            }
            return Some(i);
        }
        i += 1;
    }
    proof {
        lemma_node_for_range(keys, key@);
        if node_for(keys, key@) >= 0 {
            assert(keys[node_for(keys, key@)] == key@);
        }
    }
    None
}

/// Binds each highlight to the first outline node whose match key equals its
/// location. Returns, for each node, the positions of its highlights in
/// arrival order, and the positions of the highlights that bind to no node.
pub fn assign_highlights(toc: &[TocEntry], highlights: &[Highlight]) -> (r: (
    Vec<Vec<usize>>,
    Vec<usize>,
))
    ensures
        r.0.len() == toc.len(),
        forall|i: int|
            0 <= i < toc.len() ==> #[trigger] r.0[i]@ == bucket(
                keys_of(toc@),
                locations_of(highlights@),
                i,
            ),
        r.1@ == bucket(keys_of(toc@), locations_of(highlights@), -1),
{
    let ghost keys = keys_of(toc@);
    let ghost locs = locations_of(highlights@);
    let mut assigned: Vec<Vec<usize>> = Vec::new();
    let mut i: usize = 0;
    while i < toc.len()
        invariant
            i <= toc.len(),
            assigned.len() == i,
            forall|j: int| 0 <= j < i ==> (#[trigger] assigned[j])@.len() == 0,
        decreases toc.len() - i,
    {
        assigned.push(Vec::new());
        i += 1;
    }
    let mut uncategorized: Vec<usize> = Vec::new();
    let mut k: usize = 0;
    while k < highlights.len()
        invariant
            k <= highlights.len(),
            keys == keys_of(toc@),
            locs == locations_of(highlights@),
            assigned.len() == toc.len(),
            forall|j: int|
                0 <= j < toc.len() ==> #[trigger] assigned[j]@ == bucket(keys, locs.take(k as int), j),
            uncategorized@ == bucket(keys, locs.take(k as int), -1),
        decreases highlights.len() - k,
    {
        let ghost pre = locs.take(k as int);
        let ghost cur = locs.take(k + 1);
        assert(cur.drop_last() =~= pre);
        assert(cur.last() == highlights@[k as int].chapter_content_id@);
        match find_node(toc, &highlights[k].chapter_content_id) {
            Some(t) => {
                assigned[t].push(k);
            },
            None => {
                uncategorized.push(k);
            },
        }
        k += 1;
    }
    assert(locs.take(k as int) =~= locs);
    (assigned, uncategorized)
}

} // verus!
