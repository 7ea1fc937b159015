//! Bidirectional breadth-first search over an unweighted directed graph.
//!
//! With unit edge weights the two searches need no priority queue: each
//! frontier is the set of nodes first reached in the latest expansion step.
use std::collections::BTreeMap;
use vstd::prelude::*;

use crate::order::{ascending, sorted_unique, strictly_ascending};
use vstd::relations::injective_on;
use vstd::set_lib::{lemma_int_range, lemma_len_subset, lemma_map_size, set_int_range};

verus! {

broadcast use vstd::std_specs::btree::group_btree_axioms, vstd::laws_cmp::group_laws_cmp;

/// Some call of `links` on `a` answered a list that holds `b`.
pub open spec fn reached<F: Fn(u32) -> Vec<u32>>(links: F, a: u32, b: u32) -> bool {
    exists|r: Vec<u32>| links.ensures((a,), r) && r@.contains(b)
}

/// Every answer of `links` for `a` lists `b`.
pub open spec fn always_lists<F: Fn(u32) -> Vec<u32>>(links: F, a: u32, b: u32) -> bool {
    forall|r: Vec<u32>| links.ensures((a,), r) ==> r@.contains(b)
}

/// There is an edge `a -> b`: the forward oracle listed `b` among the targets
/// of `a`, or the reverse oracle listed `a` among the sources of `b`.
pub open spec fn linked<F1: Fn(u32) -> Vec<u32>, F2: Fn(u32) -> Vec<u32>>(
    links_from: F1,
    links_to: F2,
    a: u32,
    b: u32,
) -> bool {
    reached(links_from, a, b) || reached(links_to, b, a)
}

/// Each node of `p` is linked to the next one.
pub open spec fn is_path<F1: Fn(u32) -> Vec<u32>, F2: Fn(u32) -> Vec<u32>>(
    links_from: F1,
    links_to: F2,
    p: Seq<u32>,
) -> bool {
    forall|i: int| 0 <= i < p.len() - 1 ==> #[trigger] linked(links_from, links_to, p[i], p[i + 1])
}

/// Merge-intersection of two ascending lists: the smallest element present in
/// both, as a reference into the first list.
pub fn merge<'a>(xs: &'a [u32], ys: &[u32]) -> (r: Option<&'a u32>)
    requires
        ascending(xs@),
        ascending(ys@),
    ensures
        match r {
            Some(v) => {
                &&& xs@.contains(*v)
                &&& ys@.contains(*v)
                &&& forall|w: u32| xs@.contains(w) && ys@.contains(w) ==> *v <= w
            },
            None => forall|w: u32| !(xs@.contains(w) && ys@.contains(w)),
        },
{
    let mut i: usize = 0;
    let mut j: usize = 0;
    while i < xs.len() && j < ys.len()
        invariant
            i <= xs@.len(),
            j <= ys@.len(),
            ascending(xs@),
            ascending(ys@),
            forall|a: int, b: int|
                0 <= a < xs@.len() && 0 <= b < ys@.len() && (a < i || b < j) ==> xs@[a] != ys@[b],
        decreases xs.len() - i + ys.len() - j,
    {
        if xs[i] < ys[j] {
            i += 1;
        } else if xs[i] == ys[j] {
            proof {
                assert forall|w: u32| xs@.contains(w) && ys@.contains(w) implies xs@[i as int] <= w by {
                    let a = choose|a: int| 0 <= a < xs@.len() && xs@[a] == w;
                    let b = choose|b: int| 0 <= b < ys@.len() && ys@[b] == w;
                    assert(a >= i);
                }
            }
            return Some(&xs[i]);
        } else {
            j += 1;
        }
    }
    proof {
        assert forall|w: u32| !(xs@.contains(w) && ys@.contains(w)) by {
            if xs@.contains(w) && ys@.contains(w) {
                let a = choose|a: int| 0 <= a < xs@.len() && xs@[a] == w;
                let b = choose|b: int| 0 <= b < ys@.len() && ys@[b] == w;
                assert(xs@[a] != ys@[b]);
            }
        }
    }
    None
}

/// One side of the search: every node reached so far, with the node it was
/// reached from, and the nodes reached in the latest step.
struct Front {
    /// Nodes added by the latest expansion, ascending.
    edge: Vec<u32>,
    /// Parent of each reached node. The root maps to itself.
    map: BTreeMap<u32, u32>,
    root: Ghost<u32>,
    /// Number of steps from the root to each reached node.
    depth: Ghost<Map<u32, nat>>,
}

impl Front {
    /// Each reached node other than the root leads back to it through parents
    /// one step nearer, each of which `links` lists the child for.
    spec fn wf<F: Fn(u32) -> Vec<u32>>(&self, links: F) -> bool {
        &&& self.map@.dom() == self.depth@.dom()
        &&& self.map@.contains_key(self.root@)
        &&& self.map@[self.root@] == self.root@
        &&& self.depth@[self.root@] == 0
        &&& forall|k: u32|
            #![trigger self.map@.contains_key(k)]
            self.map@.contains_key(k) && k != self.root@ ==> {
                &&& self.depth@[k] > 0
                &&& self.map@.contains_key(self.map@[k])
                &&& self.depth@[self.map@[k]] + 1 == self.depth@[k]
                &&& reached(links, self.map@[k], k)
            }
        &&& strictly_ascending(self.edge@)
        &&& forall|i: int| 0 <= i < self.edge@.len() ==> self.map@.contains_key(#[trigger] self.edge@[i])
    }

    /// A front holding the root alone.
    fn new(root: u32) -> (r: Front)
        ensures
            r.root@ == root,
            r.edge@ == seq![root],
            r.map@ == map![root => root],
            r.depth@ == map![root => 0nat],
    {
        let edge = vec![root];
        let mut map = BTreeMap::new();
        map.insert(root, root);
        let ghost depth = map![root => 0nat];
        Front { edge, map, root: Ghost(root), depth: Ghost(depth) }
    }

    /// The number of nodes reached.
    fn len(&self) -> (r: usize)
        ensures
            r == self.map@.len(),
    {
        self.map.len()
    }

    /// Moves the front one step on: each neighbour that `links` gives for a
    /// node of the edge and that was not reached before is recorded with that
    /// node as its parent, and these new nodes become the edge.
    fn expand<F: Fn(u32) -> Vec<u32>>(&mut self, links: &F)
        requires
            old(self).wf(*links),
            forall|x: u32| links.requires((x,)),
        ensures
            final(self).wf(*links),
            final(self).root == old(self).root,
            forall|x: u32, g: u32|
                old(self).edge@.contains(x) && !old(self).map@.contains_key(g) && #[trigger] always_lists(*links, x, g)
                    ==> final(self).edge@.contains(g),
            final(self).map@.len() >= old(self).map@.len(),
            final(self).edge@.len() == 0 || final(self).map@.len() > old(self).map@.len(),
            forall|k: u32| #[trigger] old(self).map@.contains_key(k) ==> final(self).map@.contains_key(k)
                && final(self).map@[k] == old(self).map@[k],
            forall|k: u32| #[trigger] final(self).map@.contains_key(k) && !old(self).map@.contains_key(k)
                ==> final(self).edge@.contains(k),
            forall|k: u32| #[trigger] final(self).edge@.contains(k) ==> !old(self).map@.contains_key(k)
                && final(self).map@.contains_key(k) && old(self).edge@.contains(final(self).map@[k]),
    {
        let ghost root = self.root@;
        let ghost e0 = self.edge@;
        let ghost m0 = self.map@;
        let mut tmp: Vec<u32> = Vec::new();
        let mut i: usize = 0;
        while i < self.edge.len()
            invariant
                self.wf(*links),
                self.root@ == root,
                self.edge@ == e0,
                i <= e0.len(),
                forall|x: u32| links.requires((x,)),
                forall|k: int| 0 <= k < tmp@.len() ==> self.map@.contains_key(#[trigger] tmp@[k]),
                forall|k: u32| #[trigger] self.map@.contains_key(k) && !m0.contains_key(k) ==> tmp@.contains(k),
                forall|k: u32| m0.contains_key(k) ==> #[trigger] self.map@.contains_key(k),
                forall|t: int, g: u32| 0 <= t < i && #[trigger] always_lists(*links, e0[t], g) ==> self.map@.contains_key(g),
                self.map@.len() >= m0.len(),
                tmp@.len() > 0 ==> self.map@.len() > m0.len(),
                forall|k: u32| #[trigger] m0.contains_key(k) ==> self.map@[k] == m0[k],
                forall|w: int| 0 <= w < tmp@.len() ==> !m0.contains_key(#[trigger] tmp@[w]),
                forall|k: u32| #[trigger] self.map@.contains_key(k) && !m0.contains_key(k) ==> e0.contains(self.map@[k]),
            decreases e0.len() - i,
        {
            let node = self.edge[i];
            let news = links(node);
            let mut j: usize = 0;
            while j < news.len()
                invariant
                    self.wf(*links),
                    self.root@ == root,
                    self.edge@ == e0,
                    i < e0.len(),
                    j <= news@.len(),
                    self.map@.contains_key(node),
                    node == e0[i as int],
                    links.ensures((node,), news),
                    forall|k: int| 0 <= k < tmp@.len() ==> self.map@.contains_key(#[trigger] tmp@[k]),
                    forall|k: u32| #[trigger] self.map@.contains_key(k) && !m0.contains_key(k) ==> tmp@.contains(k),
                    forall|k: u32| m0.contains_key(k) ==> #[trigger] self.map@.contains_key(k),
                    forall|t: int, g: u32| 0 <= t < i && #[trigger] always_lists(*links, e0[t], g) ==> self.map@.contains_key(g),
                    forall|t: int| 0 <= t < j ==> self.map@.contains_key(#[trigger] news@[t]),
                    self.map@.len() >= m0.len(),
                    tmp@.len() > 0 ==> self.map@.len() > m0.len(),
                    forall|k: u32| #[trigger] m0.contains_key(k) ==> self.map@[k] == m0[k],
                    forall|w: int| 0 <= w < tmp@.len() ==> !m0.contains_key(#[trigger] tmp@[w]),
                    forall|k: u32| #[trigger] self.map@.contains_key(k) && !m0.contains_key(k) ==> e0.contains(self.map@[k]),
                decreases news.len() - j,
            {
                let new = news[j];
                if !self.map.contains_key(&new) {
                    assert(news@.contains(new));
                    assert(reached(*links, node, new));
                    let ghost d = self.depth@[node];
                    let ghost prev = self.map@;
                    let ghost prev_tmp = tmp@;
                    self.map.insert(new, node);
                    assert(self.map@.dom() =~= prev.dom().insert(new));
                    assert(self.map@.len() == prev.len() + 1);
                    self.depth = Ghost(self.depth@.insert(new, d + 1));
                    tmp.push(new);
                    assert(e0.contains(node)) by {
                        assert(e0[i as int] == node);
                    }
                    assert forall|w: int| 0 <= w < tmp@.len() implies !m0.contains_key(#[trigger] tmp@[w]) by {
                        if w < prev_tmp.len() {
                            assert(tmp@[w] == prev_tmp[w]);
                        }
                    }
                    assert forall|k: u32| #[trigger] self.map@.contains_key(k) && !m0.contains_key(k) implies e0.contains(self.map@[k]) by {
                        if k != new {
                            assert(prev.contains_key(k));
                        }
                    }
                    assert forall|k: u32| #[trigger] self.map@.contains_key(k) && !m0.contains_key(k) implies tmp@.contains(k) by {
                        if k == new {
                            assert(tmp@[tmp@.len() - 1] == new);
                        } else {
                            assert(prev.contains_key(k));
                            let w = choose|w: int| 0 <= w < prev_tmp.len() && prev_tmp[w] == k;
                            assert(tmp@[w] == k);
                        }
                    }
                    assert forall|k: u32| #![trigger self.map@.contains_key(k)]
                        self.map@.contains_key(k) && k != self.root@ implies {
                            &&& self.depth@[k] > 0
                            &&& self.map@.contains_key(self.map@[k])
                            &&& self.depth@[self.map@[k]] + 1 == self.depth@[k]
                            &&& reached(*links, self.map@[k], k)
                        } by {
                        if k != new {
                            assert(prev.contains_key(k));
                        }
                    }
                }
                j += 1;
            }
            assert forall|t: int, g: u32| 0 <= t < i + 1 && #[trigger] always_lists(*links, e0[t], g) implies self.map@.contains_key(g) by {
                if t == i {
                    assert(news@.contains(g));
                    let w = choose|w: int| 0 <= w < news@.len() && news@[w] == g;
                    assert(self.map@.contains_key(news@[w]));
                }
            }
            i += 1;
        }
        let ghost t1 = tmp@;
        let edge = sorted_unique(tmp);
        proof {
            if edge@.len() > 0 {
                assert(edge@.contains(edge@[0]));
                assert(t1.contains(edge@[0]));
            }
        }
        assert forall|x: u32, g: u32|
            e0.contains(x) && !m0.contains_key(g) && #[trigger] always_lists(*links, x, g) implies edge@.contains(g) by {
            let t = choose|t: int| 0 <= t < e0.len() && e0[t] == x;
            assert(always_lists(*links, e0[t], g));
            assert(self.map@.contains_key(g));
            assert(t1.contains(g));
        }
        assert forall|k: int| 0 <= k < edge@.len() implies self.map@.contains_key(#[trigger] edge@[k]) by {
            assert(edge@.contains(edge@[k]));
        }
        assert forall|k: u32| #[trigger] self.map@.contains_key(k) && !m0.contains_key(k) implies edge@.contains(k) by {
            assert(t1.contains(k));
        }
        assert forall|k: u32| #[trigger] edge@.contains(k) implies !m0.contains_key(k) && self.map@.contains_key(k)
            && e0.contains(self.map@[k]) by {
            assert(t1.contains(k));
            let w = choose|w: int| 0 <= w < t1.len() && t1[w] == k;
            assert(!m0.contains_key(t1[w]));
            assert(self.map@.contains_key(t1[w]));
        }
        self.edge = edge;
    }
}

/// `p` runs through node `j`, the smallest node in both edges: up to it along
/// the parents of `from` read backwards, and from it along the parents of `to`.
/// Each chain stops at its root: no node in between is its own parent.
spec fn joined_at(fe: Seq<u32>, te: Seq<u32>, fm: Map<u32, u32>, tm: Map<u32, u32>, p: Seq<u32>, j: int) -> bool {
    &&& 0 <= j < p.len()
    &&& fe.contains(p[j]) && te.contains(p[j])
    &&& forall|w: u32| fe.contains(w) && te.contains(w) ==> p[j] <= w
    &&& forall|i: int| 0 <= i < j ==> fm[#[trigger] p[i + 1]] == p[i]
    &&& forall|i: int| j <= i < p.len() - 1 ==> tm[#[trigger] p[i]] == p[i + 1]
    &&& forall|i: int| 0 < i <= j ==> fm[#[trigger] p[i]] != p[i]
    &&& forall|i: int| j <= i < p.len() - 1 ==> tm[#[trigger] p[i]] != p[i]
}

/// Looks for a node in both edges; if there is one, returns the path from the
/// root of `from` through it to the root of `to`, both roots included.
fn check_collision<F1: Fn(u32) -> Vec<u32>, F2: Fn(u32) -> Vec<u32>>(
    from: &Front,
    to: &Front,
    links_from: &F1,
    links_to: &F2,
) -> (r: Option<Vec<u32>>)
    requires
        from.wf(*links_from),
        to.wf(*links_to),
    ensures
        r is None <==> forall|w: u32| !(from.edge@.contains(w) && to.edge@.contains(w)),
        r matches Some(p) ==> {
            &&& p@.len() > 0
            &&& p@[0] == from.root@
            &&& p@.last() == to.root@
            &&& is_path(*links_from, *links_to, p@)
        },
        r is Some ==> exists|j: int| #[trigger] joined_at(from.edge@, to.edge@, from.map@, to.map@, r->0@, j),
{
    let k = match merge(from.edge.as_slice(), to.edge.as_slice()) {
        Some(k) => *k,
        None => return None,
    };
    proof {
        let a = choose|a: int| 0 <= a < from.edge@.len() && from.edge@[a] == k;
        let b = choose|b: int| 0 <= b < to.edge@.len() && to.edge@[b] == k;
        assert(from.map@.contains_key(from.edge@[a]));
        assert(to.map@.contains_key(to.edge@[b]));
    }
    // The chain of parents from `k` back to the root of `from`.
    let mut back: Vec<u32> = vec![k];
    let mut p = k;
    loop
        invariant
            from.wf(*links_from),
            from.edge@.contains(k) && to.edge@.contains(k),
            forall|w: u32| from.edge@.contains(w) && to.edge@.contains(w) ==> k <= w,
            from.map@.contains_key(p),
            back@.len() > 0,
            back@[0] == k,
            back@.last() == p,
            forall|i: int| 0 <= i < back@.len() - 1 ==> #[trigger] reached(*links_from, back@[i + 1], back@[i]),
            forall|i: int| 0 <= i < back@.len() - 1 ==> from.map@[#[trigger] back@[i]] == back@[i + 1],
            forall|i: int| 0 <= i < back@.len() - 1 ==> from.map@[#[trigger] back@[i]] != back@[i],
        ensures
            from.edge@.contains(k) && to.edge@.contains(k),
            forall|w: u32| from.edge@.contains(w) && to.edge@.contains(w) ==> k <= w,
            p == from.root@,
            back@.len() > 0,
            back@[0] == k,
            back@.last() == p,
            forall|i: int| 0 <= i < back@.len() - 1 ==> #[trigger] reached(*links_from, back@[i + 1], back@[i]),
            forall|i: int| 0 <= i < back@.len() - 1 ==> from.map@[#[trigger] back@[i]] == back@[i + 1],
            forall|i: int| 0 <= i < back@.len() - 1 ==> from.map@[#[trigger] back@[i]] != back@[i],
        decreases from.depth@[p],
    {
        let p2 = *from.map.get(&p).unwrap();
        assert(from.map@.contains_key(p));
        if p == p2 {
            break;
        }
        let ghost b0 = back@;
        back.push(p2);
        assert forall|i: int| 0 <= i < back@.len() - 1 implies from.map@[#[trigger] back@[i]] == back@[i + 1]
            && from.map@[back@[i]] != back@[i] by {
            if i < b0.len() - 1 {
                assert(back@[i] == b0[i] && back@[i + 1] == b0[i + 1]);
            } else {
                assert(back@[i] == p);
            }
        }
        p = p2;
    }
    assert(p == from.root@);
    // The path from the root of `from` to `k`.
    let mut path: Vec<u32> = Vec::new();
    let mut i: usize = back.len();
    while i > 0
        invariant
            from.edge@.contains(k) && to.edge@.contains(k),
            forall|w: u32| from.edge@.contains(w) && to.edge@.contains(w) ==> k <= w,
            i <= back@.len(),
            back@.len() > 0,
            path@.len() == back@.len() - i,
            forall|t: int| 0 <= t < path@.len() ==> path@[t] == back@[back@.len() - 1 - t],
        decreases i,
    {
        i -= 1;
        path.push(back[i]);
    }
    assert(is_path(*links_from, *links_to, path@)) by {
        assert forall|t: int| 0 <= t < path@.len() - 1 implies #[trigger] linked(*links_from, *links_to, path@[t], path@[t + 1]) by {
            let s = back@.len() - 2 - t;
            assert(reached(*links_from, back@[s + 1], back@[s]));
        }
    }
    let ghost m = back@.len();
    assert(path@[m - 1] == k);
    assert forall|i: int| 0 <= i < m - 1 implies from.map@[#[trigger] path@[i + 1]] == path@[i] by {
        let s = back@.len() - 2 - i;
        assert(path@[i + 1] == back@[s]);
        assert(path@[i] == back@[s + 1]);
    }
    assert forall|i: int| 0 < i <= m - 1 implies from.map@[#[trigger] path@[i]] != path@[i] by {
        let s = back@.len() - 1 - i;
        assert(path@[i] == back@[s]);
        assert(from.map@[back@[s]] != back@[s]);
    }
    // From `k` on through the parents in `to`, which lead to its root.
    let mut n = k;
    loop
        invariant
            to.wf(*links_to),
            from.edge@.contains(k) && to.edge@.contains(k),
            forall|w: u32| from.edge@.contains(w) && to.edge@.contains(w) ==> k <= w,
            to.map@.contains_key(n),
            path@.len() > 0,
            path@[0] == from.root@,
            path@.last() == n,
            is_path(*links_from, *links_to, path@),
            m >= 1,
            path@.len() >= m,
            path@[m - 1] == k,
            forall|i: int| 0 <= i < m - 1 ==> from.map@[#[trigger] path@[i + 1]] == path@[i],
            forall|i: int| m - 1 <= i < path@.len() - 1 ==> to.map@[#[trigger] path@[i]] == path@[i + 1],
            forall|i: int| 0 < i <= m - 1 ==> from.map@[#[trigger] path@[i]] != path@[i],
            forall|i: int| m - 1 <= i < path@.len() - 1 ==> to.map@[#[trigger] path@[i]] != path@[i],
        ensures
            from.edge@.contains(k) && to.edge@.contains(k),
            forall|w: u32| from.edge@.contains(w) && to.edge@.contains(w) ==> k <= w,
            n == to.root@,
            path@.len() > 0,
            path@[0] == from.root@,
            path@.last() == n,
            is_path(*links_from, *links_to, path@),
            path@.len() >= m,
            path@[m - 1] == k,
            forall|i: int| 0 <= i < m - 1 ==> from.map@[#[trigger] path@[i + 1]] == path@[i],
            forall|i: int| m - 1 <= i < path@.len() - 1 ==> to.map@[#[trigger] path@[i]] == path@[i + 1],
            forall|i: int| 0 < i <= m - 1 ==> from.map@[#[trigger] path@[i]] != path@[i],
            forall|i: int| m - 1 <= i < path@.len() - 1 ==> to.map@[#[trigger] path@[i]] != path@[i],
        decreases to.depth@[n],
    {
        let n2 = *to.map.get(&n).unwrap();
        assert(to.map@.contains_key(n));
        if n == n2 {
            break;
        }
        assert(reached(*links_to, n2, n));
        let ghost before = path@;
        path.push(n2);
        assert forall|i: int| 0 <= i < m - 1 implies from.map@[#[trigger] path@[i + 1]] == path@[i] by {
            assert(path@[i + 1] == before[i + 1] && path@[i] == before[i]);
        }
        assert forall|i: int| 0 < i <= m - 1 implies from.map@[#[trigger] path@[i]] != path@[i] by {
            assert(path@[i] == before[i]);
        }
        assert forall|i: int| m - 1 <= i < path@.len() - 1 implies to.map@[#[trigger] path@[i]] == path@[i + 1]
            && to.map@[path@[i]] != path@[i] by {
            if i < before.len() - 1 {
                assert(path@[i] == before[i] && path@[i + 1] == before[i + 1]);
            } else {
                assert(path@[i] == n);
            }
        }
        assert forall|t: int| 0 <= t < path@.len() - 1 implies #[trigger] linked(*links_from, *links_to, path@[t], path@[t + 1]) by {
            if t < before.len() - 1 {
                assert(linked(*links_from, *links_to, before[t], before[t + 1]));
            }
        }
        n = n2;
    }
    assert(n == to.root@);
    assert(from.edge@.contains(path@[m - 1]) && to.edge@.contains(path@[m - 1]));
    assert(joined_at(from.edge@, to.edge@, from.map@, to.map@, path@, m - 1));
    let out = Some(path);
    assert(joined_at(from.edge@, to.edge@, from.map@, to.map@, out->0@, m - 1));
    out
}

/// A map keyed by page ids has at most 2^32 keys.
proof fn lemma_ids_bound<V>(m: Map<u32, V>)
    requires
        m.dom().finite(),
    ensures
        m.len() <= 0x1_0000_0000,
{
    let d = m.dom();
    let f = |x: u32| x as int;
    let y = d.map(f);
    assert(injective_on(f, d));
    lemma_map_size(d, y, f);
    lemma_int_range(0, 0x1_0000_0000);
    assert forall|i: int| y.contains(i) implies set_int_range(0, 0x1_0000_0000).contains(i) by {
        let x = choose|x: u32| d.contains(x) && f(x) == i;
    }
    lemma_len_subset(y, set_int_range(0, 0x1_0000_0000));
}

/// What is left of the search: it shrinks with every step that does not end
/// it, as each such step reaches a new node or empties an edge.
spec fn remaining(from: &Front, to: &Front) -> int {
    2 * (0x2_0000_0000 - from.map@.len() - to.map@.len()) + if from.edge@.len() > 0 && to.edge@.len() > 0 {
        1int
    } else {
        0int
    }
}

/// The two oracles agree on the links: whatever one of them lists, or lists
/// every time, the other lists every time, read in its own direction. Exact
/// oracles over one fixed set of links agree.
pub open spec fn consistent<F1: Fn(u32) -> Vec<u32>, F2: Fn(u32) -> Vec<u32>>(links_from: F1, links_to: F2) -> bool {
    &&& forall|a: u32, b: u32|
        #![trigger reached(links_from, a, b)]
        #![trigger always_lists(links_from, a, b)]
        (reached(links_from, a, b) || always_lists(links_from, a, b)) ==> always_lists(links_to, b, a)
    &&& forall|a: u32, b: u32|
        #![trigger reached(links_to, b, a)]
        #![trigger always_lists(links_to, b, a)]
        (reached(links_to, b, a) || always_lists(links_to, b, a)) ==> always_lists(links_from, a, b)
}

/// Each node of `p` is listed by `links_from` for the one before, every time.
pub open spec fn chain<F1: Fn(u32) -> Vec<u32>>(links_from: F1, p: Seq<u32>) -> bool {
    forall|i: int| 0 <= i < p.len() - 1 ==> #[trigger] always_lists(links_from, p[i], p[i + 1])
}

/// A set that holds every node that `links` always lists for a node of it
/// holds every node of a chain that starts in it.
proof fn lemma_closed_forward<F1: Fn(u32) -> Vec<u32>>(links: F1, p: Seq<u32>, dom: Set<u32>, i: int)
    requires
        chain(links, p),
        p.len() > 0,
        dom.contains(p[0]),
        forall|v: u32, w: u32| dom.contains(v) && #[trigger] always_lists(links, v, w) ==> dom.contains(w),
        0 <= i < p.len(),
    ensures
        dom.contains(p[i]),
    decreases i,
{
    if i > 0 {
        lemma_closed_forward(links, p, dom, i - 1);
        let j = i - 1;
        assert(always_lists(links, p[j], p[j + 1]));
        assert(j + 1 == i);
    }
}

/// The same, read backwards through the reverse oracle, for a chain that
/// ends in the set.
proof fn lemma_closed_backward<F1: Fn(u32) -> Vec<u32>, F2: Fn(u32) -> Vec<u32>>(
    links_from: F1,
    links_to: F2,
    p: Seq<u32>,
    dom: Set<u32>,
    i: int,
)
    requires
        chain(links_from, p),
        consistent(links_from, links_to),
        p.len() > 0,
        dom.contains(p[p.len() - 1]),
        forall|v: u32, u: u32| dom.contains(v) && #[trigger] always_lists(links_to, v, u) ==> dom.contains(u),
        0 <= i < p.len(),
    ensures
        dom.contains(p[i]),
    decreases p.len() - i,
{
    if i < p.len() - 1 {
        lemma_closed_backward(links_from, links_to, p, dom, i + 1);
        assert(always_lists(links_from, p[i], p[i + 1]));
        assert(always_lists(links_to, p[i + 1], p[i]));
        assert(dom.contains(p[i + 1]));
    }
}

/// Bidirectional breadth-first search from `start` to `goal`.
///
/// `links_from` gives the targets of a node's outgoing links and `links_to`
/// the sources of its incoming ones. A returned path starts at `start`, ends
/// at `goal`, and each of its nodes is linked to the next. The search gives
/// up, with `None`, once either front has no new nodes left; each step before
/// that reaches a node not reached before, so the search ends. Where the
/// oracles agree and a chain of links leads from `start` to `goal`, a path is
/// found.
pub fn bidi_dijkstra<F1: Fn(u32) -> Vec<u32>, F2: Fn(u32) -> Vec<u32>>(
    start: u32,
    goal: u32,
    links_from: F1,
    links_to: F2,
) -> (r: Option<Vec<u32>>)
    requires
        forall|x: u32| links_from.requires((x,)),
        forall|x: u32| links_to.requires((x,)),
    ensures
        r matches Some(p) ==> {
            &&& p@.len() > 0
            &&& p@[0] == start
            &&& p@.last() == goal
            &&& is_path(links_from, links_to, p@)
        },
        start == goal ==> (r matches Some(p) && p@ == seq![start]),
        always_lists(links_from, start, goal) ==> r is Some,
        consistent(links_from, links_to) && (exists|p: Seq<u32>|
            p.len() > 0 && p[0] == start && p[p.len() - 1] == goal && #[trigger] chain(links_from, p)) ==> r is Some,
{
    let mut from = Front::new(start);
    let mut to = Front::new(goal);
    assert(from.map@.dom() =~= from.depth@.dom());
    assert(to.map@.dom() =~= to.depth@.dom());
    assert(from.wf(links_from));
    assert(to.wf(links_to));
    if start == goal {
        let p = vec![start];
        assert(p@ == seq![start]);
        return Some(p);
    }
    let ghost direct = always_lists(links_from, start, goal);
    let ghost agree = consistent(links_from, links_to);
    assert(from.map@.dom() =~= set![start]);
    assert(to.map@.dom() =~= set![goal]);
    assert(from.edge@[0] == start && to.edge@[0] == goal);
    assert(from.edge@.contains(start) && to.edge@.contains(goal));
    let ghost mut steps: nat = 0;
    proof {
        lemma_ids_bound(from.map@);
        lemma_ids_bound(to.map@);
    }
    loop
        invariant
            from.map@.len() <= 0x1_0000_0000,
            to.map@.len() <= 0x1_0000_0000,
            direct == always_lists(links_from, start, goal),
            steps == 0 ==> from.edge@ == seq![start] && to.edge@ == seq![goal] && from.map@ == map![start => start]
                && to.map@ == map![goal => goal],
            direct && steps == 1 ==> from.edge@.contains(goal) && to.edge@ == seq![goal],
            direct ==> steps <= 1,
            agree == consistent(links_from, links_to),
            forall|v: u32, w: u32|
                from.map@.contains_key(v) && !from.edge@.contains(v) && #[trigger] always_lists(links_from, v, w)
                    ==> from.map@.contains_key(w),
            forall|v: u32, u: u32|
                to.map@.contains_key(v) && !to.edge@.contains(v) && #[trigger] always_lists(links_to, v, u)
                    ==> to.map@.contains_key(u),
            agree ==> forall|v: u32| #[trigger] from.map@.contains_key(v) && to.map@.contains_key(v)
                ==> from.edge@.contains(v) && to.edge@.contains(v),
            from.wf(links_from),
            to.wf(links_to),
            from.root@ == start,
            to.root@ == goal,
            start != goal,
            forall|x: u32| links_from.requires((x,)),
            forall|x: u32| links_to.requires((x,)),
        decreases remaining(&from, &to),
    {
        if let Some(p) = check_collision(&from, &to, &links_from, &links_to) {
            return Some(p);
        }
        if from.edge.len() == 0 || to.edge.len() == 0 {
            proof {
                if agree && exists|p: Seq<u32>|
                    p.len() > 0 && p[0] == start && p[p.len() - 1] == goal && #[trigger] chain(links_from, p) {
                    let p = choose|p: Seq<u32>|
                        p.len() > 0 && p[0] == start && p[p.len() - 1] == goal && #[trigger] chain(links_from, p);
                    if from.edge@.len() == 0 {
                        lemma_closed_forward(links_from, p, from.map@.dom(), p.len() - 1);
                        assert(from.map@.contains_key(goal) && to.map@.contains_key(goal));
                        assert(from.edge@.contains(goal));
                    } else {
                        lemma_closed_backward(links_from, links_to, p, to.map@.dom(), 0);
                        assert(from.map@.contains_key(start) && to.map@.contains_key(start));
                        assert(to.edge@.contains(start));
                    }
                }
            }
            return None;
        }
        proof {
            if direct && steps == 1 {
                assert(to.edge@[0] == goal);
                assert(from.edge@.contains(goal) && to.edge@.contains(goal));
            }
            if steps == 0 {
                assert(from.map@.len() == 1 && to.map@.len() == 1) by {
                    assert(from.map@.dom() =~= set![start]);
                    assert(to.map@.dom() =~= set![goal]);
                }
                assert(from.edge@.contains(start)) by {
                    assert(from.edge@[0] == start);
                }
            }
        }
        let ghost f0 = from.map@;
        let ghost fe0 = from.edge@;
        let ghost t0 = to.map@;
        let ghost te0 = to.edge@;
        if from.len() <= to.len() {
            from.expand(&links_from);
            proof {
                assert forall|v: u32| #[trigger] from.map@.contains_key(v) && to.map@.contains_key(v) implies
                    !agree || (from.edge@.contains(v) && to.edge@.contains(v)) by {
                    if agree {
                        if f0.contains_key(v) {
                            assert(fe0.contains(v) && te0.contains(v));
                        }
                        assert(from.edge@.contains(v));
                        if !to.edge@.contains(v) {
                            let a = from.map@[v];
                            assert(fe0.contains(a));
                            assert(v != from.root@);
                            assert(reached(links_from, a, v));
                            assert(always_lists(links_to, v, a));
                            assert(to.map@.contains_key(a));
                            assert(f0.contains_key(a));
                            assert(te0.contains(a));
                        }
                    }
                }
                assert forall|v: u32, w: u32|
                    from.map@.contains_key(v) && !from.edge@.contains(v) && #[trigger] always_lists(links_from, v, w)
                        implies from.map@.contains_key(w) by {
                    assert(f0.contains_key(v));
                    if !fe0.contains(v) {
                        assert(f0.contains_key(w));
                    } else if !f0.contains_key(w) {
                        assert(from.edge@.contains(w));
                    }
                }
            }
        } else {
            to.expand(&links_to);
            proof {
                assert forall|v: u32| #[trigger] from.map@.contains_key(v) && to.map@.contains_key(v) implies
                    !agree || (from.edge@.contains(v) && to.edge@.contains(v)) by {
                    if agree {
                        if t0.contains_key(v) {
                            assert(fe0.contains(v) && te0.contains(v));
                        }
                        assert(to.edge@.contains(v));
                        if !from.edge@.contains(v) {
                            let b = to.map@[v];
                            assert(te0.contains(b));
                            assert(v != to.root@);
                            assert(reached(links_to, b, v));
                            assert(always_lists(links_from, v, b));
                            assert(from.map@.contains_key(b));
                            assert(t0.contains_key(b));
                            assert(fe0.contains(b));
                        }
                    }
                }
                assert forall|v: u32, u: u32|
                    to.map@.contains_key(v) && !to.edge@.contains(v) && #[trigger] always_lists(links_to, v, u)
                        implies to.map@.contains_key(u) by {
                    assert(t0.contains_key(v));
                    if !te0.contains(v) {
                        assert(t0.contains_key(u));
                    } else if !t0.contains_key(u) {
                        assert(to.edge@.contains(u));
                    }
                }
            }
        }
        proof {
            lemma_ids_bound(from.map@);
            lemma_ids_bound(to.map@);
            steps = steps + 1;
        }
    }
}

} // verus!
