use vstd::prelude::*;

use crate::entries::{
    assoc_get, assoc_put, entries_map, has_key_at, keys_unique, lemma_entries_dom,
    lemma_entries_finite, lemma_entries_index,
};
use vstd::set::fold::{is_fun_commutative, lemma_fold_empty, lemma_fold_insert};
use crate::oriented::{out_map, OrientedGraph};
use crate::weight::GraphWeight;

verus! {

/// `p` is a non-empty walk along the edges of `edges`.
pub open spec fn is_path<W>(edges: Map<(u128, u128), W>, p: Seq<u128>) -> bool {
    &&& p.len() >= 1
    &&& forall|i: int| 0 <= i < p.len() - 1 ==> #[trigger] edges.contains_key((p[i], p[i + 1]))
}

/// `p` is a walk from `a` to `b`.
pub open spec fn is_path_between<W>(edges: Map<(u128, u128), W>, p: Seq<u128>, a: u128, b: u128) -> bool {
    is_path(edges, p) && p[0] == a && p.last() == b
}

/// The sum of the weights of the edges along `p`.
pub open spec fn path_weight<W: GraphWeight>(edges: Map<(u128, u128), W>, p: Seq<u128>) -> int
    decreases p.len(),
{
    if p.len() < 2 {
        0
    } else {
        edges[(p[0], p[1])].value() + path_weight(edges, p.drop_first())
    }
}

/// Some walk leads from `a` to `b`.
pub open spec fn reachable<W>(edges: Map<(u128, u128), W>, a: u128, b: u128) -> bool {
    exists|p: Seq<u128>| #[trigger] is_path_between(edges, p, a, b)
}

/// The summed weight of the listed edges whose source lies in `srcs`.
pub open spec fn weight_from<W: GraphWeight>(s: Seq<((u128, u128), W)>, srcs: Set<u128>) -> int
    decreases s.len(),
{
    if s.len() == 0 {
        0
    } else {
        weight_from(s.drop_last(), srcs) + if srcs.contains(s.last().0.0) {
            s.last().1.value()
        } else {
            0
        }
    }
}

proof fn lemma_weight_from_mono<W: GraphWeight>(s: Seq<((u128, u128), W)>, a: Set<u128>, b: Set<u128>)
    requires
        a.subset_of(b),
    ensures
        weight_from(s, a) <= weight_from(s, b),
    decreases s.len(),
{
    if s.len() > 0 {
        lemma_weight_from_mono(s.drop_last(), a, b);
        s.last().1.lemma_range();
    }
}

proof fn lemma_weight_from_edge<W: GraphWeight>(s: Seq<((u128, u128), W)>, srcs: Set<u128>, i: int)
    requires
        0 <= i < s.len(),
        srcs.contains(s[i].0.0),
    ensures
        weight_from(s, srcs.remove(s[i].0.0)) + s[i].1.value() <= weight_from(s, srcs),
    decreases s.len(),
{
    let u = s[i].0.0;
    let t = s.drop_last();
    s.last().1.lemma_range();
    if i == s.len() - 1 {
        lemma_weight_from_mono(t, srcs.remove(u), srcs);
    } else {
        lemma_weight_from_edge(t, srcs, i);
    }
}

proof fn lemma_path_push<W: GraphWeight>(edges: Map<(u128, u128), W>, p: Seq<u128>, z: u128)
    requires
        p.len() >= 1,
    ensures
        path_weight(edges, p.push(z)) == path_weight(edges, p) + edges[(p.last(), z)].value(),
    decreases p.len(),
{
    let q = p.push(z);
    assert(q[0] == p[0]);
    if p.len() >= 2 {
        assert(q[1] == p[1]);
        assert(q.drop_first() =~= p.drop_first().push(z));
        lemma_path_push(edges, p.drop_first(), z);
        assert(p.drop_first().last() == p.last());
    } else {
        assert(q[1] == z);
        assert(q.drop_first() =~= seq![z]);
        assert(path_weight(edges, seq![z]) == 0);
    }
}

proof fn lemma_path_prefix<W>(edges: Map<(u128, u128), W>, p: Seq<u128>)
    requires
        is_path(edges, p),
        p.len() >= 2,
    ensures
        is_path(edges, p.drop_last()),
        edges.contains_key((p.drop_last().last(), p.last())),
        p.drop_last().push(p.last()) == p,
{
    let i = p.len() - 2;
    assert(edges.contains_key((p[i], p[i + 1])));
    assert(p.drop_last().push(p.last()) =~= p);
    let q = p.drop_last();
    assert forall|k: int| 0 <= k < q.len() - 1 implies #[trigger] edges.contains_key((q[k], q[k + 1])) by {
        assert(edges.contains_key((p[k], p[k + 1])));
    }
}

proof fn lemma_weight_from_nonneg<W: GraphWeight>(s: Seq<((u128, u128), W)>, srcs: Set<u128>)
    ensures
        0 <= weight_from(s, srcs),
    decreases s.len(),
{
    if s.len() > 0 {
        lemma_weight_from_nonneg(s.drop_last(), srcs);
        s.last().1.lemma_range();
    }
}

/// The targets of the listed edges.
spec fn edge_targets<W>(es: Seq<((u128, u128), W)>) -> Seq<u128> {
    Seq::new(es.len(), |i: int| es[i].0.1)
}

/// Adds the weight that `m` gives edge `e` to `acc`.
pub open spec fn add_weight<W: GraphWeight>(m: Map<(u128, u128), W>) -> spec_fn(int, (u128, u128)) -> int {
    |acc: int, e: (u128, u128)| acc + m[e].value()
}

/// The summed weight of all edges of `m`.
pub open spec fn edge_total<W: GraphWeight>(m: Map<(u128, u128), W>) -> int {
    m.dom().fold(0int, add_weight(m))
}

proof fn lemma_add_weight_commutes<W: GraphWeight>(m: Map<(u128, u128), W>)
    ensures
        is_fun_commutative(add_weight(m)),
{
    assert forall|a1: (u128, u128), a2: (u128, u128), b: int| #[trigger] add_weight(m)(add_weight(m)(b, a2), a1)
        == add_weight(m)(add_weight(m)(b, a1), a2) by {}
}

/// Summing over a finite set depends only on the weights of its members.
proof fn lemma_fold_congruent<W: GraphWeight>(a: Map<(u128, u128), W>, b: Map<(u128, u128), W>, s: Set<(u128, u128)>)
    requires
        s.finite(),
        forall|e: (u128, u128)| #[trigger] s.contains(e) ==> a[e].value() == b[e].value(),
    ensures
        s.fold(0int, add_weight(a)) == s.fold(0int, add_weight(b)),
    decreases s.len(),
{
    lemma_add_weight_commutes(a);
    lemma_add_weight_commutes(b);
    if s.len() == 0 {
        assert(s =~= Set::empty());
        lemma_fold_empty(0int, add_weight(a));
        lemma_fold_empty(0int, add_weight(b));
    } else {
        let x = s.choose();
        let t = s.remove(x);
        lemma_fold_congruent(a, b, t);
        assert(t.insert(x) =~= s);
        lemma_fold_insert(t, 0int, add_weight(a), x);
        lemma_fold_insert(t, 0int, add_weight(b), x);
    }
}

/// A map without edges weighs nothing.
pub proof fn lemma_edge_total_empty<W: GraphWeight>()
    ensures
        edge_total(Map::<(u128, u128), W>::empty()) == 0,
{
    assert(Map::<(u128, u128), W>::empty().dom() =~= Set::empty());
    lemma_fold_empty(0int, add_weight(Map::<(u128, u128), W>::empty()));
}

/// Storing `w` under `k` replaces the weight that `k` had, if any.
pub proof fn lemma_edge_total_insert<W: GraphWeight>(m: Map<(u128, u128), W>, k: (u128, u128), w: W)
    requires
        m.dom().finite(),
    ensures
        edge_total(m.insert(k, w)) == edge_total(m.remove(k)) + w.value(),
        m.contains_key(k) ==> edge_total(m) == edge_total(m.remove(k)) + m[k].value(),
{
    let n = m.insert(k, w);
    let r = m.remove(k);
    lemma_add_weight_commutes(n);
    lemma_add_weight_commutes(m);
    assert(n.dom() =~= r.dom().insert(k));
    lemma_fold_insert(r.dom(), 0int, add_weight(n), k);
    lemma_fold_congruent(n, r, r.dom());
    if m.contains_key(k) {
        assert(m.dom() =~= r.dom().insert(k));
        lemma_fold_insert(r.dom(), 0int, add_weight(m), k);
        lemma_fold_congruent(m, r, r.dom());
    }
}

/// The sum over an entry list equals the sum over the map it denotes.
proof fn lemma_total_matches<W: GraphWeight>(es: Seq<((u128, u128), W)>)
    requires
        keys_unique(es),
    ensures
        weight_from(es, Set::full()) == edge_total(entries_map(es)),
    decreases es.len(),
{
    if es.len() == 0 {
        lemma_edge_total_empty::<W>();
    } else {
        let t = es.drop_last();
        assert(keys_unique(t));
        lemma_total_matches(t);
        lemma_entries_finite(t);
        let k = es.last().0;
        lemma_entries_dom(t, k);
        if has_key_at(t, k) {
            let i = choose|i: int| 0 <= i < t.len() && #[trigger] t[i].0 == k;
            assert(es[i].0 == es[es.len() - 1].0);
        }
        lemma_edge_total_insert(entries_map(t), k, es.last().1);
        assert(entries_map(t).remove(k) =~= entries_map(t));
    }
}

/// Every node with a cost but not yet settled has a frontier entry at that
/// cost.
spec fn covered<W: GraphWeight>(d: Map<u128, W>, done: Set<u128>, q: Seq<(W, u128)>) -> bool {
    forall|v: u128|
        #[trigger] d.contains_key(v) && !done.contains(v) ==> exists|i: int|
            0 <= i < q.len() && #[trigger] q[i].1 == v && q[i].0.value() == d[v].value()
}

/// Every edge out of a settled node has been relaxed.
spec fn relaxed<W: GraphWeight>(e: Map<(u128, u128), W>, d: Map<u128, W>, done: Set<u128>) -> bool {
    forall|y: u128, x: u128|
        done.contains(y) && #[trigger] e.contains_key((y, x)) ==> d.contains_key(x) && d[x].value()
            <= d[y].value() + e[(y, x)].value()
}

/// No settled cost exceeds a frontier entry.
spec fn settled_below<W: GraphWeight>(d: Map<u128, W>, done: Set<u128>, q: Seq<(W, u128)>) -> bool {
    forall|y: u128, i: int|
        done.contains(y) && 0 <= i < q.len() ==> #[trigger] d[y].value() <= #[trigger] q[i].0.value()
}

/// A walk from `start` ends at a settled node no cheaper than its cost, or at
/// an unsettled node no cheaper than some frontier entry.
proof fn lemma_walk_bound<W: GraphWeight>(
    e: Map<(u128, u128), W>,
    d: Map<u128, W>,
    done: Set<u128>,
    q: Seq<(W, u128)>,
    start: u128,
    p: Seq<u128>,
)
    requires
        d.contains_key(start),
        d[start].value() == 0,
        forall|v: u128| done.contains(v) ==> #[trigger] d.contains_key(v),
        covered(d, done, q),
        relaxed(e, d, done),
        settled_below(d, done, q),
        is_path(e, p),
        p[0] == start,
    ensures
        done.contains(p.last()) ==> d[p.last()].value() <= path_weight(e, p),
        !done.contains(p.last()) ==> exists|i: int|
            0 <= i < q.len() && #[trigger] q[i].0.value() <= path_weight(e, p),
    decreases p.len(),
{
    if p.len() == 1 {
        if !done.contains(start) {
            let i = choose|i: int| 0 <= i < q.len() && #[trigger] q[i].1 == start && q[i].0.value() == d[start].value();
            assert(q[i].0.value() <= path_weight(e, p));
        }
    } else {
        lemma_path_prefix(e, p);
        let pre = p.drop_last();
        let y = pre.last();
        let z = p.last();
        lemma_walk_bound(e, d, done, q, start, pre);
        lemma_path_push(e, pre, z);
        e[(y, z)].lemma_range();
        if done.contains(y) {
            assert(d.contains_key(z) && d[z].value() <= d[y].value() + e[(y, z)].value());
            if !done.contains(z) {
                let i = choose|i: int| 0 <= i < q.len() && #[trigger] q[i].1 == z && q[i].0.value() == d[z].value();
                assert(q[i].0.value() <= path_weight(e, p));
            }
        } else {
            let i = choose|i: int| 0 <= i < q.len() && #[trigger] q[i].0.value() <= path_weight(e, pre);
            assert(q[i].0.value() <= path_weight(e, p));
            if done.contains(z) {
                assert(d[z].value() <= q[i].0.value());
            }
        }
    }
}

/// Index of a cheapest frontier entry; of equal costs the smallest node wins.
fn cheapest<W: GraphWeight>(q: &Vec<(W, u128)>) -> (r: usize)
    requires
        q.len() > 0,
    ensures
        r < q.len(),
        forall|j: int| 0 <= j < q.len() ==> q@[r as int].0.value() <= #[trigger] q@[j].0.value(),
{
    let mut best: usize = 0;
    let mut j: usize = 1;
    while j < q.len()
        invariant
            best < j <= q.len(),
            forall|k: int| 0 <= k < j ==> q@[best as int].0.value() <= #[trigger] q@[k].0.value(),
        decreases q.len() - j,
    {
        if q[j].0.less_than(&q[best].0) || (!q[best].0.less_than(&q[j].0) && q[j].1 < q[best].1) {
            best = j;
        }
        j = j + 1;
    }
    best
}

impl<W: GraphWeight> OrientedGraph<W> {
    /// The summed weight of all edges.
    pub open spec fn total_weight(&self) -> int {
        edge_total(self@.edges)
    }

    /// Whether the summed weight of all edges fits the weight type, which
    /// `dijkstra` needs.
    pub fn weights_fit(&self) -> (r: bool)
        requires
            self.wf(),
        ensures
            r == (self.total_weight() <= W::limit()),
    {
        proof {
            lemma_total_matches(self.edges@);
        }
        let mut sum = W::zero();
        let mut j: usize = 0;
        while j < self.edges.len()
            invariant
                j <= self.edges.len(),
                weight_from(self.edges@, Set::full()) == self.total_weight(),
                sum.value() == weight_from(self.edges@.take(j as int), Set::full()),
            decreases self.edges.len() - j,
        {
            assert(self.edges@.take(j as int + 1).drop_last() =~= self.edges@.take(j as int));
            match sum.checked_plus(&self.edges[j].1) {
                Some(s) => {
                    sum = s;
                },
                None => {
                    proof {
                        self.lemma_weight_split(j as int + 1);
                    }
                    return false;
                },
            }
            j = j + 1;
        }
        assert(self.edges@.take(self.edges.len() as int) =~= self.edges@);
        proof {
            sum.lemma_range();
        }
        true
    }

    /// The weight of the first `n` edges bounds the weight of all.
    proof fn lemma_weight_split(&self, n: int)
        requires
            0 <= n <= self.edges.len(),
        ensures
            weight_from(self.edges@.take(n), Set::full()) <= weight_from(self.edges@, Set::full()),
        decreases self.edges.len() - n,
    {
        if n < self.edges.len() {
            self.lemma_weight_split(n + 1);
            assert(self.edges@.take(n + 1).drop_last() =~= self.edges@.take(n));
            self.edges@[n].1.lemma_range();
        } else {
            assert(self.edges@.take(n) =~= self.edges@);
        }
    }

    /// A cheapest walk from `start` to `end` with its total weight, or `None`
    /// when no walk leads there. Edges are followed in their direction; a walk
    /// may pass through identifiers that are not nodes of the graph.
    pub fn dijkstra(&self, start: u128, end: u128) -> (r: Option<(Vec<u128>, W)>)
        requires
            self.wf(),
            self.total_weight() <= W::limit(),
        ensures
            match r {
                Some((path, cost)) => {
                    &&& is_path_between(self@.edges, path@, start, end)
                    &&& path_weight(self@.edges, path@) == cost.value()
                    &&& path@.no_duplicates()
                    &&& forall|p: Seq<u128>| #[trigger]
                        is_path_between(self@.edges, p, start, end) ==> cost.value() <= path_weight(self@.edges, p)
                },
                None => !reachable(self@.edges, start, end),
            },
    {
        let ghost e = self@.edges;
        let ghost es = self.edges@;
        proof {
            lemma_total_matches(es);
        }
        let mut frontier: Vec<(W, u128)> = Vec::new();
        let mut from: Vec<(u128, u128)> = Vec::new();
        let mut cost_so_far: Vec<(u128, W)> = Vec::new();
        let zero = W::zero();
        frontier.push((zero, start));
        assoc_put(&mut cost_so_far, start, zero);
        let ghost mut done: Set<u128> = Set::empty();
        let ghost mut rank: Map<u128, nat> = Map::empty();
        let ghost mut nset: nat = 0;
        let ghost targets: Set<u128> = edge_targets(es).to_set().insert(start);
        proof {
            edge_targets(es).lemma_cardinality_of_set();
            lemma_weight_from_nonneg(es, Set::<u128>::empty().remove(start));
            assert(entries_map(cost_so_far@).dom() =~= set![start]);
            assert(covered(entries_map(cost_so_far@), done, frontier@)) by {
                assert(frontier@[0].1 == start);
            }
            lemma_weight_from_mono(es, Set::empty(), Set::full());
        }
        loop
            invariant
                self.wf(),
                e == self@.edges,
                es == self.edges@,
                weight_from(es, Set::full()) <= W::limit(),
                keys_unique(cost_so_far@),
                keys_unique(from@),
                targets == edge_targets(es).to_set().insert(start),
                targets.finite(),
                targets.len() <= es.len() + 1,
                ({
                    let d = entries_map(cost_so_far@);
                    let f = entries_map(from@);
                    let q = frontier@;
                    &&& d.contains_key(start)
                    &&& d[start].value() == 0
                    &&& forall|v: u128| #[trigger] d.contains_key(v) ==> targets.contains(v)
                    &&& forall|v: u128| done.contains(v) ==> #[trigger] d.contains_key(v)
                    &&& forall|i: int|
                        0 <= i < q.len() ==> d.contains_key(#[trigger] q[i].1) && d[q[i].1].value()
                            <= q[i].0.value() && (done.contains(q[i].1) ==> d[q[i].1].value()
                            < q[i].0.value())
                    &&& forall|i: int, j: int|
                        0 <= i < q.len() && 0 <= j < q.len() && i != j && #[trigger] q[i].1
                            == #[trigger] q[j].1 ==> !(q[i].0.value() == d[q[i].1].value()
                            && q[j].0.value() == d[q[j].1].value())
                    &&& covered(d, done, q)
                    &&& relaxed(e, d, done)
                    &&& settled_below(d, done, q)
                    &&& forall|v: u128|
                        #[trigger] d.contains_key(v) && v != start ==> f.contains_key(v) && done.contains(
                            f[v],
                        ) && e.contains_key((f[v], v)) && d[v].value() == d[f[v]].value() + e[(
                            f[v],
                            v,
                        )].value()
                    &&& forall|v: u128| #[trigger]
                        done.contains(v) ==> rank.contains_key(v) && rank[v] < nset
                    &&& forall|v: u128|
                        #[trigger] done.contains(v) && v != start ==> rank[f[v]] < rank[v]
                    &&& !done.contains(end)
                    &&& forall|v: u128| #[trigger]
                        d.contains_key(v) ==> d[v].value() <= weight_from(es, done.remove(v))
                }),
            decreases es.len() + 1 - done.len(), frontier.len(),
        {
            let ghost d0 = entries_map(cost_so_far@);
            proof {
                assert forall|v: u128| done.contains(v) implies targets.contains(v) by {
                    assert(d0.contains_key(v));
                }
                vstd::set_lib::lemma_len_subset(done, targets);
            }
            if frontier.len() == 0 {
                proof {
                    assert forall|p: Seq<u128>| !#[trigger] is_path_between(e, p, start, end) by {
                        if is_path_between(e, p, start, end) {
                            lemma_walk_bound(e, d0, done, frontier@, start, p);
                        }
                    }
                }
                return None;
            }
            let i = cheapest(&frontier);
            let ghost q0 = frontier@;
            let (c, u) = frontier.remove(i);
            proof {
                assert(q0[i as int] == (c, u));
            }
            if u == end {
                proof {
                    assert forall|p: Seq<u128>| #[trigger] is_path_between(e, p, start, end) implies d0[end].value()
                        <= path_weight(e, p) by {
                        lemma_walk_bound(e, d0, done, q0, start, p);
                    }
                }
                return Some(self.trace_back(&from, &cost_so_far, start, end, Ghost(done), Ghost(rank), Ghost(nset)));
            }
            let du = assoc_get(&cost_so_far, u).unwrap();
            // An entry whose node has since been reached more cheaply is
            // stale: that node is settled already, and relaxing it again
            // would change nothing.
            if du.less_than(&c) {
                proof {
                    assert(covered(d0, done, frontier@)) by {
                        assert forall|v: u128| #[trigger] d0.contains_key(v) && !done.contains(v) implies exists|k: int|
                            0 <= k < frontier@.len() && #[trigger] frontier@[k].1 == v && frontier@[k].0.value() == d0[v].value() by {
                            let k = choose|k: int| 0 <= k < q0.len() && #[trigger] q0[k].1 == v && q0[k].0.value() == d0[v].value();
                            let k2 = if k < i { k } else { k - 1 };
                            assert(frontier@[k2] == q0[k]);
                        }
                    }
                    assert forall|a: int, b: int| 0 <= a < frontier@.len() && 0 <= b < frontier@.len() && a != b && #[trigger] frontier@[a].1 == #[trigger] frontier@[b].1 implies !(frontier@[a].0.value() == d0[frontier@[a].1].value() && frontier@[b].0.value() == d0[frontier@[b].1].value()) by {
                        let a2 = if a < i { a } else { a + 1 };
                        let b2 = if b < i { b } else { b + 1 };
                        assert(frontier@[a] == q0[a2] && frontier@[b] == q0[b2]);
                    }
                }
                continue;
            }
            // `u` is settled now: its cost is final.
            let ghost done0 = done;
            proof {
                assert(du.value() == c.value());
                assert(!done.contains(u));
                assert forall|y: u128| done.contains(y) implies #[trigger] d0[y].value() <= du.value() by {
                    assert(d0[y].value() <= q0[i as int].0.value());
                }
                done = done.insert(u);
                assert(done.remove(u) =~= done0);
                rank = rank.insert(u, nset);
                nset = nset + 1;
                assert forall|v: u128| #[trigger] d0.contains_key(v) implies d0[v].value() <= weight_from(es, done.remove(v)) by {
                    lemma_weight_from_mono(es, done0.remove(v), done.remove(v));
                }
                assert(covered(d0, done, frontier@)) by {
                    assert forall|v: u128| #[trigger] d0.contains_key(v) && !done.contains(v) implies exists|k: int|
                        0 <= k < frontier@.len() && #[trigger] frontier@[k].1 == v && frontier@[k].0.value() == d0[v].value() by {
                        let k = choose|k: int| 0 <= k < q0.len() && #[trigger] q0[k].1 == v && q0[k].0.value() == d0[v].value();
                        let k2 = if k < i { k } else { k - 1 };
                        assert(frontier@[k2] == q0[k]);
                    }
                }
                assert forall|a: int, b: int| 0 <= a < frontier@.len() && 0 <= b < frontier@.len() && a != b && #[trigger] frontier@[a].1 == #[trigger] frontier@[b].1 implies !(frontier@[a].0.value() == d0[frontier@[a].1].value() && frontier@[b].0.value() == d0[frontier@[b].1].value()) by {
                    let a2 = if a < i { a } else { a + 1 };
                    let b2 = if b < i { b } else { b + 1 };
                    assert(frontier@[a] == q0[a2] && frontier@[b] == q0[b2]);
                }
                assert forall|a: int| 0 <= a < frontier@.len() implies d0.contains_key(#[trigger] frontier@[a].1) && d0[frontier@[a].1].value()
                    <= frontier@[a].0.value() && (done.contains(frontier@[a].1) ==> d0[frontier@[a].1].value()
                    < frontier@[a].0.value()) by {
                    let a2 = if a < i { a } else { a + 1 };
                    assert(frontier@[a] == q0[a2]);
                    assert(a2 != i);
                }
                assert(settled_below(d0, done, frontier@)) by {
                    assert forall|y: u128, a: int| done.contains(y) && 0 <= a < frontier@.len() implies #[trigger] d0[y].value() <= #[trigger] frontier@[a].0.value() by {
                        let a2 = if a < i { a } else { a + 1 };
                        assert(frontier@[a] == q0[a2]);
                    }
                }
                assert forall|v: u128| done.contains(v) implies targets.contains(v) by {
                    assert(d0.contains_key(v));
                }
                vstd::set_lib::lemma_len_subset(done, targets);
                let f0 = entries_map(from@);
                assert(d0.contains_key(u) && d0[u] == du);
                assert(forall|y: u128| #[trigger] done.contains(y) ==> d0[y].value() <= du.value());
                assert(relaxed(e, d0, done.remove(u)));
                assert(forall|v: u128| #[trigger] done.contains(v) ==> rank.contains_key(v) && rank[v] < nset);
                assert forall|v: u128| #[trigger] done.contains(v) && v != start implies rank[f0[v]] < rank[v] by {
                    if v == u {
                        assert(done0.contains(f0[u]));
                    } else {
                        assert(done0.contains(v));
                        assert(d0.contains_key(v));
                        assert(done0.contains(f0[v]));
                    }
                }
                assert(forall|v: u128|
                    #[trigger] d0.contains_key(v) && v != start ==> f0.contains_key(v) && done.contains(f0[v]));
            }
            let nbrs = self.neighbors_out(u);
            let mut k: usize = 0;
            while k < nbrs.len()
                invariant
                    self.wf(),
                    e == self@.edges,
                    es == self.edges@,
                    weight_from(es, Set::full()) <= W::limit(),
                    keys_unique(cost_so_far@),
                    keys_unique(from@),
                    keys_unique(nbrs@),
                    targets == edge_targets(es).to_set().insert(start),
                    entries_map(nbrs@) == out_map(e, u),
                    k <= nbrs.len(),
                    done.contains(u),
                    u != end,
                    ({
                        let d = entries_map(cost_so_far@);
                        let f = entries_map(from@);
                        let q = frontier@;
                        &&& d.contains_key(start)
                        &&& d[start].value() == 0
                        &&& d.contains_key(u)
                        &&& d[u] == du
                        &&& forall|y: u128| #[trigger] done.contains(y) ==> d[y].value() <= du.value()
                        &&& forall|v: u128| #[trigger] d.contains_key(v) ==> targets.contains(v)
                        &&& forall|v: u128| done.contains(v) ==> #[trigger] d.contains_key(v)
                        &&& forall|a: int|
                            0 <= a < q.len() ==> d.contains_key(#[trigger] q[a].1) && d[q[a].1].value()
                                <= q[a].0.value() && (done.contains(q[a].1) ==> d[q[a].1].value()
                                < q[a].0.value())
                        &&& forall|a: int, b: int|
                            0 <= a < q.len() && 0 <= b < q.len() && a != b && #[trigger] q[a].1
                                == #[trigger] q[b].1 ==> !(q[a].0.value() == d[q[a].1].value()
                                && q[b].0.value() == d[q[b].1].value())
                        &&& covered(d, done, q)
                        &&& relaxed(e, d, done.remove(u))
                        &&& forall|a: int| 0 <= a < k ==> d.contains_key(#[trigger] nbrs@[a].0) && d[nbrs@[a].0].value() <= du.value() + e[(u, nbrs@[a].0)].value()
                        &&& settled_below(d, done, q)
                        &&& forall|v: u128|
                            #[trigger] d.contains_key(v) && v != start ==> f.contains_key(v) && done.contains(
                                f[v],
                            ) && e.contains_key((f[v], v)) && d[v].value() == d[f[v]].value() + e[(
                                f[v],
                                v,
                            )].value()
                        &&& forall|v: u128| #[trigger]
                            done.contains(v) ==> rank.contains_key(v) && rank[v] < nset
                        &&& forall|v: u128|
                            #[trigger] done.contains(v) && v != start ==> rank[f[v]] < rank[v]
                        &&& !done.contains(end)
                        &&& forall|v: u128| #[trigger]
                            d.contains_key(v) ==> d[v].value() <= weight_from(es, done.remove(v))
                    }),
                decreases nbrs.len() - k,
            {
                let (x, w) = nbrs[k];
                let ghost d1 = entries_map(cost_so_far@);
                let ghost f1 = entries_map(from@);
                let ghost q1 = frontier@;
                proof {
                    lemma_entries_index(nbrs@, k as int);
                    assert(e.contains_key((u, x)) && e[(u, x)] == w);
                    lemma_entries_dom(es, (u, x));
                    let j = choose|j: int| 0 <= j < es.len() && #[trigger] es[j].0 == (u, x);
                    lemma_entries_index(es, j);
                    lemma_weight_from_edge(es, done, j);
                    assert(done.remove(u).insert(u) =~= done);
                    lemma_weight_from_mono(es, done, Set::full());
                    w.lemma_range();
                    du.lemma_range();
                    assert(edge_targets(es)[j] == x);
                    assert(edge_targets(es).contains(x));
                    assert(targets.contains(x));
                }
                let new_cost = du.plus(&w);
                let better = match assoc_get(&cost_so_far, x) {
                    Some(old_cost) => new_cost.less_than(&old_cost),
                    None => true,
                };
                if better {
                    proof {
                        assert(!done.contains(x));
                        assert(x != start);
                        assert(done.remove(x) =~= done);
                    }
                    assoc_put(&mut cost_so_far, x, new_cost);
                    assoc_put(&mut from, x, u);
                    frontier.push((new_cost, x));
                    proof {
                        let d = entries_map(cost_so_far@);
                        let f = entries_map(from@);
                        let q = frontier@;
                        assert(q[q.len() - 1] == (new_cost, x));
                        assert forall|a: int| 0 <= a < q.len() implies d.contains_key(#[trigger] q[a].1) && d[q[a].1].value()
                            <= q[a].0.value() && (done.contains(q[a].1) ==> d[q[a].1].value()
                            < q[a].0.value()) by {
                            if a < q1.len() {
                                assert(q[a] == q1[a]);
                            }
                        }
                        assert forall|a: int, b: int|
                            0 <= a < q.len() && 0 <= b < q.len() && a != b && #[trigger] q[a].1
                                == #[trigger] q[b].1 implies !(q[a].0.value() == d[q[a].1].value()
                                && q[b].0.value() == d[q[b].1].value()) by {
                            if a < q1.len() {
                                assert(q[a] == q1[a]);
                            }
                            if b < q1.len() {
                                assert(q[b] == q1[b]);
                            }
                        }
                        assert(covered(d, done, q)) by {
                            assert forall|v: u128| #[trigger] d.contains_key(v) && !done.contains(v) implies exists|a: int|
                                0 <= a < q.len() && #[trigger] q[a].1 == v && q[a].0.value() == d[v].value() by {
                                if v != x {
                                    let a = choose|a: int| 0 <= a < q1.len() && #[trigger] q1[a].1 == v && q1[a].0.value() == d1[v].value();
                                    assert(q[a] == q1[a]);
                                } else {
                                    assert(q[q.len() - 1].1 == x);
                                }
                            }
                        }
                        assert(settled_below(d, done, q)) by {
                            assert forall|y: u128, a: int| done.contains(y) && 0 <= a < q.len() implies #[trigger] d[y].value() <= #[trigger] q[a].0.value() by {
                                if a < q1.len() {
                                    assert(q[a] == q1[a]);
                                }
                            }
                        }
                        assert(relaxed(e, d, done.remove(u)));
                        assert forall|a: int| 0 <= a < k + 1 implies d.contains_key(#[trigger] nbrs@[a].0) && d[nbrs@[a].0].value() <= du.value() + e[(u, nbrs@[a].0)].value() by {
                        }
                        assert forall|v: u128|
                            #[trigger] d.contains_key(v) && v != start implies f.contains_key(v) && done.contains(
                                f[v],
                            ) && e.contains_key((f[v], v)) && d[v].value() == d[f[v]].value() + e[(
                                f[v],
                                v,
                            )].value() by {
                            if v != x {
                                assert(f1[v] != x);
                            }
                        }
                        assert forall|v: u128| #[trigger] done.contains(v) && v != start implies rank[f[v]] < rank[v] by {
                            assert(v != x);
                        }
                    }
                }
                k = k + 1;
            }
            proof {
                let d = entries_map(cost_so_far@);
                assert(relaxed(e, d, done)) by {
                    assert forall|y: u128, x: u128| done.contains(y) && #[trigger] e.contains_key((y, x)) implies d.contains_key(x) && d[x].value()
                        <= d[y].value() + e[(y, x)].value() by {
                        if y == u {
                            assert(out_map(e, u).contains_key(x));
                            lemma_entries_dom(nbrs@, x);
                            let a = choose|a: int| 0 <= a < nbrs@.len() && #[trigger] nbrs@[a].0 == x;
                        } else {
                            assert(done.remove(u).contains(y));
                        }
                    }
                }
            }
        }
    }

    /// Follows the recorded predecessors back from `end` to `start`.
    fn trace_back(
        &self,
        from: &Vec<(u128, u128)>,
        cost_so_far: &Vec<(u128, W)>,
        start: u128,
        end: u128,
        Ghost(done): Ghost<Set<u128>>,
        Ghost(rank): Ghost<Map<u128, nat>>,
        Ghost(nset): Ghost<nat>,
    ) -> (r: (Vec<u128>, W))
        requires
            self.wf(),
            keys_unique(cost_so_far@),
            keys_unique(from@),
            ({
                let d = entries_map(cost_so_far@);
                let f = entries_map(from@);
                let e = self@.edges;
                &&& d.contains_key(start)
                &&& d[start].value() == 0
                &&& d.contains_key(end)
                &&& forall|v: u128| done.contains(v) ==> #[trigger] d.contains_key(v)
                &&& forall|v: u128|
                    #[trigger] d.contains_key(v) && v != start ==> f.contains_key(v) && done.contains(
                        f[v],
                    ) && e.contains_key((f[v], v)) && d[v].value() == d[f[v]].value() + e[(
                        f[v],
                        v,
                    )].value()
                &&& forall|v: u128| #[trigger]
                    done.contains(v) ==> rank.contains_key(v) && rank[v] < nset
                &&& forall|v: u128|
                    #[trigger] done.contains(v) && v != start ==> rank[f[v]] < rank[v]
                &&& !done.contains(end)
            }),
        ensures
            is_path_between(self@.edges, r.0@, start, end),
            path_weight(self@.edges, r.0@) == r.1.value(),
            r.1 == entries_map(cost_so_far@)[end],
            r.0@.no_duplicates(),
    {
        let ghost d = entries_map(cost_so_far@);
        let ghost f = entries_map(from@);
        let ghost e = self@.edges;
        let mut path: Vec<u128> = Vec::new();
        path.push(end);
        let mut current = end;
        while current != start
            invariant
                d == entries_map(cost_so_far@),
                f == entries_map(from@),
                e == self@.edges,
                keys_unique(from@),
                d.contains_key(current),
                d.contains_key(start),
                d[start].value() == 0,
                forall|v: u128| done.contains(v) ==> #[trigger] d.contains_key(v),
                forall|v: u128|
                    #[trigger] d.contains_key(v) && v != start ==> f.contains_key(v) && done.contains(
                        f[v],
                    ) && e.contains_key((f[v], v)) && d[v].value() == d[f[v]].value() + e[(
                        f[v],
                        v,
                    )].value(),
                forall|v: u128| #[trigger] done.contains(v) ==> rank.contains_key(v) && rank[v] < nset,
                forall|v: u128| #[trigger] done.contains(v) && v != start ==> rank[f[v]] < rank[v],
                is_path_between(e, path@, current, end),
                !done.contains(end),
                forall|i: int| 0 <= i < path.len() - 1 ==> #[trigger] done.contains(path@[i]),
                forall|i: int, j: int| 0 <= i < j < path.len() - 1 ==> #[trigger] rank[path@[i]] < #[trigger] rank[path@[j]],
                path_weight(e, path@) + d[current].value() == d[end].value(),
            decreases (if done.contains(current) { rank[current] as int } else { nset as int }),
        {
            let prev = assoc_get(from, current).unwrap();
            let ghost old_path = path@;
            proof {
                let p2 = seq![prev] + path@;
                assert(p2.drop_first() =~= path@);
                assert forall|i: int| 0 <= i < p2.len() - 1 implies #[trigger] e.contains_key((p2[i], p2[i + 1])) by {
                    if i > 0 {
                        assert(p2[i] == path@[i - 1] && p2[i + 1] == path@[i]);
                    }
                }
            }
            path.insert(0, prev);
            proof {
                assert(path@ =~= seq![prev] + old_path);
                assert(path@[1] == current);
                assert(done.contains(prev));
                if old_path.len() >= 2 {
                    assert(done.contains(old_path[0]));
                    assert(rank[prev] < rank[current]);
                }
                assert forall|i: int, j: int| 0 <= i < j < path.len() - 1 implies #[trigger] rank[path@[i]] < #[trigger] rank[path@[j]] by {
                    if i == 0 && j > 1 {
                        assert(rank[old_path[0]] < rank[old_path[j - 1]]);
                    }
                    if i > 0 {
                        assert(path@[i] == old_path[i - 1] && path@[j] == old_path[j - 1]);
                    }
                }
                assert forall|i: int| 0 <= i < path.len() - 1 implies #[trigger] done.contains(path@[i]) by {
                    if i > 0 {
                        assert(path@[i] == old_path[i - 1]);
                    }
                }
            }
            current = prev;
        }
        proof {
            assert forall|i: int, j: int| 0 <= i < path.len() && 0 <= j < path.len() && i != j implies path@[i] != path@[j] by {
                let (a, b) = if i < j { (i, j) } else { (j, i) };
                if b == path.len() - 1 {
                    assert(done.contains(path@[a]));
                } else {
                    assert(rank[path@[a]] < rank[path@[b]]);
                }
            }
        }
        let cost = assoc_get(cost_so_far, end).unwrap();
        (path, cost)
    }
}

} // verus!
