use vstd::prelude::*;

use crate::entries::{entries_map, keys_unique, lemma_entries_dom, lemma_entries_index};
use crate::node::Color;
use crate::oriented::{in_map, GraphView, OrientedGraph};
use crate::weight::GraphWeight;

verus! {

/// Class `c` is held by an in-neighbour of `order[i]` that comes before it
/// in `order`.
pub open spec fn blocked<W>(
    edges: Map<(u128, u128), W>,
    order: Seq<u128>,
    classes: Seq<u32>,
    i: int,
    c: int,
) -> bool {
    exists|j: int|
        0 <= j < i && #[trigger] edges.contains_key((order[j], order[i])) && classes[j] == c
}

/// `classes[i]` is the least positive class not blocked at `order[i]`.
pub open spec fn is_greedy_class<W>(
    edges: Map<(u128, u128), W>,
    order: Seq<u128>,
    classes: Seq<u32>,
    i: int,
) -> bool {
    &&& classes[i] >= 1
    &&& !blocked(edges, order, classes, i, classes[i] as int)
    &&& forall|c: int| 1 <= c < classes[i] ==> #[trigger] blocked(edges, order, classes, i, c)
}

/// `classes` gives each node of `order`, walked in sequence, the least
/// positive class that none of its earlier in-neighbours holds.
pub open spec fn is_greedy_coloring<W>(
    edges: Map<(u128, u128), W>,
    order: Seq<u128>,
    classes: Seq<u32>,
) -> bool {
    &&& classes.len() == order.len()
    &&& forall|i: int| 0 <= i < order.len() ==> #[trigger] is_greedy_class(edges, order, classes, i)
}

/// No identifier occurs twice.
pub open spec fn distinct(s: Seq<u128>) -> bool {
    forall|i: int, j: int| 0 <= i < j < s.len() ==> s[i] != s[j]
}

/// The largest class, and at least 1.
pub open spec fn max_class(classes: Seq<u32>) -> int
    decreases classes.len(),
{
    if classes.len() == 0 {
        1
    } else {
        let m = max_class(classes.drop_last());
        if classes.last() > m {
            classes.last() as int
        } else {
            m
        }
    }
}

/// The number of entries of `s` at or above `c`.
spec fn count_at_least(s: Seq<u32>, c: int) -> nat
    decreases s.len(),
{
    if s.len() == 0 {
        0
    } else {
        count_at_least(s.drop_last(), c) + if s.last() >= c {
            1nat
        } else {
            0
        }
    }
}

proof fn lemma_count_step(s: Seq<u32>, c: int)
    requires
        s.contains(c as u32),
        0 <= c <= u32::MAX,
    ensures
        count_at_least(s, c + 1) < count_at_least(s, c),
    decreases s.len(),
{
    lemma_count_mono(s.drop_last(), c);
    if s.last() != c {
        let k = choose|k: int| 0 <= k < s.len() && s[k] == c as u32;
        assert(s.drop_last()[k] == c as u32);
        lemma_count_step(s.drop_last(), c);
    }
}

proof fn lemma_count_mono(s: Seq<u32>, c: int)
    ensures
        count_at_least(s, c + 1) <= count_at_least(s, c),
    decreases s.len(),
{
    if s.len() > 0 {
        lemma_count_mono(s.drop_last(), c);
    }
}

proof fn lemma_max_class(classes: Seq<u32>)
    ensures
        max_class(classes) >= 1,
        forall|i: int| 0 <= i < classes.len() ==> classes[i] <= max_class(classes),
        classes.len() > 0 && classes[0] >= 1 ==> exists|i: int| 0 <= i < classes.len() && classes[i] == max_class(classes),
        classes.len() == 0 ==> max_class(classes) == 1,
    decreases classes.len(),
{
    if classes.len() > 0 {
        let t = classes.drop_last();
        lemma_max_class(t);
        assert forall|i: int| 0 <= i < classes.len() implies classes[i] <= max_class(classes) by {
            if i < t.len() {
                assert(classes[i] == t[i]);
            }
        }
        if classes[0] >= 1 && t.len() > 0 {
            assert(t[0] == classes[0]);
            if classes.last() <= max_class(t) {
                let i = choose|i: int| 0 <= i < t.len() && t[i] == max_class(t);
                assert(classes[i] == t[i]);
            }
        }
        if t.len() == 0 && classes.last() <= 1 {
            assert(classes[0] == classes.last());
        }
    }
}

/// Greedy colouring gives the two ends of an edge different classes when the
/// source comes first in the order.
pub proof fn lemma_greedy_proper<W>(edges: Map<(u128, u128), W>, order: Seq<u128>, classes: Seq<u32>)
    requires
        is_greedy_coloring(edges, order, classes),
    ensures
        forall|i: int, j: int|
            0 <= i < j < order.len() && #[trigger] edges.contains_key((order[i], order[j]))
                ==> classes[i] != classes[j],
{
    assert forall|i: int, j: int|
        0 <= i < j < order.len() && #[trigger] edges.contains_key((order[i], order[j])) implies classes[i]
        != classes[j] by {
        assert(is_greedy_class(edges, order, classes, j));
        if classes[i] == classes[j] {
            assert(blocked(edges, order, classes, j, classes[j] as int));
        }
    }
}

/// For one edge set and one order there is only one greedy colouring: running
/// it again gives the same classes.
pub proof fn lemma_greedy_unique<W>(
    edges: Map<(u128, u128), W>,
    order: Seq<u128>,
    a: Seq<u32>,
    b: Seq<u32>,
)
    requires
        is_greedy_coloring(edges, order, a),
        is_greedy_coloring(edges, order, b),
    ensures
        a == b,
{
    lemma_greedy_prefix(edges, order, a, b, order.len() as int);
    assert(a =~= b);
}

proof fn lemma_greedy_prefix<W>(
    edges: Map<(u128, u128), W>,
    order: Seq<u128>,
    a: Seq<u32>,
    b: Seq<u32>,
    n: int,
)
    requires
        is_greedy_coloring(edges, order, a),
        is_greedy_coloring(edges, order, b),
        0 <= n <= order.len(),
    ensures
        forall|k: int| 0 <= k < n ==> a[k] == b[k],
    decreases n,
{
    if n > 0 {
        lemma_greedy_prefix(edges, order, a, b, n - 1);
        let i = n - 1;
        assert forall|c: int| blocked(edges, order, a, i, c) <==> blocked(edges, order, b, i, c) by {
            if blocked(edges, order, a, i, c) {
                let j = choose|j: int| 0 <= j < i && #[trigger] edges.contains_key((order[j], order[i])) && a[j] == c;
                assert(b[j] == c);
            }
            if blocked(edges, order, b, i, c) {
                let j = choose|j: int| 0 <= j < i && #[trigger] edges.contains_key((order[j], order[i])) && b[j] == c;
                assert(a[j] == c);
            }
        }
        assert(is_greedy_class(edges, order, a, i));
        assert(is_greedy_class(edges, order, b, i));
        if a[i] < b[i] {
            assert(blocked(edges, order, b, i, a[i] as int));
        }
        if b[i] < a[i] {
            assert(blocked(edges, order, a, i, b[i] as int));
        }
    }
}

/// `after` is `before` coloured greedily along `order` with largest class
/// `r`: edges, identifiers, names and positions are kept, and each node of
/// `order` is painted with the palette colour of its class, from a palette
/// of one colour per class (index 0 unused).
pub open spec fn painted<W>(before: GraphView<W>, after: GraphView<W>, order: Seq<u128>, r: u32) -> bool {
    &&& after.edges == before.edges
    &&& after.last_id == before.last_id
    &&& after.nodes.dom() == before.nodes.dom()
    &&& forall|id: u128| #[trigger] before.nodes.contains_key(id) ==> after.nodes[id].name
        == before.nodes[id].name && after.nodes[id].pos == before.nodes[id].pos
    &&& exists|classes: Seq<u32>, palette: Seq<Color>| {
        &&& is_greedy_coloring(before.edges, order, classes)
        &&& r == max_class(classes)
        &&& palette.len() == r + 1
        &&& forall|i: int|
            0 <= i < order.len() ==> after.nodes[#[trigger] order[i]].color == palette[classes[i] as int]
    }
}

/// Relies on rand's SliceRandom::shuffle, driven by rand::rng: it only swaps
/// elements, so the result reorders `v`.
#[verifier::external_body]
fn shuffled(v: Vec<u128>) -> (r: Vec<u128>)
    ensures
        r@.to_multiset() == v@.to_multiset(),
{
    let mut v = v;
    rand::seq::SliceRandom::shuffle(v.as_mut_slice(), &mut rand::rng());
    v
}

/// Relies on rand::random for a uniformly drawn byte; nothing is assumed of
/// its value.
#[verifier::external_body]
fn random_channel() -> (r: u8) {
    rand::random::<u8>()
}

/// Whether `v` holds `c`.
fn holds(v: &Vec<u32>, c: u32) -> (r: bool)
    ensures
        r == v@.contains(c),
{
    let mut i: usize = 0;
    while i < v.len()
        invariant
            i <= v.len(),
            forall|k: int| 0 <= k < i ==> v@[k] != c,
        decreases v.len() - i,
    {
        if v[i] == c {
            return true;
        }
        i = i + 1;
    }
    false
}

impl<W: GraphWeight> OrientedGraph<W> {
    /// The greedy class of each node of `order`, walked in sequence: the
    /// least positive class that none of its in-neighbours coloured before
    /// it holds.
    pub fn color_classes(&self, order: &Vec<u128>) -> (classes: Vec<u32>)
        requires
            self.wf(),
            distinct(order@),
            order.len() < u32::MAX,
        ensures
            is_greedy_coloring(self@.edges, order@, classes@),
            forall|i: int| 0 <= i < classes.len() ==> #[trigger] classes@[i] <= i + 1,
    {
        let ghost e = self@.edges;
        let mut classes: Vec<u32> = Vec::new();
        let mut i: usize = 0;
        while i < order.len()
            invariant
                self.wf(),
                e == self@.edges,
                distinct(order@),
                order.len() < u32::MAX,
                i <= order.len(),
                classes.len() == i,
                forall|k: int| 0 <= k < i ==> #[trigger] classes@[k] <= k + 1,
                forall|k: int| 0 <= k < i ==> #[trigger] is_greedy_class(e, order@, classes@, k),
            decreases order.len() - i,
        {
            let v = order[i];
            let ins = self.neighbors_in(v);
            // The classes of the in-neighbours coloured so far.
            let mut taken: Vec<u32> = Vec::new();
            let mut k: usize = 0;
            while k < ins.len()
                invariant
                    self.wf(),
                    e == self@.edges,
                    distinct(order@),
                    i < order.len() < u32::MAX,
                    v == order@[i as int],
                    classes.len() == i,
                    forall|k: int| 0 <= k < i ==> #[trigger] classes@[k] <= k + 1,
                    keys_unique(ins@),
                    entries_map(ins@) == in_map(e, v),
                    k <= ins.len(),
                    forall|c: u32| #[trigger] taken@.contains(c) ==> blocked(e, order@, classes@, i as int, c as int),
                    forall|j: int| 0 <= j < i && e.contains_key((order@[j], v)) && (exists|m: int| 0 <= m < k && #[trigger] ins@[m].0 == order@[j]) ==> taken@.contains(#[trigger] classes@[j]),
                    forall|m: int| 0 <= m < taken.len() ==> #[trigger] taken@[m] <= i,
                decreases ins.len() - k,
            {
                let s = ins[k].0;
                proof {
                    lemma_entries_index(ins@, k as int);
                }
                let mut j: usize = 0;
                while j < i
                    invariant
                        j <= i < order.len(),
                        classes.len() == i,
                        forall|m: int| 0 <= m < j ==> order@[m] != s,
                    ensures
                        j <= i,
                        j < i ==> order@[j as int] == s,
                        forall|m: int| 0 <= m < j ==> order@[m] != s,
                    decreases i - j,
                {
                    if order[j] == s {
                        break;
                    }
                    j = j + 1;
                }
                let ghost old_taken = taken@;
                if j < i {
                    taken.push(classes[j]);
                    proof {
                        assert(taken@.last() == classes@[j as int]);
                        assert(e.contains_key((order@[j as int], v)));
                        assert forall|c: u32| #[trigger] taken@.contains(c) implies blocked(e, order@, classes@, i as int, c as int) by {
                            if c != classes@[j as int] {
                                let m = choose|m: int| 0 <= m < taken.len() && taken@[m] == c;
                                assert(old_taken[m] == c);
                                assert(old_taken.contains(c));
                            } else {
                                assert(e.contains_key((order@[j as int], order@[i as int])));
                            }
                        }
                    }
                }
                proof {
                    assert forall|jj: int| 0 <= jj < i && e.contains_key((order@[jj], v)) && (exists|m: int| 0 <= m < k + 1 && #[trigger] ins@[m].0 == order@[jj]) implies taken@.contains(#[trigger] classes@[jj]) by {
                        let m = choose|m: int| 0 <= m < k + 1 && #[trigger] ins@[m].0 == order@[jj];
                        if m < k {
                            let w = choose|w: int| 0 <= w < old_taken.len() && old_taken[w] == classes@[jj];
                            assert(taken@[w] == classes@[jj]);
                        } else {
                            assert(jj == j);
                            assert(taken@[taken.len() - 1] == classes@[jj]);
                        }
                    }
                }
                k = k + 1;
            }
            proof {
                assert forall|c: int| blocked(e, order@, classes@, i as int, c) implies taken@.contains(c as u32) by {
                    let j = choose|j: int| 0 <= j < i && #[trigger] e.contains_key((order@[j], order@[i as int])) && classes@[j] == c;
                    assert(in_map(e, v).contains_key(order@[j]));
                    lemma_entries_dom(ins@, order@[j]);
                    let m = choose|m: int| 0 <= m < ins.len() && #[trigger] ins@[m].0 == order@[j];
                    assert(taken@.contains(classes@[j]));
                }
            }
            let mut col: u32 = 1;
            while holds(&taken, col)
                invariant
                    1 <= col <= i + 1,
                    i < u32::MAX,
                    forall|m: int| 0 <= m < taken.len() ==> #[trigger] taken@[m] <= i,
                    forall|c: u32| 1 <= c < col ==> #[trigger] taken@.contains(c),
                decreases count_at_least(taken@, col as int),
            {
                proof {
                    lemma_count_step(taken@, col as int);
                    let m = choose|m: int| 0 <= m < taken.len() && taken@[m] == col;
                }
                col = col + 1;
            }
            let ghost before = classes@;
            proof {
                assert(!taken@.contains(col));
                assert(!blocked(e, order@, before, i as int, col as int));
                assert forall|c: int| 1 <= c < col implies #[trigger] blocked(e, order@, before, i as int, c) by {
                    assert(taken@.contains(c as u32));
                }
            }
            classes.push(col);
            proof {
                assert(classes@[i as int] == col);
                assert(!blocked(e, order@, classes@, i as int, col as int)) by {
                    if blocked(e, order@, classes@, i as int, col as int) {
                        let j = choose|j: int| 0 <= j < i && #[trigger] e.contains_key((order@[j], order@[i as int])) && classes@[j] == col;
                        assert(before[j] == col);
                    }
                }
                assert forall|c: int| 1 <= c < col implies #[trigger] blocked(e, order@, classes@, i as int, c) by {
                    assert(blocked(e, order@, before, i as int, c));
                    let j = choose|j: int| 0 <= j < i && #[trigger] e.contains_key((order@[j], order@[i as int])) && before[j] == c;
                    assert(classes@[j] == c);
                }
                assert(is_greedy_class(e, order@, classes@, i as int));
                assert forall|k: int| 0 <= k < i + 1 implies #[trigger] is_greedy_class(e, order@, classes@, k) by {
                    if k < i {
                        assert(is_greedy_class(e, order@, before, k));
                        assert(classes@[k] == before[k]);
                        assert(!blocked(e, order@, classes@, k, classes@[k] as int)) by {
                            if blocked(e, order@, classes@, k, classes@[k] as int) {
                                let j = choose|j: int| 0 <= j < k && #[trigger] e.contains_key((order@[j], order@[k])) && classes@[j] == classes@[k];
                                assert(before[j] == before[k]);
                            }
                        }
                        assert forall|c: int| 1 <= c < classes@[k] implies #[trigger] blocked(e, order@, classes@, k, c) by {
                            assert(blocked(e, order@, before, k, c));
                            let j = choose|j: int| 0 <= j < k && #[trigger] e.contains_key((order@[j], order@[k])) && before[j] == c;
                            assert(classes@[j] == c);
                        }
                    }
                }
            }
            i = i + 1;
        }
        classes
    }

    /// Paints each node `order[i]` with `palette[classes[i]]`, keeping
    /// everything else.
    pub fn paint(&mut self, order: &Vec<u128>, classes: &Vec<u32>, palette: &Vec<Color>)
        requires
            old(self).wf(),
            classes.len() == order.len(),
            distinct(order@),
            forall|m: int| 0 <= m < order.len() ==> old(self)@.nodes.contains_key(#[trigger] order@[m]),
            forall|m: int| 0 <= m < classes.len() ==> #[trigger] classes@[m] < palette.len(),
        ensures
            final(self).wf(),
            final(self)@.edges == old(self)@.edges,
            final(self)@.last_id == old(self)@.last_id,
            final(self)@.nodes.dom() == old(self)@.nodes.dom(),
            forall|id: u128| #[trigger] old(self)@.nodes.contains_key(id) ==> final(self)@.nodes[id].name
                == old(self)@.nodes[id].name && final(self)@.nodes[id].pos == old(self)@.nodes[id].pos,
            forall|m: int| 0 <= m < order.len() ==> final(self)@.nodes[#[trigger] order@[m]].color == palette@[classes@[m] as int],
    {
        let ghost g0 = self@;
        let mut k: usize = 0;
        while k < order.len()
            invariant
                self.wf(),
                k <= order.len(),
                classes.len() == order.len(),
                forall|m: int| 0 <= m < classes.len() ==> #[trigger] classes@[m] < palette.len(),
                distinct(order@),
                forall|m: int| 0 <= m < order.len() ==> g0.nodes.contains_key(#[trigger] order@[m]),
                self@.edges == g0.edges,
                self@.last_id == g0.last_id,
                self@.nodes.dom() == g0.nodes.dom(),
                forall|id: u128| #[trigger] g0.nodes.contains_key(id) ==> self@.nodes[id].name
                    == g0.nodes[id].name && self@.nodes[id].pos == g0.nodes[id].pos,
                forall|m: int| 0 <= m < k ==> self@.nodes[#[trigger] order@[m]].color == palette@[classes@[m] as int],
            decreases order.len() - k,
        {
            let colour = palette[classes[k] as usize];
            self.set_color(order[k], colour);
            proof {
                assert(self@.nodes.dom() =~= g0.nodes.dom());
                assert forall|m: int| 0 <= m < k + 1 implies self@.nodes[#[trigger] order@[m]].color == palette@[classes@[m] as int] by {
                    if m < k {
                        assert(order@[m] != order@[k as int]);
                    }
                }
            }
            k = k + 1;
        }
    }

    /// Colours the graph greedily along `order`, which lists every node once:
    /// each node gets the least positive class that none of its in-neighbours
    /// coloured before it holds, each class gets one random display colour,
    /// and every node is painted in its class's colour. Returns the largest
    /// class used (at least 1).
    pub fn color(&mut self, order: Vec<u128>) -> (r: u32)
        requires
            old(self).wf(),
            order.len() == old(self)@.nodes.dom().len(),
            distinct(order@),
            forall|i: int| 0 <= i < order.len() ==> old(self)@.nodes.contains_key(#[trigger] order@[i]),
            order.len() < u32::MAX,
        ensures
            final(self).wf(),
            painted(old(self)@, final(self)@, order@, r),
    {
        let classes = self.color_classes(&order);
        let mut max_col: u32 = 1;
        let mut i: usize = 0;
        while i < classes.len()
            invariant
                i <= classes.len(),
                classes.len() == order.len(),
                order.len() < u32::MAX,
                forall|k: int| 0 <= k < classes.len() ==> #[trigger] classes@[k] <= k + 1,
                max_col == max_class(classes@.take(i as int)),
                max_col <= i || max_col == 1,
            decreases classes.len() - i,
        {
            assert(classes@.take(i as int + 1).drop_last() =~= classes@.take(i as int));
            if classes[i] > max_col {
                max_col = classes[i];
            }
            i = i + 1;
        }
        assert(classes@.take(classes.len() as int) =~= classes@);
        proof {
            lemma_max_class(classes@);
        }
        let mut palette: Vec<Color> = Vec::new();
        let mut c: u32 = 0;
        while c <= max_col
            invariant
                palette.len() == c,
                c <= max_col + 1,
                max_col < u32::MAX,
            decreases max_col + 1 - c,
        {
            let red = random_channel();
            let green = random_channel();
            let blue = random_channel();
            palette.push(Color::from_rgb(red, green, blue));
            c = c + 1;
        }
        let ghost g0 = self@;
        self.paint(&order, &classes, &palette);
        assert(painted(g0, self@, order@, max_col)) by {
            assert(is_greedy_coloring(g0.edges, order@, classes@));
            assert(palette@.len() == max_col + 1);
        }
        max_col
    }

    /// Colours the graph as `color` does, along an order of all its nodes
    /// drawn at random.
    pub fn color_shuffled(&mut self) -> (r: u32)
        requires
            old(self).wf(),
            old(self).nodes.len() < u32::MAX,
        ensures
            final(self).wf(),
            exists|order: Seq<u128>| {
                &&& order.len() == old(self)@.nodes.dom().len()
                &&& distinct(order)
                &&& forall|i: int| 0 <= i < order.len() ==> old(self)@.nodes.contains_key(#[trigger] order[i])
                &&& #[trigger] painted(old(self)@, final(self)@, order, r)
            },
    {
        let mut ids: Vec<u128> = Vec::new();
        let mut k: usize = 0;
        while k < self.nodes.len()
            invariant
                self.wf(),
                k <= self.nodes.len(),
                ids.len() == k,
                forall|m: int| 0 <= m < k ==> #[trigger] ids@[m] == self.nodes@[m].0,
            decreases self.nodes.len() - k,
        {
            ids.push(self.nodes[k].0);
            k = k + 1;
        }
        let order = shuffled(ids);
        proof {
            self.lemma_view_finite();
            assert(ids@.no_duplicates()) by {
                assert forall|a: int, b: int| 0 <= a < ids.len() && 0 <= b < ids.len() && a != b implies ids@[a] != ids@[b] by {
                    if a < b {
                        assert(self.nodes@[a].0 != self.nodes@[b].0);
                    } else {
                        assert(self.nodes@[b].0 != self.nodes@[a].0);
                    }
                }
            }
            ids@.to_multiset_ensures();
            order@.to_multiset_ensures();
            ids@.lemma_multiset_has_no_duplicates();
            order@.lemma_multiset_has_no_duplicates_conv();
            assert forall|a: int, b: int| 0 <= a < b < order.len() implies order@[a] != order@[b] by {}
            assert forall|i: int| 0 <= i < order.len() implies self@.nodes.contains_key(#[trigger] order@[i]) by {
                assert(order@.contains(order@[i]));
                assert(ids@.to_multiset().count(order@[i]) > 0);
                assert(ids@.contains(order@[i]));
                let m = choose|m: int| 0 <= m < ids.len() && ids@[m] == order@[i];
                lemma_entries_index(self.nodes@, m);
            }
        }
        self.color(order)
    }
}

} // verus!
