//! Breadth-first and depth-first traversal of a graph.
//!
//! Both traversals are defined on the graph's model as orders of node
//! indices; the executable functions compute exactly these orders.

use crate::graph::{lemma_handle_unique, Graph, GraphModel, Node};
use vstd::prelude::*;

verus! {

/// `order` followed by those of `targets` that it lacks, each once, in the
/// order of their first occurrence.
pub open spec fn discover(order: Seq<usize>, targets: Seq<usize>) -> Seq<usize>
    decreases targets.len(),
{
    if targets.len() == 0 {
        order
    } else {
        let found = discover(order, targets.drop_last());
        if found.contains(targets.last()) {
            found
        } else {
            found.push(targets.last())
        }
    }
}

/// Every index of `s` is below `n`.
pub open spec fn below(s: Seq<usize>, n: nat) -> bool {
    forall|i: int| 0 <= i < s.len() ==> #[trigger] s[i] < n
}

impl GraphModel {
    /// The nodes registered at the indices of `order`.
    pub open spec fn nodes_at(self, order: Seq<usize>) -> Seq<Node> {
        order.map_values(|i: usize| self.nodes[i as int])
    }

    /// The discovery order once every node from position `head` on has had
    /// its targets discovered, in turn.
    pub open spec fn bft_from(self, order: Seq<usize>, head: int) -> Seq<usize>
        decreases self.nodes.len() - head,
    {
        if 0 <= head < order.len() && head < self.nodes.len() {
            self.bft_from(discover(order, self.targets(order[head] as int)), head + 1)
        } else {
            order
        }
    }

    /// The breadth-first order from `start`: `start` first, then the nodes in
    /// the order of their discovery, where the targets of an earlier node are
    /// discovered before those of a later one, and the targets of one node in
    /// the order of its edges.
    pub open spec fn bft_order(self, start: usize) -> Seq<usize> {
        self.bft_from(seq![start], 0)
    }

    /// The nodes emitted once `stack` is worked off from its top: a node
    /// taken from the stack that was emitted before is dropped; any other is
    /// emitted, and the targets of all its edges are put on the stack.
    pub open spec fn dft_from(self, stack: Seq<usize>, emitted: Seq<usize>) -> Seq<usize>
        decreases self.nodes.len() - emitted.len(), stack.len(),
    {
        if stack.len() == 0 {
            emitted
        } else if emitted.contains(stack.last()) {
            self.dft_from(stack.drop_last(), emitted)
        } else if emitted.len() >= self.nodes.len() {
            emitted
        } else {
            self.dft_from(
                stack.drop_last() + self.targets(stack.last() as int),
                emitted.push(stack.last()),
            )
        }
    }

    /// The depth-first order from `start`, by a stack that is filtered when a
    /// node is taken from it, not when it is put there.
    pub open spec fn dft_order(self, start: usize) -> Seq<usize> {
        self.dft_from(seq![start], Seq::empty())
    }
}

/// Distinct indices below `n` are at most `n` many.
pub proof fn lemma_distinct_below(s: Seq<usize>, n: nat)
    requires
        s.no_duplicates(),
        below(s, n),
    ensures
        s.len() <= n,
    decreases n,
{
    if s.len() == 0 {
    } else if n == 0 {
        assert(s[0] < n);
    } else if exists|i: int| 0 <= i < s.len() && s[i] == n - 1 {
        let i = choose|i: int| 0 <= i < s.len() && s[i] == n - 1;
        let rest = s.remove(i);
        assert forall|j: int| 0 <= j < rest.len() implies #[trigger] rest[j] < (n - 1) as nat by {
            let src = if j < i { j } else { j + 1 };
            assert(rest[j] == s[src]);
            assert(s[src] < n);
            assert(s[src] != s[i]);
        }
        assert forall|j: int, k: int| 0 <= j < rest.len() && 0 <= k < rest.len() && j != k implies rest[j]
            != rest[k] by {
            let sj = if j < i { j } else { j + 1 };
            let sk = if k < i { k } else { k + 1 };
            assert(rest[j] == s[sj]);
            assert(rest[k] == s[sk]);
        }
        lemma_distinct_below(rest, (n - 1) as nat);
    } else {
        assert forall|j: int| 0 <= j < s.len() implies #[trigger] s[j] < (n - 1) as nat by {
            assert(s[j] < n);
        }
        lemma_distinct_below(s, (n - 1) as nat);
    }
}

/// What discovery keeps and what it adds.
pub proof fn lemma_discover(order: Seq<usize>, targets: Seq<usize>)
    ensures
        order.len() <= discover(order, targets).len(),
        discover(order, targets).subrange(0, order.len() as int) == order,
        order.no_duplicates() ==> discover(order, targets).no_duplicates(),
        forall|x: usize|
            discover(order, targets).contains(x) <==> order.contains(x) || targets.contains(x),
    decreases targets.len(),
{
    let all = discover(order, targets);
    if targets.len() == 0 {
        assert(all.subrange(0, order.len() as int) =~= order);
    } else {
        let init = targets.drop_last();
        let last = targets.last();
        let found = discover(order, init);
        lemma_discover(order, init);
        assert(all.subrange(0, order.len() as int) =~= found.subrange(0, order.len() as int));
        assert forall|x: usize| all.contains(x) <==> order.contains(x) || targets.contains(
            x,
        ) by {
            if targets.contains(x) {
                let k = choose|k: int| 0 <= k < targets.len() && targets[k] == x;
                if k < init.len() {
                    assert(init[k] == x);
                    assert(init.contains(x));
                }
            }
            if init.contains(x) {
                let k = choose|k: int| 0 <= k < init.len() && init[k] == x;
                assert(targets[k] == x);
            }
            assert(targets[targets.len() - 1] == last);
            if found.contains(last) {
            } else {
                if found.contains(x) {
                    let k = choose|k: int| 0 <= k < found.len() && found[k] == x;
                    assert(all[k] == x);
                }
                assert(all[found.len() as int] == last);
                if all.contains(x) {
                    let k = choose|k: int| 0 <= k < all.len() && all[k] == x;
                    if k < found.len() {
                        assert(found[k] == x);
                    }
                }
            }
        }
    }
}

impl GraphModel {
    /// `walk` leads from node to node along edges.
    pub open spec fn is_walk(self, walk: Seq<usize>) -> bool {
        &&& walk.len() > 0
        &&& below(walk, self.nodes.len())
        &&& forall|k: int|
            0 <= k < walk.len() - 1 ==> self.linked(#[trigger] walk[k] as int, walk[k + 1] as int)
    }

    /// Some walk leads from `from` to `to`.
    pub open spec fn reaches(self, from: usize, to: usize) -> bool {
        exists|walk: Seq<usize>| #[trigger]
            self.is_walk(walk) && walk[0] == from && walk.last() == to
    }

    /// Every index of `order` can be reached from `start`.
    pub open spec fn all_reached(self, start: usize, order: Seq<usize>) -> bool {
        forall|i: int| 0 <= i < order.len() ==> self.reaches(start, #[trigger] order[i])
    }

    /// The targets of the first `bound` nodes of `order` lie in `order` or in
    /// `pending`.
    pub open spec fn targets_kept(
        self,
        order: Seq<usize>,
        bound: int,
        pending: Seq<usize>,
    ) -> bool {
        forall|i: int, k: int|
            0 <= i < bound && 0 <= k < self.links[order[i] as int].len() ==> {
                let target = (#[trigger] self.links[order[i] as int][k]).to;
                order.contains(target) || pending.contains(target)
            }
    }
}

/// A walk can be followed by one more edge.
pub proof fn lemma_reaches_step(g: GraphModel, start: usize, via: usize, k: int)
    requires
        g.wf(),
        g.reaches(start, via),
        0 <= k < g.links[via as int].len(),
    ensures
        g.reaches(start, g.links[via as int][k].to),
{
    let walk = choose|walk: Seq<usize>| #[trigger]
        g.is_walk(walk) && walk[0] == start && walk.last() == via;
    let to = g.links[via as int][k].to;
    let longer = walk.push(to);
    assert(g.canonical(to as int));
    assert(g.is_slot(via as int, to as int, k));
    assert forall|j: int| 0 <= j < longer.len() - 1 implies g.linked(
        #[trigger] longer[j] as int,
        longer[j + 1] as int,
    ) by {
        if j < walk.len() - 1 {
            assert(g.linked(walk[j] as int, walk[j + 1] as int));
        }
    }
    assert(g.is_walk(longer));
    assert(longer[0] == start && longer.last() == to);
}

/// A node reaches itself.
pub proof fn lemma_reaches_self(g: GraphModel, start: usize)
    requires
        start < g.nodes.len(),
    ensures
        g.reaches(start, start),
{
    let walk = seq![start];
    assert(g.is_walk(walk));
    assert(walk[0] == start && walk.last() == start);
}

/// An order that holds `start` and the targets of all its nodes holds every
/// node of a walk from `start`.
pub proof fn lemma_closed_order_holds_walk(
    g: GraphModel,
    order: Seq<usize>,
    walk: Seq<usize>,
    upto: int,
)
    requires
        g.targets_kept(order, order.len() as int, Seq::empty()),
        g.is_walk(walk),
        order.contains(walk[0]),
        0 <= upto < walk.len(),
    ensures
        order.contains(walk[upto]),
    decreases upto,
{
    if upto > 0 {
        lemma_closed_order_holds_walk(g, order, walk, upto - 1);
        let via = walk[upto - 1];
        let i = choose|i: int| 0 <= i < order.len() && order[i] == via;
        assert(g.linked(walk[upto - 1] as int, walk[upto - 1 + 1] as int));
        let k = choose|k: int| #[trigger] g.is_slot(via as int, walk[upto] as int, k);
        assert(g.is_slot(via as int, walk[upto] as int, k));
        let target = g.links[order[i] as int][k].to;
        assert(order.contains(target) || Seq::<usize>::empty().contains(target));
    }
}

/// What holds of the breadth-first order from a state that keeps the
/// invariant of the search.
pub proof fn lemma_bft_from(g: GraphModel, start: usize, order: Seq<usize>, head: int)
    requires
        g.wf(),
        0 <= head <= order.len(),
        order.no_duplicates(),
        below(order, g.nodes.len()),
        order.contains(start),
        g.all_reached(start, order),
        g.targets_kept(order, head, Seq::empty()),
    ensures
        ({
            let visit = g.bft_from(order, head);
            &&& visit.no_duplicates()
            &&& below(visit, g.nodes.len())
            &&& visit.contains(start)
            &&& g.all_reached(start, visit)
            &&& g.targets_kept(visit, visit.len() as int, Seq::empty())
        }),
    decreases g.nodes.len() - head,
{
    lemma_distinct_below(order, g.nodes.len());
    if head < order.len() {
        let current = order[head];
        let targets = g.targets(current as int);
        let next = discover(order, targets);
        lemma_discover(order, targets);
        assert forall|i: int| 0 <= i < order.len() implies next[i] == order[i] by {
            assert(next.subrange(0, order.len() as int)[i] == next[i]);
        }
        assert forall|i: int| 0 <= i < next.len() implies #[trigger] next[i] < g.nodes.len()
            && g.reaches(start, next[i]) by {
            let x = next[i];
            assert(next.contains(x));
            if order.contains(x) {
                let j = choose|j: int| 0 <= j < order.len() && order[j] == x;
                assert(g.reaches(start, order[j]));
            } else {
                let k = choose|k: int| 0 <= k < targets.len() && targets[k] == x;
                assert(g.links[current as int][k].to == x);
                assert(g.canonical(x as int));
                assert(g.reaches(start, order[head]));
                lemma_reaches_step(g, start, current, k);
            }
        }
        let start_at = choose|j: int| 0 <= j < order.len() && order[j] == start;
        assert(next[start_at] == start);
        assert forall|i: int, k: int|
            0 <= i < head + 1 && 0 <= k < g.links[next[i] as int].len() implies {
            let target = (#[trigger] g.links[next[i] as int][k]).to;
            next.contains(target) || Seq::<usize>::empty().contains(target)
        } by {
            let target = g.links[next[i] as int][k].to;
            assert(next[i] == order[i]);
            if i < head {
                let kept = g.links[order[i] as int][k].to;
                assert(order.contains(kept) || Seq::<usize>::empty().contains(kept));
            } else {
                assert(targets[k] == target);
                assert(targets.contains(target));
            }
        }
        lemma_bft_from(g, start, next, head + 1);
    }
}

/// What holds of the depth-first order from a state that keeps the invariant
/// of the search.
pub proof fn lemma_dft_from(g: GraphModel, start: usize, stack: Seq<usize>, emitted: Seq<usize>)
    requires
        g.wf(),
        emitted.no_duplicates(),
        below(emitted, g.nodes.len()),
        below(stack, g.nodes.len()),
        emitted.contains(start) || stack.contains(start),
        g.all_reached(start, emitted),
        g.all_reached(start, stack),
        g.targets_kept(emitted, emitted.len() as int, stack),
    ensures
        ({
            let visit = g.dft_from(stack, emitted);
            &&& visit.no_duplicates()
            &&& below(visit, g.nodes.len())
            &&& visit.contains(start)
            &&& g.all_reached(start, visit)
            &&& g.targets_kept(visit, visit.len() as int, Seq::empty())
        }),
    decreases g.nodes.len() - emitted.len(), stack.len(),
{
    if stack.len() == 0 {
        assert forall|i: int, k: int|
            0 <= i < emitted.len() && 0 <= k < g.links[emitted[i] as int].len() implies {
            let target = (#[trigger] g.links[emitted[i] as int][k]).to;
            emitted.contains(target) || Seq::<usize>::empty().contains(target)
        } by {
            let target = g.links[emitted[i] as int][k].to;
            assert(emitted.contains(target) || stack.contains(target));
        }
    } else {
        let top = stack.last();
        let rest = stack.drop_last();
        assert(stack[stack.len() - 1] == top);
        assert forall|x: usize| stack.contains(x) implies rest.contains(x) || x == top by {
            let j = choose|j: int| 0 <= j < stack.len() && stack[j] == x;
            if j < rest.len() {
                assert(rest[j] == x);
            }
        }
        assert forall|i: int| 0 <= i < rest.len() implies g.reaches(start, #[trigger] rest[i])
            && rest[i] < g.nodes.len() by {
            assert(rest[i] == stack[i]);
        }
        if emitted.contains(top) {
            assert forall|i: int, k: int|
                0 <= i < emitted.len() && 0 <= k < g.links[emitted[i] as int].len() implies {
                let target = (#[trigger] g.links[emitted[i] as int][k]).to;
                emitted.contains(target) || rest.contains(target)
            } by {
                let target = g.links[emitted[i] as int][k].to;
                assert(emitted.contains(target) || stack.contains(target));
            }
            lemma_dft_from(g, start, rest, emitted);
        } else {
            let more = emitted.push(top);
            assert(more[emitted.len() as int] == top);
            assert forall|x: usize| emitted.contains(x) implies more.contains(x) by {
                let j = choose|j: int| 0 <= j < emitted.len() && emitted[j] == x;
                assert(more[j] == x);
            }
            assert(more.no_duplicates());
            assert(below(more, g.nodes.len())) by {
                assert forall|i: int| 0 <= i < more.len() implies #[trigger] more[i]
                    < g.nodes.len() by {
                    if i < emitted.len() {
                        assert(more[i] == emitted[i]);
                    }
                }
            }
            lemma_distinct_below(more, g.nodes.len());
            let targets = g.targets(top as int);
            let pending = rest + targets;
            assert forall|x: usize| rest.contains(x) implies pending.contains(x) by {
                let j = choose|j: int| 0 <= j < rest.len() && rest[j] == x;
                assert(pending[j] == x);
            }
            assert forall|i: int| 0 <= i < pending.len() implies g.reaches(
                start,
                #[trigger] pending[i],
            ) && pending[i] < g.nodes.len() by {
                if i < rest.len() {
                    assert(pending[i] == rest[i]);
                } else {
                    let k = i - rest.len();
                    assert(pending[i] == targets[k]);
                    assert(g.links[top as int][k].to == pending[i]);
                    assert(g.canonical(pending[i] as int));
                    assert(g.reaches(start, stack[stack.len() - 1]));
                    lemma_reaches_step(g, start, top, k);
                }
            }
            assert forall|i: int| 0 <= i < more.len() implies g.reaches(start, #[trigger] more[i]) by {
                if i < emitted.len() {
                    assert(more[i] == emitted[i]);
                } else {
                    assert(g.reaches(start, stack[stack.len() - 1]));
                }
            }
            assert forall|i: int, k: int|
                0 <= i < more.len() && 0 <= k < g.links[more[i] as int].len() implies {
                let target = (#[trigger] g.links[more[i] as int][k]).to;
                more.contains(target) || pending.contains(target)
            } by {
                let target = g.links[more[i] as int][k].to;
                if i < emitted.len() {
                    assert(more[i] == emitted[i]);
                    let kept = g.links[emitted[i] as int][k].to;
                    assert(emitted.contains(kept) || stack.contains(kept));
                } else {
                    assert(targets[k] == target);
                    assert(pending[rest.len() + k] == target);
                }
            }
            lemma_dft_from(g, start, pending, more);
        }
    }
}

/// Breadth-first and depth-first traversal from one node visit the same
/// nodes: each node that a walk from the start reaches, once, and no other.
/// No two of the visited nodes lie at the same place.
pub proof fn lemma_traversals_visit_the_reachable(g: GraphModel, start: usize)
    requires
        g.wf(),
        g.canonical(start as int),
    ensures
        g.bft_order(start).no_duplicates(),
        g.dft_order(start).no_duplicates(),
        forall|to: usize| g.bft_order(start).contains(to) <==> g.reaches(start, to),
        forall|to: usize| g.dft_order(start).contains(to) <==> g.reaches(start, to),
        g.bft_order(start).to_set() == g.dft_order(start).to_set(),
        forall|i: int, j: int|
            0 <= i < j < g.bft_order(start).len() ==> !(#[trigger] g.nodes_at(
                g.bft_order(start),
            )[i]).same_place(#[trigger] g.nodes_at(g.bft_order(start))[j]),
        forall|i: int, j: int|
            0 <= i < j < g.dft_order(start).len() ==> !(#[trigger] g.nodes_at(
                g.dft_order(start),
            )[i]).same_place(#[trigger] g.nodes_at(g.dft_order(start))[j]),
{
    let first = seq![start];
    let none = Seq::<usize>::empty();
    let bft = g.bft_order(start);
    let dft = g.dft_order(start);
    lemma_reaches_self(g, start);
    assert(first[0] == start);
    assert(g.all_reached(start, first));
    lemma_bft_from(g, start, first, 0);
    lemma_dft_from(g, start, first, none);
    assert forall|to: usize| bft.contains(to) <==> g.reaches(start, to) by {
        lemma_visit_reachable(g, start, bft, to);
    }
    assert forall|to: usize| dft.contains(to) <==> g.reaches(start, to) by {
        lemma_visit_reachable(g, start, dft, to);
    }
    assert(bft.to_set() =~= dft.to_set());
    lemma_visit_places(g, start, bft);
    lemma_visit_places(g, start, dft);
}

/// A duplicate-free order of reached nodes that holds the start and the
/// targets of all its nodes holds exactly what the start reaches.
proof fn lemma_visit_reachable(g: GraphModel, start: usize, visit: Seq<usize>, to: usize)
    requires
        visit.contains(start),
        g.all_reached(start, visit),
        g.targets_kept(visit, visit.len() as int, Seq::empty()),
    ensures
        visit.contains(to) <==> g.reaches(start, to),
{
    if visit.contains(to) {
        let i = choose|i: int| 0 <= i < visit.len() && visit[i] == to;
        assert(g.reaches(start, visit[i]));
    }
    if g.reaches(start, to) {
        let walk = choose|walk: Seq<usize>| #[trigger]
            g.is_walk(walk) && walk[0] == start && walk.last() == to;
        lemma_closed_order_holds_walk(g, visit, walk, walk.len() - 1);
    }
}

/// Nodes that a handle reaches are handles, so no two of them share a place.
proof fn lemma_visit_places(g: GraphModel, start: usize, visit: Seq<usize>)
    requires
        g.wf(),
        g.canonical(start as int),
        visit.no_duplicates(),
        g.all_reached(start, visit),
    ensures
        forall|i: int, j: int|
            0 <= i < j < visit.len() ==> !(#[trigger] g.nodes_at(visit)[i]).same_place(
                #[trigger] g.nodes_at(visit)[j],
            ),
{
    assert forall|i: int, j: int| 0 <= i < j < visit.len() implies !(#[trigger] g.nodes_at(
        visit,
    )[i]).same_place(#[trigger] g.nodes_at(visit)[j]) by {
        lemma_reached_is_handle(g, start, visit[i]);
        lemma_reached_is_handle(g, start, visit[j]);
        let a = visit[i] as int;
        let b = visit[j] as int;
        assert(a != b);
        if g.nodes[a].same_place(g.nodes[b]) {
            if a < b {
                assert(!g.nodes[a].same_place(g.nodes[b]));
            } else {
                assert(!g.nodes[b].same_place(g.nodes[a]));
            }
        }
    }
}

/// What a handle reaches is a handle.
proof fn lemma_reached_is_handle(g: GraphModel, start: usize, to: usize)
    requires
        g.wf(),
        g.canonical(start as int),
        g.reaches(start, to),
    ensures
        g.canonical(to as int),
{
    let walk = choose|walk: Seq<usize>| #[trigger]
        g.is_walk(walk) && walk[0] == start && walk.last() == to;
    if walk.len() > 1 {
        let via = walk[walk.len() - 2];
        assert(g.linked(walk[walk.len() - 2] as int, walk[walk.len() - 2 + 1] as int));
        let k = choose|k: int| #[trigger] g.is_slot(via as int, to as int, k);
        assert(g.is_slot(via as int, to as int, k));
        assert(g.canonical(g.links[via as int][k].to as int));
    }
}

impl Graph {
    /// The nodes registered at the indices of `order`.
    fn collect(&self, order: &Vec<usize>) -> (nodes: Vec<Node>)
        requires
            below(order@, self@.nodes.len()),
        ensures
            nodes@ == self@.nodes_at(order@),
    {
        let mut nodes: Vec<Node> = Vec::new();
        let mut i: usize = 0;
        while i < order.len()
            invariant
                i <= order.len(),
                below(order@, self@.nodes.len()),
                nodes@ == self@.nodes_at(order@.take(i as int)),
            decreases order.len() - i,
        {
            assert(order@[i as int] < self@.nodes.len());
            nodes.push(self.nodes[order[i]]);
            proof {
                assert(order@.take(i + 1) =~= order@.take(i as int).push(order@[i as int]));
                assert(nodes@ =~= self@.nodes_at(order@.take(i + 1)));
            }
            i += 1;
        }
        assert(order@.take(i as int) =~= order@);
        nodes
    }

    /// The nodes that can be reached from `start`, each once, in breadth-first
    /// order; `None` when no node is registered where `start` lies.
    pub fn bft(&self, start: &Node) -> (visit: Option<Vec<Node>>)
        requires
            self.wf(),
        ensures
            visit is Some <==> self@.registered(*start),
            visit matches Some(nodes) ==> nodes@ == self@.nodes_at(
                self@.bft_order(self@.handle(*start) as usize),
            ),
    {
        let first = match self.index_of(start) {
            Some(first) => first,
            None => {
                return None;
            },
        };
        proof {
            lemma_handle_unique(self@, *start, first as int, first as int);
        }
        let ghost g = self@;
        let count = self.nodes.len();
        let mut seen: Vec<bool> = vec![false; count];
        let mut order: Vec<usize> = Vec::new();
        order.push(first);
        seen.set(first, true);
        assert(order@ =~= seq![first]);
        assert(order@[0] == first);
        let mut head: usize = 0;
        while head < order.len()
            invariant
                self.wf(),
                g == self@,
                count == g.nodes.len(),
                seen.len() == count,
                head <= order.len(),
                below(order@, count as nat),
                order@.no_duplicates(),
                forall|i: int| 0 <= i < count ==> (#[trigger] seen[i] <==> order@.contains(i as usize)),
                g.bft_from(order@, head as int) == g.bft_order(first),
            decreases count - head,
        {
            proof {
                lemma_distinct_below(order@, count as nat);
            }
            let current = order[head];
            assert(order@[head as int] < count);
            let ghost before = order@;
            let ghost targets = g.targets(current as int);
            let degree = self.edges[current].len();
            let mut k: usize = 0;
            while k < degree
                invariant
                    self.wf(),
                    g == self@,
                    count == g.nodes.len(),
                    seen.len() == count,
                    current < count,
                    degree == g.links[current as int].len(),
                    targets == g.targets(current as int),
                    k <= degree,
                    head < before.len() <= order.len(),
                    below(order@, count as nat),
                    order@.no_duplicates(),
                    forall|i: int|
                        0 <= i < count ==> (#[trigger] seen[i] <==> order@.contains(i as usize)),
                    order@ == discover(before, targets.take(k as int)),
                decreases degree - k,
            {
                let target = self.edges[current][k].to;
                proof {
                    assert(g.links[current as int][k as int].to == target);
                    assert(g.canonical(target as int));
                    assert(targets.take(k + 1).drop_last() =~= targets.take(k as int));
                    assert(targets.take(k + 1).last() == target);
                }
                if !seen[target] {
                    seen.set(target, true);
                    order.push(target);
                    proof {
                        let prior = discover(before, targets.take(k as int));
                        assert(order@ == prior.push(target));
                        assert forall|i: int| 0 <= i < count implies (#[trigger] seen[i]
                            <==> order@.contains(i as usize)) by {
                            if prior.contains(i as usize) {
                                let p = choose|p: int| 0 <= p < prior.len() && prior[p] == i as usize;
                                assert(order@[p] == i as usize);
                            }
                            if i == target {
                                assert(order@[prior.len() as int] == target);
                            }
                        }
                    }
                }
                k += 1;
            }
            proof {
                assert(targets.take(degree as int) =~= targets);
                lemma_discover(before, targets);
                assert(before[head as int] == current);
            }
            head += 1;
        }
        Some(self.collect(&order))
    }

    /// The nodes that can be reached from `start`, each once, in the order in
    /// which a stack of pending nodes gives them out; `None` when no node is
    /// registered where `start` lies. Every target of an emitted node is put
    /// on the stack, emitted before or not; a node is tested when it is taken.
    pub fn dft(&self, start: &Node) -> (visit: Option<Vec<Node>>)
        requires
            self.wf(),
        ensures
            visit is Some <==> self@.registered(*start),
            visit matches Some(nodes) ==> nodes@ == self@.nodes_at(
                self@.dft_order(self@.handle(*start) as usize),
            ),
    {
        let first = match self.index_of(start) {
            Some(first) => first,
            None => {
                return None;
            },
        };
        proof {
            lemma_handle_unique(self@, *start, first as int, first as int);
        }
        let ghost g = self@;
        let count = self.nodes.len();
        let mut seen: Vec<bool> = vec![false; count];
        let mut emitted: Vec<usize> = Vec::new();
        let mut stack: Vec<usize> = Vec::new();
        stack.push(first);
        assert(stack@ =~= seq![first]);
        assert(emitted@ =~= Seq::<usize>::empty());
        while stack.len() > 0
            invariant
                self.wf(),
                g == self@,
                count == g.nodes.len(),
                seen.len() == count,
                below(stack@, count as nat),
                below(emitted@, count as nat),
                emitted@.no_duplicates(),
                forall|i: int|
                    0 <= i < count ==> (#[trigger] seen[i] <==> emitted@.contains(i as usize)),
                g.dft_from(stack@, emitted@) == g.dft_order(first),
            decreases count - emitted.len(), stack.len(),
        {
            let ghost stack_before = stack@;
            let ghost emitted_before = emitted@;
            let current = stack.pop().unwrap();
            assert(stack_before[stack_before.len() - 1] < count);
            assert(stack@ =~= stack_before.drop_last());
            if !seen[current] {
                seen.set(current, true);
                emitted.push(current);
                proof {
                    assert forall|i: int| 0 <= i < count implies (#[trigger] seen[i]
                        <==> emitted@.contains(i as usize)) by {
                        if emitted_before.contains(i as usize) {
                            let p = choose|p: int|
                                0 <= p < emitted_before.len() && emitted_before[p] == i as usize;
                            assert(emitted@[p] == i as usize);
                        }
                        if i == current {
                            assert(emitted@[emitted_before.len() as int] == current);
                        }
                    }
                    lemma_distinct_below(emitted@, count as nat);
                }
                let ghost targets = g.targets(current as int);
                let ghost rest = stack@;
                let degree = self.edges[current].len();
                let mut k: usize = 0;
                while k < degree
                    invariant
                        self.wf(),
                        g == self@,
                        count == g.nodes.len(),
                        current < count,
                        degree == g.links[current as int].len(),
                        targets == g.targets(current as int),
                        k <= degree,
                        below(stack@, count as nat),
                        stack@ == rest + targets.take(k as int),
                    decreases degree - k,
                {
                    let target = self.edges[current][k].to;
                    proof {
                        assert(g.links[current as int][k as int].to == target);
                        assert(g.canonical(target as int));
                        assert(targets.take(k + 1) =~= targets.take(k as int).push(target));
                    }
                    stack.push(target);
                    assert(stack@ =~= rest + targets.take(k + 1));
                    k += 1;
                }
                assert(targets.take(degree as int) =~= targets);
            }
        }
        assert(stack@ =~= Seq::<usize>::empty());
        Some(self.collect(&emitted))
    }
}

} // verus!
