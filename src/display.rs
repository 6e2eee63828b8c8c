use vstd::prelude::*;

use crate::canon::{count_true, lemma_count_true_bound, lemma_count_true_set};
use crate::nfa::NFA;

verus! {

/// How an edge of a drawn automaton is laid out.
#[derive(Clone, Copy, Debug, PartialEq, Eq, Structural)]
pub enum EdgeType {
    SelfLoop,
    Directed,
    Colliding,
}

/// The views of a list of layers.
pub open spec fn layer_views(layers: Seq<Vec<usize>>) -> Seq<Seq<usize>> {
    Seq::new(layers.len(), |d: int| layers[d]@)
}

/// Whether `q` stands in some layer.
pub open spec fn listed(layers: Seq<Seq<usize>>, q: usize) -> bool {
    exists|d: int, i: int| 0 <= d < layers.len() && 0 <= i < layers[d].len() && #[trigger] layers[d][i] == q
}

/// No state stands twice.
pub open spec fn listed_once(layers: Seq<Seq<usize>>) -> bool {
    forall|d1: int, i1: int, d2: int, i2: int|
        0 <= d1 < layers.len() && 0 <= i1 < layers[d1].len() && 0 <= d2 < layers.len() && 0 <= i2
            < layers[d2].len() && (d1 != d2 || i1 != i2) ==> #[trigger] layers[d1][i1]
            != #[trigger] layers[d2][i2]
}

/// Some transition of `nfa` leads into `q` from a state of `layer`.
pub open spec fn entered_from(nfa: &NFA, layer: Seq<usize>, q: usize) -> bool {
    exists|k: int|
        0 <= k < nfa@.transitions.len() && layer.contains(nfa@.transitions[k].from)
            && #[trigger] nfa@.transitions[k].to == q
}

/// The breadth-first layering of the states reachable from the start state.
pub open spec fn is_bfs_layering(nfa: &NFA, layers: Seq<Seq<usize>>) -> bool {
    let ts = nfa@.transitions;
    &&& layers.len() >= 1
    &&& layers[0] == seq![nfa@.start as usize]
    &&& forall|d: int| 0 <= d < layers.len() ==> #[trigger] layers[d].len() > 0
    &&& forall|d: int, i: int|
        0 <= d < layers.len() && 0 <= i < layers[d].len() ==> #[trigger] layers[d][i] < nfa@.num_states
    &&& listed_once(layers)
    &&& forall|k: int| 0 <= k < ts.len() && listed(layers, #[trigger] ts[k].from) ==> listed(layers, ts[k].to)
    &&& forall|d: int, i: int|
        1 <= d < layers.len() && 0 <= i < layers[d].len() ==> entered_from(nfa, layers[d - 1], #[trigger] layers[d][i])
}

impl NFA {
    /// The states reachable from the start state, layer by layer: the start
    /// state alone, then the new states that one transition leads to from
    /// the layer before, each state once.
    #[verifier::rlimit(60)]
    pub fn bfs_layers(&self) -> (r: Vec<Vec<usize>>)
        requires
            self@.wf(),
        ensures
            is_bfs_layering(self, layer_views(r@)),
    {
        let ghost m = self@;
        let n = self.get_num_states();
        let ts = self.get_transitions();
        let start = self.get_start_state();
        let mut visited: Vec<bool> = vec![false; n];
        visited.set(start, true);
        let mut first: Vec<usize> = Vec::new();
        first.push(start);
        let mut layers: Vec<Vec<usize>> = Vec::new();
        layers.push(first);
        let mut done = false;
        proof {
            assert(layer_views(layers@) =~= seq![seq![start]]);
            assert(first@ =~= seq![start]);
            assert forall|q: usize| q < n implies (visited@[q as int] <==> listed(layer_views(layers@), q)) by {
                if q == start {
                    assert(layer_views(layers@)[0][0] == start);
                }
            }
        }
        while !done
            invariant
                m == self@,
                m.wf(),
                n == m.num_states,
                ts@ == m.transitions,
                start == m.start,
                visited.len() == n,
                layers.len() >= 1,
                is_layering_so_far(self, layer_views(layers@)),
                forall|q: usize| q < n ==> (visited@[q as int] <==> listed(layer_views(layers@), q)),
                done ==> forall|k: int| 0 <= k < ts.len() && listed(layer_views(layers@), #[trigger] ts@[k].from) ==> listed(layer_views(layers@), ts@[k].to),
                !done ==> forall|k: int| 0 <= k < ts.len() && listed(layer_views(layers@).drop_last(), #[trigger] ts@[k].from) ==> listed(layer_views(layers@), ts@[k].to),
            decreases n - count_true(visited@) + if done { 0int } else { 1int },
        {
            proof { lemma_count_true_bound(visited@); }
            let ghost before = layer_views(layers@);
            let ghost count_before = count_true(visited@);
            let last = layers.len() - 1;
            let mut next: Vec<usize> = Vec::new();
            let mut i: usize = 0;
            while i < layers[last].len()
                invariant
                    m == self@,
                    m.wf(),
                    n == m.num_states,
                    ts@ == m.transitions,
                    visited.len() == n,
                    last == layers.len() - 1,
                    before == layer_views(layers@),
                    is_layering_so_far(self, before),
                    0 <= i <= layers[last as int].len(),
                    forall|q: usize| q < n ==> (visited@[q as int] <==> (listed(before, q) || next@.contains(q))),
                    forall|j: int| 0 <= j < next.len() ==> #[trigger] next@[j] < n && !listed(before, next@[j]) && entered_from(self, before[last as int], next@[j]),
                    next@.no_duplicates(),
                    count_true(visited@) == count_before + next.len(),
                    count_true(visited@) <= n,
                    forall|k: int| 0 <= k < ts.len() && listed(before.drop_last(), #[trigger] ts@[k].from) ==> listed(before, ts@[k].to),
                    forall|k: int| 0 <= k < ts.len() && before[last as int].subrange(0, i as int).contains(#[trigger] ts@[k].from) ==> visited@[ts@[k].to as int],
                decreases layers[last as int].len() - i,
            {
                let node = layers[last][i];
                let mut k: usize = 0;
                while k < ts.len()
                    invariant
                        m == self@,
                        m.wf(),
                        n == m.num_states,
                        ts@ == m.transitions,
                        visited.len() == n,
                        last == layers.len() - 1,
                        before == layer_views(layers@),
                        is_layering_so_far(self, before),
                        0 <= i < layers[last as int].len(),
                        node == before[last as int][i as int],
                        0 <= k <= ts.len(),
                        forall|q: usize| q < n ==> (visited@[q as int] <==> (listed(before, q) || next@.contains(q))),
                        forall|j: int| 0 <= j < next.len() ==> #[trigger] next@[j] < n && !listed(before, next@[j]) && entered_from(self, before[last as int], next@[j]),
                        next@.no_duplicates(),
                        count_true(visited@) == count_before + next.len(),
                        count_true(visited@) <= n,
                        forall|kk: int| 0 <= kk < ts.len() && listed(before.drop_last(), #[trigger] ts@[kk].from) ==> listed(before, ts@[kk].to),
                        forall|kk: int| 0 <= kk < ts.len() && before[last as int].subrange(0, i as int).contains(#[trigger] ts@[kk].from) ==> visited@[ts@[kk].to as int],
                        forall|kk: int| 0 <= kk < k && #[trigger] ts@[kk].from == node ==> visited@[ts@[kk].to as int],
                    decreases ts.len() - k,
                {
                    let t = ts[k];
                    if t.from == node && !visited[t.to] {
                        proof {
                            assert(m.transitions[k as int] == t);
                            assert(before[last as int][i as int] == node);
                            assert(before[last as int].contains(node));
                            assert(entered_from(self, before[last as int], t.to));
                            lemma_count_true_set(visited@, t.to as int);
                            lemma_count_true_bound(visited@.update(t.to as int, true));
                        }
                        let ghost pre = next@;
                        visited.set(t.to, true);
                        next.push(t.to);
                        proof {
                            assert forall|x: usize| next@.contains(x) <==> (pre.contains(x) || x == t.to) by {
                                if next@.contains(x) {
                                    let j = choose|j: int| 0 <= j < next@.len() && next@[j] == x;
                                    if j < pre.len() { assert(pre[j] == x); }
                                }
                                if pre.contains(x) {
                                    let j = choose|j: int| 0 <= j < pre.len() && pre[j] == x;
                                    assert(next@[j] == x);
                                }
                                if x == t.to { assert(next@[pre.len() as int] == x); }
                            }
                            assert(!pre.contains(t.to));
                        }
                    }
                    k = k + 1;
                }
                proof {
                    let cur = before[last as int];
                    assert forall|kk: int| 0 <= kk < ts.len() && cur.subrange(0, i + 1).contains(#[trigger] ts@[kk].from) implies visited@[ts@[kk].to as int] by {
                        let j = choose|j: int| 0 <= j < i + 1 && #[trigger] cur.subrange(0, i + 1)[j] == ts@[kk].from;
                        if j < i {
                            assert(cur.subrange(0, i as int)[j] == ts@[kk].from);
                        }
                    }
                }
                i = i + 1;
            }
            proof {
                assert(before[last as int].subrange(0, before[last as int].len() as int) =~= before[last as int]);
            }
            if next.len() == 0 {
                done = true;
                proof {
                    assert forall|k: int| 0 <= k < ts.len() && listed(before, #[trigger] ts@[k].from) implies listed(before, ts@[k].to) by {
                        let from = ts@[k].from;
                        let (d, j) = choose|d: int, j: int| 0 <= d < before.len() && 0 <= j < before[d].len() && #[trigger] before[d][j] == from;
                        if d < last {
                            assert(before.drop_last()[d][j] == from);
                        } else {
                            assert(before[last as int].contains(from));
                            assert(visited@[ts@[k].to as int]);
                        }
                    }
                }
            } else {
                let ghost next_view = next@;
                layers.push(next);
                proof {
                    let after = layer_views(layers@);
                    assert(after =~= before.push(next_view));
                    lemma_extend_layering(self, before, after);
                    lemma_listed_push(before, next_view);
                    assert(after.drop_last() =~= before);
                    assert forall|k: int| 0 <= k < ts.len() && listed(before, #[trigger] ts@[k].from) implies listed(after, ts@[k].to) by {
                        let from = ts@[k].from;
                        let (d, j) = choose|d: int, j: int| 0 <= d < before.len() && 0 <= j < before[d].len() && #[trigger] before[d][j] == from;
                        if d < last {
                            assert(before.drop_last()[d][j] == from);
                        } else {
                            assert(before[last as int].contains(from));
                            assert(visited@[ts@[k].to as int]);
                        }
                    }
                }
            }
        }
        layers
    }
}

/// The layers built so far: the start state first, nonempty layers, states
/// in range and listed once, each later state entered from the layer before.
pub open spec fn is_layering_so_far(nfa: &NFA, layers: Seq<Seq<usize>>) -> bool {
    &&& layers.len() >= 1
    &&& layers[0] == seq![nfa@.start as usize]
    &&& forall|d: int| 0 <= d < layers.len() ==> #[trigger] layers[d].len() > 0
    &&& forall|d: int, i: int|
        0 <= d < layers.len() && 0 <= i < layers[d].len() ==> #[trigger] layers[d][i] < nfa@.num_states
    &&& listed_once(layers)
    &&& forall|d: int, i: int|
        1 <= d < layers.len() && 0 <= i < layers[d].len() ==> entered_from(nfa, layers[d - 1], #[trigger] layers[d][i])
}

proof fn lemma_listed_push(before: Seq<Seq<usize>>, layer: Seq<usize>)
    ensures
        forall|q: usize| #[trigger] listed(before.push(layer), q) <==> (listed(before, q) || layer.contains(q)),
{
    let after = before.push(layer);
    assert forall|q: usize| #[trigger] listed(after, q) <==> (listed(before, q) || layer.contains(q)) by {
        if listed(after, q) {
            let (d, i) = choose|d: int, i: int| 0 <= d < after.len() && 0 <= i < after[d].len() && #[trigger] after[d][i] == q;
            if d < before.len() {
                assert(before[d][i] == q);
            } else {
                assert(layer[i] == q);
            }
        }
        if listed(before, q) {
            let (d, i) = choose|d: int, i: int| 0 <= d < before.len() && 0 <= i < before[d].len() && #[trigger] before[d][i] == q;
            assert(after[d][i] == q);
        }
        if layer.contains(q) {
            let i = choose|i: int| 0 <= i < layer.len() && layer[i] == q;
            assert(after[before.len() as int][i] == q);
        }
    }
}

proof fn lemma_extend_layering(nfa: &NFA, before: Seq<Seq<usize>>, after: Seq<Seq<usize>>)
    requires
        is_layering_so_far(nfa, before),
        after.len() == before.len() + 1,
        forall|d: int| 0 <= d < before.len() ==> after[d] == before[d],
        after.last().len() > 0,
        after.last().no_duplicates(),
        forall|j: int| 0 <= j < after.last().len() ==> #[trigger] after.last()[j] < nfa@.num_states && !listed(before, after.last()[j]) && entered_from(nfa, before.last(), after.last()[j]),
    ensures
        is_layering_so_far(nfa, after),
{
    assert forall|d1: int, i1: int, d2: int, i2: int|
        0 <= d1 < after.len() && 0 <= i1 < after[d1].len() && 0 <= d2 < after.len() && 0 <= i2
            < after[d2].len() && (d1 != d2 || i1 != i2) implies #[trigger] after[d1][i1]
            != #[trigger] after[d2][i2] by {
        let l = before.len() as int;
        if d1 < l && d2 < l {
            assert(before[d1][i1] != before[d2][i2]);
        } else if d1 < l {
            assert(!listed(before, after[d2][i2]));
            assert(before[d1][i1] == after[d1][i1]);
        } else if d2 < l {
            assert(!listed(before, after[d1][i1]));
            assert(before[d2][i2] == after[d2][i2]);
        }
    }
}

} // verus!
