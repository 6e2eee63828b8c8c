use vstd::prelude::*;

use crate::canon::{
    canonical, lemma_canonical, lemma_distinct_keys_bound, sorted_below, strictly_sorted,
};
use crate::laws::closure_idempotent;
use crate::nfa::{chars_sorted, NFA};

verus! {

/// One edge of a deterministic automaton: `from --symbol--> to`.
#[derive(Clone, Copy, Debug, PartialEq, Eq, Structural)]
pub struct DfaTransition {
    pub from: usize,
    pub symbol: char,
    pub to: usize,
}

/// A deterministic automaton made by subset construction: state `i` stands
/// for the set of automaton states `keys[i]`, in canonical form.
#[derive(Debug)]
pub struct DFA {
    keys: Vec<Vec<usize>>,
    accepting: Vec<bool>,
    transitions: Vec<DfaTransition>,
}

/// The mathematical content of a deterministic automaton; its start state is 0.
pub ghost struct DfaModel {
    pub keys: Seq<Seq<usize>>,
    pub accepting: Seq<bool>,
    pub transitions: Seq<DfaTransition>,
}

/// The views of a list of keys.
pub open spec fn key_views(keys: Seq<Vec<usize>>) -> Seq<Seq<usize>> {
    Seq::new(keys.len(), |j: int| keys[j]@)
}

/// The key that the states `key` lead to on `c`: the closure of the move.
pub open spec fn successor_key(nfa: &NFA, key: Seq<usize>, c: char) -> Seq<usize> {
    canonical(nfa@.closure_of(nfa@.move_of(key.to_set(), c)), nfa@.num_states)
}

/// Whether the set `key` holds an accepting state of `nfa`.
pub open spec fn holds_end_state(nfa: &NFA, key: Seq<usize>) -> bool {
    exists|i: int| 0 <= i < nfa@.ends.len() && key.contains(#[trigger] nfa@.ends[i])
}

/// Whether some transition of `ts` leaves `from` on `c`.
pub open spec fn has_edge(ts: Seq<DfaTransition>, from: int, c: char) -> bool {
    exists|k: int| 0 <= k < ts.len() && ts[k].from == from && #[trigger] ts[k].symbol == c
}

/// Some edge leads into `j` from a state of lower index.
pub open spec fn entered_earlier(ts: Seq<DfaTransition>, j: int) -> bool {
    exists|k: int| 0 <= k < ts.len() && #[trigger] ts[k].to == j && ts[k].from < j
}

/// No two edges leave one state on one symbol.
pub open spec fn deterministic(ts: Seq<DfaTransition>) -> bool {
    forall|k1: int, k2: int|
        0 <= k1 < k2 < ts.len() ==> #[trigger] ts[k1].from != #[trigger] ts[k2].from || ts[k1].symbol
            != ts[k2].symbol
}

/// `sym` is one of the first `ci` letters of `alphabet`.
pub open spec fn among_first(alphabet: Seq<char>, ci: int, sym: char) -> bool {
    exists|cj: int| 0 <= cj < ci && #[trigger] alphabet[cj] == sym
}

/// `t` leaves a state on a symbol of the alphabet on which some state of
/// its key moves, and leads to the key of the closure of that move.
pub open spec fn edge_ok(nfa: &NFA, keys: Seq<Seq<usize>>, t: DfaTransition) -> bool {
    &&& t.from < keys.len()
    &&& t.to < keys.len()
    &&& nfa@.alphabet.contains(t.symbol)
    &&& canonical(nfa@.move_of(keys[t.from as int].to_set(), t.symbol), nfa@.num_states).len() > 0
    &&& keys[t.to as int] == successor_key(nfa, keys[t.from as int], t.symbol)
}

/// The subset construction of `nfa`: distinct keys, each an epsilon-closed
/// set in canonical form, the first one the closure of the start state; an
/// edge for each state and symbol whose move is not empty, and only those.
pub open spec fn subset_construction_of(nfa: &NFA, d: DfaModel) -> bool {
    let n = nfa@.num_states;
    let keys = d.keys;
    let ts = d.transitions;
    &&& keys.len() >= 1
    &&& keys[0] == canonical(nfa@.closure_of(set![nfa@.start as usize]), n)
    &&& keys.no_duplicates()
    &&& forall|j: int|
        0 <= j < keys.len() ==> #[trigger] canonical(nfa@.closure_of(keys[j].to_set()), n)
            == keys[j]
    &&& d.accepting.len() == keys.len()
    &&& forall|j: int| 0 <= j < keys.len() ==> (#[trigger] d.accepting[j] <==> holds_end_state(nfa, keys[j]))
    &&& forall|k: int| 0 <= k < ts.len() ==> edge_ok(nfa, keys, #[trigger] ts[k])
    &&& deterministic(ts)
    &&& forall|j: int| 1 <= j < keys.len() ==> #[trigger] entered_earlier(ts, j)
    &&& forall|j: int, c: char|
        0 <= j < keys.len() && nfa@.alphabet.contains(c) && canonical(
            nfa@.move_of(keys[j].to_set(), c),
            n,
        ).len() > 0 ==> #[trigger] has_edge(ts, j, c)
}

/// Whether two keys are equal.
fn same_key(a: &Vec<usize>, b: &Vec<usize>) -> (r: bool)
    ensures
        r == (a@ == b@),
{
    if a.len() != b.len() {
        return false;
    }
    let mut i: usize = 0;
    while i < a.len()
        invariant
            a.len() == b.len(),
            0 <= i <= a.len(),
            forall|k: int| 0 <= k < i ==> a@[k] == b@[k],
        decreases a.len() - i,
    {
        if a[i] != b[i] {
            return false;
        }
        i = i + 1;
    }
    assert(a@ =~= b@);
    true
}

/// The index of `key` in `keys`, if it is there.
fn find_key(keys: &Vec<Vec<usize>>, key: &Vec<usize>) -> (r: Option<usize>)
    ensures
        r matches Some(j) ==> j < keys.len() && keys@[j as int]@ == key@,
        r is None ==> forall|j: int| 0 <= j < keys.len() ==> #[trigger] keys@[j]@ != key@,
{
    let mut j: usize = 0;
    while j < keys.len()
        invariant
            0 <= j <= keys.len(),
            forall|i: int| 0 <= i < j ==> #[trigger] keys@[i]@ != key@,
        decreases keys.len() - j,
    {
        if same_key(&keys[j], key) {
            return Some(j);
        }
        j = j + 1;
    }
    None
}

/// Whether `v` holds `x`.
fn contains_state(v: &Vec<usize>, x: usize) -> (r: bool)
    ensures
        r == v@.contains(x),
{
    let mut i: usize = 0;
    while i < v.len()
        invariant
            0 <= i <= v.len(),
            forall|k: int| 0 <= k < i ==> v@[k] != x,
        decreases v.len() - i,
    {
        if v[i] == x {
            assert(v@[i as int] == x);
            return true;
        }
        i = i + 1;
    }
    false
}

/// Whether `key` holds an accepting state of `nfa`.
fn holds_end(nfa: &NFA, key: &Vec<usize>) -> (r: bool)
    ensures
        r == holds_end_state(nfa, key@),
{
    let ends = nfa.get_end_states();
    let mut i: usize = 0;
    while i < ends.len()
        invariant
            ends@ == nfa@.ends,
            0 <= i <= ends.len(),
            forall|k: int| 0 <= k < i ==> !key@.contains(#[trigger] ends@[k]),
        decreases ends.len() - i,
    {
        if contains_state(key, ends[i]) {
            return true;
        }
        i = i + 1;
    }
    false
}

/// Adding the edge for state `i` and `alphabet[ci]` keeps every edge valid
/// and extends the states and symbols that have their edge.
proof fn lemma_add_edge(
    nfa: &NFA,
    kv: Seq<Seq<usize>>,
    kv2: Seq<Seq<usize>>,
    before_ts: Seq<DfaTransition>,
    ts: Seq<DfaTransition>,
    edge: DfaTransition,
    i: int,
    alphabet: Seq<char>,
    ci: int,
)
    requires
        ts == before_ts.push(edge),
        kv2.len() >= kv.len(),
        0 <= i < kv.len(),
        0 <= ci < alphabet.len(),
        forall|j: int| 0 <= j < kv.len() ==> kv2[j] == kv[j],
        edge_ok(nfa, kv2, edge),
        edge.from == i,
        edge.symbol == alphabet[ci],
        kv2.len() == kv.len() || (kv2.len() == kv.len() + 1 && edge.to == kv.len()),
        forall|j: int| 1 <= j < kv.len() ==> #[trigger] entered_earlier(before_ts, j),
        chars_sorted(alphabet),
        deterministic(before_ts),
        forall|k: int|
            0 <= k < before_ts.len() && #[trigger] before_ts[k].from == i ==> among_first(
                alphabet,
                ci,
                before_ts[k].symbol,
            ),
        forall|k: int|
            0 <= k < before_ts.len() ==> edge_ok(nfa, kv, #[trigger] before_ts[k])
                && before_ts[k].from <= i,
        forall|j: int, c: char|
            0 <= j < i && nfa@.alphabet.contains(c) && canonical(
                nfa@.move_of(kv[j].to_set(), c),
                nfa@.num_states,
            ).len() > 0 ==> #[trigger] has_edge(before_ts, j, c),
        forall|cj: int|
            0 <= cj < ci && canonical(
                nfa@.move_of(kv[i].to_set(), alphabet[cj]),
                nfa@.num_states,
            ).len() > 0 ==> has_edge(before_ts, i, #[trigger] alphabet[cj]),
    ensures
        forall|j: int| 1 <= j < kv2.len() ==> #[trigger] entered_earlier(ts, j),
        deterministic(ts),
        forall|k: int|
            0 <= k < ts.len() && #[trigger] ts[k].from == i ==> among_first(alphabet, ci + 1, ts[k].symbol),
        forall|k: int|
            0 <= k < ts.len() ==> edge_ok(nfa, kv2, #[trigger] ts[k]) && ts[k].from <= i,
        forall|j: int, c: char|
            0 <= j < i && nfa@.alphabet.contains(c) && canonical(
                nfa@.move_of(kv2[j].to_set(), c),
                nfa@.num_states,
            ).len() > 0 ==> #[trigger] has_edge(ts, j, c),
        forall|cj: int|
            0 <= cj < ci + 1 && canonical(
                nfa@.move_of(kv2[i].to_set(), alphabet[cj]),
                nfa@.num_states,
            ).len() > 0 ==> has_edge(ts, i, #[trigger] alphabet[cj]),
{
    assert(ts[ts.len() - 1] == edge);
    assert forall|j: int| 1 <= j < kv2.len() implies #[trigger] entered_earlier(ts, j) by {
        if j < kv.len() {
            assert(entered_earlier(before_ts, j));
            let k = choose|k: int| 0 <= k < before_ts.len() && #[trigger] before_ts[k].to == j && before_ts[k].from < j;
            assert(ts[k] == before_ts[k]);
        } else {
            assert(ts[ts.len() - 1].to == j);
        }
    }
    assert forall|k1: int, k2: int|
        0 <= k1 < k2 < ts.len() implies #[trigger] ts[k1].from != #[trigger] ts[k2].from
            || ts[k1].symbol != ts[k2].symbol by {
        assert(ts[k1] == before_ts[k1]);
        if k2 < before_ts.len() {
            assert(ts[k2] == before_ts[k2]);
        } else if before_ts[k1].from == i {
            let cj = choose|cj: int| 0 <= cj < ci && #[trigger] alphabet[cj] == before_ts[k1].symbol;
            assert(alphabet[cj] < alphabet[ci]);
        }
    }
    assert forall|k: int|
        0 <= k < ts.len() && #[trigger] ts[k].from == i implies among_first(alphabet, ci + 1, ts[k].symbol) by {
        if k < before_ts.len() {
            assert(ts[k] == before_ts[k]);
            let cj = choose|cj: int| 0 <= cj < ci && #[trigger] alphabet[cj] == before_ts[k].symbol;
            assert(alphabet[cj] == ts[k].symbol);
        } else {
            assert(alphabet[ci] == ts[k].symbol);
        }
    }
    assert forall|k: int| 0 <= k < ts.len() implies edge_ok(nfa, kv2, #[trigger] ts[k])
        && ts[k].from <= i by {
        if k < before_ts.len() {
            assert(ts[k] == before_ts[k]);
            let t = before_ts[k];
            assert(edge_ok(nfa, kv, t));
            assert(kv2[t.from as int] == kv[t.from as int]);
            assert(kv2[t.to as int] == kv[t.to as int]);
        }
    }
    assert forall|j: int, c: char| #[trigger] has_edge(before_ts, j, c) implies has_edge(ts, j, c) by {
        let k = choose|k: int|
            0 <= k < before_ts.len() && before_ts[k].from == j && #[trigger] before_ts[k].symbol == c;
        assert(ts[k] == before_ts[k]);
    }
    assert(has_edge(ts, i, edge.symbol)) by {
        assert(ts[ts.len() - 1].symbol == edge.symbol);
    }
    assert forall|j: int, c: char|
        0 <= j < i && nfa@.alphabet.contains(c) && canonical(
            nfa@.move_of(kv2[j].to_set(), c),
            nfa@.num_states,
        ).len() > 0 implies #[trigger] has_edge(ts, j, c) by {
        assert(kv2[j] == kv[j]);
        assert(has_edge(before_ts, j, c));
    }
    assert forall|cj: int|
        0 <= cj < ci + 1 && canonical(
            nfa@.move_of(kv2[i].to_set(), alphabet[cj]),
            nfa@.num_states,
        ).len() > 0 implies has_edge(ts, i, #[trigger] alphabet[cj]) by {
        assert(kv2[i] == kv[i]);
        if cj < ci {
            assert(has_edge(before_ts, i, alphabet[cj]));
        }
    }
}

impl DFA {
    pub closed spec fn view(&self) -> DfaModel {
        DfaModel {
            keys: key_views(self.keys@),
            accepting: self.accepting@,
            transitions: self.transitions@,
        }
    }

    /// Builds the deterministic automaton of `nfa` by subset construction.
    #[verifier::rlimit(100)]
    #[verifier::spinoff_prover]
    pub fn from_nfa(nfa: &NFA) -> (r: DFA)
        requires
            nfa@.wf(),
        ensures
            subset_construction_of(nfa, r@),
    {
        let ghost m = nfa@;
        let ghost n = m.num_states;
        let ghost bound = sorted_below(n).len();
        let alphabet = nfa.get_alphabet();
        let mut first: Vec<usize> = Vec::new();
        first.push(nfa.get_start_state());
        let start_key = nfa.epsilon_closure(&first);
        proof {
            assert(first@ =~= seq![m.start as usize]);
            assert(first@.to_set() =~= set![m.start as usize]) by {
                assert(first@[0] == m.start as usize);
            }
            closure_idempotent(nfa, first@);
            lemma_canonical(m.closure_of(first@.to_set()), n);
        }
        let mut keys: Vec<Vec<usize>> = Vec::new();
        keys.push(start_key);
        let mut transitions: Vec<DfaTransition> = Vec::new();
        let mut i: usize = 0;
        proof {
            assert(key_views(keys@) =~= seq![start_key@]);
        }
        while i < keys.len()
            invariant
                m == nfa@,
                m.wf(),
                n == m.num_states,
                bound == sorted_below(n).len(),
                alphabet@ == m.alphabet,
                0 <= i <= keys.len(),
                key_views(keys@).len() >= 1,
                key_views(keys@)[0] == canonical(m.closure_of(set![m.start as usize]), n),
                key_views(keys@).no_duplicates(),
                forall|j: int| 0 <= j < keys.len() ==> strictly_sorted(#[trigger] key_views(keys@)[j]),
                forall|j: int, x: int|
                    0 <= j < keys.len() && 0 <= x < key_views(keys@)[j].len() ==> #[trigger] key_views(keys@)[j][x] < n,
                forall|j: int|
                    0 <= j < keys.len() ==> #[trigger] canonical(m.closure_of(key_views(keys@)[j].to_set()), n)
                        == key_views(keys@)[j],
                deterministic(transitions@),
                forall|k: int|
                    0 <= k < transitions.len() ==> edge_ok(nfa, key_views(keys@), #[trigger] transitions@[k])
                        && transitions@[k].from < i,
                forall|j: int| 1 <= j < keys.len() ==> #[trigger] entered_earlier(transitions@, j),
                forall|j: int, c: char|
                    0 <= j < i && m.alphabet.contains(c) && canonical(
                        m.move_of(key_views(keys@)[j].to_set(), c),
                        n,
                    ).len() > 0 ==> #[trigger] has_edge(transitions@, j, c),
            decreases bound - i,
        {
            proof {
                lemma_distinct_keys_bound(key_views(keys@), n);
                assert(key_views(keys@).len() == keys.len());
            }
            let mut ci: usize = 0;
            while ci < alphabet.len()
                invariant
                    m == nfa@,
                    m.wf(),
                    n == m.num_states,
                    alphabet@ == m.alphabet,
                    0 <= i < keys.len(),
                    i < bound,
                    bound == sorted_below(n).len(),
                    0 <= ci <= alphabet.len(),
                    key_views(keys@).len() >= 1,
                    key_views(keys@)[0] == canonical(m.closure_of(set![m.start as usize]), n),
                    key_views(keys@).no_duplicates(),
                    forall|j: int| 0 <= j < keys.len() ==> strictly_sorted(#[trigger] key_views(keys@)[j]),
                    forall|j: int, x: int|
                        0 <= j < keys.len() && 0 <= x < key_views(keys@)[j].len() ==> #[trigger] key_views(keys@)[j][x] < n,
                    forall|j: int|
                        0 <= j < keys.len() ==> #[trigger] canonical(m.closure_of(key_views(keys@)[j].to_set()), n)
                            == key_views(keys@)[j],
                    deterministic(transitions@),
                    forall|j: int| 1 <= j < keys.len() ==> #[trigger] entered_earlier(transitions@, j),
                    forall|k: int|
                        0 <= k < transitions.len() && #[trigger] transitions@[k].from == i ==> among_first(
                            alphabet@,
                            ci as int,
                            transitions@[k].symbol,
                        ),
                    forall|k: int|
                        0 <= k < transitions.len() ==> edge_ok(nfa, key_views(keys@), #[trigger] transitions@[k])
                            && transitions@[k].from <= i,
                    forall|j: int, c: char|
                        0 <= j < i && m.alphabet.contains(c) && canonical(
                            m.move_of(key_views(keys@)[j].to_set(), c),
                            n,
                        ).len() > 0 ==> #[trigger] has_edge(transitions@, j, c),
                    forall|cj: int|
                        0 <= cj < ci && canonical(
                            m.move_of(key_views(keys@)[i as int].to_set(), alphabet@[cj]),
                            n,
                        ).len() > 0 ==> has_edge(transitions@, i as int, #[trigger] alphabet@[cj]),
                decreases alphabet.len() - ci,
            {
                let c = alphabet[ci];
                let ghost kv = key_views(keys@);
                proof {
                    assert(kv[i as int] == keys@[i as int]@);
                    assert forall|x: int| 0 <= x < keys@[i as int]@.len() implies #[trigger] keys@[i as int]@[x] < n by {
                        assert(kv[i as int][x] < n);
                    }
                }
                let moved = nfa.make_move(&keys[i], c);
                if moved.len() > 0 {
                    proof {
                        lemma_canonical(m.move_of(kv[i as int].to_set(), c), n);
                    }
                    let next = nfa.epsilon_closure(&moved);
                    proof {
                        let mv = m.move_of(kv[i as int].to_set(), c);
                        assert(moved@.to_set() =~= mv) by {
                            assert forall|q: usize| mv.contains(q) implies q < n by {
                                let k = choose|k: int|
                                    0 <= k < m.transitions.len() && kv[i as int].to_set().contains(m.transitions[k].from)
                                        && m.transitions[k].symbol == crate::nfa::Symbol::Char(c)
                                        && #[trigger] m.transitions[k].to == q;
                                assert(m.transitions[k].to < n);
                            }
                        }
                        closure_idempotent(nfa, moved@);
                        lemma_canonical(m.closure_of(moved@.to_set()), n);
                        assert(next@ == successor_key(nfa, kv[i as int], c));
                    }
                    let target = match find_key(&keys, &next) {
                        Some(j) => j,
                        None => {
                            let ghost before = keys@;
                            keys.push(next);
                            proof {
                                assert(key_views(keys@) =~= key_views(before).push(next@));
                                assert forall|a: int, b: int|
                                    0 <= a < keys.len() && 0 <= b < keys.len() && a != b implies key_views(keys@)[a]
                                        != key_views(keys@)[b] by {
                                    if a < before.len() && b < before.len() {
                                        assert(key_views(before)[a] != key_views(before)[b]);
                                    } else if a < before.len() {
                                        assert(before[a]@ != next@);
                                    } else {
                                        assert(before[b]@ != next@);
                                    }
                                }
                            }
                            keys.len() - 1
                        },
                    };
                    let ghost before_ts = transitions@;
                    let edge = DfaTransition { from: i, symbol: c, to: target };
                    transitions.push(edge);
                    proof {
                        let kv2 = key_views(keys@);
                        assert(m.alphabet[ci as int] == c);
                        assert(kv2[target as int] == next@);
                        assert(kv2[i as int] == kv[i as int]);
                        assert(edge_ok(nfa, kv2, edge));
                        lemma_add_edge(nfa, kv, kv2, before_ts, transitions@, edge, i as int, alphabet@, ci as int);
                    }
                }
                ci = ci + 1;
            }
            i = i + 1;
        }
        let mut accepting: Vec<bool> = Vec::new();
        let mut j: usize = 0;
        while j < keys.len()
            invariant
                m == nfa@,
                m.wf(),
                0 <= j <= keys.len(),
                accepting.len() == j,
                forall|a: int| 0 <= a < j ==> (#[trigger] accepting@[a] <==> holds_end_state(nfa, keys@[a]@)),
            decreases keys.len() - j,
        {
            let acc = holds_end(nfa, &keys[j]);
            accepting.push(acc);
            j = j + 1;
        }
        let r = DFA { keys, accepting, transitions };
        proof {
            assert forall|a: int| 0 <= a < r@.keys.len() implies (#[trigger] r@.accepting[a] <==> holds_end_state(nfa, r@.keys[a])) by {
                assert(r@.keys[a] == keys@[a]@);
            }
        }
        r
    }

    pub fn get_keys(&self) -> (r: &Vec<Vec<usize>>)
        ensures
            key_views(r@) == self@.keys,
    {
        &self.keys
    }

    pub fn get_accepting(&self) -> (r: &Vec<bool>)
        ensures
            r@ == self@.accepting,
    {
        &self.accepting
    }

    pub fn get_transitions(&self) -> (r: &Vec<DfaTransition>)
        ensures
            r@ == self@.transitions,
    {
        &self.transitions
    }
}

} // verus!
