use vstd::prelude::*;

use crate::canon::{
    canonical, collect_marked, count_true, lemma_canonical, lemma_canonical_agree,
    lemma_count_true_bound, lemma_count_true_set, marked, marks_of, strictly_sorted,
};
use crate::regex::{lemma_end_offset_in_fragment, own_states, re_chars, re_edges, re_end_offset, re_eps, re_states, ReOperator};

verus! {

/// The label of a transition: epsilon, or an input character.
#[derive(Clone, Copy, Debug, PartialEq, Eq, Structural)]
pub enum Symbol {
    Epsilon,
    Char(char),
}

/// One edge of the automaton: `from --symbol--> to`.
#[derive(Clone, Copy, Debug, PartialEq, Eq, Structural)]
pub struct Transition {
    pub from: usize,
    pub symbol: Symbol,
    pub to: usize,
}

/// A nondeterministic finite automaton whose states are `0..num_states`.
#[derive(Debug)]
pub struct NFA {
    start_state: usize,
    num_states: usize,
    end_states: Vec<usize>,
    transitions: Vec<Transition>,
    // the characters that label some transition, in increasing order
    used_alphabet: Vec<char>,
}

/// The mathematical content of an automaton.
pub ghost struct NfaModel {
    pub num_states: nat,
    pub start: nat,
    pub ends: Seq<usize>,
    pub transitions: Seq<Transition>,
    pub alphabet: Seq<char>,
}

/// Strictly increasing, hence free of duplicates.
pub open spec fn chars_sorted(a: Seq<char>) -> bool {
    forall|i: int, j: int| 0 <= i < j < a.len() ==> a[i] < a[j]
}

/// Number of epsilon transitions in `ts`.
pub open spec fn eps_count(ts: Seq<Transition>) -> nat
    decreases ts.len(),
{
    if ts.len() == 0 {
        0
    } else {
        eps_count(ts.drop_last()) + if ts.last().symbol == Symbol::Epsilon {
            1nat
        } else {
            0nat
        }
    }
}

/// The targets of the epsilon transitions of `ts` that leave `state`, in order.
pub open spec fn eps_targets(ts: Seq<Transition>, state: usize) -> Seq<usize>
    decreases ts.len(),
{
    if ts.len() == 0 {
        seq![]
    } else {
        let prefix = eps_targets(ts.drop_last(), state);
        if ts.last().from == state && ts.last().symbol == Symbol::Epsilon {
            prefix.push(ts.last().to)
        } else {
            prefix
        }
    }
}

/// Whether some transition of `ts` is labelled with `c`.
pub open spec fn labels(ts: Seq<Transition>, c: char) -> bool {
    exists|k: int| 0 <= k < ts.len() && #[trigger] ts[k].symbol == Symbol::Char(c)
}

impl NfaModel {
    /// Every index in range, and the alphabet is exactly the set of labels.
    pub open spec fn wf_partial(self) -> bool {
        &&& forall|k: int|
            0 <= k < self.transitions.len() ==> #[trigger] self.transitions[k].from < self.num_states
                && self.transitions[k].to < self.num_states
        &&& chars_sorted(self.alphabet)
        &&& forall|c: char| #[trigger] self.alphabet.contains(c) <==> labels(self.transitions, c)
    }

    /// A finished automaton: one start state and at least one end state, all in range.
    pub open spec fn wf(self) -> bool {
        &&& self.wf_partial()
        &&& self.num_states <= usize::MAX
        &&& self.start < self.num_states
        &&& self.ends.len() >= 1
        &&& forall|i: int| 0 <= i < self.ends.len() ==> #[trigger] self.ends[i] < self.num_states
    }

    /// Transition `k` goes from `a` to `b` on epsilon.
    pub open spec fn eps_edge(self, k: int, a: usize, b: usize) -> bool {
        &&& 0 <= k < self.transitions.len()
        &&& self.transitions[k].from == a
        &&& self.transitions[k].symbol == Symbol::Epsilon
        &&& self.transitions[k].to == b
    }

    /// No epsilon transition leaves `t`.
    pub open spec fn eps_closed(self, t: Set<usize>) -> bool {
        forall|k: int, a: usize, b: usize| #[trigger]
            self.eps_edge(k, a, b) && t.contains(a) ==> t.contains(b)
    }

    /// The epsilon-closure of `s`: the states that lie in every set that
    /// holds `s` and that no epsilon transition leaves.
    pub open spec fn closure_of(self, s: Set<usize>) -> Set<usize> {
        Set::new(
            |q: usize|
                forall|t: Set<usize>| #[trigger]
                    t.contains(q) || !(s.subset_of(t) && self.eps_closed(t)),
        )
    }

    /// The states that one transition on `c` leads to from `s`.
    pub open spec fn move_of(self, s: Set<usize>, c: char) -> Set<usize> {
        Set::new(
            |q: usize|
                exists|k: int|
                    0 <= k < self.transitions.len() && s.contains(self.transitions[k].from)
                        && self.transitions[k].symbol == Symbol::Char(c)
                        && #[trigger] self.transitions[k].to == q,
        )
    }
}

/// The transitions that the last step of building `re` adds, after those of
/// its parts: `base` is the first state it allocates.
pub open spec fn fragment_edges(
    re: ReOperator,
    joined: bool,
    base: nat,
    start: nat,
    end: nat,
) -> Seq<Transition> {
    let inner = base + own_states(joined);
    match re {
        ReOperator::Char(c) => seq![
            Transition { from: start as usize, symbol: Symbol::Char(c), to: end as usize },
        ],
        ReOperator::Concat(_, _) => seq![],
        ReOperator::Or(l, r) => {
            let l_end = inner + re_end_offset(*l, false);
            let r_start = inner + re_states(*l, false);
            let r_end = r_start + re_end_offset(*r, false);
            seq![
                Transition { from: start as usize, symbol: Symbol::Epsilon, to: inner as usize },
                Transition { from: start as usize, symbol: Symbol::Epsilon, to: r_start as usize },
                Transition { from: r_end as usize, symbol: Symbol::Epsilon, to: end as usize },
                Transition { from: l_end as usize, symbol: Symbol::Epsilon, to: end as usize },
            ]
        },
        ReOperator::KleeneStar(i) => {
            let i_end = inner + re_end_offset(*i, false);
            seq![
                Transition { from: start as usize, symbol: Symbol::Epsilon, to: end as usize },
                Transition { from: i_end as usize, symbol: Symbol::Epsilon, to: inner as usize },
                Transition { from: start as usize, symbol: Symbol::Epsilon, to: inner as usize },
                Transition { from: i_end as usize, symbol: Symbol::Epsilon, to: end as usize },
            ]
        },
    }
}

/// Every transition that building `re` adds, in the order it adds them: the
/// parts' transitions first, then the node's own. `base` is the first state
/// the fragment allocates and `start` its start state.
pub open spec fn thompson_edges(re: ReOperator, joined: bool, base: nat, start: nat) -> Seq<
    Transition,
>
    decreases re,
{
    let inner = base + own_states(joined);
    let end = base + re_end_offset(re, joined);
    match re {
        ReOperator::Char(_) => fragment_edges(re, joined, base, start, end),
        ReOperator::Concat(l, r) => thompson_edges(*l, joined, base, start) + thompson_edges(
            *r,
            true,
            base + re_states(*l, joined),
            base + re_end_offset(*l, joined),
        ),
        ReOperator::Or(l, r) => thompson_edges(*l, false, inner, inner) + thompson_edges(
            *r,
            false,
            inner + re_states(*l, false),
            inner + re_states(*l, false),
        ) + fragment_edges(re, joined, base, start, end),
        ReOperator::KleeneStar(i) => thompson_edges(*i, false, inner, inner) + fragment_edges(
            re,
            joined,
            base,
            start,
            end,
        ),
    }
}

/// Where an edge of the fragment of `re` may stand: it leaves a state the
/// fragment allocates or its start state, never its end state; it enters a
/// state the fragment allocates; a character label is a character of `re`.
pub open spec fn edge_in_fragment(
    t: Transition,
    re: ReOperator,
    joined: bool,
    base: nat,
    start: nat,
) -> bool {
    let hi = base + re_states(re, joined);
    &&& (base <= t.from < hi || t.from == start)
    &&& t.from != base + re_end_offset(re, joined)
    &&& base <= t.to < hi
    &&& (t.symbol matches Symbol::Char(c) ==> re_chars(re).contains(c))
}

proof fn lemma_no_dup_append(a: Seq<Transition>, b: Seq<Transition>)
    requires
        a.no_duplicates(),
        b.no_duplicates(),
        forall|i: int, j: int| 0 <= i < a.len() && 0 <= j < b.len() ==> a[i] != b[j],
    ensures
        (a + b).no_duplicates(),
{
    let c = a + b;
    assert forall|i: int, j: int| 0 <= i < c.len() && 0 <= j < c.len() && i != j implies c[i]
        != c[j] by {
        if i < a.len() && j >= a.len() {
            assert(a[i] != b[j - a.len()]);
        } else if j < a.len() && i >= a.len() {
            assert(a[j] != b[i - a.len()]);
        }
    }
}

/// The transitions of a fragment stay inside it and hold no duplicate.
pub open spec fn shape_ok(re: ReOperator, joined: bool, base: nat, start: nat) -> bool {
    &&& forall|k: int|
        0 <= k < thompson_edges(re, joined, base, start).len() ==> edge_in_fragment(
            #[trigger] thompson_edges(re, joined, base, start)[k],
            re,
            joined,
            base,
            start,
        )
    &&& thompson_edges(re, joined, base, start).no_duplicates()
}

pub proof fn lemma_thompson_shape(re: ReOperator, joined: bool, base: nat, start: nat)
    requires
        joined ==> start < base,
        !joined ==> start == base,
        base + re_states(re, joined) <= usize::MAX + 1,
    ensures
        shape_ok(re, joined, base, start),
    decreases re, 1nat,
{
    lemma_end_offset_in_fragment(re, joined);
    match re {
        ReOperator::Char(_) => {},
        ReOperator::Concat(_, _) => lemma_shape_concat(re, joined, base, start),
        ReOperator::Or(_, _) => lemma_shape_or(re, joined, base, start),
        ReOperator::KleeneStar(_) => lemma_shape_star(re, joined, base, start),
    }
}

#[verifier::rlimit(100)]
#[verifier::spinoff_prover]
proof fn lemma_shape_concat(re: ReOperator, joined: bool, base: nat, start: nat)
    requires
        joined ==> start < base,
        !joined ==> start == base,
        base + re_states(re, joined) <= usize::MAX + 1,
        re is Concat,
    ensures
        shape_ok(re, joined, base, start),
    decreases re, 0nat,
{
    let es = thompson_edges(re, joined, base, start);
    let inner = base + own_states(joined);
    let end = base + re_end_offset(re, joined);
    lemma_end_offset_in_fragment(re, joined);
    match re {
        ReOperator::Concat(l, r) => {
            let sl = re_states(*l, joined);
            let el = re_end_offset(*l, joined);
            lemma_end_offset_in_fragment(*l, joined);
            lemma_end_offset_in_fragment(*r, true);
            lemma_thompson_shape(*l, joined, base, start);
            lemma_thompson_shape(*r, true, base + sl, base + el);
            let a = thompson_edges(*l, joined, base, start);
            let b = thompson_edges(*r, true, base + sl, base + el);
            assert forall|i: int, j: int| 0 <= i < a.len() && 0 <= j < b.len() implies a[i] != b[j] by {
                assert(edge_in_fragment(a[i], *l, joined, base, start));
                assert(edge_in_fragment(b[j], *r, true, base + sl, base + el));
            }
            lemma_no_dup_append(a, b);
            assert forall|k: int| 0 <= k < es.len() implies edge_in_fragment(
                #[trigger] es[k],
                re,
                joined,
                base,
                start,
            ) by {
                if k < a.len() {
                    assert(es[k] == a[k]);
                    assert(edge_in_fragment(a[k], *l, joined, base, start));
                } else {
                    assert(es[k] == b[k - a.len()]);
                    assert(edge_in_fragment(b[k - a.len()], *r, true, base + sl, base + el));
                }
            }
        },
        _ => {},
    }
}

#[verifier::rlimit(100)]
#[verifier::spinoff_prover]
proof fn lemma_shape_or(re: ReOperator, joined: bool, base: nat, start: nat)
    requires
        joined ==> start < base,
        !joined ==> start == base,
        base + re_states(re, joined) <= usize::MAX + 1,
        re is Or,
    ensures
        shape_ok(re, joined, base, start),
    decreases re, 0nat,
{
    let es = thompson_edges(re, joined, base, start);
    let inner = base + own_states(joined);
    let end = base + re_end_offset(re, joined);
    lemma_end_offset_in_fragment(re, joined);
    match re {
        ReOperator::Or(l, r) => {
            let sl = re_states(*l, false);
            lemma_end_offset_in_fragment(*l, false);
            lemma_end_offset_in_fragment(*r, false);
            lemma_thompson_shape(*l, false, inner, inner);
            lemma_thompson_shape(*r, false, inner + sl, inner + sl);
            let a = thompson_edges(*l, false, inner, inner);
            let b = thompson_edges(*r, false, inner + sl, inner + sl);
            let f = fragment_edges(re, joined, base, start, end);
            assert forall|i: int, j: int| 0 <= i < a.len() && 0 <= j < b.len() implies a[i] != b[j] by {
                assert(edge_in_fragment(a[i], *l, false, inner, inner));
                assert(edge_in_fragment(b[j], *r, false, inner + sl, inner + sl));
            }
            lemma_no_dup_append(a, b);
            let ab = a + b;
            assert forall|k: int| 0 <= k < ab.len() implies inner <= (#[trigger] ab[k]).from < inner
                + sl + re_states(*r, false) && inner <= ab[k].to < inner + sl + re_states(*r, false) && (
            ab[k].symbol matches Symbol::Char(c) ==> re_chars(re).contains(c)) && (ab[k].to < inner + sl
                ==> ab[k].from < inner + sl) && (ab[k].to >= inner + sl ==> ab[k].from >= inner + sl) by {
                if k < a.len() {
                    assert(ab[k] == a[k]);
                    assert(edge_in_fragment(a[k], *l, false, inner, inner));
                } else {
                    assert(ab[k] == b[k - a.len()]);
                    assert(edge_in_fragment(b[k - a.len()], *r, false, inner + sl, inner + sl));
                }
            }
            assert(f.no_duplicates());
            assert forall|i: int, j: int| 0 <= i < ab.len() && 0 <= j < f.len() implies ab[i] != f[j] by {}
            lemma_no_dup_append(ab, f);
            assert forall|k: int| 0 <= k < es.len() implies edge_in_fragment(
                #[trigger] es[k],
                re,
                joined,
                base,
                start,
            ) by {
                if k < ab.len() {
                    assert(es[k] == ab[k]);
                } else {
                    assert(es[k] == f[k - ab.len()]);
                }
            }
        },
        _ => {},
    }
}

#[verifier::rlimit(100)]
#[verifier::spinoff_prover]
proof fn lemma_shape_star(re: ReOperator, joined: bool, base: nat, start: nat)
    requires
        joined ==> start < base,
        !joined ==> start == base,
        base + re_states(re, joined) <= usize::MAX + 1,
        re is KleeneStar,
    ensures
        shape_ok(re, joined, base, start),
    decreases re, 0nat,
{
    let es = thompson_edges(re, joined, base, start);
    let inner = base + own_states(joined);
    let end = base + re_end_offset(re, joined);
    lemma_end_offset_in_fragment(re, joined);
    match re {
        ReOperator::KleeneStar(i) => {
            lemma_end_offset_in_fragment(*i, false);
            lemma_thompson_shape(*i, false, inner, inner);
            let a = thompson_edges(*i, false, inner, inner);
            let f = fragment_edges(re, joined, base, start, end);
            assert(f.no_duplicates());
            assert forall|x: int, j: int| 0 <= x < a.len() && 0 <= j < f.len() implies a[x] != f[j] by {
                assert(edge_in_fragment(a[x], *i, false, inner, inner));
            }
            lemma_no_dup_append(a, f);
            assert forall|k: int| 0 <= k < es.len() implies edge_in_fragment(
                #[trigger] es[k],
                re,
                joined,
                base,
                start,
            ) by {
                if k < a.len() {
                    assert(es[k] == a[k]);
                    assert(edge_in_fragment(a[k], *i, false, inner, inner));
                } else {
                    assert(es[k] == f[k - a.len()]);
                }
            }
        },
        _ => {},
    }
}

/// What building `re` does to an automaton: `pre` before, `post` after,
/// `first` the join state handed in, `res` the fragment's start and end.
pub open spec fn builds(
    pre: NfaModel,
    post: NfaModel,
    re: ReOperator,
    first: Option<usize>,
    res: (usize, usize),
) -> bool {
    let joined = first is Some;
    let frag = fragment_edges(re, joined, pre.num_states, res.0 as nat, res.1 as nat);
    let ts = post.transitions;
    &&& post.wf_partial()
    &&& post.num_states == pre.num_states + re_states(re, joined)
    &&& post.start == pre.start
    &&& post.ends == pre.ends
    &&& ts.len() == pre.transitions.len() + re_edges(re)
    &&& ts.subrange(0, pre.transitions.len() as int) == pre.transitions
    &&& eps_count(ts) == eps_count(pre.transitions) + re_eps(re)
    &&& forall|c: char| #[trigger]
        post.alphabet.contains(c) <==> (pre.alphabet.contains(c) || re_chars(re).contains(c))
    &&& res.0 == (match first {
        Some(j) => j as nat,
        None => pre.num_states,
    })
    &&& res.1 == pre.num_states + re_end_offset(re, joined)
    &&& res.1 < post.num_states
    &&& frag.len() <= re_edges(re)
    &&& ts.subrange(ts.len() - frag.len(), ts.len() as int) == frag
    &&& ts.subrange(pre.transitions.len() as int, ts.len() as int) == thompson_edges(
        re,
        joined,
        pre.num_states,
        res.0 as nat,
    )
}

/// Where the new transitions of a build stand: inside the fragment, none
/// leaving its end state, none twice.
pub open spec fn builds_within(
    pre: NfaModel,
    post: NfaModel,
    re: ReOperator,
    first: Option<usize>,
    res: (usize, usize),
) -> bool {
    let ts = post.transitions;
    &&& forall|k: int|
        pre.transitions.len() <= k < ts.len() ==> edge_in_fragment(
            #[trigger] ts[k],
            re,
            first is Some,
            pre.num_states,
            res.0 as nat,
        )
    &&& forall|k: int| 0 <= k < ts.len() ==> #[trigger] ts[k].from != res.1
    &&& ts.subrange(pre.transitions.len() as int, ts.len() as int).no_duplicates()
}

/// What building a fragment needs: a well-formed automaton, a join state
/// that exists, and room for the new states.
pub open spec fn can_build(pre: NfaModel, re: ReOperator, first: Option<usize>) -> bool {
    &&& pre.wf_partial()
    &&& first matches Some(j) ==> j < pre.num_states
    &&& pre.num_states + re_states(re, first is Some) <= usize::MAX
}

/// The automaton that `from_regex` builds for `re`: well formed, start
/// state 0, one end state, and the counts and last transitions of the
/// construction.
pub open spec fn built_from(m: NfaModel, re: ReOperator) -> bool {
    let end = re_end_offset(re, false);
    let frag = fragment_edges(re, false, 0, 0, end);
    let ts = m.transitions;
    &&& m.wf()
    &&& m.num_states == re_states(re, false)
    &&& m.start == 0
    &&& m.ends == seq![end as usize]
    &&& ts.len() == re_edges(re)
    &&& eps_count(ts) == re_eps(re)
    &&& forall|c: char| #[trigger] m.alphabet.contains(c) <==> re_chars(re).contains(c)
    &&& frag.len() <= ts.len()
    &&& ts.subrange(ts.len() - frag.len(), ts.len() as int) == frag
    &&& ts == thompson_edges(re, false, 0, 0)
    &&& ts.no_duplicates()
    &&& forall|k: int| 0 <= k < ts.len() ==> #[trigger] ts[k].from != end as usize
}

/// Adds `c` to a sorted alphabet, keeping it sorted.
fn insert_char(alpha: &mut Vec<char>, c: char)
    requires
        chars_sorted(old(alpha)@),
    ensures
        chars_sorted(final(alpha)@),
        forall|x: char| #[trigger]
            final(alpha)@.contains(x) <==> (old(alpha)@.contains(x) || x == c),
{
    let mut i: usize = 0;
    while i < alpha.len() && alpha[i] < c
        invariant
            0 <= i <= alpha.len(),
            alpha@ == old(alpha)@,
            chars_sorted(alpha@),
            forall|k: int| 0 <= k < i ==> alpha@[k] < c,
        decreases alpha.len() - i,
    {
        i = i + 1;
    }
    if i < alpha.len() && alpha[i] == c {
        return;
    }
    let ghost before = alpha@;
    alpha.insert(i, c);
    proof {
        let after = alpha@;
        assert(after.len() == before.len() + 1);
        assert forall|k: int| 0 <= k < after.len() implies after[k] == (if k < i {
            before[k]
        } else if k == i {
            c
        } else {
            before[k - 1]
        }) by {}
        assert(i < before.len() ==> c < before[i as int]);
        assert forall|x: char| #[trigger]
            after.contains(x) <==> (before.contains(x) || x == c) by {
            if after.contains(x) {
                let k = choose|k: int| 0 <= k < after.len() && after[k] == x;
                if k > i {
                    assert(before[k - 1] == x);
                }
            }
            if before.contains(x) {
                let k = choose|k: int| 0 <= k < before.len() && before[k] == x;
                if k < i {
                    assert(after[k] == x);
                } else {
                    assert(after[k + 1] == x);
                }
            }
            if x == c {
                assert(after[i as int] == x);
            }
        }
    }
}

impl NFA {
    pub closed spec fn view(&self) -> NfaModel {
        NfaModel {
            num_states: self.num_states as nat,
            start: self.start_state as nat,
            ends: self.end_states@,
            transitions: self.transitions@,
            alphabet: self.used_alphabet@,
        }
    }

    fn new() -> (r: Self)
        ensures
            r@.num_states == 0,
            r@.start == 0,
            r@.transitions.len() == 0,
            r@.alphabet.len() == 0,
            r@.ends.len() == 0,
            r@.wf_partial(),
    {
        Self {
            num_states: 0,
            start_state: 0,
            end_states: Vec::new(),
            transitions: Vec::new(),
            used_alphabet: Vec::new(),
        }
    }

    fn add_state(&mut self) -> (r: usize)
        requires
            old(self)@.wf_partial(),
            old(self)@.num_states < usize::MAX,
        ensures
            r == old(self)@.num_states,
            final(self)@ == (NfaModel { num_states: old(self)@.num_states + 1, ..old(self)@ }),
            final(self)@.wf_partial(),
    {
        self.num_states = self.num_states + 1;
        self.num_states - 1
    }

    fn add_transition(&mut self, from: usize, symbol: Symbol, to: usize)
        requires
            old(self)@.wf_partial(),
            from < old(self)@.num_states,
            to < old(self)@.num_states,
            symbol == Symbol::Epsilon || labels(old(self)@.transitions, symbol->Char_0),
        ensures
            final(self)@ == (NfaModel {
                transitions: old(self)@.transitions.push(Transition { from, symbol, to }),
                ..old(self)@
            }),
            final(self)@.wf_partial(),
            eps_count(final(self)@.transitions) == eps_count(old(self)@.transitions) + if symbol
                == Symbol::Epsilon {
                1nat
            } else {
                0nat
            },
    {
        let ghost before = self.transitions@;
        self.transitions.push(Transition { from, symbol, to });
        proof {
            let after = self.transitions@;
            assert(after.drop_last() == before);
            assert forall|c: char| labels(before, c) <==> labels(after, c) by {
                if labels(before, c) {
                    let k = choose|k: int| 0 <= k < before.len() && #[trigger] before[k].symbol == Symbol::Char(c);
                    assert(after[k].symbol == Symbol::Char(c));
                }
                if labels(after, c) {
                    let k = choose|k: int| 0 <= k < after.len() && #[trigger] after[k].symbol == Symbol::Char(c);
                    if k == before.len() {
                    } else {
                        assert(before[k].symbol == Symbol::Char(c));
                    }
                }
            }
        }
    }


    /// Builds `regex` into this automaton (Thompson's construction) and
    /// returns the fragment's start and end states. When `first_option` holds
    /// a state, that state is the fragment's start and no fresh one is made.
    fn recursive_from_regex(&mut self, regex: &ReOperator, first_option: Option<usize>) -> (res: (
        usize,
        usize,
    ))
        requires
            can_build(old(self)@, *regex, first_option),
        ensures
            builds(old(self)@, final(self)@, *regex, first_option, res),
            builds_within(old(self)@, final(self)@, *regex, first_option, res),
        decreases regex, 1nat,
    {
        let res = match regex {
            ReOperator::Char(_) => self.build_char(regex, first_option),
            ReOperator::Concat(_, _) => self.build_concat(regex, first_option),
            ReOperator::Or(_, _) => self.build_or(regex, first_option),
            ReOperator::KleeneStar(_) => self.build_star(regex, first_option),
        };
        proof {
            let pre = old(self)@;
            let ts = self@.transitions;
            let joined = first_option is Some;
            let added = ts.subrange(pre.transitions.len() as int, ts.len() as int);
            lemma_thompson_shape(*regex, joined, pre.num_states, res.0 as nat);
            assert forall|k: int| pre.transitions.len() <= k < ts.len() implies edge_in_fragment(
                #[trigger] ts[k],
                *regex,
                joined,
                pre.num_states,
                res.0 as nat,
            ) by {
                assert(ts[k] == added[k - pre.transitions.len()]);
            }
            assert forall|k: int| 0 <= k < ts.len() implies #[trigger] ts[k].from != res.1 by {
                if k < pre.transitions.len() {
                    assert(ts[k] == pre.transitions[k]);
                } else {
                    assert(ts[k] == added[k - pre.transitions.len()]);
                }
            }
        }
        res
    }

    fn start_of(&mut self, first_option: Option<usize>) -> (r: usize)
        requires
            old(self)@.wf_partial(),
            first_option matches Some(j) ==> j < old(self)@.num_states,
            old(self)@.num_states + own_states(first_option is Some) <= usize::MAX,
        ensures
            final(self)@.wf_partial(),
            r == (match first_option {
                Some(j) => j as nat,
                None => old(self)@.num_states,
            }),
            final(self)@ == (NfaModel {
                num_states: old(self)@.num_states + if first_option is Some {
                    0nat
                } else {
                    1nat
                },
                ..old(self)@
            }),
    {
        match first_option {
            Some(j) => j,
            None => self.add_state(),
        }
    }

    /// A character: `start --c--> end`.
    fn build_char(&mut self, regex: &ReOperator, first_option: Option<usize>) -> (res: (
        usize,
        usize,
    ))
        requires
            can_build(old(self)@, *regex, first_option),
            regex is Char,
        ensures
            builds(old(self)@, final(self)@, *regex, first_option, res),
        decreases regex, 0nat,
    {
        let c = match regex {
            ReOperator::Char(c) => *c,
            _ => 'a',
        };
        let ghost old_ts = self.transitions@;
        let start = self.start_of(first_option);
        let end = self.add_state();
        insert_char(&mut self.used_alphabet, c);
        let ghost mid = self.transitions@;
        self.transitions.push(Transition { from: start, symbol: Symbol::Char(c), to: end });
        proof {
            let ts = self.transitions@;
            assert(ts.drop_last() == mid);
            assert(ts[ts.len() - 1].symbol == Symbol::Char(c));
            assert forall|x: char| #[trigger] self@.alphabet.contains(x) <==> labels(ts, x) by {
                if labels(mid, x) {
                    let k = choose|k: int|
                        0 <= k < mid.len() && #[trigger] mid[k].symbol == Symbol::Char(x);
                    assert(ts[k].symbol == Symbol::Char(x));
                }
                if labels(ts, x) {
                    let k = choose|k: int|
                        0 <= k < ts.len() && #[trigger] ts[k].symbol == Symbol::Char(x);
                    if k < mid.len() {
                        assert(mid[k].symbol == Symbol::Char(x));
                    }
                }
            }
            assert(ts.subrange(0, old_ts.len() as int) =~= old_ts);
            assert(ts.subrange(ts.len() - 1, ts.len() as int) =~= seq![
                Transition { from: start, symbol: Symbol::Char(c), to: end },
            ]);
            assert(ts.subrange(old_ts.len() as int, ts.len() as int) =~= seq![
                Transition { from: start, symbol: Symbol::Char(c), to: end },
            ]);
        }
        (start, end)
    }

    /// A concatenation: the right part starts at the left part's end state.
    fn build_concat(&mut self, regex: &ReOperator, first_option: Option<usize>) -> (res: (
        usize,
        usize,
    ))
        requires
            can_build(old(self)@, *regex, first_option),
            regex is Concat,
        ensures
            builds(old(self)@, final(self)@, *regex, first_option, res),
        decreases regex, 0nat,
    {
        match regex {
            ReOperator::Concat(left, right) => {
                let ghost old_ts = self.transitions@;
                let (l_start, l_end) = self.recursive_from_regex(left, first_option);
                let ghost mid = self.transitions@;
                let (_r_start, r_end) = self.recursive_from_regex(right, Some(l_end));
                proof {
                    let ts = self.transitions@;
                    assert(ts.subrange(0, old_ts.len() as int) =~= mid.subrange(
                        0,
                        old_ts.len() as int,
                    ));
                    assert(ts.subrange(ts.len() as int, ts.len() as int) =~= seq![]);
                    assert(ts.subrange(old_ts.len() as int, ts.len() as int) =~= mid.subrange(
                        old_ts.len() as int,
                        mid.len() as int,
                    ) + ts.subrange(mid.len() as int, ts.len() as int));
                }
                (l_start, r_end)
            },
            _ => (0, 0),
        }
    }

    /// An alternative: fresh start and end states around both parts.
    #[verifier::rlimit(100)]
    #[verifier::spinoff_prover]
    fn build_or(&mut self, regex: &ReOperator, first_option: Option<usize>) -> (res: (
        usize,
        usize,
    ))
        requires
            can_build(old(self)@, *regex, first_option),
            regex is Or,
        ensures
            builds(old(self)@, final(self)@, *regex, first_option, res),
        decreases regex, 0nat,
    {
        match regex {
            ReOperator::Or(left, right) => {
                let ghost old_ts = self.transitions@;
                let start = self.start_of(first_option);
                let end = self.add_state();
                let (l_start, l_end) = self.recursive_from_regex(left, None);
                let ghost mid1 = self.transitions@;
                let (r_start, r_end) = self.recursive_from_regex(right, None);
                let ghost mid2 = self.transitions@;
                proof {
                    assert(mid2.subrange(0, old_ts.len() as int) =~= mid1.subrange(
                        0,
                        old_ts.len() as int,
                    ));
                    assert(mid2.subrange(old_ts.len() as int, mid2.len() as int) =~= mid1.subrange(
                        old_ts.len() as int,
                        mid1.len() as int,
                    ) + mid2.subrange(mid1.len() as int, mid2.len() as int));
                }
                self.add_transition(start, Symbol::Epsilon, l_start);
                self.add_transition(start, Symbol::Epsilon, r_start);
                self.add_transition(r_end, Symbol::Epsilon, end);
                self.add_transition(l_end, Symbol::Epsilon, end);
                proof {
                    let ts = self.transitions@;
                    assert(ts.subrange(0, old_ts.len() as int) =~= old_ts);
                    assert(ts.subrange(old_ts.len() as int, ts.len() as int) =~= mid2.subrange(old_ts.len() as int, mid2.len() as int)
                        + ts.subrange(ts.len() - 4, ts.len() as int));
                    assert(ts.subrange(ts.len() - 4, ts.len() as int) =~= fragment_edges(
                        *regex,
                        first_option is Some,
                        old(self)@.num_states,
                        start as nat,
                        end as nat,
                    ));
                }
                (start, end)
            },
            _ => (0, 0),
        }
    }

    /// A repetition: a bypass, a loop back from the inner end to the inner
    /// start, and edges into and out of the inner part.
    #[verifier::rlimit(100)]
    #[verifier::spinoff_prover]
    fn build_star(&mut self, regex: &ReOperator, first_option: Option<usize>) -> (res: (
        usize,
        usize,
    ))
        requires
            can_build(old(self)@, *regex, first_option),
            regex is KleeneStar,
        ensures
            builds(old(self)@, final(self)@, *regex, first_option, res),
        decreases regex, 0nat,
    {
        match regex {
            ReOperator::KleeneStar(inner) => {
                let ghost old_ts = self.transitions@;
                let start = self.start_of(first_option);
                let end = self.add_state();
                let (i_start, i_end) = self.recursive_from_regex(inner, None);
                let ghost mid = self.transitions@;
                self.add_transition(start, Symbol::Epsilon, end);
                self.add_transition(i_end, Symbol::Epsilon, i_start);
                self.add_transition(start, Symbol::Epsilon, i_start);
                self.add_transition(i_end, Symbol::Epsilon, end);
                proof {
                    let ts = self.transitions@;
                    assert(ts.subrange(0, old_ts.len() as int) =~= old_ts);
                    assert(ts.subrange(old_ts.len() as int, ts.len() as int) =~= mid.subrange(old_ts.len() as int, mid.len() as int)
                        + ts.subrange(ts.len() - 4, ts.len() as int));
                    assert(ts.subrange(ts.len() - 4, ts.len() as int) =~= fragment_edges(
                        *regex,
                        first_option is Some,
                        old(self)@.num_states,
                        start as nat,
                        end as nat,
                    ));
                }
                (start, end)
            },
            _ => (0, 0),
        }
    }

    /// Builds the automaton of `regex` by Thompson's construction: one start
    /// state, one end state.
    pub fn from_regex(regex: &ReOperator) -> (r: Self)
        requires
            re_states(*regex, false) <= usize::MAX,
        ensures
            built_from(r@, *regex),
    {
        let mut nfa = Self::new();
        let (start, end) = nfa.recursive_from_regex(regex, None);
        nfa.start_state = start;
        nfa.end_states.push(end);
        proof {
            let m = nfa@;
            let ts = m.transitions;
            assert(ts.subrange(0, 0) =~= seq![]);
            assert(ts.subrange(0, ts.len() as int) =~= ts);
            assert(m.ends =~= seq![end]);
        }
        nfa
    }

    pub fn get_start_state(&self) -> (r: usize)
        ensures
            r == self@.start,
    {
        self.start_state
    }

    pub fn get_num_states(&self) -> (r: usize)
        ensures
            r == self@.num_states,
    {
        self.num_states
    }

    pub fn get_end_states(&self) -> (r: &Vec<usize>)
        ensures
            r@ == self@.ends,
    {
        &self.end_states
    }

    pub fn get_transitions(&self) -> (r: &Vec<Transition>)
        ensures
            r@ == self@.transitions,
    {
        &self.transitions
    }

    /// The characters that label some transition, in increasing order.
    pub fn get_alphabet(&self) -> (r: Vec<char>)
        ensures
            r@ == self@.alphabet,
    {
        let mut r: Vec<char> = Vec::new();
        let mut i: usize = 0;
        while i < self.used_alphabet.len()
            invariant
                0 <= i <= self.used_alphabet.len(),
                r@ == self.used_alphabet@.subrange(0, i as int),
            decreases self.used_alphabet.len() - i,
        {
            r.push(self.used_alphabet[i]);
            i = i + 1;
            assert(r@ =~= self.used_alphabet@.subrange(0, i as int));
        }
        assert(r@ =~= self.used_alphabet@);
        r
    }

    /// The targets of the epsilon transitions that leave `state`.
    fn get_epsilon_transitions(&self, state: usize) -> (r: Vec<usize>)
        requires
            self@.wf(),
            state < self@.num_states,
        ensures
            r@ == eps_targets(self@.transitions, state),
            forall|i: int| 0 <= i < r.len() ==> #[trigger] r@[i] < self@.num_states,
            forall|x: usize|
                r@.contains(x) <==> exists|k: int| #[trigger] self@.eps_edge(k, state, x),
    {
        let mut r: Vec<usize> = Vec::new();
        let mut k: usize = 0;
        while k < self.transitions.len()
            invariant
                self@.wf(),
                0 <= k <= self.transitions.len(),
                r@ == eps_targets(self@.transitions.subrange(0, k as int), state),
                forall|i: int| 0 <= i < r.len() ==> #[trigger] r@[i] < self@.num_states,
                forall|x: usize|
                    r@.contains(x) <==> exists|kk: int|
                        0 <= kk < k && #[trigger] self@.eps_edge(kk, state, x),
            decreases self.transitions.len() - k,
        {
            let t = self.transitions[k];
            let ghost before = r@;
            proof {
                let ts = self@.transitions;
                assert(ts.subrange(0, k + 1).drop_last() =~= ts.subrange(0, k as int));
                assert(ts.subrange(0, k + 1).last() == t);
            }
            if t.from == state && t.symbol == Symbol::Epsilon {
                r.push(t.to);
                proof {
                    assert(self@.eps_edge(k as int, state, t.to));
                    assert forall|x: usize|
                        r@.contains(x) <==> exists|kk: int|
                            0 <= kk < k + 1 && #[trigger] self@.eps_edge(kk, state, x) by {
                        if r@.contains(x) {
                            let i = choose|i: int| 0 <= i < r@.len() && r@[i] == x;
                            if i < before.len() {
                                assert(before[i] == x);
                                assert(before.contains(x));
                            }
                        }
                        if exists|kk: int| 0 <= kk < k + 1 && #[trigger] self@.eps_edge(kk, state, x) {
                            let kk = choose|kk: int| 0 <= kk < k + 1 && #[trigger] self@.eps_edge(kk, state, x);
                            if kk < k {
                                assert(before.contains(x));
                                let i = choose|i: int| 0 <= i < before.len() && before[i] == x;
                                assert(r@[i] == x);
                            } else {
                                assert(r@[r@.len() - 1] == x);
                            }
                        }
                    }
                }
            } else {
                proof {
                    assert forall|x: usize|
                        r@.contains(x) <==> exists|kk: int|
                            0 <= kk < k + 1 && #[trigger] self@.eps_edge(kk, state, x) by {
                        if exists|kk: int| 0 <= kk < k + 1 && #[trigger] self@.eps_edge(kk, state, x) {
                            let kk = choose|kk: int| 0 <= kk < k + 1 && #[trigger] self@.eps_edge(kk, state, x);
                            assert(kk < k);
                        }
                    }
                }
            }
            k = k + 1;
        }
        assert(self@.transitions.subrange(0, k as int) =~= self@.transitions);
        r
    }

    /// The states reachable from `states` by zero or more epsilon
    /// transitions, in increasing order.
    pub fn epsilon_closure(&self, states: &Vec<usize>) -> (r: Vec<usize>)
        requires
            self@.wf(),
            forall|i: int| 0 <= i < states.len() ==> #[trigger] states@[i] < self@.num_states,
        ensures
            r@ == canonical(self@.closure_of(states@.to_set()), self@.num_states),
            strictly_sorted(r@),
            forall|i: int| 0 <= i < r.len() ==> #[trigger] r@[i] < self@.num_states,
    {
        let ghost m = self@;
        let ghost s = states@.to_set();
        let n = self.num_states;
        let mut visited: Vec<bool> = vec![false; n];
        let mut to_visit: Vec<usize> = Vec::new();
        let mut i: usize = 0;
        while i < states.len()
            invariant
                m == self@,
                m.wf(),
                n == m.num_states,
                s == states@.to_set(),
                forall|i: int| 0 <= i < states.len() ==> #[trigger] states@[i] < n,
                0 <= i <= states.len(),
                visited.len() == n,
                forall|k: int| 0 <= k < i ==> visited@[#[trigger] states@[k] as int],
                forall|q: usize| q < n && #[trigger] visited@[q as int] ==> m.closure_of(s).contains(q),
                forall|j: int|
                    0 <= j < to_visit.len() ==> #[trigger] to_visit@[j] < n && visited@[to_visit@[j] as int],
                forall|k: int, a: usize, b: usize| #[trigger]
                    m.eps_edge(k, a, b) && visited@[a as int] && !to_visit@.contains(a) ==> visited@[b as int],
            decreases states.len() - i,
        {
            let q = states[i];
            proof {
                assert(states@[i as int] == q);
                assert(s.contains(q));
            }
            if !visited[q] {
                let ghost pre_stack = to_visit@;
                visited.set(q, true);
                to_visit.push(q);
                proof {
                    assert(to_visit@[to_visit.len() - 1] == q);
                    assert forall|x: usize| pre_stack.contains(x) implies to_visit@.contains(x) by {
                        let j = choose|j: int| 0 <= j < pre_stack.len() && pre_stack[j] == x;
                        assert(to_visit@[j] == x);
                    }
                }
            }
            i = i + 1;
        }
        while to_visit.len() > 0
            invariant
                m == self@,
                m.wf(),
                n == m.num_states,
                s == states@.to_set(),
                visited.len() == n,
                forall|i: int| 0 <= i < states.len() ==> #[trigger] states@[i] < n,
                forall|k: int| 0 <= k < states.len() ==> visited@[#[trigger] states@[k] as int],
                forall|q: usize| q < n && #[trigger] visited@[q as int] ==> m.closure_of(s).contains(q),
                forall|j: int|
                    0 <= j < to_visit.len() ==> #[trigger] to_visit@[j] < n && visited@[to_visit@[j] as int],
                forall|k: int, a: usize, b: usize| #[trigger]
                    m.eps_edge(k, a, b) && visited@[a as int] && !to_visit@.contains(a) ==> visited@[b as int],
            decreases 2 * (n - count_true(visited@)) + to_visit.len(),
        {
            proof {
                lemma_count_true_bound(visited@);
            }
            let ghost measure = 2 * (n - count_true(visited@)) + to_visit.len();
            let ghost full_stack = to_visit@;
            let q = to_visit.pop().unwrap();
            let ghost popped = to_visit@;
            proof {
                assert(full_stack == popped.push(q));
                assert(full_stack[full_stack.len() - 1] == q);
            }
            let epsilon_states = self.get_epsilon_transitions(q);
            let mut j: usize = 0;
            while j < epsilon_states.len()
                invariant
                    m == self@,
                    m.wf(),
                    n == m.num_states,
                    s == states@.to_set(),
                    q < n,
                    visited@[q as int],
                    visited.len() == n,
                    0 <= j <= epsilon_states.len(),
                    forall|i: int| 0 <= i < epsilon_states.len() ==> #[trigger] epsilon_states@[i] < n,
                    forall|x: usize|
                        epsilon_states@.contains(x) <==> exists|k: int| #[trigger] m.eps_edge(k, q, x),
                    forall|jj: int| 0 <= jj < j ==> visited@[#[trigger] epsilon_states@[jj] as int],
                    forall|i: int| 0 <= i < states.len() ==> #[trigger] states@[i] < n,
                forall|k: int| 0 <= k < states.len() ==> visited@[#[trigger] states@[k] as int],
                    forall|x: usize| x < n && #[trigger] visited@[x as int] ==> m.closure_of(s).contains(x),
                    forall|j: int|
                        0 <= j < to_visit.len() ==> #[trigger] to_visit@[j] < n && visited@[to_visit@[j] as int],
                    forall|x: usize| popped.contains(x) ==> to_visit@.contains(x),
                    forall|k: int, a: usize, b: usize| #[trigger]
                        m.eps_edge(k, a, b) && visited@[a as int] && !full_stack.contains(a)
                            && !to_visit@.contains(a) ==> visited@[b as int],
                    count_true(visited@) <= n,
                    2 * (n - count_true(visited@)) + to_visit.len() < measure,
                decreases epsilon_states.len() - j,
            {
                let e = epsilon_states[j];
                if !visited[e] {
                    proof {
                        assert(epsilon_states@.contains(e));
                        let k = choose|k: int| #[trigger] m.eps_edge(k, q, e);
                        assert forall|t: Set<usize>| #[trigger]
                            t.contains(e) || !(s.subset_of(t) && m.eps_closed(t)) by {
                            if s.subset_of(t) && m.eps_closed(t) {
                                assert(m.closure_of(s).contains(q));
                                assert(t.contains(q));
                                assert(m.eps_edge(k, q, e));
                            }
                        }
                        lemma_count_true_set(visited@, e as int);
                        lemma_count_true_bound(visited@.update(e as int, true));
                    }
                    let ghost pre_stack = to_visit@;
                    visited.set(e, true);
                    to_visit.push(e);
                    proof {
                        assert(to_visit@[to_visit.len() - 1] == e);
                        assert forall|x: usize| pre_stack.contains(x) implies to_visit@.contains(x) by {
                            let i = choose|i: int| 0 <= i < pre_stack.len() && pre_stack[i] == x;
                            assert(to_visit@[i] == x);
                        }
                        assert forall|x: usize| popped.contains(x) implies to_visit@.contains(x) by {
                            assert(pre_stack.contains(x));
                            let i = choose|i: int| 0 <= i < pre_stack.len() && pre_stack[i] == x;
                            assert(to_visit@[i] == x);
                        }
                    }
                }
                j = j + 1;
            }
            proof {
                assert forall|k: int, a: usize, b: usize| #[trigger]
                    m.eps_edge(k, a, b) && visited@[a as int] && !to_visit@.contains(a) implies visited@[b as int] by {
                    if a == q {
                        assert(epsilon_states@.contains(b));
                        let jj = choose|jj: int| 0 <= jj < epsilon_states.len() && epsilon_states@[jj] == b;
                        assert(visited@[epsilon_states@[jj] as int]);
                    } else {
                        if full_stack.contains(a) {
                            let i = choose|i: int| 0 <= i < full_stack.len() && full_stack[i] == a;
                            assert(popped[i] == a);
                            assert(popped.contains(a));
                        }
                    }
                }
            }
        }
        proof {
            let v = marked(visited@);
            assert(s.subset_of(v)) by {
                assert forall|x: usize| s.contains(x) implies v.contains(x) by {
                    let k = choose|k: int| 0 <= k < states.len() && states@[k] == x;
                    assert(visited@[states@[k] as int]);
                }
            }
            assert(m.eps_closed(v));
            assert(m.closure_of(s) =~= v) by {
                assert forall|x: usize| m.closure_of(s).contains(x) implies v.contains(x) by {
                    assert(v.contains(x) || !(s.subset_of(v) && m.eps_closed(v)));
                }
                assert forall|x: usize| v.contains(x) implies m.closure_of(s).contains(x) by {
                    assert(visited@[x as int]);
                }
            }
            lemma_canonical(v, n as nat);
        }
        collect_marked(&visited)
    }

    /// The states that one transition on `c` leads to from `states`, in
    /// increasing order.
    pub fn make_move(&self, states: &Vec<usize>, c: char) -> (r: Vec<usize>)
        requires
            self@.wf(),
            forall|i: int| 0 <= i < states.len() ==> #[trigger] states@[i] < self@.num_states,
        ensures
            r@ == canonical(self@.move_of(states@.to_set(), c), self@.num_states),
            strictly_sorted(r@),
            forall|i: int| 0 <= i < r.len() ==> #[trigger] r@[i] < self@.num_states,
    {
        let ghost m = self@;
        let ghost s = states@.to_set();
        let n = self.num_states;
        let in_set = marks_of(states, n);
        let mut reached: Vec<bool> = vec![false; n];
        let mut k: usize = 0;
        while k < self.transitions.len()
            invariant
                m == self@,
                m.wf(),
                n == m.num_states,
                s == states@.to_set(),
                in_set.len() == n,
                forall|q: usize| q < n ==> (in_set@[q as int] <==> states@.contains(q)),
                0 <= k <= self.transitions.len(),
                reached.len() == n,
                forall|q: usize|
                    q < n ==> (reached@[q as int] <==> exists|kk: int|
                        0 <= kk < k && s.contains(m.transitions[kk].from)
                            && m.transitions[kk].symbol == Symbol::Char(c)
                            && #[trigger] m.transitions[kk].to == q),
            decreases self.transitions.len() - k,
        {
            let t = self.transitions[k];
            proof {
                assert(m.transitions[k as int] == t);
                assert(t.from < n && t.to < n);
            }
            if t.symbol == Symbol::Char(c) && in_set[t.from] {
                reached.set(t.to, true);
            }
            proof {
                assert forall|q: usize|
                    q < n implies (reached@[q as int] <==> exists|kk: int|
                        0 <= kk < k + 1 && s.contains(m.transitions[kk].from)
                            && m.transitions[kk].symbol == Symbol::Char(c)
                            && #[trigger] m.transitions[kk].to == q) by {
                    if q == t.to && t.symbol == Symbol::Char(c) && in_set@[t.from as int] {
                        assert(m.transitions[k as int].to == q);
                    }
                }
            }
            k = k + 1;
        }
        proof {
            assert forall|q: usize| q < n implies (marked(reached@).contains(q)
                <==> m.move_of(s, c).contains(q)) by {
                if m.move_of(s, c).contains(q) {
                    let kk = choose|kk: int|
                        0 <= kk < m.transitions.len() && s.contains(m.transitions[kk].from)
                            && m.transitions[kk].symbol == Symbol::Char(c)
                            && #[trigger] m.transitions[kk].to == q;
                    assert(m.transitions[kk].to == q);
                }
            }
            lemma_canonical_agree(marked(reached@), m.move_of(s, c), n as nat);
            lemma_canonical(m.move_of(s, c), n as nat);
        }
        collect_marked(&reached)
    }
}

} // verus!
