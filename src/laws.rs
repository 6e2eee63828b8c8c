use vstd::prelude::*;

use crate::canon::{canonical, lemma_canonical};
use crate::nfa::{built_from, eps_count, fragment_edges, thompson_edges, NfaModel, Symbol, Transition, NFA};
use crate::regex::{
    lemma_end_offset_in_fragment, own_states, re_end_offset, re_states, ReOperator,
};

verus! {

/// A fragment whose start is a join state allocates one state fewer.
pub proof fn lemma_join_saves_one_state(re: ReOperator)
    ensures
        re_states(re, true) + 1 == re_states(re, false),
    decreases re,
{
    match re {
        ReOperator::Concat(l, _) => lemma_join_saves_one_state(*l),
        _ => {},
    }
}

/// The states below `n`.
pub open spec fn states_below(n: nat) -> Set<usize> {
    Set::new(|q: usize| q < n)
}

/// The closure of states in range stays in range.
pub proof fn lemma_closure_in_range(m: NfaModel, s: Set<usize>)
    requires
        m.wf(),
        s.subset_of(states_below(m.num_states)),
    ensures
        m.closure_of(s).subset_of(states_below(m.num_states)),
{
    let r = states_below(m.num_states);
    assert(m.eps_closed(r));
    assert forall|q: usize| m.closure_of(s).contains(q) implies r.contains(q) by {
        assert(r.contains(q) || !(s.subset_of(r) && m.eps_closed(r)));
    }
}

/// No epsilon transition leaves a closure.
pub proof fn lemma_closure_closed(m: NfaModel, s: Set<usize>)
    ensures
        m.eps_closed(m.closure_of(s)),
{
    let c = m.closure_of(s);
    assert forall|k: int, a: usize, b: usize| #[trigger]
        m.eps_edge(k, a, b) && c.contains(a) implies c.contains(b) by {
        assert forall|t: Set<usize>| #[trigger]
            t.contains(b) || !(s.subset_of(t) && m.eps_closed(t)) by {
            if s.subset_of(t) && m.eps_closed(t) {
                assert(t.contains(a));
            }
        }
    }
}

/// Every Thompson automaton is well formed, with one start state and exactly
/// one end state.
pub proof fn built_automaton_is_valid(nfa: &NFA, re: ReOperator)
    requires
        built_from(nfa@, re),
    ensures
        nfa@.wf(),
        nfa@.start < nfa@.num_states,
        nfa@.ends.len() == 1,
        nfa@.ends[0] < nfa@.num_states,
        forall|k: int|
            0 <= k < nfa@.transitions.len() ==> #[trigger] nfa@.transitions[k].from
                < nfa@.num_states && nfa@.transitions[k].to < nfa@.num_states,
{
}

/// A single character gives one transition, labelled with it, between two
/// states, and no epsilon transition.
pub proof fn char_automaton(nfa: &NFA, c: char)
    requires
        built_from(nfa@, ReOperator::Char(c)),
    ensures
        nfa@.num_states == 2,
        nfa@.transitions == seq![Transition { from: 0, symbol: Symbol::Char(c), to: 1 }],
        eps_count(nfa@.transitions) == 0,
{
    let ts = nfa@.transitions;
    assert(ts.subrange(0, 1) =~= ts);
}

/// A concatenation allocates no state of its own: the right part starts at
/// the left part's end, so it has one state fewer than the parts built apart,
/// and adds no transition beyond theirs.
pub proof fn concat_adds_nothing(whole: &NFA, left: &NFA, right: &NFA, re: ReOperator)
    requires
        re is Concat,
        built_from(whole@, re),
        built_from(left@, *re->Concat_0),
        built_from(right@, *re->Concat_1),
    ensures
        whole@.num_states + 1 == left@.num_states + right@.num_states,
        whole@.transitions.len() == left@.transitions.len() + right@.transitions.len(),
        eps_count(whole@.transitions) == eps_count(left@.transitions) + eps_count(
            right@.transitions,
        ),
{
    lemma_join_saves_one_state(*re->Concat_1);
}

/// An alternative adds two states and four epsilon transitions to its parts.
pub proof fn or_adds_two_states_four_epsilons(
    whole: &NFA,
    left: &NFA,
    right: &NFA,
    re: ReOperator,
)
    requires
        re is Or,
        built_from(whole@, re),
        built_from(left@, *re->Or_0),
        built_from(right@, *re->Or_1),
    ensures
        whole@.num_states == left@.num_states + right@.num_states + 2,
        whole@.transitions.len() == left@.transitions.len() + right@.transitions.len() + 4,
        eps_count(whole@.transitions) == eps_count(left@.transitions) + eps_count(
            right@.transitions,
        ) + 4,
{
}

/// A repetition adds two states and four epsilon transitions to its part,
/// one of them from the part's end back to the part's start.
pub proof fn star_adds_two_states_four_epsilons(whole: &NFA, inner: &NFA, re: ReOperator)
    requires
        re is KleeneStar,
        built_from(whole@, re),
        built_from(inner@, *re->KleeneStar_0),
    ensures
        whole@.num_states == inner@.num_states + 2,
        whole@.transitions.len() == inner@.transitions.len() + 4,
        eps_count(whole@.transitions) == eps_count(inner@.transitions) + 4,
        whole@.transitions.contains(
            Transition {
                from: (inner@.ends[0] + 2) as usize,
                symbol: Symbol::Epsilon,
                to: (inner@.start + 2) as usize,
            },
        ),
{
    let ts = whole@.transitions;
    let k = ts.len() - 3;
    let i = *re->KleeneStar_0;
    let i_end = 2 + re_end_offset(i, false);
    lemma_end_offset_in_fragment(i, false);
    assert(inner@.ends[0] == re_end_offset(i, false) as usize);
    assert(ts.subrange(ts.len() - 4, ts.len() as int)[1] == ts[k]);
    assert(ts[k] == Transition {
        from: i_end as usize,
        symbol: Symbol::Epsilon,
        to: 2usize,
    });
}

/// The closure of a set holds every state of the set.
pub proof fn closure_contains_input(nfa: &NFA, states: Seq<usize>)
    ensures
        states.to_set().subset_of(nfa@.closure_of(states.to_set())),
{
}

/// Taking the closure twice gives the closure: `epsilon_closure` of the
/// result of `epsilon_closure` is that result.
pub proof fn closure_idempotent(nfa: &NFA, states: Seq<usize>)
    requires
        nfa@.wf(),
        forall|i: int| 0 <= i < states.len() ==> #[trigger] states[i] < nfa@.num_states,
    ensures
        canonical(
            nfa@.closure_of(canonical(nfa@.closure_of(states.to_set()), nfa@.num_states).to_set()),
            nfa@.num_states,
        ) == canonical(nfa@.closure_of(states.to_set()), nfa@.num_states),
{
    let m = nfa@;
    let n = m.num_states;
    let s = states.to_set();
    assert(s.subset_of(states_below(n))) by {
        assert forall|q: usize| s.contains(q) implies q < n by {
            let i = choose|i: int| 0 <= i < states.len() && states[i] == q;
        }
    }
    let c = m.closure_of(s);
    lemma_closure_in_range(m, s);
    lemma_closure_closed(m, s);
    lemma_canonical(c, n);
    let once = canonical(c, n).to_set();
    assert(once =~= c);
    assert(m.closure_of(c) =~= c) by {
        assert forall|q: usize| m.closure_of(c).contains(q) implies c.contains(q) by {
            assert(c.contains(q) || !(c.subset_of(c) && m.eps_closed(c)));
        }
        assert forall|q: usize| c.contains(q) implies m.closure_of(c).contains(q) by {
            assert forall|t: Set<usize>| #[trigger]
                t.contains(q) || !(c.subset_of(t) && m.eps_closed(t)) by {
                if c.subset_of(t) && m.eps_closed(t) {
                    assert forall|x: usize| s.contains(x) implies t.contains(x) by {
                        assert(c.contains(x)) by {
                            assert forall|u: Set<usize>| #[trigger]
                                u.contains(x) || !(s.subset_of(u) && m.eps_closed(u)) by {}
                        }
                    }
                }
            }
        }
    }
}

/// The transitions `ts` with every state moved up by `d`.
pub open spec fn shifted(ts: Seq<Transition>, d: nat) -> Seq<Transition> {
    Seq::new(
        ts.len(),
        |k: int|
            Transition {
                from: (ts[k].from + d) as usize,
                symbol: ts[k].symbol,
                to: (ts[k].to + d) as usize,
            },
    )
}

proof fn lemma_shifted_append(a: Seq<Transition>, b: Seq<Transition>, d: nat)
    ensures
        shifted(a + b, d) == shifted(a, d) + shifted(b, d),
{
    assert(shifted(a + b, d) =~= shifted(a, d) + shifted(b, d));
}

/// Building a fragment `d` states later gives the same transitions with
/// every state moved up by `d`.
pub proof fn lemma_thompson_shift(re: ReOperator, joined: bool, base: nat, start: nat, d: nat)
    requires
        joined ==> start < base,
        !joined ==> start == base,
        base + d + re_states(re, joined) <= usize::MAX + 1,
    ensures
        thompson_edges(re, joined, base + d, start + d) == shifted(
            thompson_edges(re, joined, base, start),
            d,
        ),
    decreases re, 1nat,
{
    match re {
        ReOperator::Char(_) => lemma_shift_char(re, joined, base, start, d),
        ReOperator::Concat(_, _) => lemma_shift_concat(re, joined, base, start, d),
        ReOperator::Or(_, _) => lemma_shift_or(re, joined, base, start, d),
        ReOperator::KleeneStar(_) => lemma_shift_star(re, joined, base, start, d),
    }
}

#[verifier::rlimit(100)]
#[verifier::spinoff_prover]
proof fn lemma_shift_char(re: ReOperator, joined: bool, base: nat, start: nat, d: nat)
    requires
        joined ==> start < base,
        !joined ==> start == base,
        base + d + re_states(re, joined) <= usize::MAX + 1,
        re is Char,
    ensures
        thompson_edges(re, joined, base + d, start + d) == shifted(
            thompson_edges(re, joined, base, start),
            d,
        ),
    decreases re, 0nat,
{
    lemma_end_offset_in_fragment(re, joined);
    let inner = base + own_states(joined);
    let end = base + re_end_offset(re, joined);
    match re {
        ReOperator::Char(_) => {
            assert(thompson_edges(re, joined, base + d, start + d) =~= shifted(
                thompson_edges(re, joined, base, start),
                d,
            ));
        },
        _ => {},
    }
}

#[verifier::rlimit(100)]
#[verifier::spinoff_prover]
proof fn lemma_shift_concat(re: ReOperator, joined: bool, base: nat, start: nat, d: nat)
    requires
        joined ==> start < base,
        !joined ==> start == base,
        base + d + re_states(re, joined) <= usize::MAX + 1,
        re is Concat,
    ensures
        thompson_edges(re, joined, base + d, start + d) == shifted(
            thompson_edges(re, joined, base, start),
            d,
        ),
    decreases re, 0nat,
{
    lemma_end_offset_in_fragment(re, joined);
    let inner = base + own_states(joined);
    let end = base + re_end_offset(re, joined);
    match re {
        ReOperator::Concat(l, r) => {
            let sl = re_states(*l, joined);
            let el = re_end_offset(*l, joined);
            lemma_end_offset_in_fragment(*l, joined);
            lemma_thompson_shift(*l, joined, base, start, d);
            lemma_thompson_shift(*r, true, base + sl, base + el, d);
            assert(base + d + sl == base + sl + d);
            lemma_shifted_append(
                thompson_edges(*l, joined, base, start),
                thompson_edges(*r, true, base + sl, base + el),
                d,
            );
        },
        _ => {},
    }
}

#[verifier::rlimit(100)]
#[verifier::spinoff_prover]
proof fn lemma_shift_or(re: ReOperator, joined: bool, base: nat, start: nat, d: nat)
    requires
        joined ==> start < base,
        !joined ==> start == base,
        base + d + re_states(re, joined) <= usize::MAX + 1,
        re is Or,
    ensures
        thompson_edges(re, joined, base + d, start + d) == shifted(
            thompson_edges(re, joined, base, start),
            d,
        ),
    decreases re, 0nat,
{
    lemma_end_offset_in_fragment(re, joined);
    let inner = base + own_states(joined);
    let end = base + re_end_offset(re, joined);
    match re {
        ReOperator::Or(l, r) => {
            let sl = re_states(*l, false);
            lemma_end_offset_in_fragment(*l, false);
            lemma_end_offset_in_fragment(*r, false);
            lemma_thompson_shift(*l, false, inner, inner, d);
            lemma_thompson_shift(*r, false, inner + sl, inner + sl, d);
            let a = thompson_edges(*l, false, inner, inner);
            let b = thompson_edges(*r, false, inner + sl, inner + sl);
            let f = fragment_edges(re, joined, base, start, end);
            lemma_shifted_append(a, b, d);
            lemma_shifted_append(a + b, f, d);
            assert(fragment_edges(re, joined, base + d, start + d, end + d) =~= shifted(f, d));
        },
        _ => {},
    }
}

#[verifier::rlimit(100)]
#[verifier::spinoff_prover]
proof fn lemma_shift_star(re: ReOperator, joined: bool, base: nat, start: nat, d: nat)
    requires
        joined ==> start < base,
        !joined ==> start == base,
        base + d + re_states(re, joined) <= usize::MAX + 1,
        re is KleeneStar,
    ensures
        thompson_edges(re, joined, base + d, start + d) == shifted(
            thompson_edges(re, joined, base, start),
            d,
        ),
    decreases re, 0nat,
{
    lemma_end_offset_in_fragment(re, joined);
    let inner = base + own_states(joined);
    let end = base + re_end_offset(re, joined);
    match re {
        ReOperator::KleeneStar(i) => {
            lemma_end_offset_in_fragment(*i, false);
            lemma_thompson_shift(*i, false, inner, inner, d);
            let a = thompson_edges(*i, false, inner, inner);
            let f = fragment_edges(re, joined, base, start, end);
            lemma_shifted_append(a, f, d);
            assert(fragment_edges(re, joined, base + d, start + d, end + d) =~= shifted(f, d));
        },
        _ => {},
    }
}

/// A tree built from state `base` on, as a part of a larger automaton, gets
/// the transitions of its own automaton with every state moved up by `base`.
pub proof fn construction_is_translation_invariant(nfa: &NFA, re: ReOperator, base: nat)
    requires
        built_from(nfa@, re),
        base + re_states(re, false) <= usize::MAX,
    ensures
        thompson_edges(re, false, base, base) == shifted(nfa@.transitions, base),
{
    lemma_thompson_shift(re, false, 0, 0, base);
}

} // verus!
