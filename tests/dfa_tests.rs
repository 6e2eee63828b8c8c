use automata_core::{DfaTransition, ReOperator, DFA, NFA};

fn ch(c: char) -> Box<ReOperator> {
    Box::new(ReOperator::Char(c))
}

fn edge(from: usize, symbol: char, to: usize) -> DfaTransition {
    DfaTransition { from, symbol, to }
}

#[test]
fn dfa_of_alternative() {
    let nfa = NFA::from_regex(&ReOperator::Or(ch('a'), ch('b')));
    let dfa = DFA::from_nfa(&nfa);
    assert_eq!(dfa.get_keys(), &vec![vec![0, 2, 4], vec![1, 3], vec![1, 5]]);
    assert_eq!(dfa.get_transitions(), &vec![edge(0, 'a', 1), edge(0, 'b', 2)]);
    assert_eq!(dfa.get_accepting(), &vec![false, true, true]);
}

#[test]
fn dfa_of_star_loops_on_itself() {
    let nfa = NFA::from_regex(&ReOperator::KleeneStar(ch('a')));
    let dfa = DFA::from_nfa(&nfa);
    assert_eq!(dfa.get_keys(), &vec![vec![0, 1, 2], vec![1, 2, 3]]);
    assert_eq!(dfa.get_transitions(), &vec![edge(0, 'a', 1), edge(1, 'a', 1)]);
    assert_eq!(dfa.get_accepting(), &vec![true, true]);
}

#[test]
fn dfa_of_concatenation() {
    let nfa = NFA::from_regex(&ReOperator::Concat(ch('a'), ch('b')));
    let dfa = DFA::from_nfa(&nfa);
    assert_eq!(dfa.get_keys(), &vec![vec![0], vec![1], vec![2]]);
    assert_eq!(dfa.get_transitions(), &vec![edge(0, 'a', 1), edge(1, 'b', 2)]);
    assert_eq!(dfa.get_accepting(), &vec![false, false, true]);
}

#[test]
fn dfa_keys_are_distinct_and_edges_follow_closure_of_move() {
    let re = ReOperator::Concat(
        Box::new(ReOperator::KleeneStar(Box::new(ReOperator::Or(ch('a'), ch('b'))))),
        Box::new(ReOperator::Concat(ch('a'), ch('b'))),
    );
    let nfa = NFA::from_regex(&re);
    let dfa = DFA::from_nfa(&nfa);
    let keys = dfa.get_keys();
    for i in 0..keys.len() {
        for j in 0..keys.len() {
            if i != j {
                assert_ne!(keys[i], keys[j]);
            }
        }
    }
    for t in dfa.get_transitions() {
        let moved = nfa.make_move(&keys[t.from], t.symbol);
        assert_eq!(keys[t.to], nfa.epsilon_closure(&moved));
    }
    assert_eq!(keys[0], nfa.epsilon_closure(&vec![nfa.get_start_state()]));
    // (a|b)*ab: a run over "abab" ends in an accepting state, "aba" does not
    let run = |input: &str| {
        let mut state = 0;
        for c in input.chars() {
            state = dfa
                .get_transitions()
                .iter()
                .find(|t| t.from == state && t.symbol == c)
                .map(|t| t.to)
                .unwrap();
        }
        dfa.get_accepting()[state]
    };
    assert!(run("abab"));
    assert!(!run("aba"));
    assert!(run("ab"));
}

#[test]
fn every_dfa_state_is_entered_from_a_lower_index() {
    let re = ReOperator::KleeneStar(Box::new(ReOperator::Concat(
        Box::new(ReOperator::Or(ch('a'), ch('b'))),
        ch('c'),
    )));
    let nfa = NFA::from_regex(&re);
    let dfa = DFA::from_nfa(&nfa);
    for j in 1..dfa.get_keys().len() {
        assert!(dfa.get_transitions().iter().any(|t| t.to == j && t.from < j));
    }
}
