use automata_core::{Letter, Production, ReOperator, Symbol, Transition, NFA};

fn ch(c: char) -> Box<ReOperator> {
    Box::new(ReOperator::Char(c))
}

fn accepts(nfa: &NFA, input: &str) -> bool {
    let mut current = nfa.epsilon_closure(&vec![nfa.get_start_state()]);
    for c in input.chars() {
        let moved = nfa.make_move(&current, c);
        current = nfa.epsilon_closure(&moved);
    }
    nfa.get_end_states().iter().any(|e| current.contains(e))
}

fn eps(from: usize, to: usize) -> Transition {
    Transition { from, symbol: Symbol::Epsilon, to }
}

fn on(from: usize, c: char, to: usize) -> Transition {
    Transition { from, symbol: Symbol::Char(c), to }
}

#[test]
fn display_test() {
    let regex = ReOperator::Or(ch('a'), ch('b'));
    let nfa = NFA::from_regex(&regex);
    println!("{:?}", nfa);
}

#[test]
fn or_automaton_layout() {
    let nfa = NFA::from_regex(&ReOperator::Or(ch('a'), ch('b')));
    assert_eq!(nfa.get_num_states(), 6);
    assert_eq!(nfa.get_start_state(), 0);
    assert_eq!(nfa.get_end_states(), &vec![1]);
    assert_eq!(
        nfa.get_transitions(),
        &vec![on(2, 'a', 3), on(4, 'b', 5), eps(0, 2), eps(0, 4), eps(5, 1), eps(3, 1)]
    );
    assert_eq!(nfa.get_alphabet(), vec!['a', 'b']);
}

#[test]
fn or_closure_and_moves() {
    let nfa = NFA::from_regex(&ReOperator::Or(ch('a'), ch('b')));
    let start = nfa.epsilon_closure(&vec![nfa.get_start_state()]);
    assert_eq!(start, vec![0, 2, 4]);
    let after_a = nfa.epsilon_closure(&nfa.make_move(&start, 'a'));
    assert_eq!(after_a, vec![1, 3]);
    assert!(after_a.contains(&nfa.get_end_states()[0]));
    assert_eq!(nfa.make_move(&start, 'c'), Vec::<usize>::new());
}

#[test]
fn concat_runs() {
    let nfa = NFA::from_regex(&ReOperator::Concat(ch('a'), ch('b')));
    assert_eq!(nfa.get_num_states(), 3);
    assert_eq!(nfa.get_transitions(), &vec![on(0, 'a', 1), on(1, 'b', 2)]);
    assert!(accepts(&nfa, "ab"));
    assert!(!accepts(&nfa, "a"));
    assert!(!accepts(&nfa, "ba"));
}

#[test]
fn nested_concat_joins_at_every_level() {
    let nfa = NFA::from_regex(&ReOperator::Concat(
        ch('a'),
        Box::new(ReOperator::Concat(ch('b'), ch('c'))),
    ));
    assert_eq!(nfa.get_num_states(), 4);
    assert!(accepts(&nfa, "abc"));
    assert!(!accepts(&nfa, "ab"));
    assert!(!accepts(&nfa, "bc"));
}

#[test]
fn char_gives_one_transition() {
    let nfa = NFA::from_regex(&ReOperator::Char('x'));
    assert_eq!(nfa.get_num_states(), 2);
    assert_eq!(nfa.get_transitions(), &vec![on(0, 'x', 1)]);
    assert_eq!(nfa.get_alphabet(), vec!['x']);
}

#[test]
fn concat_adds_no_state_or_edge() {
    let a = NFA::from_regex(&ReOperator::Char('a'));
    let b = NFA::from_regex(&ReOperator::Char('b'));
    let ab = NFA::from_regex(&ReOperator::Concat(ch('a'), ch('b')));
    assert_eq!(ab.get_num_states() + 1, a.get_num_states() + b.get_num_states());
    assert_eq!(
        ab.get_transitions().len(),
        a.get_transitions().len() + b.get_transitions().len()
    );
}

#[test]
fn or_adds_two_states_and_four_epsilons() {
    let a = NFA::from_regex(&ReOperator::Char('a'));
    let b = NFA::from_regex(&ReOperator::Char('b'));
    let ab = NFA::from_regex(&ReOperator::Or(ch('a'), ch('b')));
    assert_eq!(ab.get_num_states(), a.get_num_states() + b.get_num_states() + 2);
    let eps_edges = ab.get_transitions().iter().filter(|t| t.symbol == Symbol::Epsilon).count();
    assert_eq!(eps_edges, 4);
}

#[test]
fn star_layout_and_loop() {
    let nfa = NFA::from_regex(&ReOperator::KleeneStar(ch('a')));
    assert_eq!(nfa.get_num_states(), 4);
    assert_eq!(
        nfa.get_transitions(),
        &vec![on(2, 'a', 3), eps(0, 1), eps(3, 2), eps(0, 2), eps(3, 1)]
    );
    assert!(nfa.get_transitions().contains(&eps(3, 2)));
    assert!(accepts(&nfa, ""));
    assert!(accepts(&nfa, "a"));
    assert!(accepts(&nfa, "aaa"));
    assert!(!accepts(&nfa, "b"));
}

#[test]
fn closure_contains_input_and_is_idempotent() {
    let nfa = NFA::from_regex(&ReOperator::KleeneStar(Box::new(ReOperator::Or(ch('a'), ch('b')))));
    for s in 0..nfa.get_num_states() {
        let once = nfa.epsilon_closure(&vec![s]);
        assert!(once.contains(&s));
        assert_eq!(nfa.epsilon_closure(&once), once);
    }
    let start = nfa.epsilon_closure(&vec![0]);
    assert_eq!(start, vec![0, 1, 2, 4, 6]);
}

#[test]
fn closure_of_unsorted_input_is_sorted() {
    let nfa = NFA::from_regex(&ReOperator::Or(ch('a'), ch('b')));
    assert_eq!(nfa.epsilon_closure(&vec![5, 3, 3]), vec![1, 3, 5]);
    assert_eq!(nfa.epsilon_closure(&vec![]), Vec::<usize>::new());
}

#[test]
fn alphabet_is_sorted_and_free_of_duplicates() {
    let nfa = NFA::from_regex(&ReOperator::Or(
        ch('c'),
        Box::new(ReOperator::Concat(ch('a'), Box::new(ReOperator::Concat(ch('c'), ch('b'))))),
    ));
    assert_eq!(nfa.get_alphabet(), vec!['a', 'b', 'c']);
}

#[test]
fn production_getters() {
    let letters = vec![Letter::Terminal('x'), Letter::NonTerminal(7)];
    assert_eq!(Production::get_nth(&letters, 0), Some(&Letter::Terminal('x')));
    assert_eq!(Production::get_nth(&letters, 2), None);
    assert_eq!(Production::get_nth_if_non_terminal(&letters, 1), Some(&7));
    assert_eq!(Production::get_nth_if_non_terminal(&letters, 0), None);
    assert_eq!(Production::get_nth_if_non_terminal(&letters, 5), None);
    let p = Production { lhs: 1, rhs: letters.clone() };
    assert_eq!(p.rhs.len(), 2);
}

#[test]
fn bfs_layers_of_alternative() {
    let nfa = NFA::from_regex(&ReOperator::Or(ch('a'), ch('b')));
    assert_eq!(nfa.bfs_layers(), vec![vec![0], vec![2, 4], vec![3, 5], vec![1]]);
}

#[test]
fn bfs_layers_of_star_list_each_state_once() {
    let nfa = NFA::from_regex(&ReOperator::KleeneStar(ch('a')));
    let layers = nfa.bfs_layers();
    assert_eq!(layers, vec![vec![0], vec![1, 2], vec![3]]);
    let mut all: Vec<usize> = layers.concat();
    all.sort();
    assert_eq!(all, vec![0, 1, 2, 3]);
}

#[test]
fn transitions_have_no_duplicates_and_none_leave_the_end_state() {
    let nfa = NFA::from_regex(&ReOperator::KleeneStar(Box::new(ReOperator::Concat(
        Box::new(ReOperator::Or(ch('a'), ch('b'))),
        Box::new(ReOperator::KleeneStar(ch('c'))),
    ))));
    let ts = nfa.get_transitions();
    for i in 0..ts.len() {
        for j in 0..ts.len() {
            if i != j {
                assert_ne!(ts[i], ts[j]);
            }
        }
    }
    let end = nfa.get_end_states()[0];
    assert!(ts.iter().all(|t| t.from != end));
    assert!(ts.iter().all(|t| t.from < nfa.get_num_states() && t.to < nfa.get_num_states()));
}
