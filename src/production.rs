use vstd::prelude::*;

verus! {

/// A nonterminal symbol of a grammar, by index.
pub type NonTerminal = usize;

/// A terminal symbol of a grammar.
pub type Terminal = char;

/// One symbol on the right-hand side of a production.
#[derive(Debug, PartialEq, Clone, PartialOrd, Eq, Ord)]
pub enum Letter {
    NonTerminal(NonTerminal),
    Terminal(Terminal),
}

/// A grammar production `lhs -> rhs`.
#[derive(Debug, Clone, PartialEq, PartialOrd, Eq, Ord)]
pub struct Production {
    pub lhs: NonTerminal,
    pub rhs: Vec<Letter>,
}

impl Production {
    /// The `n`-th letter, when it exists and is a nonterminal.
    pub fn get_nth_if_non_terminal(letters: &Vec<Letter>, n: usize) -> (r: Option<&NonTerminal>)
        ensures
            r is Some <==> (n < letters.len() && letters@[n as int] is NonTerminal),
            r matches Some(x) ==> *x == letters@[n as int]->NonTerminal_0,
    {
        if n >= letters.len() {
            return None;
        }
        match &letters[n] {
            Letter::NonTerminal(idx) => Some(idx),
            _ => None,
        }
    }

    /// The `n`-th letter, when it exists.
    pub fn get_nth(letters: &Vec<Letter>, n: usize) -> (r: Option<&Letter>)
        ensures
            r is Some <==> n < letters.len(),
            r matches Some(x) ==> *x == letters@[n as int],
    {
        if n >= letters.len() {
            return None;
        }
        Some(&letters[n])
    }
}

} // verus!
