use vstd::prelude::*;

verus! {

/// A regular expression tree, as handed over by a parser.
#[derive(Debug)]
pub enum ReOperator {
    Char(char),
    Concat(Box<ReOperator>, Box<ReOperator>),
    Or(Box<ReOperator>, Box<ReOperator>),
    KleeneStar(Box<ReOperator>),
}

/// States that a fragment allocates for its own start and end: the start is
/// not allocated when an existing state is handed in as the join state.
pub open spec fn own_states(joined: bool) -> nat {
    if joined {
        1
    } else {
        2
    }
}

/// Number of fresh states that building `re` allocates; `joined` tells
/// whether its start state is an existing state handed in by the caller.
pub open spec fn re_states(re: ReOperator, joined: bool) -> nat
    decreases re,
{
    match re {
        ReOperator::Char(_) => own_states(joined),
        ReOperator::Concat(l, r) => re_states(*l, joined) + re_states(*r, true),
        ReOperator::Or(l, r) => own_states(joined) + re_states(*l, false) + re_states(*r, false),
        ReOperator::KleeneStar(i) => own_states(joined) + re_states(*i, false),
    }
}

/// Offset of the fragment's end state from the first state it allocates.
pub open spec fn re_end_offset(re: ReOperator, joined: bool) -> nat
    decreases re,
{
    match re {
        ReOperator::Concat(l, r) => re_states(*l, joined) + re_end_offset(*r, true),
        ReOperator::Char(_) => (own_states(joined) - 1) as nat,
        _ => (own_states(joined) - 1) as nat,
    }
}

/// Number of transitions, epsilon or not, that building `re` adds.
pub open spec fn re_edges(re: ReOperator) -> nat
    decreases re,
{
    match re {
        ReOperator::Char(_) => 1,
        ReOperator::Concat(l, r) => re_edges(*l) + re_edges(*r),
        ReOperator::Or(l, r) => 4 + re_edges(*l) + re_edges(*r),
        ReOperator::KleeneStar(i) => 4 + re_edges(*i),
    }
}

/// Number of epsilon transitions that building `re` adds.
pub open spec fn re_eps(re: ReOperator) -> nat
    decreases re,
{
    match re {
        ReOperator::Char(_) => 0,
        ReOperator::Concat(l, r) => re_eps(*l) + re_eps(*r),
        ReOperator::Or(l, r) => 4 + re_eps(*l) + re_eps(*r),
        ReOperator::KleeneStar(i) => 4 + re_eps(*i),
    }
}

/// The characters that occur in `re`.
pub open spec fn re_chars(re: ReOperator) -> Set<char>
    decreases re,
{
    match re {
        ReOperator::Char(c) => set![c],
        ReOperator::Concat(l, r) => re_chars(*l) + re_chars(*r),
        ReOperator::Or(l, r) => re_chars(*l) + re_chars(*r),
        ReOperator::KleeneStar(i) => re_chars(*i),
    }
}

/// A fragment's end state is one of the states it allocates.
pub proof fn lemma_end_offset_in_fragment(re: ReOperator, joined: bool)
    ensures
        re_end_offset(re, joined) < re_states(re, joined),
    decreases re,
{
    match re {
        ReOperator::Concat(l, r) => lemma_end_offset_in_fragment(*r, true),
        _ => {},
    }
}

} // verus!
