use vstd::prelude::*;

verus! {

/// The states `q < m.len()` with `m[q]` set.
pub open spec fn marked(m: Seq<bool>) -> Set<usize> {
    Set::new(|q: usize| q < m.len() && m[q as int])
}

/// The members of `s` below `n`, in increasing order: the canonical form of
/// a state set, so that equal sets give equal sequences.
pub open spec fn canonical(s: Set<usize>, n: nat) -> Seq<usize>
    decreases n,
{
    if n == 0 {
        seq![]
    } else {
        let prefix = canonical(s, (n - 1) as nat);
        if s.contains((n - 1) as usize) {
            prefix.push((n - 1) as usize)
        } else {
            prefix
        }
    }
}

/// Strictly increasing.
pub open spec fn strictly_sorted(v: Seq<usize>) -> bool {
    forall|i: int, j: int| 0 <= i < j < v.len() ==> v[i] < v[j]
}

/// Number of set flags in `m`.
pub open spec fn count_true(m: Seq<bool>) -> nat
    decreases m.len(),
{
    if m.len() == 0 {
        0
    } else {
        count_true(m.drop_last()) + if m.last() {
            1nat
        } else {
            0nat
        }
    }
}

/// The canonical form lists exactly the members below `n`, in increasing order.
pub proof fn lemma_canonical(s: Set<usize>, n: nat)
    requires
        n <= usize::MAX + 1,
    ensures
        strictly_sorted(canonical(s, n)),
        forall|q: usize| #[trigger]
            canonical(s, n).contains(q) <==> (q < n && s.contains(q)),
        forall|i: int| 0 <= i < canonical(s, n).len() ==> #[trigger] canonical(s, n)[i] < n,
    decreases n,
{
    if n > 0 {
        lemma_canonical(s, (n - 1) as nat);
        let p = canonical(s, (n - 1) as nat);
        if s.contains((n - 1) as usize) {
            let c = p.push((n - 1) as usize);
            assert forall|q: usize| #[trigger] c.contains(q) <==> (q < n && s.contains(q)) by {
                if c.contains(q) {
                    let k = choose|k: int| 0 <= k < c.len() && c[k] == q;
                    if k < p.len() {
                        assert(p[k] == q);
                        assert(p.contains(q));
                    }
                }
                if q < n && s.contains(q) {
                    if q < n - 1 {
                        assert(p.contains(q));
                        let k = choose|k: int| 0 <= k < p.len() && p[k] == q;
                        assert(c[k] == q);
                    } else {
                        assert(c[c.len() - 1] == q);
                    }
                }
            }
        }
    }
}

/// Sets that agree below `n` have the same canonical form.
pub proof fn lemma_canonical_agree(s1: Set<usize>, s2: Set<usize>, n: nat)
    requires
        forall|q: usize| q < n ==> (s1.contains(q) <==> s2.contains(q)),
    ensures
        canonical(s1, n) == canonical(s2, n),
    decreases n,
{
    if n > 0 {
        lemma_canonical_agree(s1, s2, (n - 1) as nat);
    }
}

pub proof fn lemma_count_true_bound(m: Seq<bool>)
    ensures
        count_true(m) <= m.len(),
    decreases m.len(),
{
    if m.len() > 0 {
        lemma_count_true_bound(m.drop_last());
    }
}

/// Setting a flag that was clear adds one to the count.
pub proof fn lemma_count_true_set(m: Seq<bool>, i: int)
    requires
        0 <= i < m.len(),
        !m[i],
    ensures
        count_true(m.update(i, true)) == count_true(m) + 1,
    decreases m.len(),
{
    let u = m.update(i, true);
    if i == m.len() - 1 {
        assert(u.drop_last() =~= m.drop_last());
    } else {
        lemma_count_true_set(m.drop_last(), i);
        assert(u.drop_last() =~= m.drop_last().update(i, true));
    }
}

/// Every strictly increasing sequence of states below `n`.
pub open spec fn sorted_below(n: nat) -> Set<Seq<usize>>
    decreases n,
{
    if n == 0 {
        set![seq![]]
    } else {
        let p = sorted_below((n - 1) as nat);
        p + p.map(|v: Seq<usize>| v.push((n - 1) as usize))
    }
}

pub proof fn lemma_sorted_below_finite(n: nat)
    ensures
        sorted_below(n).finite(),
    decreases n,
{
    if n > 0 {
        let p = sorted_below((n - 1) as nat);
        lemma_sorted_below_finite((n - 1) as nat);
        p.lemma_map_finite(|v: Seq<usize>| v.push((n - 1) as usize));
    }
}

pub proof fn lemma_sorted_below_contains(v: Seq<usize>, n: nat)
    requires
        n <= usize::MAX + 1,
        strictly_sorted(v),
        forall|i: int| 0 <= i < v.len() ==> #[trigger] v[i] < n,
    ensures
        sorted_below(n).contains(v),
    decreases n,
{
    if n == 0 {
        if v.len() > 0 {
            assert(v[0] < n);
        }
        assert(v =~= seq![]);
    } else {
        let p = sorted_below((n - 1) as nat);
        let f = |w: Seq<usize>| w.push((n - 1) as usize);
        if v.len() > 0 && v.last() == (n - 1) as usize {
            let w = v.drop_last();
            assert forall|i: int| 0 <= i < w.len() implies #[trigger] w[i] < n - 1 by {
                assert(v[i] < v[v.len() - 1]);
            }
            lemma_sorted_below_contains(w, (n - 1) as nat);
            assert(v =~= f(w));
            assert(p.map(f).contains(v));
        } else {
            assert forall|i: int| 0 <= i < v.len() implies #[trigger] v[i] < n - 1 by {
                if v[i] == (n - 1) as usize {
                    assert(i < v.len() - 1);
                    assert(v[i] < v[v.len() - 1]);
                }
            }
            lemma_sorted_below_contains(v, (n - 1) as nat);
        }
    }
}

/// Distinct canonical keys over `n` states are finitely many.
pub proof fn lemma_distinct_keys_bound(keys: Seq<Seq<usize>>, n: nat)
    requires
        n <= usize::MAX + 1,
        keys.no_duplicates(),
        forall|j: int| 0 <= j < keys.len() ==> strictly_sorted(#[trigger] keys[j]),
        forall|j: int, i: int| 0 <= j < keys.len() && 0 <= i < keys[j].len() ==> #[trigger] keys[j][i] < n,
    ensures
        keys.len() <= sorted_below(n).len(),
{
    keys.unique_seq_to_set();
    lemma_sorted_below_finite(n);
    assert forall|v: Seq<usize>| keys.to_set().contains(v) implies sorted_below(n).contains(v) by {
        let j = choose|j: int| 0 <= j < keys.len() && keys[j] == v;
        assert forall|i: int| 0 <= i < v.len() implies #[trigger] v[i] < n by {
            assert(keys[j][i] < n);
        }
        lemma_sorted_below_contains(v, n);
    }
    vstd::set_lib::lemma_len_subset(keys.to_set(), sorted_below(n));
}

/// The flagged positions, in increasing order.
pub fn collect_marked(m: &Vec<bool>) -> (r: Vec<usize>)
    ensures
        r@ == canonical(marked(m@), m.len() as nat),
{
    let mut r: Vec<usize> = Vec::new();
    let mut i: usize = 0;
    while i < m.len()
        invariant
            0 <= i <= m.len(),
            r@ == canonical(marked(m@), i as nat),
        decreases m.len() - i,
    {
        if m[i] {
            r.push(i);
        }
        i = i + 1;
    }
    r
}

/// A flag for each state below `n`, set for the states listed in `states`.
pub fn marks_of(states: &Vec<usize>, n: usize) -> (m: Vec<bool>)
    requires
        forall|i: int| 0 <= i < states.len() ==> #[trigger] states@[i] < n,
    ensures
        m.len() == n,
        forall|q: usize| q < n ==> (m@[q as int] <==> states@.contains(q)),
{
    let mut m: Vec<bool> = vec![false; n];
    let mut i: usize = 0;
    while i < states.len()
        invariant
            0 <= i <= states.len(),
            m.len() == n,
            forall|i: int| 0 <= i < states.len() ==> #[trigger] states@[i] < n,
            forall|q: usize| q < n ==> (m@[q as int] <==> states@.subrange(0, i as int).contains(q)),
        decreases states.len() - i,
    {
        let q = states[i];
        m.set(q, true);
        proof {
            let pre = states@.subrange(0, i as int);
            let post = states@.subrange(0, i + 1);
            assert(post =~= pre.push(q));
            assert forall|x: usize| post.contains(x) <==> (pre.contains(x) || x == q) by {
                if post.contains(x) {
                    let k = choose|k: int| 0 <= k < post.len() && post[k] == x;
                    if k < pre.len() {
                        assert(pre[k] == x);
                    }
                }
                if pre.contains(x) {
                    let k = choose|k: int| 0 <= k < pre.len() && pre[k] == x;
                    assert(post[k] == x);
                }
                if x == q {
                    assert(post[i as int] == x);
                }
            }
        }
        i = i + 1;
    }
    assert(states@.subrange(0, states.len() as int) =~= states@);
    m
}

} // verus!
