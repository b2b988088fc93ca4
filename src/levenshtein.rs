use vstd::prelude::*;

verus! {

pub open spec fn min2(x: nat, y: nat) -> nat {
    if x <= y { x } else { y }
}

/// Levenshtein distance between `a` and `b`: insertions, deletions and
/// substitutions each cost one.
pub open spec fn lev(a: Seq<char>, b: Seq<char>) -> nat
    decreases a.len() + b.len(),
{
    if a.len() == 0 {
        b.len()
    } else if b.len() == 0 {
        a.len()
    } else {
        min2(
            min2(lev(a.drop_last(), b) + 1, lev(a, b.drop_last()) + 1),
            lev(a.drop_last(), b.drop_last()) + if a.last() == b.last() { 0nat } else { 1nat },
        )
    }
}

/// The distance is at least the difference of the lengths.
pub proof fn lemma_lev_lower_bound(a: Seq<char>, b: Seq<char>)
    ensures
        lev(a, b) + a.len() >= b.len(),
    decreases a.len() + b.len(),
{
    if a.len() > 0 && b.len() > 0 {
        lemma_lev_lower_bound(a.drop_last(), b);
        lemma_lev_lower_bound(a, b.drop_last());
        lemma_lev_lower_bound(a.drop_last(), b.drop_last());
    }
}

/// Extending a word never brings it closer to any prefix of `q` than `m`,
/// once every prefix of `q` is at least `m` away from the word.
pub proof fn lemma_lev_extend(q: Seq<char>, p: Seq<char>, s: Seq<char>, i: int, m: nat)
    requires
        0 <= i <= q.len(),
        forall|j: int| 0 <= j <= q.len() ==> lev(#[trigger] q.take(j), p) >= m,
    ensures
        lev(q.take(i), p + s) >= m,
    decreases s.len(), i,
{
    if s.len() == 0 {
        assert(p + s =~= p);
    } else if i == 0 {
        assert(q.take(0).len() == 0);
        assert(lev(q.take(0), p) >= m);
    } else {
        let a = q.take(i);
        let b = p + s;
        assert(a.drop_last() =~= q.take(i - 1));
        assert(b.drop_last() =~= p + s.drop_last());
        lemma_lev_extend(q, p, s, i - 1, m);
        lemma_lev_extend(q, p, s.drop_last(), i, m);
        lemma_lev_extend(q, p, s.drop_last(), i - 1, m);
    }
}


/// A word is at distance zero from itself.
pub proof fn lemma_lev_self(a: Seq<char>)
    ensures
        lev(a, a) == 0,
    decreases a.len(),
{
    if a.len() > 0 {
        lemma_lev_self(a.drop_last());
    }
}

/// Distance zero means equal words.
pub proof fn lemma_lev_zero(a: Seq<char>, b: Seq<char>)
    ensures
        lev(a, b) == 0 <==> a == b,
    decreases a.len() + b.len(),
{
    lemma_lev_self(a);
    if lev(a, b) == 0 {
        if a.len() > 0 && b.len() > 0 {
            lemma_lev_zero(a.drop_last(), b.drop_last());
            assert(a =~= a.drop_last().push(a.last()));
            assert(b =~= b.drop_last().push(b.last()));
        }
        assert(a =~= b);
    }
}

} // verus!
