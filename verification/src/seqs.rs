//! Small facts about sequences that the rest of the library states its
//! contracts with.
use vstd::prelude::*;

verus! {

/// The least `i < n` with `f(i)`, if there is one.
pub open spec fn first_where(f: spec_fn(int) -> bool, n: nat) -> Option<int>
    decreases n,
{
    if n == 0 {
        None
    } else {
        match first_where(f, (n - 1) as nat) {
            Some(i) => Some(i),
            None => if f(n - 1) {
                Some(n - 1)
            } else {
                None
            },
        }
    }
}

/// `first_where` finds exactly the least index that satisfies the predicate.
pub proof fn lemma_first_where(f: spec_fn(int) -> bool, n: nat)
    ensures
        first_where(f, n) is None <==> (forall|i: int| 0 <= i < n ==> !#[trigger] f(i)),
        first_where(f, n) matches Some(i) ==> 0 <= i < n && f(i) && (forall|j: int|
            0 <= j < i ==> !#[trigger] f(j)),
    decreases n,
{
    if n > 0 {
        lemma_first_where(f, (n - 1) as nat);
    }
}

/// The index found when the predicate holds at `i` and nowhere before.
pub proof fn lemma_first_where_is(f: spec_fn(int) -> bool, n: nat, i: int)
    requires
        0 <= i < n,
        f(i),
        forall|j: int| 0 <= j < i ==> !#[trigger] f(j),
    ensures
        first_where(f, n) == Some(i),
{
    lemma_first_where(f, n);
    if let Some(k) = first_where(f, n) {
        assert(!(k < i));
        assert(!(i < k));
    }
}

/// A sequence with every run of equal adjacent elements cut down to one.
pub open spec fn distinct_runs<A>(s: Seq<A>) -> Seq<A>
    decreases s.len(),
{
    if s.len() == 0 {
        s
    } else {
        let r = distinct_runs(s.drop_last());
        if s.len() >= 2 && s[s.len() - 2] == s.last() {
            r
        } else {
            r.push(s.last())
        }
    }
}

/// In a sequence without duplicates, the index of an element is where it is.
pub proof fn lemma_index_of_unique<A>(s: Seq<A>, i: int)
    requires
        s.no_duplicates(),
        0 <= i < s.len(),
    ensures
        s.index_of(s[i]) == i,
{
    assert(s.contains(s[i]));
    let j = s.index_of(s[i]);
    assert(0 <= j < s.len() && s[j] == s[i]);
}

} // verus!
