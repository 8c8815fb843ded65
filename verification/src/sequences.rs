//! Facts about sequences that several modules rely on.

use vstd::prelude::*;

verus! {

/// A sequence with one more item at its end holds what it held, and that
/// item.
pub proof fn lemma_contains_push<A>(s: Seq<A>, a: A, b: A)
    ensures
        s.push(a).contains(b) <==> (s.contains(b) || a == b),
{
    if s.contains(b) {
        let x = choose|x: int| 0 <= x < s.len() && s[x] == b;
        assert(s.push(a)[x] == b);
    }
    if a == b {
        assert(s.push(a)[s.len() as int] == b);
    }
    if s.push(a).contains(b) {
        let x = choose|x: int| 0 <= x < s.push(a).len() && s.push(a)[x] == b;
        if x < s.len() {
            assert(s[x] == b);
        }
    }
}

/// A sequence without duplicates stays so when an item is added that it did
/// not hold.
pub proof fn lemma_no_duplicates_push<A>(s: Seq<A>, a: A)
    requires
        s.no_duplicates(),
        !s.contains(a),
    ensures
        s.push(a).no_duplicates(),
{
    let t = s.push(a);
    assert forall|i: int, j: int| 0 <= i < t.len() && 0 <= j < t.len() && i != j implies t[i]
        != t[j] by {
        if i < s.len() && j < s.len() {
            assert(s[i] != s[j]);
        } else if i < s.len() {
            assert(s[i] == t[i]);
        } else {
            assert(s[j] == t[j]);
        }
    }
}

/// Filtering a sequence with one more item at its end adds that item to the
/// result if it passes, and nothing otherwise.
pub proof fn lemma_filter_push<A>(s: Seq<A>, a: A, keep: spec_fn(A) -> bool)
    ensures
        s.push(a).filter(keep) == if keep(a) {
            s.filter(keep).push(a)
        } else {
            s.filter(keep)
        },
{
    reveal(Seq::filter);
    assert(s.push(a).drop_last() =~= s);
}

} // verus!
