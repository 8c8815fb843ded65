//! The order in which wrappers are opened.

use crate::custom_collections::reversed;
use crate::render::Wrapper;
use vstd::multiset::Multiset;
use vstd::prelude::*;

verus! {

/// `a` must be opened before `b`: it starts further left, or at the same
/// offset and ends further right.
pub open spec fn goes_before(a: Wrapper, b: Wrapper) -> bool {
    a.prefix.position < b.prefix.position || (a.prefix.position == b.prefix.position
        && a.postfix.position > b.postfix.position)
}

/// `sorted` with `w` put in front of the first wrapper that need not be
/// opened before it.
pub open spec fn placed(w: Wrapper, sorted: Seq<Wrapper>) -> Seq<Wrapper>
    decreases sorted.len(),
{
    if sorted.len() > 0 && goes_before(sorted.first(), w) {
        seq![sorted.first()] + placed(w, sorted.drop_first())
    } else {
        seq![w] + sorted
    }
}

/// The wrappers in the order in which they are opened: by start offset, and
/// among those with the same start by end offset, the furthest first.
/// Wrappers with the same two offsets keep the order they came in.
pub open spec fn in_order(wrappers: Seq<Wrapper>) -> Seq<Wrapper>
    decreases wrappers.len(),
{
    if wrappers.len() == 0 {
        wrappers
    } else {
        placed(wrappers.first(), in_order(wrappers.drop_first()))
    }
}

/// No wrapper stands behind one that it must be opened before.
pub open spec fn opening_order(wrappers: Seq<Wrapper>) -> bool {
    forall|i: int, j: int|
        0 <= i < j < wrappers.len() ==> !goes_before(#[trigger] wrappers[j], #[trigger] wrappers[i])
}

/// How many wrappers at the front of `sorted` go before `w`.
spec fn rank(w: Wrapper, sorted: Seq<Wrapper>) -> nat
    decreases sorted.len(),
{
    if sorted.len() > 0 && goes_before(sorted.first(), w) {
        1 + rank(w, sorted.drop_first())
    } else {
        0
    }
}

proof fn lemma_rank(w: Wrapper, sorted: Seq<Wrapper>)
    ensures
        rank(w, sorted) <= sorted.len(),
        forall|j: int| 0 <= j < rank(w, sorted) ==> goes_before(#[trigger] sorted[j], w),
        rank(w, sorted) < sorted.len() ==> !goes_before(sorted[rank(w, sorted) as int], w),
    decreases sorted.len(),
{
    if sorted.len() > 0 && goes_before(sorted.first(), w) {
        let rest = sorted.drop_first();
        lemma_rank(w, rest);
        assert forall|j: int| 0 <= j < rank(w, sorted) implies goes_before(
            #[trigger] sorted[j],
            w,
        ) by {
            if j > 0 {
                assert(sorted[j] == rest[j - 1]);
            }
        }
        if rank(w, sorted) < sorted.len() {
            assert(sorted[rank(w, sorted) as int] == rest[rank(w, rest) as int]);
        }
    }
}

/// Putting `w` into `sorted` is inserting it behind the `at` leading wrappers
/// that go before it.
proof fn lemma_placed_is_insert(w: Wrapper, sorted: Seq<Wrapper>, at: int)
    requires
        0 <= at <= sorted.len(),
        forall|j: int| 0 <= j < at ==> goes_before(#[trigger] sorted[j], w),
        at < sorted.len() ==> !goes_before(sorted[at], w),
    ensures
        placed(w, sorted) == sorted.insert(at, w),
    decreases sorted.len(),
{
    if at == 0 {
        assert(seq![w] + sorted =~= sorted.insert(0, w));
    } else {
        let rest = sorted.drop_first();
        assert forall|j: int| 0 <= j < at - 1 implies goes_before(#[trigger] rest[j], w) by {
            assert(rest[j] == sorted[j + 1]);
        }
        lemma_placed_is_insert(w, rest, at - 1);
        assert(seq![sorted.first()] + rest.insert(at - 1, w) =~= sorted.insert(at, w));
    }
}

fn opens_first(a: &Wrapper, b: &Wrapper) -> (first: bool)
    ensures
        first == goes_before(*a, *b),
{
    a.prefix.position < b.prefix.position || (a.prefix.position == b.prefix.position
        && a.postfix.position > b.postfix.position)
}

/// Two sequences run into one: at each step the next wrapper is the first
/// of the left sequence, unless the first of the right one goes before it.
pub open spec fn merged(left: Seq<Wrapper>, right: Seq<Wrapper>) -> Seq<Wrapper>
    decreases left.len() + right.len(),
{
    if left.len() == 0 {
        right
    } else if right.len() == 0 {
        left
    } else if goes_before(right.first(), left.first()) {
        seq![right.first()] + merged(left, right.drop_first())
    } else {
        seq![left.first()] + merged(left.drop_first(), right)
    }
}

/// Putting a wrapper into the run of two sequences is putting it into the
/// left one and running the two together then.
proof fn lemma_placed_into_merged(w: Wrapper, left: Seq<Wrapper>, right: Seq<Wrapper>)
    ensures
        placed(w, merged(left, right)) == merged(placed(w, left), right),
    decreases left.len() + right.len(),
{
    if left.len() == 0 {
        if right.len() > 0 && goes_before(right.first(), w) {
            lemma_placed_into_merged(w, left, right.drop_first());
            assert(placed(w, left) =~= seq![w]);
            assert(placed(w, Seq::<Wrapper>::empty()) =~= seq![w]);
            assert(merged(left, right.drop_first()) == right.drop_first());
        } else {
            assert(placed(w, left) =~= seq![w]);
            assert((seq![w] + right).drop_first() =~= right);
            assert(seq![w].drop_first() =~= left);
            assert(merged(left, right) == right);
            if right.len() > 0 {
                assert(merged(seq![w], right) =~= seq![w] + merged(left, right));
            }
        }
    } else if right.len() == 0 {
        assert(placed(w, left).len() > 0);
    } else {
        let both = merged(left, right);
        let put = placed(w, left);
        if goes_before(right.first(), left.first()) {
            assert(both.first() == right.first());
            assert(both.drop_first() =~= merged(left, right.drop_first()));
            if goes_before(right.first(), w) {
                lemma_placed_into_merged(w, left, right.drop_first());
                assert(goes_before(right.first(), put.first()));
            } else {
                assert(put =~= seq![w] + left);
                assert(put.drop_first() =~= left);
            }
        } else {
            assert(both.first() == left.first());
            assert(both.drop_first() =~= merged(left.drop_first(), right));
            if goes_before(left.first(), w) {
                lemma_placed_into_merged(w, left.drop_first(), right);
                assert(put.first() == left.first());
                assert(put.drop_first() =~= placed(w, left.drop_first()));
            } else {
                assert(put =~= seq![w] + left);
                assert(put.drop_first() =~= left);
            }
        }
    }
}

/// Sorting two sequences and running them together sorts the one after the
/// other.
proof fn lemma_in_order_of_halves(left: Seq<Wrapper>, right: Seq<Wrapper>)
    ensures
        in_order(left + right) == merged(in_order(left), in_order(right)),
    decreases left.len(),
{
    if left.len() == 0 {
        assert(left + right =~= right);
    } else {
        lemma_in_order_of_halves(left.drop_first(), right);
        assert((left + right).drop_first() =~= left.drop_first() + right);
        lemma_placed_into_merged(left.first(), in_order(left.drop_first()), in_order(right));
    }
}

/// Runs two sequences into one.
fn merge(left: Vec<Wrapper>, right: Vec<Wrapper>) -> (all: Vec<Wrapper>)
    ensures
        all@ == merged(left@, right@),
{
    let mut l = reversed(left);
    let mut r = reversed(right);
    let mut all: Vec<Wrapper> = Vec::new();
    assert(l@.reverse() =~= left@ && r@.reverse() =~= right@);
    while l.len() > 0 || r.len() > 0
        invariant
            all@ + merged(l@.reverse(), r@.reverse()) == merged(left@, right@),
        decreases l@.len() + r@.len(),
    {
        let ghost ahead = merged(l@.reverse(), r@.reverse());
        let ghost done = all@;
        let from_right = if l.len() == 0 {
            true
        } else if r.len() == 0 {
            false
        } else {
            opens_first(&r[r.len() - 1], &l[l.len() - 1])
        };
        if from_right {
            let ghost before = r@;
            let w = r.pop().unwrap();
            all.push(w);
            assert(before.reverse().first() == w);
            assert(before.reverse().drop_first() =~= r@.reverse());
            assert(ahead =~= seq![w] + merged(l@.reverse(), r@.reverse()));
        } else {
            let ghost before = l@;
            let w = l.pop().unwrap();
            all.push(w);
            assert(before.reverse().first() == w);
            assert(before.reverse().drop_first() =~= l@.reverse());
            assert(ahead =~= seq![w] + merged(l@.reverse(), r@.reverse()));
        }
        assert(all@ + merged(l@.reverse(), r@.reverse()) =~= done + ahead);
    }
    assert(all@ + merged(l@.reverse(), r@.reverse()) =~= all@);
    all
}

/// Sorts the wrappers into opening order.
pub fn sort_wrappers(wrappers: Vec<Wrapper>) -> (sorted: Vec<Wrapper>)
    ensures
        sorted@ == in_order(wrappers@),
    decreases wrappers@.len(),
{
    let n: usize = wrappers.len();
    if n <= 1 {
        proof {
            if n == 1 {
                assert(wrappers@.drop_first().len() == 0);
                assert(in_order(wrappers@.drop_first()).len() == 0);
                assert(in_order(wrappers@) =~= wrappers@);
            }
        }
        return wrappers;
    }
    let mut left = wrappers;
    let right = left.split_off(n / 2);
    proof {
        assert(wrappers@ =~= left@ + right@);
        lemma_in_order_of_halves(left@, right@);
    }
    merge(sort_wrappers(left), sort_wrappers(right))
}

/// Putting a wrapper into a sequence in opening order keeps the order, and
/// adds that wrapper and nothing else.
pub proof fn lemma_placed_keeps_order(w: Wrapper, sorted: Seq<Wrapper>)
    requires
        opening_order(sorted),
    ensures
        opening_order(placed(w, sorted)),
        placed(w, sorted).len() == sorted.len() + 1,
        placed(w, sorted).to_multiset() == sorted.to_multiset().insert(w),
{
    let at = rank(w, sorted) as int;
    lemma_rank(w, sorted);
    lemma_placed_is_insert(w, sorted, at);
    let out = sorted.insert(at, w);
    vstd::seq_lib::to_multiset_insert(sorted, at, w);
    assert forall|i: int, j: int| 0 <= i < j < out.len() implies !goes_before(
        #[trigger] out[j],
        #[trigger] out[i],
    ) by {
        if j == at {
            assert(out[i] == sorted[i]);
        } else if i == at {
            assert(out[j] == sorted[j - 1]);
            if j - 1 > at {
                assert(!goes_before(sorted[j - 1], sorted[at]));
            }
        } else {
            let a = if i < at { i } else { i - 1 };
            let b = if j < at { j } else { j - 1 };
            assert(out[i] == sorted[a]);
            assert(out[j] == sorted[b]);
        }
    }
}

/// Sorting changes the order of the wrappers and nothing else: the result is
/// in opening order and holds each wrapper as often as it was given.
pub proof fn lemma_in_order_sorts(wrappers: Seq<Wrapper>)
    ensures
        opening_order(in_order(wrappers)),
        in_order(wrappers).len() == wrappers.len(),
        in_order(wrappers).to_multiset() == wrappers.to_multiset(),
    decreases wrappers.len(),
{
    if wrappers.len() == 0 {
    } else {
        let rest = wrappers.drop_first();
        lemma_in_order_sorts(rest);
        lemma_placed_keeps_order(wrappers.first(), in_order(rest));
        assert(wrappers =~= seq![wrappers.first()] + rest);
        vstd::seq_lib::lemma_multiset_commutative(seq![wrappers.first()], rest);
        assert(seq![wrappers.first()] =~= Seq::<Wrapper>::empty().push(wrappers.first()));
        Seq::<Wrapper>::empty().to_multiset_ensures();
        assert(seq![wrappers.first()].to_multiset() =~= Multiset::<Wrapper>::empty().insert(
            wrappers.first(),
        ));
        assert(wrappers.to_multiset() =~= rest.to_multiset().insert(wrappers.first()));
    }
}

/// Every wrapper of the sorted sequence was given, and every given wrapper is
/// in the sorted sequence.
pub proof fn lemma_in_order_same_wrappers(wrappers: Seq<Wrapper>)
    ensures
        forall|w: Wrapper| in_order(wrappers).contains(w) <==> wrappers.contains(w),
{
    lemma_in_order_sorts(wrappers);
    assert forall|w: Wrapper| in_order(wrappers).contains(w) <==> wrappers.contains(w) by {
        vstd::seq_lib::to_multiset_contains(in_order(wrappers), w);
        vstd::seq_lib::to_multiset_contains(wrappers, w);
    }
}

} // verus!
