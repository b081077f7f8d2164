//! Sequence combinators that the specifications share.
use vstd::prelude::*;

verus! {

/// The concatenation of `f` over the elements of `s`, in order.
pub open spec fn concat_map<A, B>(s: Seq<A>, f: spec_fn(A) -> Seq<B>) -> Seq<B>
    decreases s.len(),
{
    if s.len() == 0 {
        Seq::empty()
    } else {
        concat_map(s.drop_last(), f) + f(s.last())
    }
}

/// The result of applying `f` to `w` and each element of `s` in turn.
pub open spec fn fold<W, A>(w: W, s: Seq<A>, f: spec_fn(W, A) -> W) -> W
    decreases s.len(),
{
    if s.len() == 0 {
        w
    } else {
        f(fold(w, s.drop_last(), f), s.last())
    }
}

/// `x` sits at index `i` of `s` and at no earlier index.
pub open spec fn is_first_at<A>(s: Seq<A>, x: A, i: int) -> bool {
    &&& 0 <= i < s.len()
    &&& s[i] == x
    &&& forall|j: int| 0 <= j < i ==> #[trigger] s[j] != x
}

/// `s` without the first occurrence of `x`.
pub open spec fn without<A>(s: Seq<A>, x: A) -> Seq<A> {
    if exists|i: int| is_first_at(s, x, i) {
        s.remove(choose|i: int| is_first_at(s, x, i))
    } else {
        s
    }
}

/// `s` with `x` in it.
pub open spec fn with<A>(s: Seq<A>, x: A) -> Seq<A> {
    if s.contains(x) {
        s
    } else {
        s.push(x)
    }
}

/// The distinct elements of `s`, in the order in which each first occurs.
pub open spec fn unique<A>(s: Seq<A>) -> Seq<A>
    decreases s.len(),
{
    if s.len() == 0 {
        Seq::empty()
    } else {
        with(unique(s.drop_last()), s.last())
    }
}

/// `without` takes out the element at the first index.
pub proof fn lemma_without<A>(s: Seq<A>, x: A, i: int)
    requires
        is_first_at(s, x, i),
    ensures
        without(s, x) == s.remove(i),
{
    let k = choose|i: int| is_first_at(s, x, i);
    assert(is_first_at(s, x, k));
    if k < i {
        assert(s[k] != x);
    } else if i < k {
        assert(s[i] != x);
    }
}

/// Extending a prefix by one element extends its `concat_map` by that element's image.
pub proof fn lemma_concat_map_step<A, B>(s: Seq<A>, f: spec_fn(A) -> Seq<B>, i: int)
    requires
        0 <= i < s.len(),
    ensures
        concat_map(s.take(i + 1), f) == concat_map(s.take(i), f) + f(s[i]),
{
    assert(s.take(i + 1).drop_last() =~= s.take(i));
}

/// Extending a prefix by one element extends its `fold` by one application.
pub proof fn lemma_fold_step<W, A>(w: W, s: Seq<A>, f: spec_fn(W, A) -> W, i: int)
    requires
        0 <= i < s.len(),
    ensures
        fold(w, s.take(i + 1), f) == f(fold(w, s.take(i), f), s[i]),
{
    assert(s.take(i + 1).drop_last() =~= s.take(i));
}

/// What `f` gives for an element of `s` is in the concatenation.
pub proof fn lemma_concat_map_has<A, B>(s: Seq<A>, f: spec_fn(A) -> Seq<B>, i: int, x: B)
    requires
        0 <= i < s.len(),
        f(s[i]).contains(x),
    ensures
        concat_map(s, f).contains(x),
    decreases s.len(),
{
    let front = concat_map(s.drop_last(), f);
    let back = f(s.last());
    if i == s.len() - 1 {
        let k = choose|k: int| 0 <= k < back.len() && back[k] == x;
        assert((front + back)[front.len() + k] == x);
    } else {
        lemma_concat_map_has(s.drop_last(), f, i, x);
        let k = choose|k: int| 0 <= k < front.len() && front[k] == x;
        assert((front + back)[k] == x);
    }
}

/// What is in the concatenation `f` gives for an element of `s`, at the index returned.
pub proof fn lemma_concat_map_from<A, B>(s: Seq<A>, f: spec_fn(A) -> Seq<B>, x: B) -> (i: int)
    requires
        concat_map(s, f).contains(x),
    ensures
        0 <= i < s.len(),
        f(s[i]).contains(x),
    decreases s.len(),
{
    let all = concat_map(s, f);
    let k = choose|k: int| 0 <= k < all.len() && all[k] == x;
    let front = concat_map(s.drop_last(), f);
    if k < front.len() {
        assert(front[k] == x);
        lemma_concat_map_from(s.drop_last(), f, x)
    } else {
        assert(f(s.last())[k - front.len()] == x);
        s.len() - 1
    }
}

/// What each application of `f` keeps, the fold keeps.
pub proof fn lemma_fold_keeps<W, A>(w: W, s: Seq<A>, f: spec_fn(W, A) -> W, p: spec_fn(W) -> bool)
    requires
        p(w),
        forall|v: W, a: A| p(v) && s.contains(a) ==> #[trigger] p(f(v, a)),
    ensures
        p(fold(w, s, f)),
    decreases s.len(),
{
    if s.len() > 0 {
        let front = s.drop_last();
        assert forall|v: W, a: A| p(v) && front.contains(a) implies #[trigger] p(f(v, a)) by {
            let k = choose|k: int| 0 <= k < front.len() && front[k] == a;
            assert(s[k] == a);
        }
        lemma_fold_keeps(w, front, f, p);
        assert(s[s.len() - 1] == s.last());
        assert(s.contains(s.last()));
    }
}

/// What application number `k` of `f` brings about and the later ones keep, the fold brings about.
pub proof fn lemma_fold_reaches<W, A>(
    w: W,
    s: Seq<A>,
    f: spec_fn(W, A) -> W,
    inv: spec_fn(W) -> bool,
    k: int,
    goal: spec_fn(W) -> bool,
)
    requires
        0 <= k < s.len(),
        inv(w),
        forall|v: W, a: A| inv(v) && s.contains(a) ==> #[trigger] inv(f(v, a)),
        forall|v: W| inv(v) ==> #[trigger] goal(f(v, s[k])),
        forall|v: W, a: A| inv(v) && goal(v) && s.contains(a) ==> goal(#[trigger] f(v, a)),
    ensures
        goal(fold(w, s, f)),
    decreases s.len(),
{
    let front = s.drop_last();
    assert forall|a: A| front.contains(a) implies #[trigger] s.contains(a) by {
        let j = choose|j: int| 0 <= j < front.len() && front[j] == a;
        assert(s[j] == a);
    }
    lemma_fold_keeps(w, front, f, inv);
    if k < s.len() - 1 {
        lemma_fold_reaches(w, front, f, inv, k, goal);
        assert(s.contains(s.last()));
    }
}

/// Distinct values out of a list are no more than the list has.
pub proof fn lemma_no_more<A>(s: Seq<A>, t: Seq<A>)
    requires
        s.no_duplicates(),
        forall|k: int| 0 <= k < s.len() ==> t.contains(#[trigger] s[k]),
    ensures
        s.len() <= t.len(),
{
    s.unique_seq_to_set();
    t.lemma_cardinality_of_set();
    vstd::seq_lib::seq_to_set_is_finite(t);
    assert(s.to_set().subset_of(t.to_set()));
    vstd::set_lib::lemma_len_subset(s.to_set(), t.to_set());
}

/// Some of distinct values are distinct.
pub proof fn lemma_some_distinct<A>(s: Seq<A>, f: spec_fn(A) -> Seq<A>)
    requires
        s.no_duplicates(),
        forall|x: A| #[trigger] f(x) == seq![x] || f(x) == Seq::<A>::empty(),
    ensures
        concat_map(s, f).no_duplicates(),
    decreases s.len(),
{
    if s.len() > 0 {
        let front = s.drop_last();
        let n = front.len() as int;
        lemma_some_distinct(front, f);
        let before = concat_map(front, f);
        let all = concat_map(s, f);
        assert forall|a: int, b: int| 0 <= a < b < all.len() implies all[a] != all[b] by {
            if b < before.len() {
                assert(before[a] != before[b]);
            } else {
                assert(f(s.last()) == seq![s.last()]);
                assert(before.contains(before[a]));
                let i = lemma_concat_map_from(front, f, before[a]);
                assert(f(front[i])[0] == before[a]);
                assert(s[i] != s[n]);
            }
        }
    }
}

} // verus!
