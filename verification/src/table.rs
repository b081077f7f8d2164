//! An association list that keeps its entries in insertion order.
use vstd::prelude::*;

verus! {

/// What a type needs to serve as a key: a comparison that decides equality of the views.
pub trait Key: DeepView + Sized {
    fn same(&self, other: &Self) -> (r: bool)
        ensures
            r == (self.deep_view() == other.deep_view()),
    ;
}

impl Key for String {
    fn same(&self, other: &Self) -> (r: bool) {
        *self == *other
    }
}

/// `k` sits at index `i` of `s` and at no earlier index.
pub open spec fn is_first<K, V>(s: Seq<(K, V)>, k: K, i: int) -> bool {
    &&& 0 <= i < s.len()
    &&& s[i].0 == k
    &&& forall|j: int| 0 <= j < i ==> (#[trigger] s[j]).0 != k
}

/// Whether `s` has an entry under `k`.
pub open spec fn has_key<K, V>(s: Seq<(K, V)>, k: K) -> bool {
    exists|i: int| is_first(s, k, i)
}

/// Where the entry under `k` sits.
pub open spec fn position<K, V>(s: Seq<(K, V)>, k: K) -> int {
    choose|i: int| is_first(s, k, i)
}

/// The value under `k`, if there is one.
pub open spec fn lookup<K, V>(s: Seq<(K, V)>, k: K) -> Option<V> {
    if has_key(s, k) {
        Some(s[position(s, k)].1)
    } else {
        None
    }
}

/// `s` with `v` under `k`: in the place of the present entry, or at the end.
pub open spec fn put<K, V>(s: Seq<(K, V)>, k: K, v: V) -> Seq<(K, V)> {
    if has_key(s, k) {
        s.update(position(s, k), (k, v))
    } else {
        s.push((k, v))
    }
}

/// `s` without the entry under `k`.
pub open spec fn del<K, V>(s: Seq<(K, V)>, k: K) -> Seq<(K, V)> {
    if has_key(s, k) {
        s.remove(position(s, k))
    } else {
        s
    }
}

/// No key has two entries.
pub open spec fn distinct<K, V>(s: Seq<(K, V)>) -> bool {
    forall|i: int, j: int| 0 <= i < j < s.len() ==> (#[trigger] s[i]).0 != (#[trigger] s[j]).0
}

/// The first index is the only one that is first.
pub proof fn lemma_first<K, V>(s: Seq<(K, V)>, k: K, i: int)
    requires
        is_first(s, k, i),
    ensures
        has_key(s, k),
        position(s, k) == i,
        lookup(s, k) == Some(s[i].1),
{
    let p = position(s, k);
    assert(is_first(s, k, p));
    if p < i {
        assert(s[p].0 != k);
    } else if i < p {
        assert(s[i].0 != k);
    }
}

/// A key that occurs has an entry, no later than where it was seen.
pub proof fn lemma_occurs<K, V>(s: Seq<(K, V)>, k: K, i: int)
    requires
        0 <= i < s.len(),
        s[i].0 == k,
    ensures
        has_key(s, k),
        is_first(s, k, position(s, k)),
        position(s, k) <= i,
        distinct(s) ==> position(s, k) == i && lookup(s, k) == Some(s[i].1),
    decreases i,
{
    if exists|j: int| 0 <= j < i && (#[trigger] s[j]).0 == k {
        let j = choose|j: int| 0 <= j < i && (#[trigger] s[j]).0 == k;
        lemma_occurs(s, k, j);
    } else {
        assert(is_first(s, k, i));
        lemma_first(s, k, i);
    }
}

/// Without an entry under `k`, no index holds `k`.
pub proof fn lemma_absent<K, V>(s: Seq<(K, V)>, k: K)
    requires
        !has_key(s, k),
    ensures
        forall|i: int| 0 <= i < s.len() ==> (#[trigger] s[i]).0 != k,
{
    assert forall|i: int| 0 <= i < s.len() implies (#[trigger] s[i]).0 != k by {
        if s[i].0 == k {
            lemma_occurs(s, k, i);
        }
    }
}

/// A list has the keys that it had and that of the entry appended to it.
pub proof fn lemma_has_key_push<K, V>(s: Seq<(K, V)>, e: (K, V), k: K)
    ensures
        has_key(s.push(e), k) == (has_key(s, k) || e.0 == k),
{
    let t = s.push(e);
    if has_key(s, k) {
        let i = position(s, k);
        assert(is_first(s, k, i));
        lemma_occurs(t, k, i);
    } else {
        lemma_absent(s, k);
        if e.0 == k {
            lemma_occurs(t, k, s.len() as int);
        } else if has_key(t, k) {
            let i = position(t, k);
            assert(is_first(t, k, i));
            assert(false);
        }
    }
}

/// Reading a list with an entry appended to it.
pub proof fn lemma_lookup_push<K, V>(s: Seq<(K, V)>, e: (K, V), k: K)
    ensures
        lookup(s.push(e), k) == (match lookup(s, k) {
            Some(v) => Some(v),
            None => if e.0 == k {
                Some(e.1)
            } else {
                None
            },
        }),
{
    let t = s.push(e);
    lemma_has_key_push(s, e, k);
    if has_key(s, k) {
        let i = position(s, k);
        assert(is_first(s, k, i));
        assert(is_first(t, k, i));
        lemma_first(t, k, i);
    } else if e.0 == k {
        lemma_absent(s, k);
        assert(is_first(t, k, s.len() as int));
        lemma_first(t, k, s.len() as int);
    }
}

/// Writing adds at most the written key.
pub proof fn lemma_put_keys<K, V>(s: Seq<(K, V)>, k: K, v: V, q: K)
    ensures
        has_key(put(s, k, v), q) == (has_key(s, q) || q == k),
{
    lemma_put(s, k, v, q);
}

/// Reading after writing: the written key has the new value, the others are as before.
pub proof fn lemma_put<K, V>(s: Seq<(K, V)>, k: K, v: V, q: K)
    ensures
        lookup(put(s, k, v), k) == Some(v),
        q != k ==> lookup(put(s, k, v), q) == lookup(s, q),
        distinct(s) ==> distinct(put(s, k, v)),
{
    let t = put(s, k, v);
    if has_key(s, k) {
        let p = position(s, k);
        assert(is_first(t, k, p));
        lemma_first(t, k, p);
    } else {
        lemma_absent(s, k);
        assert(is_first(t, k, s.len() as int));
        lemma_first(t, k, s.len() as int);
    }
    if q != k {
        if has_key(s, q) {
            let i = position(s, q);
            assert(is_first(s, q, i));
            assert(is_first(t, q, i));
            lemma_first(t, q, i);
        } else {
            lemma_absent(s, q);
            if has_key(t, q) {
                let i = position(t, q);
                assert(is_first(t, q, i));
                assert(false);
            }
        }
    }
}

/// Writing what is there changes nothing.
pub proof fn lemma_put_same<K, V>(s: Seq<(K, V)>, k: K)
    requires
        has_key(s, k),
    ensures
        put(s, k, lookup(s, k)->0) == s,
{
    assert(is_first(s, k, position(s, k)));
    assert(put(s, k, lookup(s, k)->0) =~= s);
}

/// Reading after deleting: the deleted key is gone, the others are as before.
pub proof fn lemma_del<K, V>(s: Seq<(K, V)>, k: K, q: K)
    requires
        distinct(s),
    ensures
        lookup(del(s, k), k) is None,
        q != k ==> lookup(del(s, k), q) == lookup(s, q),
        distinct(del(s, k)),
{
    let t = del(s, k);
    if has_key(s, k) {
        let p = position(s, k);
        assert(is_first(s, k, p));
        assert forall|i: int| 0 <= i < t.len() implies (#[trigger] t[i]) == s[if i < p { i } else {
            i + 1
        }] by {}
        if has_key(t, k) {
            let i = position(t, k);
            assert(is_first(t, k, i));
            let j = if i < p { i } else { i + 1 };
            assert(t[i] == s[j]);
            assert(s[j].0 == k && j != p);
            assert(false);
        }
        if q != k {
            if has_key(s, q) {
                let i = position(s, q);
                assert(is_first(s, q, i));
                let j = if i < p { i } else { i - 1 };
                assert(t[j] == s[i]);
                lemma_occurs(t, q, j);
            } else {
                lemma_absent(s, q);
                if has_key(t, q) {
                    let i = position(t, q);
                    assert(is_first(t, q, i));
                    let j = if i < p { i } else { i + 1 };
                    assert(t[i] == s[j]);
                    assert(false);
                }
            }
        }
    }
}

/// An association list.
#[derive(Debug)]
pub struct Table<K, V> {
    entries: Vec<(K, V)>,
}

impl<K: DeepView, V: DeepView> View for Table<K, V> {
    type V = Seq<(K::V, V::V)>;

    closed spec fn view(&self) -> Seq<(K::V, V::V)> {
        self.entries.deep_view()
    }
}

impl<K: DeepView, V: DeepView> DeepView for Table<K, V> {
    type V = Seq<(K::V, V::V)>;

    open spec fn deep_view(&self) -> Seq<(K::V, V::V)> {
        self@
    }
}

impl<K: Key, V: DeepView> Table<K, V> {
    pub fn new() -> (r: Self)
        ensures
            r@ == Seq::<(K::V, V::V)>::empty(),
    {
        let r = Table { entries: Vec::new() };
        assert(r@ =~= Seq::<(K::V, V::V)>::empty());
        r
    }

    /// The number of entries.
    pub fn len(&self) -> (r: usize)
        ensures
            r == self@.len(),
    {
        self.entries.len()
    }

    /// The key of the entry at index `i`.
    pub fn key_at(&self, i: usize) -> (r: &K)
        requires
            i < self@.len(),
        ensures
            r.deep_view() == self@[i as int].0,
    {
        &self.entries[i].0
    }

    /// The value of the entry at index `i`.
    pub fn value_at(&self, i: usize) -> (r: &V)
        requires
            i < self@.len(),
        ensures
            r.deep_view() == self@[i as int].1,
    {
        &self.entries[i].1
    }

    /// The index of the entry under `k`.
    fn find(&self, k: &K) -> (r: Option<usize>)
        ensures
            match r {
                Some(i) => is_first(self@, k.deep_view(), i as int),
                None => !has_key(self@, k.deep_view()),
            },
    {
        let mut i: usize = 0;
        while i < self.entries.len()
            invariant
                i <= self.entries@.len(),
                self@.len() == self.entries@.len(),
                forall|j: int| 0 <= j < i ==> (#[trigger] self@[j]).0 != k.deep_view(),
            decreases self.entries.len() - i,
        {
            if self.entries[i].0.same(k) {
                assert(self@[i as int].0 == k.deep_view());
                return Some(i);
            }
            i = i + 1;
        }
        None
    }

    /// Whether there is an entry under `k`.
    pub fn contains_key(&self, k: &K) -> (r: bool)
        ensures
            r == has_key(self@, k.deep_view()),
    {
        match self.find(k) {
            Some(i) => {
                proof {
                    lemma_first(self@, k.deep_view(), i as int);
                }
                true
            },
            None => false,
        }
    }

    /// The value under `k`.
    pub fn get(&self, k: &K) -> (r: Option<&V>)
        ensures
            r.deep_view() == lookup(self@, k.deep_view()),
    {
        match self.find(k) {
            Some(i) => {
                proof {
                    lemma_first(self@, k.deep_view(), i as int);
                }
                Some(&self.entries[i].1)
            },
            None => None,
        }
    }

    /// The value under `k`, for modification in place.
    pub fn get_mut(&mut self, k: &K) -> (r: Option<&mut V>)
        ensures
            match r {
                Some(v) => {
                    &&& lookup(old(self)@, k.deep_view()) == Some(v.deep_view())
                    &&& final(self)@ == put(old(self)@, k.deep_view(), final(v).deep_view())
                },
                None => {
                    &&& lookup(old(self)@, k.deep_view()) is None
                    &&& final(self)@ == old(self)@
                },
            },
    {
        match self.find(k) {
            Some(i) => {
                proof {
                    lemma_first(self@, k.deep_view(), i as int);
                }
                Some(&mut self.entries[i].1)
            },
            None => None,
        }
    }

    /// Puts `v` under `k`, in the place of the value that was there.
    pub fn insert(&mut self, k: K, v: V)
        ensures
            final(self)@ == put(old(self)@, k.deep_view(), v.deep_view()),
    {
        match self.find(&k) {
            Some(i) => {
                proof {
                    lemma_first(self@, k.deep_view(), i as int);
                }
                let ghost kv = k.deep_view();
                let ghost vv = v.deep_view();
                self.entries[i] = (k, v);
                assert(self@ =~= old(self)@.update(i as int, (kv, vv)));
            },
            None => {
                let ghost kv = k.deep_view();
                let ghost vv = v.deep_view();
                self.entries.push((k, v));
                assert(self@ =~= old(self)@.push((kv, vv)));
            },
        }
    }

    /// Appends an entry as it is, whether or not there is one under its key.
    pub(crate) fn push(&mut self, k: K, v: V)
        ensures
            final(self)@ == old(self)@.push((k.deep_view(), v.deep_view())),
    {
        let ghost kv = k.deep_view();
        let ghost vv = v.deep_view();
        self.entries.push((k, v));
        assert(self@ =~= old(self)@.push((kv, vv)));
    }

    /// Takes out the entry under `k` and returns its value.
    pub fn remove(&mut self, k: &K) -> (r: Option<V>)
        ensures
            r.deep_view() == lookup(old(self)@, k.deep_view()),
            final(self)@ == del(old(self)@, k.deep_view()),
    {
        match self.find(k) {
            Some(i) => {
                proof {
                    lemma_first(self@, k.deep_view(), i as int);
                }
                let (_, v) = self.entries.remove(i);
                assert(self@ =~= old(self)@.remove(i as int));
                Some(v)
            },
            None => None,
        }
    }
}

} // verus!
