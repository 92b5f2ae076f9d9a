//! An insertion-ordered header table. Header names are case-sensitive; a
//! later insert of an existing name replaces its value in place, so names
//! stay unique and the emission order of the encoder is deterministic.

use vstd::prelude::*;

verus! {

/// The position of the first pair in `hs` at or after `i` whose key is `k`.
pub open spec fn find_key<K, V>(hs: Seq<(K, V)>, k: K, i: int) -> Option<int>
    decreases hs.len() - i,
{
    if i < 0 || i >= hs.len() {
        None
    } else if hs[i].0 == k {
        Some(i)
    } else {
        find_key(hs, k, i + 1)
    }
}

/// The value bound to `k` in `hs`: the first pair with that key wins.
pub open spec fn lookup<K, V>(hs: Seq<(K, V)>, k: K) -> Option<V> {
    match find_key(hs, k, 0) {
        Some(p) => Some(hs[p].1),
        None => None,
    }
}

/// `hs` with `k` bound to `v`: replaces the value of an existing key in
/// place, appends a fresh key at the end.
pub open spec fn insert_pair<K, V>(hs: Seq<(K, V)>, k: K, v: V) -> Seq<(K, V)> {
    match find_key(hs, k, 0) {
        Some(p) => hs.update(p, (k, v)),
        None => hs.push((k, v)),
    }
}

/// No two pairs of `hs` share a key.
pub open spec fn unique_keys<K, V>(hs: Seq<(K, V)>) -> bool {
    forall|i: int, j: int| 0 <= i < j < hs.len() ==> (#[trigger] hs[i]).0 != (#[trigger] hs[j]).0
}

/// Where `find_key` points, and what its failure means.
pub proof fn lemma_find_key_props<K, V>(hs: Seq<(K, V)>, k: K, i: int)
    requires
        0 <= i <= hs.len(),
    ensures
        match find_key(hs, k, i) {
            Some(p) => i <= p < hs.len() && hs[p].0 == k && (forall|q: int|
                i <= q < p ==> (#[trigger] hs[q]).0 != k),
            None => forall|q: int| i <= q < hs.len() ==> (#[trigger] hs[q]).0 != k,
        },
    decreases hs.len() - i,
{
    if i < hs.len() && hs[i].0 != k {
        lemma_find_key_props(hs, k, i + 1);
    }
}

/// The first position bearing `k` is what `find_key` returns.
pub proof fn lemma_find_key_first<K, V>(hs: Seq<(K, V)>, k: K, p: int)
    requires
        0 <= p < hs.len(),
        hs[p].0 == k,
        forall|q: int| 0 <= q < p ==> (#[trigger] hs[q]).0 != k,
    ensures
        find_key(hs, k, 0) == Some(p),
{
    lemma_find_key_first_from(hs, k, 0, p);
}

proof fn lemma_find_key_first_from<K, V>(hs: Seq<(K, V)>, k: K, i: int, p: int)
    requires
        0 <= i <= p < hs.len(),
        hs[p].0 == k,
        forall|q: int| i <= q < p ==> (#[trigger] hs[q]).0 != k,
    ensures
        find_key(hs, k, i) == Some(p),
    decreases p - i,
{
    if i < p {
        lemma_find_key_first_from(hs, k, i + 1, p);
    }
}

/// Inserting keeps keys unique.
pub proof fn lemma_insert_unique<K, V>(hs: Seq<(K, V)>, k: K, v: V)
    requires
        unique_keys(hs),
    ensures
        unique_keys(insert_pair(hs, k, v)),
{
    lemma_find_key_props(hs, k, 0);
    match find_key(hs, k, 0) {
        Some(p) => {
            let u = hs.update(p, (k, v));
            assert forall|q: int| 0 <= q < u.len() implies (#[trigger] u[q]).0 == hs[q].0 by {
                if q == p {
                    assert(hs[p].0 == k);
                }
            }
        },
        None => {
            let u = hs.push((k, v));
            assert forall|i: int, j: int| 0 <= i < j < u.len() implies (#[trigger] u[i]).0 != (
            #[trigger] u[j]).0 by {
                if j == hs.len() {
                    assert(hs[i].0 != k);
                } else {
                    assert(hs[i].0 != hs[j].0);
                }
            }
        },
    }
}

proof fn lemma_find_key_pointwise<K, V>(a: Seq<(K, V)>, b: Seq<(K, V)>, k: K, i: int)
    requires
        a.len() == b.len(),
        forall|q: int| 0 <= q < a.len() ==> (#[trigger] a[q]).0 == (#[trigger] b[q]).0,
    ensures
        find_key(a, k, i) == find_key(b, k, i),
    decreases a.len() - i,
{
    if 0 <= i < a.len() {
        lemma_find_key_pointwise(a, b, k, i + 1);
    }
}

proof fn lemma_find_key_push_other<K, V>(hs: Seq<(K, V)>, k: K, p: (K, V), i: int)
    requires
        0 <= i,
        p.0 != k,
    ensures
        find_key(hs.push(p), k, i) == find_key(hs, k, i),
    decreases hs.len() + 1 - i,
{
    if i <= hs.len() {
        lemma_find_key_push_other(hs, k, p, i + 1);
    }
}

/// Law: the latest binding of a key wins — after an insert, looking the key
/// up yields exactly the value just bound, whatever was there before.
pub proof fn lemma_lookup_insert_same<K, V>(hs: Seq<(K, V)>, k: K, v: V)
    ensures
        lookup(insert_pair(hs, k, v), k) == Some(v),
{
    lemma_find_key_props(hs, k, 0);
    match find_key(hs, k, 0) {
        Some(p) => {
            let u = hs.update(p, (k, v));
            assert(hs[p].0 == k);
            assert forall|q: int| 0 <= q < p implies (#[trigger] u[q]).0 != k by {
                assert(u[q].0 == hs[q].0);
            }
            lemma_find_key_first(u, k, p);
        },
        None => {
            let u = hs.push((k, v));
            assert forall|q: int| 0 <= q < hs.len() implies (#[trigger] u[q]).0 != k by {
                assert(u[q].0 == hs[q].0);
            }
            lemma_find_key_first(u, k, hs.len() as int);
        },
    }
}

/// Binding one key leaves every other key's binding as it was.
pub proof fn lemma_lookup_insert_other<K, V>(hs: Seq<(K, V)>, k2: K, v2: V, k1: K)
    requires
        k1 != k2,
    ensures
        lookup(insert_pair(hs, k2, v2), k1) == lookup(hs, k1),
{
    lemma_find_key_props(hs, k2, 0);
    match find_key(hs, k2, 0) {
        Some(p) => {
            let u = hs.update(p, (k2, v2));
            assert(hs[p].0 == k2);
            lemma_find_key_pointwise(u, hs, k1, 0);
            lemma_find_key_props(hs, k1, 0);
            match find_key(hs, k1, 0) {
                Some(q) => {
                    assert(hs[q].0 == k1);
                    assert(q != p);
                    assert(u[q].1 == hs[q].1);
                },
                None => {},
            }
        },
        None => {
            let u = hs.push((k2, v2));
            lemma_find_key_push_other(hs, k1, (k2, v2), 0);
            lemma_find_key_props(hs, k1, 0);
            match find_key(hs, k1, 0) {
                Some(q) => {
                    assert(u[q].1 == hs[q].1);
                },
                None => {},
            }
        },
    }
}

/// An insertion-ordered mapping from header name to header value.
pub struct Headers {
    entries: Vec<(String, String)>,
}

impl View for Headers {
    type V = Seq<(Seq<char>, Seq<char>)>;

    closed spec fn view(&self) -> Seq<(Seq<char>, Seq<char>)> {
        self.entries@.map(|i: int, e: (String, String)| (e.0@, e.1@))
    }
}

impl Headers {
    /// An empty table.
    pub fn new() -> (r: Headers)
        ensures
            r@ == Seq::<(Seq<char>, Seq<char>)>::empty(),
    {
        let r = Headers { entries: Vec::new() };
        assert(r@ =~= Seq::<(Seq<char>, Seq<char>)>::empty());
        r
    }

    /// How many headers the table holds.
    pub fn len(&self) -> (n: usize)
        ensures
            n == self@.len(),
    {
        self.entries.len()
    }

    /// The pair at position `i`, in insertion order.
    pub fn index(&self, i: usize) -> (r: (&String, &String))
        requires
            i < self@.len(),
        ensures
            r.0@ == self@[i as int].0,
            r.1@ == self@[i as int].1,
    {
        let e = &self.entries[i];
        (&e.0, &e.1)
    }

    /// Finds the position of `k`, scanning from the front.
    fn position(&self, k: &String) -> (r: Option<usize>)
        ensures
            match r {
                Some(p) => p < self@.len() && find_key(self@, k@, 0) == Some(p as int),
                None => find_key(self@, k@, 0) is None,
            },
    {
        let n: usize = self.entries.len();
        let mut i: usize = 0;
        while i < n
            invariant
                0 <= i <= n,
                n == self@.len(),
                n == self.entries@.len(),
                find_key(self@, k@, 0) == find_key(self@, k@, i as int),
            decreases n - i,
        {
            assert(self@[i as int] == (self.entries@[i as int].0@, self.entries@[i as int].1@));
            if self.entries[i].0 == *k {
                assert(find_key(self@, k@, i as int) == Some(i as int));
                return Some(i);
            }
            assert(find_key(self@, k@, i as int) == find_key(self@, k@, i as int + 1));
            i = i + 1;
        }
        None
    }

    /// The value bound to `k`, if any.
    pub fn get<'a>(&'a self, k: &String) -> (r: Option<&'a String>)
        ensures
            match r {
                Some(v) => lookup(self@, k@) == Some(v@),
                None => lookup(self@, k@) is None,
            },
    {
        match self.position(k) {
            Some(p) => Some(&self.entries[p].1),
            None => None,
        }
    }

    /// Binds `k` to `v`; an existing binding of `k` is replaced in place.
    pub fn insert(&mut self, k: String, v: String)
        ensures
            final(self)@ == insert_pair(old(self)@, k@, v@),
    {
        let ghost old_view = self@;
        match self.position(&k) {
            Some(p) => {
                self.entries.remove(p);
                self.entries.insert(p, (k, v));
                assert(self@ =~= old_view.update(p as int, (k@, v@)));
            },
            None => {
                self.entries.push((k, v));
                assert(self@ =~= old_view.push((k@, v@)));
            },
        }
    }
}

} // verus!
