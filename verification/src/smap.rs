use vstd::prelude::*;

use crate::strutil::str_eq;

verus! {

/// The map described by a sequence of key/value pairs; a later pair for the
/// same key overrides an earlier one.
pub open spec fn assoc_map<T>(s: Seq<(Seq<char>, T)>) -> Map<Seq<char>, T>
    decreases s.len(),
{
    if s.len() == 0 {
        Map::empty()
    } else {
        assoc_map(s.drop_last()).insert(s.last().0, s.last().1)
    }
}

/// No two pairs of the sequence carry the same key.
pub open spec fn distinct_keys<T>(s: Seq<(Seq<char>, T)>) -> bool {
    forall|i: int, j: int| 0 <= i < j < s.len() ==> s[i].0 != s[j].0
}

/// The key/value views of a sequence of owned pairs.
pub open spec fn pair_views<V: DeepView>(s: Seq<(String, V)>) -> Seq<(Seq<char>, V::V)> {
    Seq::new(s.len(), |i: int| (s[i].0@, s[i].1.deep_view()))
}

pub proof fn lemma_assoc_contains<T>(s: Seq<(Seq<char>, T)>, k: Seq<char>)
    ensures
        assoc_map(s).contains_key(k) <==> exists|i: int| 0 <= i < s.len() && s[i].0 == k,
    decreases s.len(),
{
    if s.len() > 0 {
        lemma_assoc_contains(s.drop_last(), k);
        if s.last().0 == k {
            assert(s[s.len() - 1].0 == k);
        } else if assoc_map(s).contains_key(k) {
            let i = choose|i: int| 0 <= i < s.drop_last().len() && s.drop_last()[i].0 == k;
            assert(s[i].0 == k);
        } else if exists|i: int| 0 <= i < s.len() && s[i].0 == k {
            let i = choose|i: int| 0 <= i < s.len() && s[i].0 == k;
            assert(s.drop_last()[i].0 == k);
        }
    }
}

pub proof fn lemma_assoc_at<T>(s: Seq<(Seq<char>, T)>, i: int)
    requires
        distinct_keys(s),
        0 <= i < s.len(),
    ensures
        assoc_map(s).contains_key(s[i].0),
        assoc_map(s)[s[i].0] == s[i].1,
    decreases s.len(),
{
    if i == s.len() - 1 {
        lemma_assoc_contains(s, s[i].0);
    } else {
        assert(s[i].0 != s.last().0);
        assert(s.drop_last()[i] == s[i]);
        lemma_assoc_at(s.drop_last(), i);
    }
}

pub proof fn lemma_assoc_absent<T>(s: Seq<(Seq<char>, T)>, k: Seq<char>)
    requires
        forall|i: int| 0 <= i < s.len() ==> s[i].0 != k,
    ensures
        !assoc_map(s).contains_key(k),
{
    lemma_assoc_contains(s, k);
}

pub proof fn lemma_assoc_remove<T>(s: Seq<(Seq<char>, T)>, i: int)
    requires
        distinct_keys(s),
        0 <= i < s.len(),
    ensures
        distinct_keys(s.remove(i)),
        assoc_map(s.remove(i)) == assoc_map(s).remove(s[i].0),
    decreases s.len(),
{
    let k = s[i].0;
    if i == s.len() - 1 {
        assert(s.remove(i) =~= s.drop_last());
        lemma_assoc_absent(s.drop_last(), k);
        assert(assoc_map(s.drop_last()) =~= assoc_map(s).remove(k));
    } else {
        lemma_assoc_remove(s.drop_last(), i);
        assert(s.remove(i).drop_last() =~= s.drop_last().remove(i));
        assert(s.remove(i).last() == s.last());
        assert(assoc_map(s.remove(i)) == assoc_map(s.drop_last().remove(i)).insert(
            s.last().0,
            s.last().1,
        ));
        assert(s[i].0 != s.last().0);
        assert(assoc_map(s.drop_last()).remove(k).insert(s.last().0, s.last().1)
            =~= assoc_map(s.drop_last()).insert(s.last().0, s.last().1).remove(k));
    }
}

pub proof fn lemma_assoc_dom_len<T>(s: Seq<(Seq<char>, T)>)
    requires
        distinct_keys(s),
    ensures
        assoc_map(s).dom().len() == s.len(),
        assoc_map(s).dom().finite(),
    decreases s.len(),
{
    if s.len() > 0 {
        lemma_assoc_dom_len(s.drop_last());
        lemma_assoc_absent(s.drop_last(), s.last().0);
        assert(assoc_map(s).dom() =~= assoc_map(s.drop_last()).dom().insert(s.last().0));
        vstd::set::axiom_set_insert_len(assoc_map(s.drop_last()).dom(), s.last().0);
    } else {
        assert(assoc_map(s).dom() =~= Set::<Seq<char>>::empty());
    }
}

/// A map from string keys to values, stored as a vector of pairs with
/// pairwise-distinct keys. Its view is the mathematical `Map` the pairs
/// describe.
pub struct StrMap<V: DeepView> {
    pairs: Vec<(String, V)>,
}

impl<V: DeepView> View for StrMap<V> {
    type V = Map<Seq<char>, V::V>;

    closed spec fn view(&self) -> Map<Seq<char>, V::V> {
        assoc_map(pair_views(self.pairs@))
    }
}

impl<V: DeepView> DeepView for StrMap<V> {
    type V = Map<Seq<char>, V::V>;

    open spec fn deep_view(&self) -> Map<Seq<char>, V::V> {
        self.view()
    }
}

impl<V: DeepView> StrMap<V> {
    /// The sequence of key/value views behind this map.
    pub closed spec fn entries(&self) -> Seq<(Seq<char>, V::V)> {
        pair_views(self.pairs@)
    }

    #[verifier::type_invariant]
    closed spec fn well_formed(self) -> bool {
        distinct_keys(pair_views(self.pairs@))
    }

    pub fn new() -> (r: Self)
        ensures
            r@ == Map::<Seq<char>, V::V>::empty(),
            r.entries() =~= Seq::<(Seq<char>, V::V)>::empty(),
    {
        let r = StrMap { pairs: Vec::new() };
        proof {
            assert(pair_views(r.pairs@) =~= Seq::<(Seq<char>, V::V)>::empty());
        }
        r
    }

    fn find_idx(&self, k: &str) -> (r: Option<usize>)
        ensures
            match r {
                Some(i) => i < self.entries().len() && self.entries()[i as int].0 == k@,
                None => forall|i: int| 0 <= i < self.entries().len() ==> self.entries()[i].0 != k@,
            },
    {
        let n = self.pairs.len();
        let mut i: usize = 0;
        while i < n
            invariant
                i <= n,
                n == self.pairs.len(),
                forall|j: int| 0 <= j < i ==> self.entries()[j].0 != k@,
            decreases n - i,
        {
            if str_eq(self.pairs[i].0.as_str(), k) {
                proof {
                    assert(self.entries()[i as int].0 == k@);
                }
                return Some(i);
            }
            i = i + 1;
        }
        None
    }

    /// Whether the map holds the key.
    pub fn contains_key(&self, k: &str) -> (r: bool)
        ensures
            r == self@.contains_key(k@),
    {
        proof {
            use_type_invariant(self);
            lemma_assoc_contains(self.entries(), k@);
        }
        match self.find_idx(k) {
            Some(_) => true,
            None => false,
        }
    }

    /// The value stored for the key, if any.
    pub fn get(&self, k: &str) -> (r: Option<&V>)
        ensures
            match r {
                Some(v) => self@.contains_key(k@) && v.deep_view() == self@[k@],
                None => !self@.contains_key(k@),
            },
    {
        proof {
            use_type_invariant(self);
        }
        match self.find_idx(k) {
            Some(i) => {
                proof {
                    lemma_assoc_at(self.entries(), i as int);
                }
                Some(&self.pairs[i].1)
            },
            None => {
                proof {
                    lemma_assoc_absent(self.entries(), k@);
                }
                None
            },
        }
    }

    /// Store `v` under `k`, returning the value the key held before.
    pub fn insert(&mut self, k: &str, v: V) -> (r: Option<V>)
        ensures
            final(self)@ == old(self)@.insert(k@, v.deep_view()),
            match r {
                Some(o) => old(self)@.contains_key(k@) && o.deep_view() == old(self)@[k@],
                None => !old(self)@.contains_key(k@),
            },
    {
        proof {
            use_type_invariant(&*self);
        }
        let found = self.find_idx(k);
        let ghost pre = self.entries();
        let mut pairs: Vec<(String, V)> = Vec::new();
        core::mem::swap(&mut pairs, &mut self.pairs);
        let res: Option<V>;
        match found {
            Some(i) => {
                proof {
                    lemma_assoc_at(pre, i as int);
                    lemma_assoc_remove(pre, i as int);
                }
                let (_, oldv) = pairs.remove(i);
                pairs.push((k.to_owned(), v));
                proof {
                    let shorter = pre.remove(i as int);
                    let post = pair_views(pairs@);
                    assert(post.drop_last() =~= shorter);
                    assert(post.last() == (k@, v.deep_view()));
                    assert forall|j: int| 0 <= j < shorter.len() implies #[trigger] shorter[j].0
                        != k@ by {
                        if j < i {
                            assert(shorter[j] == pre[j]);
                        } else {
                            assert(shorter[j] == pre[j + 1]);
                        }
                    }
                    assert forall|a: int, b: int| 0 <= a < b < post.len() implies post[a].0
                        != post[b].0 by {
                        assert(post[a] == shorter[a]);
                        if b < post.len() - 1 {
                            assert(post[b] == shorter[b]);
                        }
                    }
                    assert(distinct_keys(post));
                    assert(assoc_map(post) =~= assoc_map(pre).insert(k@, v.deep_view()));
                }
                res = Some(oldv);
            },
            None => {
                proof {
                    lemma_assoc_absent(pre, k@);
                }
                pairs.push((k.to_owned(), v));
                proof {
                    let post = pair_views(pairs@);
                    assert(post.drop_last() =~= pre);
                    assert(post.last() == (k@, v.deep_view()));
                    assert forall|a: int, b: int| 0 <= a < b < post.len() implies post[a].0
                        != post[b].0 by {
                        assert(post[a] == pre[a]);
                        if b < post.len() - 1 {
                            assert(post[b] == pre[b]);
                        }
                    }
                    assert(distinct_keys(post));
                }
                res = None;
            },
        }
        self.pairs = pairs;
        res
    }

    /// Remove the key, returning the value it held.
    pub fn remove(&mut self, k: &str) -> (r: Option<V>)
        ensures
            final(self)@ == old(self)@.remove(k@),
            match r {
                Some(o) => old(self)@.contains_key(k@) && o.deep_view() == old(self)@[k@],
                None => !old(self)@.contains_key(k@),
            },
    {
        proof {
            use_type_invariant(&*self);
        }
        let found = self.find_idx(k);
        let ghost pre = self.entries();
        match found {
            Some(i) => {
                proof {
                    lemma_assoc_at(pre, i as int);
                    lemma_assoc_remove(pre, i as int);
                }
                let mut pairs: Vec<(String, V)> = Vec::new();
                core::mem::swap(&mut pairs, &mut self.pairs);
                let (_, oldv) = pairs.remove(i);
                proof {
                    assert(pair_views(pairs@) =~= pre.remove(i as int));
                }
                self.pairs = pairs;
                Some(oldv)
            },
            None => {
                proof {
                    lemma_assoc_absent(pre, k@);
                    assert(self@.remove(k@) =~= self@);
                }
                None
            },
        }
    }

    /// How many keys the map holds.
    pub fn len(&self) -> (r: usize)
        ensures
            r == self@.dom().len(),
    {
        proof {
            use_type_invariant(self);
            lemma_assoc_dom_len(self.entries());
        }
        self.pairs.len()
    }

    /// Whether the map holds no key at all.
    pub fn is_empty(&self) -> (r: bool)
        ensures
            r == (self@ == Map::<Seq<char>, V::V>::empty()),
    {
        proof {
            use_type_invariant(self);
            lemma_assoc_dom_len(self.entries());
            if self.entries().len() == 0 {
                assert(self@ =~= Map::<Seq<char>, V::V>::empty());
            } else {
                lemma_assoc_at(self.entries(), 0);
            }
        }
        self.pairs.len() == 0
    }

    /// All keys of the map, each exactly once.
    pub fn keys(&self) -> (r: Vec<String>)
        ensures
            names_match(r.deep_view(), self@.dom()),
    {
        proof {
            use_type_invariant(self);
        }
        let n = self.pairs.len();
        let mut names: Vec<String> = Vec::new();
        let mut i: usize = 0;
        while i < n
            invariant
                i <= n,
                n == self.pairs.len(),
                names.len() == i,
                forall|j: int| 0 <= j < i ==> names.deep_view()[j] == self.entries()[j].0,
            decreases n - i,
        {
            let ghost prev = names.deep_view();
            names.push(self.pairs[i].0.clone());
            proof {
                assert forall|j: int| 0 <= j < i + 1 implies names.deep_view()[j]
                    == self.entries()[j].0 by {
                    if j < i {
                        assert(names@[j] == names@.drop_last()[j]);
                        assert(names.deep_view()[j] == prev[j]);
                    } else {
                        assert(names@[j].deep_view() == self.pairs@[i as int].0@);
                    }
                }
            }
            i = i + 1;
        }
        proof {
            assert forall|j: int| 0 <= j < names.deep_view().len() implies self@.dom().contains(
                names.deep_view()[j],
            ) by {
                lemma_assoc_at(self.entries(), j);
            }
            assert forall|k: Seq<char>| self@.dom().contains(k) implies exists|j: int|
                0 <= j < names.deep_view().len() && names.deep_view()[j] == k by {
                lemma_assoc_contains(self.entries(), k);
                let j = choose|j: int| 0 <= j < self.entries().len() && self.entries()[j].0 == k;
                assert(names.deep_view()[j] == k);
            }
        }
        names
    }

    /// How many pairs the map stores, with the facts that tie the pair
    /// listing to the map.
    pub fn num_pairs(&self) -> (n: usize)
        ensures
            n == self.entries().len(),
            distinct_keys(self.entries()),
            assoc_map(self.entries()) == self@,
    {
        proof {
            use_type_invariant(self);
        }
        self.pairs.len()
    }

    /// The pair at a position of the listing.
    pub fn pair_at(&self, i: usize) -> (r: (&String, &V))
        requires
            i < self.entries().len(),
        ensures
            r.0@ == self.entries()[i as int].0,
            r.1.deep_view() == self.entries()[i as int].1,
    {
        (&self.pairs[i].0, &self.pairs[i].1)
    }

    /// Give up the map and hand out its pairs.
    pub fn into_pairs(self) -> (r: Vec<(String, V)>)
        ensures
            distinct_keys(pair_views(r@)),
            assoc_map(pair_views(r@)) == self@,
    {
        proof {
            use_type_invariant(&self);
        }
        let StrMap { pairs } = self;
        pairs
    }
}

pub proof fn lemma_filter_elements<T>(s: Seq<(Seq<char>, T)>, pred: spec_fn((Seq<char>, T)) -> bool)
    ensures
        forall|a: int|
            0 <= a < s.filter(pred).len() ==> s.contains(#[trigger] s.filter(pred)[a]) && pred(
                s.filter(pred)[a],
            ),
        forall|l: int|
            0 <= l < s.len() && pred(#[trigger] s[l]) ==> s.filter(pred).contains(s[l]),
        distinct_keys(s) ==> distinct_keys(s.filter(pred)),
    decreases s.len(),
{
    reveal(Seq::filter);
    if s.len() > 0 {
        let dl = s.drop_last();
        let f = s.filter(pred);
        let fdl = dl.filter(pred);
        lemma_filter_elements(dl, pred);
        assert forall|a: int| 0 <= a < f.len() implies s.contains(#[trigger] f[a]) && pred(
            f[a],
        ) by {
            if pred(s.last()) && a == f.len() - 1 {
                assert(f[a] == s[s.len() - 1]);
            } else {
                assert(f[a] == fdl[a]);
                assert(dl.contains(fdl[a]));
                let j = choose|j: int| 0 <= j < dl.len() && dl[j] == fdl[a];
                assert(s[j] == f[a]);
            }
        }
        assert forall|l: int| 0 <= l < s.len() && pred(#[trigger] s[l]) implies f.contains(
            s[l],
        ) by {
            if l == s.len() - 1 {
                assert(f[f.len() - 1] == s[l]);
            } else {
                assert(dl[l] == s[l]);
                assert(fdl.contains(dl[l]));
                let a = choose|a: int| 0 <= a < fdl.len() && fdl[a] == dl[l];
                assert(f[a] == s[l]);
            }
        }
        if distinct_keys(s) {
            assert(distinct_keys(dl));
            assert forall|a: int, b: int| 0 <= a < b < f.len() implies f[a].0 != f[b].0 by {
                if pred(s.last()) && b == f.len() - 1 {
                    assert(f[a] == fdl[a]);
                    assert(dl.contains(fdl[a]));
                    let j = choose|j: int| 0 <= j < dl.len() && dl[j] == fdl[a];
                    assert(s[j] == f[a]);
                    assert(s[j].0 != s[s.len() - 1].0);
                } else {
                    assert(f[a] == fdl[a] && f[b] == fdl[b]);
                }
            }
        }
    } else {
        assert(s.filter(pred) == s);
    }
}

pub proof fn lemma_take_to_set_step<A>(s: Seq<A>, i: int)
    requires
        0 <= i < s.len(),
    ensures
        s.take(i + 1).to_set() == s.take(i).to_set().insert(s[i]),
{
    assert forall|x: A| s.take(i + 1).to_set().contains(x) implies s.take(i).to_set().contains(x)
        || x == s[i] by {
        let j = choose|j: int| 0 <= j < s.take(i + 1).len() && (#[trigger] s.take(i + 1)[j]) == x;
        if j < i {
            assert(s.take(i)[j] == x);
        }
    }
    assert forall|x: A| s.take(i).to_set().contains(x) implies s.take(i + 1).to_set().contains(
        x,
    ) by {
        let j = choose|j: int| 0 <= j < s.take(i).len() && (#[trigger] s.take(i)[j]) == x;
        assert(s.take(i + 1)[j] == x);
    }
    assert(s.take(i + 1)[i] == s[i]);
    assert(s.take(i + 1).to_set().contains(s[i]));
    assert(s.take(i + 1).to_set() =~= s.take(i).to_set().insert(s[i]));
}

/// Copy a byte vector; the copy holds the same bytes.
pub fn bytes_clone(v: &Vec<u8>) -> (r: Vec<u8>)
    ensures
        r@ == v@,
{
    let r = v.clone();
    proof {
        assert(r@ =~= v@);
    }
    r
}

/// A listing of key/value pairs, each key exactly once, that together
/// describe the map `m`.
pub open spec fn pairs_match(s: Seq<(Seq<char>, Seq<u8>)>, m: Map<Seq<char>, Seq<u8>>) -> bool {
    &&& forall|i: int|
        0 <= i < s.len() ==> m.contains_key(#[trigger] s[i].0) && m[s[i].0] == s[i].1
    &&& forall|k: Seq<char>|
        m.contains_key(k) ==> exists|i: int| 0 <= i < s.len() && (#[trigger] s[i]).0 == k
    &&& distinct_keys(s)
}

impl StrMap<Vec<u8>> {
    /// A deep copy of the table.
    pub fn duplicate(&self) -> (r: Self)
        ensures
            r@ == self@,
    {
        proof {
            use_type_invariant(self);
        }
        let n = self.pairs.len();
        let mut r = StrMap::<Vec<u8>>::new();
        let mut i: usize = 0;
        while i < n
            invariant
                i <= n,
                n == self.pairs.len(),
                distinct_keys(self.entries()),
                r@ == assoc_map(self.entries().take(i as int)),
            decreases n - i,
        {
            let b = bytes_clone(&self.pairs[i].1);
            proof {
                assert(b.deep_view() =~= self.pairs@[i as int].1.deep_view());
            }
            r.insert(self.pairs[i].0.as_str(), b);
            proof {
                assert(self.entries().take(i + 1 as int).drop_last() =~= self.entries().take(
                    i as int,
                ));
                assert(self.entries().take(i + 1 as int).last() == self.entries()[i as int]);
            }
            i = i + 1;
        }
        proof {
            assert(self.entries().take(n as int) =~= self.entries());
        }
        r
    }

    /// All pairs of the table, as owned keys and values.
    pub fn to_pairs(&self) -> (r: Vec<(String, Vec<u8>)>)
        ensures
            pairs_match(r.deep_view(), self@),
    {
        proof {
            use_type_invariant(self);
        }
        let n = self.pairs.len();
        let mut out: Vec<(String, Vec<u8>)> = Vec::new();
        let mut i: usize = 0;
        while i < n
            invariant
                i <= n,
                n == self.pairs.len(),
                out.len() == i,
                forall|j: int| 0 <= j < i ==> out.deep_view()[j] == self.entries()[j],
            decreases n - i,
        {
            let ghost prev = out.deep_view();
            let b = bytes_clone(&self.pairs[i].1);
            out.push((self.pairs[i].0.clone(), b));
            proof {
                assert forall|j: int| 0 <= j < i + 1 implies out.deep_view()[j]
                    == self.entries()[j] by {
                    if j < i {
                        assert(out@[j] == out@.drop_last()[j]);
                        assert(out.deep_view()[j] == prev[j]);
                    } else {
                        assert(out@[j].deep_view() == (
                            self.pairs@[i as int].0@,
                            b.deep_view(),
                        ));
                        assert(b.deep_view() =~= self.pairs@[i as int].1.deep_view());
                    }
                }
            }
            i = i + 1;
        }
        proof {
            let s = out.deep_view();
            assert(s =~= self.entries());
            assert forall|j: int| 0 <= j < s.len() implies self@.contains_key(#[trigger] s[j].0)
                && self@[s[j].0] == s[j].1 by {
                lemma_assoc_at(self.entries(), j);
            }
            assert forall|k: Seq<char>| self@.contains_key(k) implies exists|i: int|
                0 <= i < s.len() && (#[trigger] s[i]).0 == k by {
                lemma_assoc_contains(self.entries(), k);
                let j = choose|j: int| 0 <= j < self.entries().len() && self.entries()[j].0 == k;
                assert(s[j].0 == k);
            }
        }
        out
    }
}

impl StrMap<StrMap<Vec<u8>>> {
    /// A deep copy of the table collection.
    pub fn duplicate(&self) -> (r: Self)
        ensures
            r@ == self@,
    {
        proof {
            use_type_invariant(self);
        }
        let n = self.pairs.len();
        let mut r = StrMap::<StrMap<Vec<u8>>>::new();
        let mut i: usize = 0;
        while i < n
            invariant
                i <= n,
                n == self.pairs.len(),
                distinct_keys(self.entries()),
                r@ == assoc_map(self.entries().take(i as int)),
            decreases n - i,
        {
            let t = self.pairs[i].1.duplicate();
            r.insert(self.pairs[i].0.as_str(), t);
            proof {
                assert(self.entries().take(i + 1 as int).drop_last() =~= self.entries().take(
                    i as int,
                ));
                assert(self.entries().take(i + 1 as int).last() == self.entries()[i as int]);
            }
            i = i + 1;
        }
        proof {
            assert(self.entries().take(n as int) =~= self.entries());
        }
        r
    }
}

/// A listing of names, each exactly once, whose set is `d`.
pub open spec fn names_match(names: Seq<Seq<char>>, d: Set<Seq<char>>) -> bool {
    &&& forall|i: int| 0 <= i < names.len() ==> d.contains(#[trigger] names[i])
    &&& forall|k: Seq<char>|
        d.contains(k) ==> exists|i: int| 0 <= i < names.len() && #[trigger] names[i] == k
    &&& forall|i: int, j: int| 0 <= i < j < names.len() ==> names[i] != names[j]
}

} // verus!
