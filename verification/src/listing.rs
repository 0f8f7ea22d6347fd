use vstd::prelude::*;

use crate::smap::{bytes_clone, names_match, pairs_match};
use crate::strutil::{spec_is_prefix, str_eq, str_has_prefix};

verus! {

/// The pairs of `all` whose keys start with `prefix`, in their order.
pub fn filter_pairs_by_prefix(all: &Vec<(String, Vec<u8>)>, prefix: &str) -> (r: Vec<
    (String, Vec<u8>),
>)
    ensures
        r.deep_view() == all.deep_view().filter(
            |pr: (Seq<char>, Seq<u8>)| spec_is_prefix(prefix@, pr.0),
        ),
{
    let ghost s = all.deep_view();
    let ghost pred = (|pr: (Seq<char>, Seq<u8>)| spec_is_prefix(prefix@, pr.0));
    let n = all.len();
    let mut out: Vec<(String, Vec<u8>)> = Vec::new();
    let mut i: usize = 0;
    proof {
        assert(s.take(0) =~= Seq::<(Seq<char>, Seq<u8>)>::empty());
        assert(out.deep_view() =~= s.take(0).filter(pred));
    }
    while i < n
        invariant
            i <= n,
            n == all.len(),
            s == all.deep_view(),
            pred == (|pr: (Seq<char>, Seq<u8>)| spec_is_prefix(prefix@, pr.0)),
            out.deep_view() == s.take(i as int).filter(pred),
        decreases n - i,
    {
        let ghost prev = out.deep_view();
        proof {
            reveal(Seq::filter);
            assert(s.take(i + 1 as int).drop_last() =~= s.take(i as int));
            assert(s.take(i + 1 as int).last() == s[i as int]);
        }
        if str_has_prefix(all[i].0.as_str(), prefix) {
            let pair = (all[i].0.clone(), bytes_clone(&all[i].1));
            proof {
                assert(pair.deep_view() == s[i as int]);
            }
            out.push(pair);
            proof {
                assert(out.deep_view() =~= prev.push(s[i as int]));
                assert(pred(s[i as int]));
            }
        } else {
            proof {
                assert(!pred(s[i as int]));
            }
        }
        i = i + 1;
    }
    proof {
        assert(s.take(n as int) =~= s);
    }
    out
}

/// The key column of a pair listing.
pub fn project_keys(all: &Vec<(String, Vec<u8>)>) -> (r: Vec<String>)
    ensures
        r.deep_view() == all.deep_view().map_values(|p: (Seq<char>, Seq<u8>)| p.0),
{
    let ghost s = all.deep_view();
    let n = all.len();
    let mut out: Vec<String> = Vec::new();
    let mut i: usize = 0;
    while i < n
        invariant
            i <= n,
            n == all.len(),
            s == all.deep_view(),
            out.len() == i,
            forall|j: int| 0 <= j < i ==> out.deep_view()[j] == s[j].0,
        decreases n - i,
    {
        let ghost prev = out.deep_view();
        out.push(all[i].0.clone());
        proof {
            assert forall|j: int| 0 <= j < i + 1 implies out.deep_view()[j] == s[j].0 by {
                if j < i {
                    assert(out@[j] == out@.drop_last()[j]);
                    assert(out.deep_view()[j] == prev[j]);
                } else {
                    assert(out@[j].deep_view() == all@[i as int].0@);
                }
            }
        }
        i = i + 1;
    }
    proof {
        assert(out.deep_view() =~= s.map_values(|p: (Seq<char>, Seq<u8>)| p.0));
    }
    out
}

/// The value column of a pair listing.
pub fn project_values(all: &Vec<(String, Vec<u8>)>) -> (r: Vec<Vec<u8>>)
    ensures
        r.deep_view() == all.deep_view().map_values(|p: (Seq<char>, Seq<u8>)| p.1),
{
    let ghost s = all.deep_view();
    let n = all.len();
    let mut out: Vec<Vec<u8>> = Vec::new();
    let mut i: usize = 0;
    while i < n
        invariant
            i <= n,
            n == all.len(),
            s == all.deep_view(),
            out.len() == i,
            forall|j: int| 0 <= j < i ==> out.deep_view()[j] == s[j].1,
        decreases n - i,
    {
        let ghost prev = out.deep_view();
        out.push(bytes_clone(&all[i].1));
        proof {
            assert forall|j: int| 0 <= j < i + 1 implies out.deep_view()[j] == s[j].1 by {
                if j < i {
                    assert(out@[j] == out@.drop_last()[j]);
                    assert(out.deep_view()[j] == prev[j]);
                }
            }
        }
        i = i + 1;
    }
    proof {
        assert(out.deep_view() =~= s.map_values(|p: (Seq<char>, Seq<u8>)| p.1));
    }
    out
}

/// Whether the listing holds a name with these characters.
pub fn names_contain(names: &Vec<String>, t: &str) -> (r: bool)
    ensures
        r == names.deep_view().contains(t@),
{
    let n = names.len();
    let mut i: usize = 0;
    while i < n
        invariant
            i <= n,
            n == names.len(),
            forall|j: int| 0 <= j < i ==> names.deep_view()[j] != t@,
        decreases n - i,
    {
        if str_eq(names[i].as_str(), t) {
            proof {
                assert(names.deep_view()[i as int] == t@);
            }
            return true;
        }
        i = i + 1;
    }
    proof {
        if names.deep_view().contains(t@) {
            let j = choose|j: int|
                0 <= j < names.deep_view().len() && names.deep_view()[j] == t@;
            assert(false);
        }
    }
    false
}

/// The names of `names` other than the two excluded ones, in their order.
pub fn filter_names_excluding(names: &Vec<String>, ex1: &str, ex2: &str) -> (r: Vec<String>)
    ensures
        r.deep_view() == names.deep_view().filter(
            |nm: Seq<char>| nm != ex1@ && nm != ex2@,
        ),
{
    let ghost s = names.deep_view();
    let ghost pred = (|nm: Seq<char>| nm != ex1@ && nm != ex2@);
    let n = names.len();
    let mut out: Vec<String> = Vec::new();
    let mut i: usize = 0;
    proof {
        assert(s.take(0) =~= Seq::<Seq<char>>::empty());
        assert(out.deep_view() =~= s.take(0).filter(pred));
    }
    while i < n
        invariant
            i <= n,
            n == names.len(),
            s == names.deep_view(),
            pred == (|nm: Seq<char>| nm != ex1@ && nm != ex2@),
            out.deep_view() == s.take(i as int).filter(pred),
        decreases n - i,
    {
        let ghost prev = out.deep_view();
        proof {
            reveal(Seq::filter);
            assert(s.take(i + 1 as int).drop_last() =~= s.take(i as int));
            assert(s.take(i + 1 as int).last() == s[i as int]);
        }
        if !str_eq(names[i].as_str(), ex1) && !str_eq(names[i].as_str(), ex2) {
            out.push(names[i].clone());
            proof {
                assert(out.deep_view() =~= prev.push(s[i as int]));
                assert(pred(s[i as int]));
            }
        } else {
            proof {
                assert(!pred(s[i as int]));
            }
        }
        i = i + 1;
    }
    proof {
        assert(s.take(n as int) =~= s);
    }
    out
}

/// What a filtered name listing holds: elements of the unfiltered sequence
/// that satisfy the predicate, all of them, with distinctness preserved.
pub proof fn lemma_filter_names(s: Seq<Seq<char>>, pred: spec_fn(Seq<char>) -> bool)
    ensures
        forall|a: int|
            0 <= a < s.filter(pred).len() ==> s.contains(#[trigger] s.filter(pred)[a]) && pred(
                s.filter(pred)[a],
            ),
        forall|l: int|
            0 <= l < s.len() && pred(#[trigger] s[l]) ==> s.filter(pred).contains(s[l]),
        (forall|i: int, j: int| 0 <= i < j < s.len() ==> s[i] != s[j]) ==> (forall|i: int, j: int|
            0 <= i < j < s.filter(pred).len() ==> s.filter(pred)[i] != s.filter(pred)[j]),
    decreases s.len(),
{
    reveal(Seq::filter);
    if s.len() > 0 {
        let dl = s.drop_last();
        let f = s.filter(pred);
        let fdl = dl.filter(pred);
        lemma_filter_names(dl, pred);
        assert forall|a: int| 0 <= a < f.len() implies s.contains(#[trigger] f[a]) && pred(
            f[a],
        ) by {
            if pred(s.last()) && a == f.len() - 1 {
                assert(f[a] == s[s.len() - 1]);
            } else {
                assert(f[a] == fdl[a]);
                assert(dl.contains(fdl[a]));
                let j = choose|j: int| 0 <= j < dl.len() && dl[j] == fdl[a];
                assert(s[j] == f[a]);
            }
        }
        assert forall|l: int| 0 <= l < s.len() && pred(#[trigger] s[l]) implies f.contains(
            s[l],
        ) by {
            if l == s.len() - 1 {
                assert(f[f.len() - 1] == s[l]);
            } else {
                assert(dl[l] == s[l]);
                assert(fdl.contains(dl[l]));
                let a = choose|a: int| 0 <= a < fdl.len() && fdl[a] == dl[l];
                assert(f[a] == s[l]);
            }
        }
        if forall|i: int, j: int| 0 <= i < j < s.len() ==> s[i] != s[j] {
            assert(forall|i: int, j: int| 0 <= i < j < dl.len() ==> dl[i] != dl[j]);
            assert forall|i: int, j: int| 0 <= i < j < f.len() implies f[i] != f[j] by {
                if pred(s.last()) && j == f.len() - 1 {
                    assert(f[i] == fdl[i]);
                    assert(dl.contains(fdl[i]));
                    let l = choose|l: int| 0 <= l < dl.len() && dl[l] == fdl[i];
                    assert(s[l] == f[i]);
                    assert(s[l] != s[s.len() - 1]);
                } else {
                    assert(f[i] == fdl[i] && f[j] == fdl[j]);
                }
            }
        }
    } else {
        assert(s.filter(pred) == s);
    }
}

/// The keys of a full enumeration list the table's domain.
pub proof fn lemma_pairs_match_keys(s: Seq<(Seq<char>, Seq<u8>)>, tm: Map<Seq<char>, Seq<u8>>)
    requires
        pairs_match(s, tm),
    ensures
        names_match(s.map_values(|p: (Seq<char>, Seq<u8>)| p.0), tm.dom()),
{
    let ks = s.map_values(|p: (Seq<char>, Seq<u8>)| p.0);
    assert forall|k: Seq<char>| tm.dom().contains(k) implies exists|i: int|
        0 <= i < ks.len() && #[trigger] ks[i] == k by {
        let l = choose|l: int| 0 <= l < s.len() && (#[trigger] s[l]).0 == k;
        assert(ks[l] == k);
    }
}

/// A name listing decides membership of the set it lists.
pub proof fn lemma_names_match_contains(names: Seq<Seq<char>>, d: Set<Seq<char>>, t: Seq<char>)
    requires
        names_match(names, d),
    ensures
        names.contains(t) == d.contains(t),
{
    if names.contains(t) {
        let j = choose|j: int| 0 <= j < names.len() && names[j] == t;
        assert(d.contains(names[j]));
    } else if d.contains(t) {
        let j = choose|j: int| 0 <= j < names.len() && #[trigger] names[j] == t;
        assert(names.contains(t));
    }
}

} // verus!
