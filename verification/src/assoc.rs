//! Small maps from strings to values, kept as lists of pairs in the order
//! the keys were first set.
use vstd::prelude::*;

verus! {

/// The value under `k`, the first if there are several.
pub open spec fn lookup<T>(v: Seq<(String, T)>, k: Seq<char>) -> Option<T>
    decreases v.len(),
{
    if v.len() == 0 {
        None
    } else if v[0].0@ == k {
        Some(v[0].1)
    } else {
        lookup(v.drop_first(), k)
    }
}

/// No key occurs twice.
pub open spec fn keys_distinct<T>(v: Seq<(String, T)>) -> bool {
    forall|i: int, j: int| 0 <= i < j < v.len() ==> v[i].0@ != v[j].0@
}

pub proof fn lemma_lookup_skip<T>(v: Seq<(String, T)>, k: Seq<char>, i: int)
    requires
        0 <= i <= v.len(),
        forall|j: int| 0 <= j < i ==> (#[trigger] v[j]).0@ != k,
    ensures
        lookup(v, k) == lookup(v.subrange(i, v.len() as int), k),
    decreases i,
{
    if i > 0 {
        let t = v.drop_first();
        assert forall|j: int| 0 <= j < i - 1 implies (#[trigger] t[j]).0@ != k by {
            assert(t[j] == v[j + 1]);
        }
        lemma_lookup_skip(t, k, i - 1);
        assert(t.subrange(i - 1, t.len() as int) =~= v.subrange(i, v.len() as int));
    } else {
        assert(v.subrange(0, v.len() as int) =~= v);
    }
}

pub proof fn lemma_lookup_at<T>(v: Seq<(String, T)>, i: int)
    requires
        keys_distinct(v),
        0 <= i < v.len(),
    ensures
        lookup(v, v[i].0@) == Some(v[i].1),
{
    lemma_lookup_skip(v, v[i].0@, i);
    assert(v.subrange(i, v.len() as int)[0] == v[i]);
}

pub proof fn lemma_lookup_none<T>(v: Seq<(String, T)>, k: Seq<char>)
    requires
        forall|j: int| 0 <= j < v.len() ==> (#[trigger] v[j]).0@ != k,
    ensures
        lookup(v, k) is None,
{
    lemma_lookup_skip(v, k, v.len() as int);
    assert(v.subrange(v.len() as int, v.len() as int) =~= Seq::<(String, T)>::empty());
}

pub proof fn lemma_lookup_push<T>(v: Seq<(String, T)>, x: (String, T), k: Seq<char>)
    requires
        forall|j: int| 0 <= j < v.len() ==> (#[trigger] v[j]).0@ != x.0@,
    ensures
        lookup(v.push(x), k) == (if k == x.0@ {
            Some(x.1)
        } else {
            lookup(v, k)
        }),
    decreases v.len(),
{
    if v.len() == 0 {
        assert(v.push(x).drop_first() =~= Seq::<(String, T)>::empty());
        assert(v.push(x)[0] == x);
        assert(lookup(v.push(x).drop_first(), k) is None);
        assert(lookup(v, k) is None);
    } else {
        let t = v.drop_first();
        assert(v[0].0@ != x.0@);
        assert(v.push(x).drop_first() =~= t.push(x));
        assert(v.push(x)[0] == v[0]);
        assert forall|j: int| 0 <= j < t.len() implies (#[trigger] t[j]).0@ != x.0@ by {
            assert(t[j] == v[j + 1]);
        }
        lemma_lookup_push(t, x, k);
    }
}

/// The entry a lookup finds is one of the list's entries under that key.
pub proof fn lemma_lookup_index<T>(v: Seq<(String, T)>, k: Seq<char>) -> (i: int)
    requires
        lookup(v, k) is Some,
    ensures
        0 <= i < v.len(),
        v[i].0@ == k,
        lookup(v, k) == Some(v[i].1),
    decreases v.len(),
{
    if v[0].0@ == k {
        0
    } else {
        let t = v.drop_first();
        let j = lemma_lookup_index(t, k);
        assert(t[j] == v[j + 1]);
        j + 1
    }
}

/// The index of the entry under `k`, if any.
pub fn position<T>(v: &Vec<(String, T)>, k: &str) -> (r: Option<usize>)
    ensures
        match r {
            Some(i) => i < v@.len() && v@[i as int].0@ == k@ && lookup(v@, k@) == Some(v@[i as int].1)
                && forall|j: int| 0 <= j < i ==> (#[trigger] v@[j]).0@ != k@,
            None => lookup(v@, k@) is None && forall|j: int| 0 <= j < v@.len() ==> (#[trigger] v@[j]).0@ != k@,
        },
{
    let key = k.to_owned();
    let mut i: usize = 0;
    while i < v.len()
        invariant
            i <= v@.len(),
            key@ == k@,
            forall|j: int| 0 <= j < i ==> (#[trigger] v@[j]).0@ != k@,
        decreases v.len() - i,
    {
        if v[i].0 == key {
            proof {
                lemma_lookup_skip(v@, k@, i as int);
                assert(v@.subrange(i as int, v@.len() as int)[0] == v@[i as int]);
            }
            return Some(i);
        }
        i = i + 1;
    }
    proof {
        lemma_lookup_none(v@, k@);
    }
    None
}

/// Sets `k` to `x`, giving back the value it had.
pub fn assign<T>(v: &mut Vec<(String, T)>, k: String, x: T) -> (r: Option<T>)
    requires
        keys_distinct(old(v)@),
    ensures
        keys_distinct(final(v)@),
        r == lookup(old(v)@, k@),
        lookup(final(v)@, k@) == Some(x),
        forall|q: Seq<char>| q != k@ ==> #[trigger] lookup(final(v)@, q) == lookup(old(v)@, q),
{
    match position(v, k.as_str()) {
        Some(i) => {
            let ghost v0 = v@;
            let ghost key = k@;
            let entry = (k, x);
            let mut old_entry = entry;
            std::mem::swap(&mut v[i], &mut old_entry);
            proof {
                assert(v@ == v0.update(i as int, v@[i as int]));
                assert forall|a: int, b: int| 0 <= a < b < v@.len() implies v@[a].0@ != v@[b].0@ by {
                    if a != i {
                        assert(v@[a] == v0[a]);
                    }
                    if b != i {
                        assert(v@[b] == v0[b]);
                    }
                }
                lemma_lookup_at(v@, i as int);
                assert forall|q: Seq<char>| q != key implies #[trigger] lookup(v@, q) == lookup(v0, q) by {
                    lookup_same_except(v0, v@, i as int, q);
                }
            }
            Some(old_entry.1)
        },
        None => {
            let ghost v0 = v@;
            let ghost key = k@;
            v.push((k, x));
            proof {
                assert forall|a: int, b: int| 0 <= a < b < v@.len() implies v@[a].0@ != v@[b].0@ by {
                    assert(v@[a] == v0[a]);
                    if b < v0.len() {
                        assert(v@[b] == v0[b]);
                    }
                }
                lemma_lookup_at(v@, v0.len() as int);
                assert forall|q: Seq<char>| q != key implies #[trigger] lookup(v@, q) == lookup(v0, q) by {
                    lookup_same_except(v0, v@, v0.len() as int, q);
                }
            }
            None
        },
    }
}

/// Two lists that agree but at index `i`, where `b` holds a key other than
/// `q`, look `q` up alike; `b` may be one longer, by its entry at `i`.
pub proof fn lookup_same_except<T>(a: Seq<(String, T)>, b: Seq<(String, T)>, i: int, q: Seq<char>)
    requires
        0 <= i < b.len(),
        b.len() == a.len() || (b.len() == a.len() + 1 && i == a.len()),
        forall|j: int| 0 <= j < b.len() && j != i ==> (#[trigger] b[j]) == a[j],
        b[i].0@ != q,
        i < a.len() ==> a[i].0@ == b[i].0@,
    ensures
        lookup(b, q) == lookup(a, q),
    decreases a.len(),
{
    if a.len() == 0 {
        assert(b.drop_first().len() == 0);
    } else if i == 0 {
        assert(b.drop_first() =~= a.drop_first()) by {
            assert forall|j: int| 0 <= j < b.drop_first().len() implies b.drop_first()[j] == a.drop_first()[j] by {
                assert(b[j + 1] == a[j + 1]);
            }
        }
        if b.len() == a.len() + 1 {
            assert(false);
        }
    } else {
        assert(b[0] == a[0]);
        let bt = b.drop_first();
        let at = a.drop_first();
        assert forall|j: int| 0 <= j < bt.len() && j != i - 1 implies (#[trigger] bt[j]) == at[j] by {
            assert(bt[j] == b[j + 1]);
            if j < at.len() {
                assert(at[j] == a[j + 1]);
            }
        }
        lookup_same_except(at, bt, i - 1, q);
    }
}

} // verus!
