use vstd::prelude::*;

verus! {

/// The position just after the leading run of elements whose key is at
/// most `k` (in a sequence sorted by `key`: after every element `<= k`).
pub open spec fn upper_bound<A>(s: Seq<A>, k: int, key: spec_fn(A) -> int) -> int
    decreases s.len(),
{
    if s.len() == 0 {
        0
    } else if key(s[0]) > k {
        0
    } else {
        1 + upper_bound(s.drop_first(), k, key)
    }
}

/// `x` inserted after every element whose key does not exceed its own.
pub open spec fn insert_sorted<A>(s: Seq<A>, x: A, key: spec_fn(A) -> int) -> Seq<A> {
    s.insert(upper_bound(s, key(x), key), x)
}

/// The stable sort of `s` by `key`: elements in ascending key order, and
/// elements with equal keys in their order in the input.
pub open spec fn stable_sort<A>(s: Seq<A>, key: spec_fn(A) -> int) -> Seq<A>
    decreases s.len(),
{
    if s.len() == 0 {
        s
    } else {
        insert_sorted(stable_sort(s.drop_last(), key), s.last(), key)
    }
}

/// Keys ascend along `s`.
pub open spec fn sorted_by<A>(s: Seq<A>, key: spec_fn(A) -> int) -> bool {
    forall|i: int, j: int| 0 <= i < j < s.len() ==> key(s[i]) <= key(s[j])
}

/// The elements of `s` whose key is `k`, in their order in `s`.
pub open spec fn with_key<A>(s: Seq<A>, k: int, key: spec_fn(A) -> int) -> Seq<A>
    decreases s.len(),
{
    if s.len() == 0 {
        s
    } else if key(s.last()) == k {
        with_key(s.drop_last(), k, key).push(s.last())
    } else {
        with_key(s.drop_last(), k, key)
    }
}

/// `upper_bound` is a valid insertion index.
pub proof fn lemma_upper_bound_range<A>(s: Seq<A>, k: int, key: spec_fn(A) -> int)
    ensures
        0 <= upper_bound(s, k, key) <= s.len(),
        forall|i: int| 0 <= i < upper_bound(s, k, key) ==> key(#[trigger] s[i]) <= k,
    decreases s.len(),
{
    if s.len() > 0 && key(s[0]) <= k {
        lemma_upper_bound_range(s.drop_first(), k, key);
        assert forall|i: int| 0 <= i < upper_bound(s, k, key) implies key(#[trigger] s[i]) <= k by {
            if i > 0 {
                assert(s[i] == s.drop_first()[i - 1]);
            }
        }
    }
}

/// In a sorted sequence, everything from `upper_bound` on has a larger key.
pub proof fn lemma_upper_bound_sorted<A>(s: Seq<A>, k: int, key: spec_fn(A) -> int)
    requires
        sorted_by(s, key),
    ensures
        forall|i: int| upper_bound(s, k, key) <= i < s.len() ==> key(#[trigger] s[i]) > k,
    decreases s.len(),
{
    lemma_upper_bound_range(s, k, key);
    if s.len() > 0 {
        if key(s[0]) <= k {
            let t = s.drop_first();
            assert(sorted_by(t, key)) by {
                assert forall|i: int, j: int| 0 <= i < j < t.len() implies key(t[i]) <= key(t[j]) by {
                    assert(t[i] == s[i + 1] && t[j] == s[j + 1]);
                }
            }
            lemma_upper_bound_sorted(t, k, key);
            assert(upper_bound(s, k, key) == 1 + upper_bound(t, k, key));
            assert forall|i: int| upper_bound(s, k, key) <= i < s.len() implies key(#[trigger] s[i]) > k by {
                assert(s[i] == t[i - 1]);
            }
        }
    }
}

/// The stable sort is sorted by its key.
pub proof fn lemma_stable_sort_sorted<A>(s: Seq<A>, key: spec_fn(A) -> int)
    ensures
        sorted_by(stable_sort(s, key), key),
        stable_sort(s, key).len() == s.len(),
    decreases s.len(),
{
    if s.len() > 0 {
        let r = stable_sort(s.drop_last(), key);
        lemma_stable_sort_sorted(s.drop_last(), key);
        let x = s.last();
        let p = upper_bound(r, key(x), key);
        lemma_upper_bound_range(r, key(x), key);
        lemma_upper_bound_sorted(r, key(x), key);
        let t = r.insert(p, x);
        assert forall|i: int, j: int| 0 <= i < j < t.len() implies key(t[i]) <= key(t[j]) by {
            if j < p {
            } else if j == p {
            } else if i < p {
                assert(t[j] == r[j - 1]);
            } else if i == p {
                assert(t[j] == r[j - 1]);
            } else {
                assert(t[i] == r[i - 1] && t[j] == r[j - 1]);
            }
        }
    }
}

/// Inserting anywhere adds the element once to the multiset.
proof fn lemma_insert_multiset<A>(s: Seq<A>, p: int, x: A)
    requires
        0 <= p <= s.len(),
    ensures
        s.insert(p, x).to_multiset() == s.to_multiset().insert(x),
{
    broadcast use vstd::seq_lib::group_to_multiset_ensures;

    let t = s.insert(p, x);
    assert(t.remove(p) =~= s);
    assert(t[p] == x);
    assert(t.to_multiset().remove(x) == s.to_multiset());
    assert(t.contains(x));
    assert(t.to_multiset().count(x) > 0);
    assert(t.to_multiset() =~= s.to_multiset().insert(x));
}

/// The stable sort rearranges `s`: the same elements, each as often.
pub proof fn lemma_stable_sort_permutation<A>(s: Seq<A>, key: spec_fn(A) -> int)
    ensures
        stable_sort(s, key).to_multiset() == s.to_multiset(),
    decreases s.len(),
{
    broadcast use vstd::seq_lib::group_to_multiset_ensures;

    if s.len() > 0 {
        let r = stable_sort(s.drop_last(), key);
        lemma_stable_sort_permutation(s.drop_last(), key);
        lemma_upper_bound_range(r, key(s.last()), key);
        lemma_insert_multiset(r, upper_bound(r, key(s.last()), key), s.last());
        assert(s.drop_last().push(s.last()) =~= s);
    }
}

/// Every element of the stable sort comes from `s`, and the other way round.
pub proof fn lemma_stable_sort_members<A>(s: Seq<A>, key: spec_fn(A) -> int)
    ensures
        forall|x: A|
            #![trigger stable_sort(s, key).contains(x)]
            #![trigger s.contains(x)]
            stable_sort(s, key).contains(x) <==> s.contains(x),
{
    broadcast use vstd::seq_lib::group_to_multiset_ensures;

    lemma_stable_sort_permutation(s, key);
    assert forall|x: A| stable_sort(s, key).contains(x) <==> s.contains(x) by {
        assert(stable_sort(s, key).to_multiset().count(x) == s.to_multiset().count(x));
    }
}

/// Inserting an element of another key leaves the run of key `k` alone.
proof fn lemma_with_key_insert_other<A>(r: Seq<A>, p: int, x: A, k: int, key: spec_fn(A) -> int)
    requires
        0 <= p <= r.len(),
        key(x) != k,
    ensures
        with_key(r.insert(p, x), k, key) == with_key(r, k, key),
    decreases r.len(),
{
    let t = r.insert(p, x);
    if p == r.len() {
        assert(t.drop_last() =~= r);
    } else {
        assert(t.drop_last() =~= r.drop_last().insert(p, x));
        assert(t.last() == r.last());
        lemma_with_key_insert_other(r.drop_last(), p, x, k, key);
    }
}

/// Inserting an element of key `k` after every element of key `k` appends
/// it to the run of key `k`.
proof fn lemma_with_key_insert_last<A>(r: Seq<A>, p: int, x: A, k: int, key: spec_fn(A) -> int)
    requires
        0 <= p <= r.len(),
        key(x) == k,
        forall|i: int| p <= i < r.len() ==> key(#[trigger] r[i]) != k,
    ensures
        with_key(r.insert(p, x), k, key) == with_key(r, k, key).push(x),
    decreases r.len(),
{
    let t = r.insert(p, x);
    if p == r.len() {
        assert(t.drop_last() =~= r);
    } else {
        assert(t.drop_last() =~= r.drop_last().insert(p, x));
        assert(t.last() == r.last());
        assert(key(r[r.len() - 1]) != k);
        lemma_with_key_insert_last(r.drop_last(), p, x, k, key);
    }
}

/// The stable sort keeps the elements of each key in their order in the input.
pub proof fn lemma_stable_sort_stable<A>(s: Seq<A>, k: int, key: spec_fn(A) -> int)
    ensures
        with_key(stable_sort(s, key), k, key) == with_key(s, k, key),
    decreases s.len(),
{
    if s.len() > 0 {
        let r = stable_sort(s.drop_last(), key);
        let x = s.last();
        lemma_stable_sort_stable(s.drop_last(), k, key);
        lemma_stable_sort_sorted(s.drop_last(), key);
        let p = upper_bound(r, key(x), key);
        lemma_upper_bound_range(r, key(x), key);
        lemma_upper_bound_sorted(r, key(x), key);
        if key(x) == k {
            lemma_with_key_insert_last(r, p, x, k, key);
        } else {
            lemma_with_key_insert_other(r, p, x, k, key);
        }
    }
}

/// A non-empty run of key `k` means an element of key `k`.
proof fn lemma_with_key_witness<A>(s: Seq<A>, k: int, key: spec_fn(A) -> int)
    ensures
        with_key(s, k, key).len() > 0 ==> exists|i: int| 0 <= i < s.len() && key(#[trigger] s[i]) == k,
        with_key(s, k, key).len() > 0 ==> key(with_key(s, k, key).last()) == k,
    decreases s.len(),
{
    if s.len() > 0 {
        lemma_with_key_witness(s.drop_last(), k, key);
        if key(s.last()) != k && with_key(s, k, key).len() > 0 {
            let i = choose|i: int| 0 <= i < s.drop_last().len() && key(#[trigger] s.drop_last()[i]) == k;
            assert(s[i] == s.drop_last()[i]);
        }
        if key(s.last()) == k {
            assert(key(s[s.len() - 1]) == k);
        }
    }
}

/// An element of key `k` means a non-empty run of key `k`.
proof fn lemma_with_key_nonempty<A>(s: Seq<A>, i: int, key: spec_fn(A) -> int)
    requires
        0 <= i < s.len(),
    ensures
        with_key(s, key(s[i]), key).len() > 0,
    decreases s.len(),
{
    if i < s.len() - 1 {
        assert(s.drop_last()[i] == s[i]);
        lemma_with_key_nonempty(s.drop_last(), i, key);
    }
}

/// Two sorted sequences with the same run for every key are equal.
proof fn lemma_sorted_runs_determine<A>(a: Seq<A>, b: Seq<A>, key: spec_fn(A) -> int)
    requires
        sorted_by(a, key),
        sorted_by(b, key),
        forall|k: int| #[trigger] with_key(a, k, key) == with_key(b, k, key),
    ensures
        a == b,
    decreases a.len() + b.len(),
{
    if a.len() == 0 && b.len() == 0 {
        assert(a =~= b);
    } else if a.len() == 0 {
        lemma_with_key_nonempty(b, 0, key);
        assert(with_key(a, key(b[0]), key).len() == 0);
    } else if b.len() == 0 {
        lemma_with_key_nonempty(a, 0, key);
        assert(with_key(b, key(a[0]), key).len() == 0);
    } else {
        let ka = key(a.last());
        let kb = key(b.last());
        lemma_with_key_nonempty(a, a.len() - 1, key);
        lemma_with_key_nonempty(b, b.len() - 1, key);
        assert(with_key(a, ka, key) == with_key(b, ka, key));
        assert(with_key(a, kb, key) == with_key(b, kb, key));
        lemma_with_key_witness(b, ka, key);
        lemma_with_key_witness(a, kb, key);
        let i = choose|i: int| 0 <= i < b.len() && key(#[trigger] b[i]) == ka;
        let j = choose|j: int| 0 <= j < a.len() && key(#[trigger] a[j]) == kb;
        if i < b.len() - 1 {
            assert(key(b[i]) <= key(b[b.len() - 1]));
        }
        if j < a.len() - 1 {
            assert(key(a[j]) <= key(a[a.len() - 1]));
        }
        assert(ka == kb);
        let ra = with_key(a, ka, key);
        assert(ra.last() == a.last());
        assert(with_key(b, ka, key).last() == b.last());
        let da = a.drop_last();
        let db = b.drop_last();
        assert forall|k: int| #[trigger] with_key(da, k, key) == with_key(db, k, key) by {
            assert(with_key(a, k, key) == with_key(b, k, key));
            if k == ka {
                assert(with_key(da, k, key) == with_key(a, k, key).drop_last());
                assert(with_key(db, k, key) == with_key(b, k, key).drop_last());
            }
        }
        assert(sorted_by(da, key)) by {
            assert forall|x: int, y: int| 0 <= x < y < da.len() implies key(da[x]) <= key(da[y]) by {
                assert(da[x] == a[x] && da[y] == a[y]);
            }
        }
        assert(sorted_by(db, key)) by {
            assert forall|x: int, y: int| 0 <= x < y < db.len() implies key(db[x]) <= key(db[y]) by {
                assert(db[x] == b[x] && db[y] == b[y]);
            }
        }
        lemma_sorted_runs_determine(da, db, key);
        assert(a =~= da.push(a.last()));
        assert(b =~= db.push(b.last()));
    }
}

/// `stable_sort` is the only stable sort: any sequence that is sorted by
/// `key` and keeps, for every key, the elements of that key in their order
/// in `s` is `stable_sort(s, key)`.
pub proof fn law_stable_sort_unique<A>(s: Seq<A>, t: Seq<A>, key: spec_fn(A) -> int)
    requires
        sorted_by(t, key),
        forall|k: int| #[trigger] with_key(t, k, key) == with_key(s, k, key),
    ensures
        t == stable_sort(s, key),
{
    lemma_stable_sort_sorted(s, key);
    assert forall|k: int| #[trigger] with_key(t, k, key) == with_key(stable_sort(s, key), k, key) by {
        lemma_stable_sort_stable(s, k, key);
    }
    lemma_sorted_runs_determine(t, stable_sort(s, key), key);
}

} // verus!
