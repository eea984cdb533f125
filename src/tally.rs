use vstd::prelude::*;

verus! {

/// Sum of the values recorded under key `k`.
pub open spec fn sum_for<K>(s: Seq<(K, int)>, k: K) -> int
    decreases s.len(),
{
    if s.len() == 0 {
        0
    } else {
        sum_for(s.drop_last(), k) + if s.last().0 == k {
            s.last().1
        } else {
            0
        }
    }
}

/// Sum of all values.
pub open spec fn total<K>(s: Seq<(K, int)>) -> int
    decreases s.len(),
{
    if s.len() == 0 {
        0
    } else {
        total(s.drop_last()) + s.last().1
    }
}

pub open spec fn has_key<K>(s: Seq<(K, int)>, k: K) -> bool {
    exists|j: int| 0 <= j < s.len() && #[trigger] s[j].0 == k
}

pub open spec fn unique_keys<K>(s: Seq<(K, int)>) -> bool {
    forall|i: int, j: int| 0 <= i < j < s.len() ==> s[i].0 != s[j].0
}

/// `t` holds, once for each key that occurs in `s`, the sum of the values
/// recorded under it in `s`.
pub open spec fn tally_of<K>(t: Seq<(K, int)>, s: Seq<(K, int)>) -> bool {
    &&& unique_keys(t)
    &&& forall|k: K| #[trigger] has_key(t, k) <==> has_key(s, k)
    &&& forall|i: int| 0 <= i < t.len() ==> t[i].1 == sum_for(s, #[trigger] t[i].0)
}

pub proof fn lemma_sum_concat<K>(a: Seq<(K, int)>, b: Seq<(K, int)>, k: K)
    ensures
        sum_for(a + b, k) == sum_for(a, k) + sum_for(b, k),
    decreases b.len(),
{
    if b.len() == 0 {
        assert(a + b == a);
    } else {
        assert((a + b).drop_last() == a + b.drop_last());
        lemma_sum_concat(a, b.drop_last(), k);
    }
}

pub proof fn lemma_total_concat<K>(a: Seq<(K, int)>, b: Seq<(K, int)>)
    ensures
        total(a + b) == total(a) + total(b),
    decreases b.len(),
{
    if b.len() == 0 {
        assert(a + b == a);
    } else {
        assert((a + b).drop_last() == a + b.drop_last());
        lemma_total_concat(a, b.drop_last());
    }
}

pub proof fn lemma_sum_absent<K>(s: Seq<(K, int)>, k: K)
    requires
        !has_key(s, k),
    ensures
        sum_for(s, k) == 0,
    decreases s.len(),
{
    if s.len() > 0 {
        assert(s.last().0 != k) by {
            if s.last().0 == k {
                assert(s[s.len() - 1].0 == k);
            }
        }
        assert forall|j: int| 0 <= j < s.len() - 1 implies #[trigger] s.drop_last()[j].0 != k by {
            assert(s.drop_last()[j] == s[j]);
        }
        lemma_sum_absent(s.drop_last(), k);
    }
}

/// With unique keys, the sum under a key is its single entry.
pub proof fn lemma_sum_unique<K>(t: Seq<(K, int)>, i: int)
    requires
        unique_keys(t),
        0 <= i < t.len(),
    ensures
        sum_for(t, t[i].0) == t[i].1,
    decreases t.len(),
{
    let d = t.drop_last();
    if i == t.len() - 1 {
        assert forall|j: int| 0 <= j < d.len() implies #[trigger] d[j].0 != t[i].0 by {
            assert(d[j] == t[j]);
        }
        lemma_sum_absent(d, t[i].0);
    } else {
        assert(d[i] == t[i]);
        lemma_sum_unique(d, i);
        assert(t.last().0 != t[i].0);
    }
}

pub proof fn lemma_total_update<K>(t: Seq<(K, int)>, i: int, e: (K, int))
    requires
        0 <= i < t.len(),
    ensures
        total(t.update(i, e)) == total(t) - t[i].1 + e.1,
    decreases t.len(),
{
    let u = t.update(i, e);
    if i == t.len() - 1 {
        assert(u.drop_last() == t.drop_last());
    } else {
        assert(u.drop_last() == t.drop_last().update(i, e));
        lemma_total_update(t.drop_last(), i, e);
    }
}

/// Recording `v` under key `k` adds it to the entry of `k`, or appends one.
pub proof fn lemma_tally_push<K>(t: Seq<(K, int)>, s: Seq<(K, int)>, k: K, v: int, t2: Seq<(K, int)>)
    requires
        tally_of(t, s),
        (exists|i: int| 0 <= i < t.len() && t[i].0 == k && t2 == t.update(i, (k, t[i].1 + v)))
            || (!has_key(t, k) && t2 == t.push((k, v))),
    ensures
        tally_of(t2, s.push((k, v))),
{
    let s2 = s.push((k, v));
    assert(s2.drop_last() == s);
    assert forall|x: K| #[trigger] has_key(s2, x) <==> has_key(s, x) || x == k by {
        if has_key(s, x) {
            let j = choose|j: int| 0 <= j < s.len() && #[trigger] s[j].0 == x;
            assert(s2[j] == s[j]);
        }
        if x == k {
            assert(s2[s.len() as int].0 == k);
        }
        if has_key(s2, x) && x != k {
            let j = choose|j: int| 0 <= j < s2.len() && #[trigger] s2[j].0 == x;
            assert(s[j] == s2[j]);
        }
    }
    if exists|i: int| 0 <= i < t.len() && t[i].0 == k && t2 == t.update(i, (k, t[i].1 + v)) {
        let i = choose|i: int| 0 <= i < t.len() && t[i].0 == k && t2 == t.update(i, (k, t[i].1 + v));
        assert(has_key(t, k));
        assert forall|x: K| #[trigger] has_key(t2, x) <==> has_key(t, x) by {
            if has_key(t, x) {
                let j = choose|j: int| 0 <= j < t.len() && #[trigger] t[j].0 == x;
                assert(t2[j].0 == x);
            }
            if has_key(t2, x) {
                let j = choose|j: int| 0 <= j < t2.len() && #[trigger] t2[j].0 == x;
                assert(t[j].0 == x);
            }
        }
        assert forall|j: int| 0 <= j < t2.len() implies t2[j].1 == sum_for(s2, #[trigger] t2[j].0) by {
            assert(t[j].0 == t2[j].0);
        }
    } else {
        assert forall|x: K| #[trigger] has_key(t2, x) <==> has_key(t, x) || x == k by {
            if has_key(t, x) {
                let j = choose|j: int| 0 <= j < t.len() && #[trigger] t[j].0 == x;
                assert(t2[j] == t[j]);
            }
            if x == k {
                assert(t2[t.len() as int].0 == k);
            }
            if has_key(t2, x) && x != k {
                let j = choose|j: int| 0 <= j < t2.len() && #[trigger] t2[j].0 == x;
                assert(t[j] == t2[j]);
            }
        }
        assert forall|i: int, j: int| 0 <= i < j < t2.len() implies t2[i].0 != t2[j].0 by {
            if j == t.len() {
                assert(t2[i] == t[i]);
                assert(!(t[i].0 == k));
            } else {
                assert(t2[i] == t[i] && t2[j] == t[j]);
            }
        }
        assert forall|j: int| 0 <= j < t2.len() implies t2[j].1 == sum_for(s2, #[trigger] t2[j].0) by {
            if j == t.len() {
                lemma_sum_absent(s, k);
            } else {
                assert(t2[j] == t[j]);
                assert(t[j].0 != k) by {
                    if t[j].0 == k {
                        assert(has_key(t, k));
                    }
                }
            }
        }
    }
}

/// The tally of sales `s` stands for `s` wherever only sums and keys matter:
/// a tally of the tally is a tally of `s`.
pub proof fn lemma_tally_transfer<K>(
    r: Seq<(K, int)>,
    a: Seq<(K, int)>,
    b: Seq<(K, int)>,
    sa: Seq<(K, int)>,
    sb: Seq<(K, int)>,
)
    requires
        tally_of(r, a + b),
        tally_of(a, sa),
        tally_of(b, sb),
    ensures
        tally_of(r, sa + sb),
{
    assert forall|k: K| sum_for(a, k) == sum_for(sa, k) by {
        lemma_tally_sum(a, sa, k);
    }
    assert forall|k: K| sum_for(b, k) == sum_for(sb, k) by {
        lemma_tally_sum(b, sb, k);
    }
    assert forall|k: K| #[trigger] has_key(a + b, k) <==> has_key(sa + sb, k) by {
        lemma_has_key_concat(a, b, k);
        lemma_has_key_concat(sa, sb, k);
    }
    assert forall|i: int| 0 <= i < r.len() implies r[i].1 == sum_for(sa + sb, #[trigger] r[i].0) by {
        lemma_sum_concat(a, b, r[i].0);
        lemma_sum_concat(sa, sb, r[i].0);
    }
}

pub proof fn lemma_has_key_concat<K>(a: Seq<(K, int)>, b: Seq<(K, int)>, k: K)
    ensures
        has_key(a + b, k) <==> has_key(a, k) || has_key(b, k),
{
    let c = a + b;
    if has_key(a, k) {
        let j = choose|j: int| 0 <= j < a.len() && #[trigger] a[j].0 == k;
        assert(c[j] == a[j]);
    }
    if has_key(b, k) {
        let j = choose|j: int| 0 <= j < b.len() && #[trigger] b[j].0 == k;
        assert(c[a.len() + j] == b[j]);
    }
    if has_key(c, k) {
        let j = choose|j: int| 0 <= j < c.len() && #[trigger] c[j].0 == k;
        if j < a.len() {
            assert(a[j] == c[j]);
        } else {
            assert(b[j - a.len()] == c[j]);
        }
    }
}

/// A tally has the same sum under every key as what it tallies.
pub proof fn lemma_tally_sum<K>(t: Seq<(K, int)>, s: Seq<(K, int)>, k: K)
    requires
        tally_of(t, s),
    ensures
        sum_for(t, k) == sum_for(s, k),
{
    if has_key(t, k) {
        let i = choose|i: int| 0 <= i < t.len() && #[trigger] t[i].0 == k;
        lemma_sum_unique(t, i);
    } else {
        assert(!has_key(s, k));
        lemma_sum_absent(t, k);
        lemma_sum_absent(s, k);
    }
}

} // verus!
