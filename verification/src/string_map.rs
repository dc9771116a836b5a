//! Maps keyed by strings, kept in the order of their keys.
use vstd::prelude::*;
use crate::order;
use crate::order::{compare_text, Comparable, Order, Ordered};
use crate::text::copied;

verus! {

// ---------------------------------------------------------------------------
// Entries
// ---------------------------------------------------------------------------

/// The keys of a list of entries.
pub open spec fn keys_of<W>(s: Seq<(Seq<char>, W)>) -> Seq<Seq<char>> {
    s.map_values(|e: (Seq<char>, W)| e.0)
}

/// The value of the first entry with key `k`.
pub open spec fn lookup<W>(s: Seq<(Seq<char>, W)>, k: Seq<char>) -> Option<W>
    decreases s.len(),
{
    if s.len() == 0 {
        None
    } else if s[0].0 == k {
        Some(s[0].1)
    } else {
        lookup(s.drop_first(), k)
    }
}

/// `s` with `w` stored under `k`, in the place that the order of the keys
/// gives it.
pub open spec fn put<W>(s: Seq<(Seq<char>, W)>, k: Seq<char>, w: W) -> Seq<(Seq<char>, W)>
    decreases s.len(),
{
    if s.len() == 0 {
        seq![(k, w)]
    } else if s[0].0 == k {
        seq![(k, w)] + s.drop_first()
    } else if s[0].0.before(k) {
        seq![s[0]] + put(s.drop_first(), k, w)
    } else {
        seq![(k, w)] + s
    }
}

/// `s` without its first entry with key `k`.
pub open spec fn without_key<W>(s: Seq<(Seq<char>, W)>, k: Seq<char>) -> Seq<(Seq<char>, W)>
    decreases s.len(),
{
    if s.len() == 0 {
        s
    } else if s[0].0 == k {
        s.drop_first()
    } else {
        seq![s[0]] + without_key(s.drop_first(), k)
    }
}

/// `base` with every entry of `s` put into it, from first to last.
pub open spec fn put_all<W>(
    base: Seq<(Seq<char>, W)>,
    s: Seq<(Seq<char>, W)>,
) -> Seq<(Seq<char>, W)>
    decreases s.len(),
{
    if s.len() == 0 {
        base
    } else {
        put(put_all(base, s.drop_last()), s.last().0, s.last().1)
    }
}

/// The entries `s` gathered into a map: a later entry replaces an earlier one
/// with the same key.
pub open spec fn gathered<W>(s: Seq<(Seq<char>, W)>) -> Seq<(Seq<char>, W)> {
    put_all(Seq::empty(), s)
}

proof fn lemma_sorted_tail<W>(s: Seq<(Seq<char>, W)>)
    requires
        s.len() > 0,
        order::sorted(keys_of(s)),
    ensures
        order::sorted(keys_of(s.drop_first())),
        forall|i: int| 0 < i < s.len() ==> s[0].0.before((#[trigger] s[i]).0),
{
    let ks = keys_of(s);
    let t = keys_of(s.drop_first());
    assert forall|i: int, j: int| 0 <= i < j < t.len() implies (#[trigger] t[i]).before(
        #[trigger] t[j],
    ) by {
        assert(ks[i + 1].before(ks[j + 1]));
    }
    assert forall|i: int| 0 < i < s.len() implies s[0].0.before((#[trigger] s[i]).0) by {
        assert(ks[0].before(ks[i]));
    }
}

proof fn lemma_sorted_cons<W>(e: (Seq<char>, W), t: Seq<(Seq<char>, W)>)
    requires
        order::sorted(keys_of(t)),
        forall|i: int| 0 <= i < t.len() ==> e.0.before((#[trigger] t[i]).0),
    ensures
        order::sorted(keys_of(seq![e] + t)),
{
    let r = seq![e] + t;
    let ks = keys_of(r);
    let kt = keys_of(t);
    assert forall|i: int, j: int| 0 <= i < j < ks.len() implies (#[trigger] ks[i]).before(
        #[trigger] ks[j],
    ) by {
        if i == 0 {
            assert(e.0.before(t[j - 1].0));
        } else {
            assert(kt[i - 1].before(kt[j - 1]));
        }
    }
}

/// Storing an entry keeps the keys in order, and every key of the result is
/// an old key or the new one.
pub proof fn lemma_put_sorted<W>(s: Seq<(Seq<char>, W)>, k: Seq<char>, w: W)
    requires
        order::sorted(keys_of(s)),
    ensures
        order::sorted(keys_of(put(s, k, w))),
        forall|i: int|
            0 <= i < put(s, k, w).len() ==> (#[trigger] put(s, k, w)[i]) == (k, w) || s.contains(
                put(s, k, w)[i],
            ),
    decreases s.len(),
{
    let r = put(s, k, w);
    if s.len() == 0 {
        assert(keys_of(r).len() == 1);
    } else {
        lemma_sorted_tail(s);
        let t = s.drop_first();
        assert forall|x: (Seq<char>, W)| t.contains(x) implies s.contains(x) by {
            let i = choose|i: int| 0 <= i < t.len() && t[i] == x;
            assert(s[i + 1] == x);
        }
        assert(s.contains(s[0]));
        if s[0].0 == k {
            lemma_sorted_cons((k, w), t);
            assert forall|i: int| 0 <= i < r.len() implies (#[trigger] r[i]) == (k, w)
                || s.contains(r[i]) by {
                if i > 0 {
                    assert(t[i - 1] == r[i]);
                    assert(t.contains(r[i]));
                }
            }
        } else if s[0].0.before(k) {
            lemma_put_sorted(t, k, w);
            let pt = put(t, k, w);
            assert forall|i: int| 0 <= i < pt.len() implies s[0].0.before((#[trigger] pt[i]).0) by {
                if pt[i] != (k, w) {
                    let j = choose|j: int| 0 <= j < t.len() && t[j] == pt[i];
                    assert(s[j + 1] == pt[i]);
                }
            }
            lemma_sorted_cons(s[0], pt);
            assert forall|i: int| 0 <= i < r.len() implies (#[trigger] r[i]) == (k, w)
                || s.contains(r[i]) by {
                if i > 0 {
                    assert(pt[i - 1] == r[i]);
                }
            }
        } else {
            Seq::<char>::total(s[0].0, k);
            assert forall|i: int| 0 <= i < s.len() implies k.before((#[trigger] s[i]).0) by {
                if i > 0 {
                    Seq::<char>::transitive(k, s[0].0, s[i].0);
                }
            }
            lemma_sorted_cons((k, w), s);
            assert forall|i: int| 0 <= i < r.len() implies (#[trigger] r[i]) == (k, w)
                || s.contains(r[i]) by {
                if i > 0 {
                    assert(s[i - 1] == r[i]);
                }
            }
        }
    }
}

/// What a lookup finds after a store.
pub proof fn lemma_put_lookup<W>(s: Seq<(Seq<char>, W)>, k: Seq<char>, w: W, q: Seq<char>)
    requires
        order::sorted(keys_of(s)),
    ensures
        lookup(put(s, k, w), q) == (if q == k {
            Some(w)
        } else {
            lookup(s, q)
        }),
    decreases s.len(),
{
    let r = put(s, k, w);
    if s.len() == 0 {
        assert(r.drop_first() =~= Seq::<(Seq<char>, W)>::empty());
        assert(lookup(r.drop_first(), q) is None);
    } else {
        lemma_sorted_tail(s);
        let t = s.drop_first();
        if s[0].0 == k {
            assert(r.drop_first() =~= t);
        } else if s[0].0.before(k) {
            lemma_put_lookup(t, k, w, q);
            assert(r.drop_first() =~= put(t, k, w));
            Seq::<char>::irreflexive(k);
        } else {
            assert(r.drop_first() =~= s);
        }
    }
}

/// Gathering entries gives sorted keys.
pub proof fn lemma_put_all_sorted<W>(base: Seq<(Seq<char>, W)>, s: Seq<(Seq<char>, W)>)
    requires
        order::sorted(keys_of(base)),
    ensures
        order::sorted(keys_of(put_all(base, s))),
    decreases s.len(),
{
    if s.len() > 0 {
        lemma_put_all_sorted(base, s.drop_last());
        lemma_put_sorted(put_all(base, s.drop_last()), s.last().0, s.last().1);
    }
}

/// A key after every key of `s` is stored at the end.
proof fn lemma_put_last<W>(s: Seq<(Seq<char>, W)>, k: Seq<char>, w: W)
    requires
        forall|i: int| 0 <= i < s.len() ==> (#[trigger] s[i]).0.before(k),
    ensures
        put(s, k, w) == s.push((k, w)),
    decreases s.len(),
{
    if s.len() == 0 {
        assert(put(s, k, w) =~= s.push((k, w)));
    } else {
        assert(s[0].0.before(k));
        Seq::<char>::irreflexive(k);
        let t = s.drop_first();
        assert forall|i: int| 0 <= i < t.len() implies (#[trigger] t[i]).0.before(k) by {
            assert(s[i + 1].0.before(k));
        }
        lemma_put_last(t, k, w);
        assert(put(s, k, w) =~= s.push((k, w)));
    }
}

/// Gathering entries that are already in order changes nothing.
pub proof fn lemma_gathered_sorted<W>(s: Seq<(Seq<char>, W)>)
    requires
        order::sorted(keys_of(s)),
    ensures
        gathered(s) == s,
    decreases s.len(),
{
    if s.len() == 0 {
        assert(gathered(s) =~= s);
    } else {
        let ks = keys_of(s);
        let d = s.drop_last();
        assert forall|i: int, j: int| 0 <= i < j < keys_of(d).len() implies (#[trigger] keys_of(
            d,
        )[i]).before(#[trigger] keys_of(d)[j]) by {
            assert(ks[i].before(ks[j]));
        }
        lemma_gathered_sorted(d);
        assert forall|i: int| 0 <= i < d.len() implies (#[trigger] d[i]).0.before(s.last().0) by {
            assert(ks[i].before(ks[s.len() - 1]));
        }
        lemma_put_last(d, s.last().0, s.last().1);
        assert(s =~= d.push(s.last()));
    }
}

/// A lookup succeeds exactly on the keys that are there, and finds the first
/// entry with the key.
pub proof fn lemma_lookup<W>(s: Seq<(Seq<char>, W)>, k: Seq<char>)
    ensures
        match lookup(s, k) {
            Some(w) => exists|i: int|
                0 <= i < s.len() && #[trigger] s[i] == (k, w) && forall|j: int|
                    0 <= j < i ==> (#[trigger] s[j]).0 != k,
            None => forall|j: int| 0 <= j < s.len() ==> (#[trigger] s[j]).0 != k,
        },
    decreases s.len(),
{
    if s.len() > 0 && s[0].0 != k {
        let t = s.drop_first();
        lemma_lookup(t, k);
        match lookup(t, k) {
            Some(w) => {
                let i = choose|i: int|
                    0 <= i < t.len() && #[trigger] t[i] == (k, w) && forall|j: int|
                        0 <= j < i ==> (#[trigger] t[j]).0 != k;
                assert(s[i + 1] == (k, w));
                assert forall|j: int| 0 <= j < i + 1 implies (#[trigger] s[j]).0 != k by {
                    if j > 0 {
                        assert(t[j - 1].0 != k);
                    }
                }
            },
            None => {
                assert forall|j: int| 0 <= j < s.len() implies (#[trigger] s[j]).0 != k by {
                    if j > 0 {
                        assert(t[j - 1].0 != k);
                    }
                }
            },
        }
    }
}

/// Of entries that are gathered, the last one with a key counts, and no key is
/// found that none of them has.
pub proof fn lemma_gathered_lookup<W>(s: Seq<(Seq<char>, W)>, k: Seq<char>)
    ensures
        match lookup(gathered(s), k) {
            Some(w) => exists|i: int|
                0 <= i < s.len() && #[trigger] s[i] == (k, w) && forall|j: int|
                    i < j < s.len() ==> (#[trigger] s[j]).0 != k,
            None => forall|j: int| 0 <= j < s.len() ==> (#[trigger] s[j]).0 != k,
        },
        order::sorted(keys_of(gathered(s))),
    decreases s.len(),
{
    lemma_put_all_sorted(Seq::empty(), s);
    if s.len() > 0 {
        let d = s.drop_last();
        let n = s.len() - 1;
        lemma_gathered_lookup(d, k);
        lemma_put_all_sorted(Seq::empty(), d);
        lemma_put_lookup(gathered(d), s.last().0, s.last().1, k);
        if s[n].0 == k {
            assert(s[n] == (k, s[n].1));
        } else {
            match lookup(gathered(d), k) {
                Some(w) => {
                    let i = choose|i: int|
                        0 <= i < d.len() && #[trigger] d[i] == (k, w) && forall|j: int|
                            i < j < d.len() ==> (#[trigger] d[j]).0 != k;
                    assert(s[i] == (k, w));
                    assert forall|j: int| i < j < s.len() implies (#[trigger] s[j]).0 != k by {
                        if j < n {
                            assert(d[j].0 != k);
                        }
                    }
                },
                None => {
                    assert forall|j: int| 0 <= j < s.len() implies (#[trigger] s[j]).0 != k by {
                        if j < n {
                            assert(d[j].0 != k);
                        }
                    }
                },
            }
        }
    }
}

/// A skipped prefix without the key does not matter to a lookup.
proof fn lemma_lookup_skip<W>(s: Seq<(Seq<char>, W)>, k: Seq<char>, n: int)
    requires
        0 <= n <= s.len(),
        forall|j: int| 0 <= j < n ==> (#[trigger] s[j]).0 != k,
    ensures
        lookup(s, k) == lookup(s.skip(n), k),
        without_key(s, k) == s.take(n) + without_key(s.skip(n), k),
    decreases n,
{
    if n == 0 {
        assert(s.skip(0) =~= s);
        assert(without_key(s, k) =~= s.take(0) + without_key(s.skip(0), k));
    } else {
        let t = s.drop_first();
        assert(s[0].0 != k);
        assert forall|j: int| 0 <= j < n - 1 implies (#[trigger] t[j]).0 != k by {
            assert(s[j + 1].0 != k);
        }
        lemma_lookup_skip(t, k, n - 1);
        assert(t.skip(n - 1) =~= s.skip(n));
        assert(without_key(s, k) =~= s.take(n) + without_key(s.skip(n), k));
    }
}

/// The shape of a lookup and of a removal around a known first position.
pub proof fn lemma_first_key<W>(s: Seq<(Seq<char>, W)>, k: Seq<char>, n: int)
    requires
        0 <= n <= s.len(),
        forall|j: int| 0 <= j < n ==> (#[trigger] s[j]).0 != k,
        n < s.len() ==> s[n].0 == k,
    ensures
        lookup(s, k) == (if n < s.len() {
            Some(s[n].1)
        } else {
            None
        }),
        without_key(s, k) == (if n < s.len() {
            s.remove(n)
        } else {
            s
        }),
{
    lemma_lookup_skip(s, k, n);
    if n < s.len() {
        assert(s.skip(n)[0] == s[n]);
        assert(s.take(n) + s.skip(n).drop_first() =~= s.remove(n));
    } else {
        assert(s.take(n) + s.skip(n) =~= s);
    }
}

/// The shape of a store around the position where the key belongs.
pub proof fn lemma_put_at<W>(s: Seq<(Seq<char>, W)>, k: Seq<char>, w: W, n: int)
    requires
        0 <= n <= s.len(),
        forall|j: int| 0 <= j < n ==> (#[trigger] s[j]).0.before(k),
        n < s.len() ==> s[n].0 == k || k.before(s[n].0),
    ensures
        put(s, k, w) == (if n < s.len() && s[n].0 == k {
            s.update(n, (k, w))
        } else {
            s.insert(n, (k, w))
        }),
    decreases s.len(),
{
    if s.len() == 0 {
        assert(put(s, k, w) =~= s.insert(0, (k, w)));
    } else if n == 0 {
        Seq::<char>::irreflexive(k);
        if s[0].0 == k {
            assert(put(s, k, w) =~= s.update(0, (k, w)));
        } else {
            if s[0].0.before(k) {
                Seq::<char>::transitive(k, s[0].0, k);
            }
            assert(put(s, k, w) =~= s.insert(0, (k, w)));
        }
    } else {
        assert(s[0].0.before(k));
        Seq::<char>::irreflexive(k);
        let t = s.drop_first();
        assert forall|j: int| 0 <= j < n - 1 implies (#[trigger] t[j]).0.before(k) by {
            assert(s[j + 1].0.before(k));
        }
        lemma_put_at(t, k, w, n - 1);
        if n < s.len() && s[n].0 == k {
            assert(put(s, k, w) =~= s.update(n, (k, w)));
        } else {
            assert(put(s, k, w) =~= s.insert(n, (k, w)));
        }
    }
}

/// `s` with the value of the first entry with key `k` replaced.
pub open spec fn with_value<W>(s: Seq<(Seq<char>, W)>, k: Seq<char>, w: W) -> Seq<(Seq<char>, W)>
    decreases s.len(),
{
    if s.len() == 0 {
        s
    } else if s[0].0 == k {
        seq![(k, w)] + s.drop_first()
    } else {
        seq![s[0]] + with_value(s.drop_first(), k, w)
    }
}

/// The shape of a replacement around a known first position.
pub proof fn lemma_with_value<W>(s: Seq<(Seq<char>, W)>, k: Seq<char>, w: W, n: int)
    requires
        0 <= n < s.len(),
        forall|j: int| 0 <= j < n ==> (#[trigger] s[j]).0 != k,
        s[n].0 == k,
    ensures
        with_value(s, k, w) == s.update(n, (k, w)),
    decreases n,
{
    if n == 0 {
        assert(with_value(s, k, w) =~= s.update(0, (k, w)));
    } else {
        let t = s.drop_first();
        assert(s[0].0 != k);
        assert forall|j: int| 0 <= j < n - 1 implies (#[trigger] t[j]).0 != k by {
            assert(s[j + 1].0 != k);
        }
        lemma_with_value(t, k, w, n - 1);
        assert(with_value(s, k, w) =~= s.update(n, (k, w)));
    }
}

/// What a lookup finds after a replacement.
pub proof fn lemma_with_value_lookup<W>(s: Seq<(Seq<char>, W)>, k: Seq<char>, w: W, q: Seq<char>)
    ensures
        lookup(with_value(s, k, w), q) == (if q == k && lookup(s, k) is Some {
            Some(w)
        } else {
            lookup(s, q)
        }),
    decreases s.len(),
{
    if s.len() > 0 {
        let t = s.drop_first();
        let r = with_value(s, k, w);
        lemma_with_value_lookup(t, k, w, q);
        if s[0].0 == k {
            assert(r.drop_first() =~= t);
        } else {
            assert(r.drop_first() =~= with_value(t, k, w));
            assert(r[0] == s[0]);
        }
    }
}

/// Replacing a value by itself changes nothing.
pub proof fn lemma_with_value_same<W>(s: Seq<(Seq<char>, W)>, k: Seq<char>)
    requires
        lookup(s, k) is Some,
    ensures
        with_value(s, k, lookup(s, k)->0) == s,
    decreases s.len(),
{
    if s[0].0 != k {
        lemma_with_value_same(s.drop_first(), k);
    }
    assert(with_value(s, k, lookup(s, k)->0) =~= s);
}

/// Replacing the value of an entry that was added at the end.
pub proof fn lemma_push_with_value<W>(s: Seq<(Seq<char>, W)>, k: Seq<char>, v: W, w: W)
    requires
        lookup(s, k) is None,
    ensures
        with_value(s.push((k, v)), k, w) == s.push((k, w)),
    decreases s.len(),
{
    let p = s.push((k, v));
    if s.len() == 0 {
        assert(with_value(p, k, w) =~= s.push((k, w)));
    } else {
        assert(p[0] == s[0]);
        assert(p.drop_first() =~= s.drop_first().push((k, v)));
        lemma_push_with_value(s.drop_first(), k, v, w);
        assert(with_value(p, k, w) =~= s.push((k, w)));
    }
}

/// Removing a key that is not there changes nothing.
pub proof fn lemma_without_absent_key<W>(s: Seq<(Seq<char>, W)>, k: Seq<char>)
    ensures
        lookup(s, k) is None ==> without_key(s, k) == s,
    decreases s.len(),
{
    if s.len() > 0 && s[0].0 != k {
        lemma_without_absent_key(s.drop_first(), k);
        if lookup(s, k) is None {
            assert(without_key(s, k) =~= s);
        }
    }
}

/// Removing a key does not matter to a lookup of another.
pub proof fn lemma_without_other_key<W>(s: Seq<(Seq<char>, W)>, k: Seq<char>, q: Seq<char>)
    requires
        q != k,
    ensures
        lookup(without_key(s, k), q) == lookup(s, q),
    decreases s.len(),
{
    if s.len() > 0 && s[0].0 != k {
        let t = s.drop_first();
        let r = without_key(s, k);
        lemma_without_other_key(t, k, q);
        assert(r[0] == s[0]);
        assert(r.drop_first() =~= without_key(t, k));
    }
}

/// What a lookup finds after an entry is added at the end.
pub proof fn lemma_push_lookup<W>(s: Seq<(Seq<char>, W)>, k: Seq<char>, w: W, q: Seq<char>)
    ensures
        lookup(s.push((k, w)), q) == (if lookup(s, q) is Some {
            lookup(s, q)
        } else if q == k {
            Some(w)
        } else {
            None
        }),
    decreases s.len(),
{
    let r = s.push((k, w));
    if s.len() == 0 {
        assert(r.drop_first() =~= Seq::<(Seq<char>, W)>::empty());
        assert(lookup(r.drop_first(), q) is None);
    } else {
        assert(r.drop_first() =~= s.drop_first().push((k, w)));
        assert(r[0] == s[0]);
        lemma_push_lookup(s.drop_first(), k, w, q);
    }
}

/// What a lookup finds after a removal.
pub proof fn lemma_without_key_lookup<W>(s: Seq<(Seq<char>, W)>, k: Seq<char>, q: Seq<char>)
    requires
        order::sorted(keys_of(s)),
    ensures
        lookup(without_key(s, k), q) == (if q == k {
            None
        } else {
            lookup(s, q)
        }),
    decreases s.len(),
{
    if s.len() > 0 {
        lemma_sorted_tail(s);
        let t = s.drop_first();
        let r = without_key(s, k);
        if s[0].0 == k {
            lemma_lookup(t, k);
            match lookup(t, k) {
                Some(w) => {
                    let i = choose|i: int| 0 <= i < t.len() && #[trigger] t[i] == (k, w);
                    assert(s[0].0.before(s[i + 1].0));
                    Seq::<char>::irreflexive(k);
                },
                None => {},
            }
        } else {
            lemma_without_key_lookup(t, k, q);
            assert(r.drop_first() =~= without_key(t, k));
            assert(r[0] == s[0]);
        }
    }
}

// ---------------------------------------------------------------------------
// String to string maps
// ---------------------------------------------------------------------------

/// The contents of a list of string pairs.
pub open spec fn pair_views(s: Seq<(String, String)>) -> Seq<(Seq<char>, Seq<char>)> {
    s.map_values(|e: (String, String)| (e.0@, e.1@))
}

/// A map from strings to strings, in the order of its keys.
#[derive(Debug, PartialEq, Eq)]
pub struct StringMap {
    entries: Vec<(String, String)>,
}

impl View for StringMap {
    type V = Seq<(Seq<char>, Seq<char>)>;

    closed spec fn view(&self) -> Seq<(Seq<char>, Seq<char>)> {
        pair_views(self.entries@)
    }
}

impl StringMap {
    /// The keys are in strictly increasing order.
    #[verifier::type_invariant]
    pub open spec fn wf(self) -> bool {
        order::sorted(keys_of(self@))
    }

    /// The empty map.
    pub fn new() -> (r: StringMap)
        ensures
            r@ == Seq::<(Seq<char>, Seq<char>)>::empty(),
    {
        let entries: Vec<(String, String)> = Vec::new();
        assert(pair_views(entries@) =~= Seq::<(Seq<char>, Seq<char>)>::empty());
        StringMap { entries }
    }

    /// The number of entries.
    pub fn len(&self) -> (n: usize)
        ensures
            n == self@.len(),
    {
        self.entries.len()
    }

    /// Whether there is no entry.
    pub fn is_empty(&self) -> (r: bool)
        ensures
            r == (self@.len() == 0),
    {
        self.entries.len() == 0
    }

    /// The `i`-th key.
    pub fn key_at(&self, i: usize) -> (r: &String)
        requires
            i < self@.len(),
        ensures
            r@ == self@[i as int].0,
    {
        &self.entries[i].0
    }

    /// The value under the `i`-th key.
    pub fn value_at(&self, i: usize) -> (r: &String)
        requires
            i < self@.len(),
        ensures
            r@ == self@[i as int].1,
    {
        &self.entries[i].1
    }

    /// The value stored under `key`.
    pub fn get(&self, key: &str) -> (r: Option<&String>)
        ensures
            match (r, lookup(self@, key@)) {
                (Some(v), Some(w)) => v@ == w,
                (None, None) => true,
                _ => false,
            },
    {
        let mut i: usize = 0;
        while i < self.entries.len()
            invariant
                i <= self@.len(),
                self@ == pair_views(self.entries@),
                forall|j: int| 0 <= j < i ==> (#[trigger] self@[j]).0 != key@,
            decreases self@.len() - i,
        {
            if crate::text::same_text(self.entries[i].0.as_str(), key) {
                proof {
                    lemma_first_key(self@, key@, i as int);
                }
                return Some(&self.entries[i].1);
            }
            i += 1;
        }
        proof {
            lemma_first_key(self@, key@, i as int);
        }
        None
    }

    /// Stores `value` under `key`.
    pub fn insert(&mut self, key: String, value: String)
        ensures
            final(self)@ == put(old(self)@, key@, value@),
    {
        proof {
            use_type_invariant(&*self);
        }
        let ghost before = self@;
        let mut entries: Vec<(String, String)> = Vec::new();
        std::mem::swap(&mut entries, &mut self.entries);
        let ghost old_entries = entries@;
        let mut n: usize = 0;
        while n < entries.len()
            invariant
                n <= entries@.len(),
                entries@ == old_entries,
                before == pair_views(old_entries),
                forall|j: int| 0 <= j < n ==> (#[trigger] before[j]).0.before(key@),
            ensures
                n <= entries@.len(),
                n < entries@.len() ==> before[n as int].0 == key@ || key@.before(
                    before[n as int].0,
                ),
            decreases entries@.len() - n,
        {
            match compare_text(entries[n].0.as_str(), key.as_str()) {
                Order::Less => {
                    n += 1;
                },
                _ => {
                    break;
                },
            }
        }
        let ghost kv = key@;
        let ghost wv = value@;
        proof {
            lemma_put_at(before, kv, wv, n as int);
            lemma_put_sorted(before, kv, wv);
        }
        if n < entries.len() && entries[n].0 == key {
            entries.set(n, (key, value));
            assert(pair_views(entries@) =~= before.update(n as int, (kv, wv)));
        } else {
            entries.insert(n, (key, value));
            assert(pair_views(entries@) =~= before.insert(n as int, (kv, wv)));
        }
        *self = StringMap { entries };
    }

    /// The map that `pairs` gives: a later pair replaces an earlier one with
    /// the same key.
    pub fn from_pairs(pairs: Vec<(String, String)>) -> (r: StringMap)
        ensures
            r@ == gathered(pair_views(pairs@)),
    {
        let mut r = StringMap::new();
        let mut i: usize = 0;
        assert(pair_views(pairs@).take(0) =~= Seq::empty());
        while i < pairs.len()
            invariant
                i <= pairs@.len(),
                r@ == gathered(pair_views(pairs@).take(i as int)),
            decreases pairs@.len() - i,
        {
            r.insert(copied(&pairs[i].0), copied(&pairs[i].1));
            assert(pair_views(pairs@).take(i + 1).drop_last() =~= pair_views(pairs@).take(
                i as int,
            ));
            i += 1;
        }
        assert(pair_views(pairs@).take(i as int) =~= pair_views(pairs@));
        r
    }

    /// The entries as a list of pairs.
    pub fn to_pairs(&self) -> (r: Vec<(String, String)>)
        ensures
            pair_views(r@) == self@,
    {
        let r = self.clone();
        r.entries
    }
}

impl Clone for StringMap {
    fn clone(&self) -> (r: StringMap)
        ensures
            r@ == self@,
    {
        proof {
            use_type_invariant(self);
        }
        let mut entries: Vec<(String, String)> = Vec::new();
        let mut i: usize = 0;
        while i < self.entries.len()
            invariant
                i <= self.entries@.len(),
                pair_views(entries@) == self@.take(i as int),
                self@ == pair_views(self.entries@),
            decreases self.entries@.len() - i,
        {
            let ghost before = entries@;
            entries.push((copied(&self.entries[i].0), copied(&self.entries[i].1)));
            assert(pair_views(entries@) =~= pair_views(before).push(self@[i as int]));
            assert(self@.take(i + 1) =~= self@.take(i as int).push(self@[i as int]));
            i += 1;
        }
        assert(self@.take(i as int) =~= self@);
        StringMap { entries }
    }
}

impl Comparable for StringMap {
    type Key = Seq<(Seq<char>, Seq<char>)>;

    open spec fn key(&self) -> Seq<(Seq<char>, Seq<char>)> {
        self@
    }

    fn compare(&self, other: &Self) -> (r: Order) {
        proof {
            assert(order::keys(self.entries@) =~= self@);
            assert(order::keys(other.entries@) =~= other@);
        }
        self.entries.compare(&other.entries)
    }
}

/// Giving a key another value leaves all keys where they are.
pub proof fn lemma_with_value_keys<W>(s: Seq<(Seq<char>, W)>, k: Seq<char>, w: W)
    ensures
        keys_of(with_value(s, k, w)) == keys_of(s),
    decreases s.len(),
{
    if s.len() > 0 {
        let t = s.drop_first();
        lemma_with_value_keys(t, k, w);
        let r = with_value(s, k, w);
        let kt = keys_of(with_value(t, k, w));
        assert(kt.len() == keys_of(t).len());
        assert(r.len() == s.len());
        assert forall|i: int| 0 <= i < s.len() implies (#[trigger] keys_of(r)[i]) == keys_of(
            s,
        )[i] by {
            if i > 0 {
                assert(keys_of(t)[i - 1] == kt[i - 1]);
                assert(t[i - 1] == s[i]);
                if s[0].0 != k {
                    assert(r[i] == with_value(t, k, w)[i - 1]);
                }
            }
        }
        assert(keys_of(r) =~= keys_of(s));
    }
}

/// Taking a key out leaves everything around it, in its order.
pub proof fn lemma_without_key<W>(
    before: Seq<(Seq<char>, W)>,
    k: Seq<char>,
    w: W,
    after: Seq<(Seq<char>, W)>,
)
    requires
        forall|j: int| 0 <= j < before.len() ==> (#[trigger] before[j]).0 != k,
    ensures
        without_key(before + seq![(k, w)] + after, k) == before + after,
        without_key(before, k) == before,
    decreases before.len(),
{
    let s = before + seq![(k, w)] + after;
    if before.len() == 0 {
        assert(s[0] == (k, w));
        assert(s.drop_first() =~= before + after);
    } else {
        let t = before.drop_first();
        assert(before[0].0 != k);
        assert forall|j: int| 0 <= j < t.len() implies (#[trigger] t[j]).0 != k by {
            assert(t[j] == before[j + 1]);
        }
        lemma_without_key(t, k, w, after);
        assert(s.drop_first() =~= t + seq![(k, w)] + after);
        assert(s[0] == before[0]);
        assert(without_key(s, k) =~= before + after);
        assert(without_key(before, k) =~= before);
    }
}

} // verus!
