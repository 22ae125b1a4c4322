//! An ordered map from strings to values: what the listings and catalogue
//! code keeps in a `BTreeMap<String, _>`, held as a vector of entries whose
//! keys stand in std's string order, each key once.

use crate::text::{str_lt, str_less, str_equal, lemma_str_lt_strict_total_order};
use vstd::prelude::*;

verus! {

/// The entries, in order, with the keys strictly increasing.
pub open spec fn sorted_keys<V>(s: Seq<(Seq<char>, V)>) -> bool {
    forall|i: int, j: int| 0 <= i < j < s.len() ==> str_lt(#[trigger] s[i].0, #[trigger] s[j].0)
}

/// Some entry has the key `k`.
pub open spec fn has_key<V>(s: Seq<(Seq<char>, V)>, k: Seq<char>) -> bool {
    exists|i: int| 0 <= i < s.len() && #[trigger] s[i].0 == k
}

/// The keys of the entries, in order.
pub open spec fn keys_of<V>(s: Seq<(Seq<char>, V)>) -> Seq<Seq<char>> {
    s.map_values(|e: (Seq<char>, V)| e.0)
}

/// `p` is where an entry with key `k` goes in `s`: after every key less
/// than `k`, before every key greater.
pub open spec fn is_insert_pos<V>(s: Seq<(Seq<char>, V)>, k: Seq<char>, p: int) -> bool {
    &&& 0 <= p <= s.len()
    &&& forall|j: int| 0 <= j < p ==> str_lt(#[trigger] s[j].0, k)
    &&& forall|j: int| p <= j < s.len() ==> str_lt(k, #[trigger] s[j].0)
}

/// `s` with `(k, v)` put in: the value of an entry with key `k` is replaced,
/// else the entry goes before the first key greater than `k`.
pub open spec fn insert_spec<V>(s: Seq<(Seq<char>, V)>, k: Seq<char>, v: V) -> Seq<(Seq<char>, V)> {
    if has_key(s, k) {
        let i = choose|i: int| 0 <= i < s.len() && #[trigger] s[i].0 == k;
        s.update(i, (k, v))
    } else {
        let p = choose|p: int| is_insert_pos(s, k, p);
        s.insert(p, (k, v))
    }
}

/// The position of the entry with key `k` (meaningful when there is one).
pub open spec fn index_of<V>(s: Seq<(Seq<char>, V)>, k: Seq<char>) -> int {
    choose|i: int| 0 <= i < s.len() && #[trigger] s[i].0 == k
}

/// The map that the entries stand for: each key to the value of its entry.
pub open spec fn as_map<V>(s: Seq<(Seq<char>, V)>) -> Map<Seq<char>, V> {
    Map::new(|k: Seq<char>| has_key(s, k), |k: Seq<char>| s[index_of(s, k)].1)
}

/// In sorted entries, the entry with a given key is the one at `j`.
pub proof fn lemma_index_of_unique<V>(s: Seq<(Seq<char>, V)>, k: Seq<char>, j: int)
    requires
        sorted_keys(s),
        0 <= j < s.len(),
        s[j].0 == k,
    ensures
        index_of(s, k) == j,
{
    let i = index_of(s, k);
    lemma_str_lt_strict_total_order(k, k, k);
    if i < j {
        assert(str_lt(s[i].0, s[j].0));
    } else if i > j {
        assert(str_lt(s[j].0, s[i].0));
    }
}

/// The entries with `(k, v)` put in stand for the map with `k` mapped to `v`
/// (a read after a write gives back what was written, and leaves every
/// other key as it was); the keys stay in order.
pub proof fn lemma_insert_as_map<V>(s: Seq<(Seq<char>, V)>, k: Seq<char>, v: V)
    requires
        sorted_keys(s),
    ensures
        sorted_keys(insert_spec(s, k, v)),
        as_map(insert_spec(s, k, v)) == as_map(s).insert(k, v),
{
    let r = insert_spec(s, k, v);
    if has_key(s, k) {
        let i = index_of(s, k);
        assert(r =~= s.update(i, (k, v)));
        assert forall|a: int, b: int| 0 <= a < b < r.len() implies str_lt(
            #[trigger] r[a].0,
            #[trigger] r[b].0,
        ) by {
            assert(str_lt(s[a].0, s[b].0));
        };
        assert forall|key: Seq<char>| #[trigger] has_key(r, key) <==> (has_key(s, key) || key == k) by {
            if key == k {
                assert(r[i].0 == k);
            } else if has_key(s, key) {
                let j = index_of(s, key);
                assert(r[j].0 == key);
            }
            if has_key(r, key) && key != k {
                let j = index_of(r, key);
                assert(s[j].0 == key);
            }
        };
        assert forall|key: Seq<char>| has_key(r, key) implies #[trigger] r[index_of(r, key)].1 == (
        if key == k {
            v
        } else {
            s[index_of(s, key)].1
        }) by {
            let j = index_of(r, key);
            lemma_index_of_unique(r, key, j);
            if key != k {
                assert(s[j].0 == key);
                lemma_index_of_unique(s, key, j);
            } else {
                lemma_index_of_unique(r, k, i);
            }
        };
        assert(as_map(r) =~= as_map(s).insert(k, v));
    } else {
        assert(exists|p: int| is_insert_pos(s, k, p)) by {
            lemma_insert_pos_exists(s, k);
        };
        let p = choose|p: int| is_insert_pos(s, k, p);
        assert(r =~= s.insert(p, (k, v)));
        assert forall|a: int, b: int| 0 <= a < b < r.len() implies str_lt(
            #[trigger] r[a].0,
            #[trigger] r[b].0,
        ) by {
            if b == p {
                assert(str_lt(s[a].0, k));
            } else if a == p {
                assert(str_lt(k, s[b - 1].0));
            } else if a < p && b > p {
                lemma_str_lt_strict_total_order(s[a].0, k, s[b - 1].0);
            } else if a > p {
                assert(str_lt(s[a - 1].0, s[b - 1].0));
            } else {
                assert(str_lt(s[a].0, s[b].0));
            }
        };
        assert forall|key: Seq<char>| #[trigger] has_key(r, key) <==> (has_key(s, key) || key == k) by {
            if key == k {
                assert(r[p].0 == k);
            } else if has_key(s, key) {
                let j = index_of(s, key);
                if j < p {
                    assert(r[j].0 == key);
                } else {
                    assert(r[j + 1].0 == key);
                }
            }
            if has_key(r, key) && key != k {
                let j = index_of(r, key);
                if j < p {
                    assert(s[j].0 == key);
                } else {
                    assert(s[j - 1].0 == key);
                }
            }
        };
        assert forall|key: Seq<char>| has_key(r, key) implies #[trigger] r[index_of(r, key)].1 == (
        if key == k {
            v
        } else {
            s[index_of(s, key)].1
        }) by {
            let j = index_of(r, key);
            lemma_index_of_unique(r, key, j);
            if key != k {
                if j < p {
                    assert(s[j].0 == key);
                    lemma_index_of_unique(s, key, j);
                } else {
                    assert(s[j - 1].0 == key);
                    lemma_index_of_unique(s, key, j - 1);
                }
            } else {
                lemma_index_of_unique(r, k, p);
            }
        };
        assert(as_map(r) =~= as_map(s).insert(k, v));
    }
}

/// Sorted entries have one place for a key they lack.
pub proof fn lemma_insert_pos_unique<V>(s: Seq<(Seq<char>, V)>, k: Seq<char>, p: int, q: int)
    requires
        is_insert_pos(s, k, p),
        is_insert_pos(s, k, q),
    ensures
        p == q,
{
    if p < q {
        lemma_str_lt_strict_total_order(k, s[p].0, k);
    } else if q < p {
        lemma_str_lt_strict_total_order(k, s[q].0, k);
    }
}

/// `p` is the first position whose key is not less than `k`.
spec fn first_not_below<V>(s: Seq<(Seq<char>, V)>, k: Seq<char>, p: int) -> bool {
    &&& 0 <= p <= s.len()
    &&& forall|j: int| 0 <= j < p ==> str_lt(#[trigger] s[j].0, k)
    &&& (p == s.len() || !str_lt(s[p].0, k))
}

/// A key that sorted entries lack has a place among them.
pub proof fn lemma_insert_pos_exists<V>(s: Seq<(Seq<char>, V)>, k: Seq<char>)
    requires
        sorted_keys(s),
        !has_key(s, k),
    ensures
        exists|p: int| is_insert_pos(s, k, p),
{
    lemma_first_not_below(s, k, 0);
    let p = choose|p: int| first_not_below(s, k, p);
    assert forall|j: int| p <= j < s.len() implies str_lt(k, #[trigger] s[j].0) by {
        assert(p < s.len());
        lemma_str_lt_strict_total_order(s[p].0, k, k);
        if s[p].0 == k {
            assert(has_key(s, k));
        }
        lemma_str_lt_strict_total_order(k, s[p].0, s[j].0);
        if j > p {
            assert(str_lt(s[p].0, s[j].0));
        }
    };
    assert(is_insert_pos(s, k, p));
}

/// From a start `i` below which every key is less than `k`, there is a
/// first position at which the keys stop being less than `k`.
proof fn lemma_first_not_below<V>(s: Seq<(Seq<char>, V)>, k: Seq<char>, i: int)
    requires
        0 <= i <= s.len(),
        forall|j: int| 0 <= j < i ==> str_lt(#[trigger] s[j].0, k),
    ensures
        exists|p: int| first_not_below(s, k, p),
    decreases s.len() - i,
{
    if i < s.len() && str_lt(s[i].0, k) {
        lemma_first_not_below(s, k, i + 1);
    } else {
        assert(first_not_below(s, k, i));
    }
}

/// The entries of a map built by putting the pairs in one after another,
/// as `insert` does, and as collecting pairs into a `BTreeMap` does.
pub open spec fn collect<V>(pairs: Seq<(Seq<char>, V)>) -> Seq<(Seq<char>, V)>
    decreases pairs.len(),
{
    if pairs.len() == 0 {
        Seq::empty()
    } else {
        insert_spec(collect(pairs.drop_last()), pairs.last().0, pairs.last().1)
    }
}

/// Some pair has the key `k`.
pub open spec fn pairs_have_key<V>(pairs: Seq<(Seq<char>, V)>, k: Seq<char>) -> bool {
    exists|i: int| 0 <= i < pairs.len() && #[trigger] pairs[i].0 == k
}

/// The value of the last pair with key `k`.
pub open spec fn last_value<V>(pairs: Seq<(Seq<char>, V)>, k: Seq<char>) -> V
    decreases pairs.len(),
{
    if pairs.len() == 0 {
        arbitrary()
    } else if pairs.last().0 == k {
        pairs.last().1
    } else {
        last_value(pairs.drop_last(), k)
    }
}

/// Collecting pairs gives keys in order, each key that some pair has, and
/// under each key the value of the last pair with that key.
pub proof fn lemma_collect<V>(pairs: Seq<(Seq<char>, V)>)
    ensures
        sorted_keys(collect(pairs)),
        forall|k: Seq<char>| #[trigger] as_map(collect(pairs)).contains_key(k) <==> pairs_have_key(pairs, k),
        forall|k: Seq<char>| pairs_have_key(pairs, k) ==> #[trigger] as_map(collect(pairs))[k] == last_value(pairs, k),
    decreases pairs.len(),
{
    if pairs.len() > 0 {
        let init = pairs.drop_last();
        lemma_collect(init);
        lemma_insert_as_map(collect(init), pairs.last().0, pairs.last().1);
        assert forall|k: Seq<char>| #[trigger] pairs_have_key(pairs, k) <==> (pairs_have_key(init, k) || k == pairs.last().0) by {
            if pairs_have_key(pairs, k) && k != pairs.last().0 {
                let i = choose|i: int| 0 <= i < pairs.len() && #[trigger] pairs[i].0 == k;
                assert(init[i].0 == k);
            }
            if pairs_have_key(init, k) {
                let i = choose|i: int| 0 <= i < init.len() && #[trigger] init[i].0 == k;
                assert(pairs[i].0 == k);
            }
            if k == pairs.last().0 {
                assert(pairs[pairs.len() - 1].0 == k);
            }
        };
    }
}

/// The values of the pairs with key `k`, in order.
pub open spec fn values_with_key<V>(pairs: Seq<(Seq<char>, V)>, k: Seq<char>) -> Seq<V>
    decreases pairs.len(),
{
    if pairs.len() == 0 {
        Seq::empty()
    } else if pairs.last().0 == k {
        values_with_key(pairs.drop_last(), k).push(pairs.last().1)
    } else {
        values_with_key(pairs.drop_last(), k)
    }
}

/// The entries of a map from keys to lists built by appending the value of
/// each pair, one after another, to the list under its key.
pub open spec fn group<V>(pairs: Seq<(Seq<char>, V)>) -> Seq<(Seq<char>, Seq<V>)>
    decreases pairs.len(),
{
    if pairs.len() == 0 {
        Seq::empty()
    } else {
        let m = group(pairs.drop_last());
        let k = pairs.last().0;
        insert_spec(
            m,
            k,
            if as_map(m).contains_key(k) {
                as_map(m)[k].push(pairs.last().1)
            } else {
                seq![pairs.last().1]
            },
        )
    }
}

/// Grouping pairs gives keys in order, each key that some pair has, and
/// under each key the values of the pairs with that key, in order.
pub proof fn lemma_group<V>(pairs: Seq<(Seq<char>, V)>)
    ensures
        sorted_keys(group(pairs)),
        forall|k: Seq<char>| #[trigger] as_map(group(pairs)).contains_key(k) <==> pairs_have_key(pairs, k),
        forall|k: Seq<char>| pairs_have_key(pairs, k) ==> #[trigger] as_map(group(pairs))[k] == values_with_key(pairs, k),
    decreases pairs.len(),
{
    if pairs.len() > 0 {
        let init = pairs.drop_last();
        let m = group(init);
        let k = pairs.last().0;
        lemma_group(init);
        let v = if as_map(m).contains_key(k) {
            as_map(m)[k].push(pairs.last().1)
        } else {
            seq![pairs.last().1]
        };
        lemma_insert_as_map(m, k, v);
        assert forall|key: Seq<char>| #[trigger] pairs_have_key(pairs, key) <==> (pairs_have_key(init, key) || key == k) by {
            if pairs_have_key(pairs, key) && key != k {
                let i = choose|i: int| 0 <= i < pairs.len() && #[trigger] pairs[i].0 == key;
                assert(init[i].0 == key);
            }
            if pairs_have_key(init, key) {
                let i = choose|i: int| 0 <= i < init.len() && #[trigger] init[i].0 == key;
                assert(pairs[i].0 == key);
            }
            if key == k {
                assert(pairs[pairs.len() - 1].0 == key);
            }
        };
        assert forall|key: Seq<char>| pairs_have_key(pairs, key) implies #[trigger] as_map(group(pairs))[key] == values_with_key(pairs, key) by {
            if key == k && !pairs_have_key(init, k) {
                lemma_values_with_key_absent(init, k);
            }
        };
    }
}

proof fn lemma_values_with_key_absent<V>(pairs: Seq<(Seq<char>, V)>, k: Seq<char>)
    requires
        !pairs_have_key(pairs, k),
    ensures
        values_with_key(pairs, k) == Seq::<V>::empty(),
    decreases pairs.len(),
{
    if pairs.len() > 0 {
        assert(pairs[pairs.len() - 1].0 != k);
        assert forall|i: int| 0 <= i < pairs.drop_last().len() implies #[trigger] pairs.drop_last()[i].0 != k by {
            assert(pairs[i].0 != k);
        };
        lemma_values_with_key_absent(pairs.drop_last(), k);
    }
}

/// How many times `k` occurs in `keys`.
pub open spec fn count_of(keys: Seq<Seq<char>>, k: Seq<char>) -> nat
    decreases keys.len(),
{
    if keys.len() == 0 {
        0
    } else {
        count_of(keys.drop_last(), k) + if keys.last() == k {
            1nat
        } else {
            0nat
        }
    }
}

/// The entries of a map from keys to counts built by adding one, for each
/// key in turn, to the count under it (starting from zero), counting in
/// `u16`.
pub open spec fn tally(keys: Seq<Seq<char>>) -> Seq<(Seq<char>, u16)>
    decreases keys.len(),
{
    if keys.len() == 0 {
        Seq::empty()
    } else {
        let m = tally(keys.drop_last());
        let k = keys.last();
        insert_spec(
            m,
            k,
            if as_map(m).contains_key(k) {
                (as_map(m)[k] + 1) as u16
            } else {
                1u16
            },
        )
    }
}

/// No key occurs in `keys` more often than a `u16` counts.
pub open spec fn counts_fit(keys: Seq<Seq<char>>) -> bool {
    forall|k: Seq<char>| #[trigger] count_of(keys, k) <= u16::MAX
}

proof fn lemma_count_of_prefix(keys: Seq<Seq<char>>, k: Seq<char>)
    requires
        keys.len() > 0,
    ensures
        count_of(keys.drop_last(), k) <= count_of(keys, k),
{
}

pub proof fn lemma_count_of_absent(keys: Seq<Seq<char>>, k: Seq<char>)
    requires
        !keys.contains(k),
    ensures
        count_of(keys, k) == 0,
    decreases keys.len(),
{
    if keys.len() > 0 {
        assert(keys[keys.len() - 1] != k);
        assert(!keys.drop_last().contains(k)) by {
            if keys.drop_last().contains(k) {
                let i = choose|i: int| 0 <= i < keys.drop_last().len() && keys.drop_last()[i] == k;
                assert(keys[i] == k);
            }
        };
        lemma_count_of_absent(keys.drop_last(), k);
    }
}

/// A key occurs no more often than there are keys.
pub proof fn lemma_count_of_bound(keys: Seq<Seq<char>>, k: Seq<char>)
    ensures
        count_of(keys, k) <= keys.len(),
        keys.contains(k) ==> count_of(keys, k) >= 1,
    decreases keys.len(),
{
    if keys.len() > 0 {
        lemma_count_of_bound(keys.drop_last(), k);
        if keys.contains(k) && keys.last() != k {
            let i = choose|i: int| 0 <= i < keys.len() && keys[i] == k;
            assert(keys.drop_last()[i] == k);
        }
    }
}

/// The sum of the counts of the entries.
pub open spec fn sum_counts(s: Seq<(Seq<char>, u16)>) -> nat
    decreases s.len(),
{
    if s.len() == 0 {
        0
    } else {
        sum_counts(s.drop_last()) + s.last().1 as nat
    }
}

proof fn lemma_sum_counts_add(a: Seq<(Seq<char>, u16)>, b: Seq<(Seq<char>, u16)>)
    ensures
        sum_counts(a + b) == sum_counts(a) + sum_counts(b),
    decreases b.len(),
{
    if b.len() == 0 {
        assert(a + b =~= a);
    } else {
        assert((a + b).drop_last() =~= a + b.drop_last());
        lemma_sum_counts_add(a, b.drop_last());
    }
}

proof fn lemma_sum_counts_one(x: (Seq<char>, u16))
    ensures
        sum_counts(seq![x]) == x.1 as nat,
{
    assert(seq![x].drop_last() =~= Seq::<(Seq<char>, u16)>::empty());
    assert(sum_counts(Seq::<(Seq<char>, u16)>::empty()) == 0);
    assert(seq![x].last() == x);
}

/// The counts of a tally add up to the number of keys tallied, where the
/// counts fit a `u16`.
pub proof fn lemma_tally_sum(keys: Seq<Seq<char>>)
    requires
        counts_fit(keys),
    ensures
        sum_counts(tally(keys)) == keys.len(),
    decreases keys.len(),
{
    if keys.len() > 0 {
        let init = keys.drop_last();
        let m = tally(init);
        let k = keys.last();
        assert(counts_fit(init)) by {
            assert forall|key: Seq<char>| #[trigger] count_of(init, key) <= u16::MAX by {
                lemma_count_of_prefix(keys, key);
                assert(count_of(keys, key) <= u16::MAX);
            };
        };
        lemma_tally_sum(init);
        lemma_tally(init);
        if has_key(m, k) {
            let i = index_of(m, k);
            assert(as_map(m).contains_key(k));
            assert(init.contains(k));
            assert(as_map(m)[k] == m[i].1);
            assert(m[i].1 == count_of(init, k));
            assert(count_of(keys, k) == count_of(init, k) + 1);
            assert(count_of(keys, k) <= u16::MAX);
            let v = (m[i].1 + 1) as u16;
            let r = m.update(i, (k, v));
            assert(tally(keys) == r);
            assert(m =~= m.take(i) + seq![m[i]] + m.skip(i + 1));
            assert(r =~= m.take(i) + seq![(k, v)] + m.skip(i + 1));
            lemma_sum_counts_add(m.take(i) + seq![m[i]], m.skip(i + 1));
            lemma_sum_counts_add(m.take(i), seq![m[i]]);
            lemma_sum_counts_add(m.take(i) + seq![(k, v)], m.skip(i + 1));
            lemma_sum_counts_add(m.take(i), seq![(k, v)]);
            lemma_sum_counts_one(m[i]);
            lemma_sum_counts_one((k, v));
        } else {
            lemma_insert_pos_exists(m, k);
            let p = choose|p: int| is_insert_pos(m, k, p);
            let r = m.insert(p, (k, 1u16));
            assert(tally(keys) == r);
            assert(m =~= m.take(p) + m.skip(p));
            assert(r =~= m.take(p) + seq![(k, 1u16)] + m.skip(p));
            lemma_sum_counts_add(m.take(p), m.skip(p));
            lemma_sum_counts_add(m.take(p) + seq![(k, 1u16)], m.skip(p));
            lemma_sum_counts_add(m.take(p), seq![(k, 1u16)]);
            lemma_sum_counts_one((k, 1u16));
        }
    }
}

/// A tally has no more entries than there are keys.
pub proof fn lemma_tally_len(keys: Seq<Seq<char>>)
    ensures
        tally(keys).len() <= keys.len(),
    decreases keys.len(),
{
    if keys.len() > 0 {
        let m = tally(keys.drop_last());
        let k = keys.last();
        lemma_tally_len(keys.drop_last());
        lemma_tally(keys.drop_last());
        if has_key(m, k) {
        } else {
            assert(sorted_keys(m));
            lemma_insert_pos_exists(m, k);
        }
    }
}

/// A prefix of `keys` holds `k` no more often than `keys` does.
pub proof fn lemma_count_of_take(keys: Seq<Seq<char>>, k: Seq<char>, i: int)
    requires
        0 <= i <= keys.len(),
    ensures
        count_of(keys.take(i), k) <= count_of(keys, k),
    decreases keys.len(),
{
    if i == keys.len() {
        assert(keys.take(i) =~= keys);
    } else {
        assert(keys.drop_last().take(i) =~= keys.take(i));
        lemma_count_of_take(keys.drop_last(), k, i);
    }
}

/// Each value listed under `k` is the value of a pair with key `k`.
pub proof fn lemma_values_with_key_members<V>(pairs: Seq<(Seq<char>, V)>, k: Seq<char>)
    ensures
        forall|j: int| 0 <= j < values_with_key(pairs, k).len() ==> exists|x: int| 0 <= x < pairs.len() && #[trigger] pairs[x] == (k, #[trigger] values_with_key(pairs, k)[j]),
    decreases pairs.len(),
{
    if pairs.len() > 0 {
        let init = pairs.drop_last();
        lemma_values_with_key_members(init, k);
        let vs = values_with_key(pairs, k);
        assert forall|j: int| 0 <= j < vs.len() implies exists|x: int| 0 <= x < pairs.len() && #[trigger] pairs[x] == (k, #[trigger] vs[j]) by {
            if pairs.last().0 == k && j == vs.len() - 1 {
                assert(pairs[pairs.len() - 1] == (k, vs[j]));
            } else {
                assert(vs[j] == values_with_key(init, k)[j]);
                let x = choose|x: int| 0 <= x < init.len() && #[trigger] init[x] == (k, values_with_key(init, k)[j]);
                assert(pairs[x] == init[x]);
            }
        };
    }
}

/// The value of each pair is listed under the pair's key.
pub proof fn lemma_value_listed<V>(pairs: Seq<(Seq<char>, V)>, x: int)
    requires
        0 <= x < pairs.len(),
    ensures
        values_with_key(pairs, pairs[x].0).contains(pairs[x].1),
    decreases pairs.len(),
{
    let k = pairs[x].0;
    if x == pairs.len() - 1 {
        let vs = values_with_key(pairs, k);
        assert(vs[vs.len() - 1] == pairs[x].1);
    } else {
        let init = pairs.drop_last();
        assert(init[x] == pairs[x]);
        lemma_value_listed(init, x);
        let vs0 = values_with_key(init, k);
        let j = choose|j: int| 0 <= j < vs0.len() && vs0[j] == pairs[x].1;
        assert(values_with_key(pairs, k)[j] == pairs[x].1);
    }
}

/// Keeping some of the entries keeps their keys in order.
pub proof fn lemma_filter_sorted<V>(s: Seq<(Seq<char>, V)>, pred: spec_fn((Seq<char>, V)) -> bool)
    requires
        sorted_keys(s),
    ensures
        sorted_keys(s.filter(pred)),
    decreases s.len(),
{
    reveal(Seq::filter);
    if s.len() > 0 {
        let init = s.drop_last();
        assert(sorted_keys(init)) by {
            assert forall|i: int, j: int| 0 <= i < j < init.len() implies str_lt(#[trigger] init[i].0, #[trigger] init[j].0) by {
                assert(str_lt(s[i].0, s[j].0));
            };
        };
        lemma_filter_sorted(init, pred);
        if pred(s.last()) {
            let f = init.filter(pred);
            let g = s.filter(pred);
            assert forall|i: int, j: int| 0 <= i < j < g.len() implies str_lt(#[trigger] g[i].0, #[trigger] g[j].0) by {
                if j == g.len() - 1 {
                    assert(f.contains(f[i]));
                    init.lemma_filter_contains_rev(pred, f[i]);
                    let x = choose|x: int| 0 <= x < init.len() && init[x] == f[i];
                    assert(str_lt(s[x].0, s[s.len() - 1].0));
                } else {
                    assert(str_lt(f[i].0, f[j].0));
                }
            };
        }
    }
}

/// The last value under `k` is the value of a pair with key `k`.
pub proof fn lemma_last_value_member<V>(pairs: Seq<(Seq<char>, V)>, k: Seq<char>)
    requires
        pairs_have_key(pairs, k),
    ensures
        exists|x: int| 0 <= x < pairs.len() && #[trigger] pairs[x] == (k, last_value(pairs, k)),
    decreases pairs.len(),
{
    if pairs.last().0 == k {
        assert(pairs[pairs.len() - 1] == (k, last_value(pairs, k)));
    } else {
        let init = pairs.drop_last();
        let i = choose|i: int| 0 <= i < pairs.len() && #[trigger] pairs[i].0 == k;
        assert(init[i].0 == k);
        lemma_last_value_member(init, k);
        let x = choose|x: int| 0 <= x < init.len() && #[trigger] init[x] == (k, last_value(init, k));
        assert(pairs[x] == init[x]);
    }
}

/// Tallying keys gives keys in order, each key that occurs, and, where the
/// counts fit a `u16`, under each key the number of times it occurs.
pub proof fn lemma_tally(keys: Seq<Seq<char>>)
    ensures
        sorted_keys(tally(keys)),
        forall|k: Seq<char>| #[trigger] as_map(tally(keys)).contains_key(k) <==> keys.contains(k),
        counts_fit(keys) ==> forall|k: Seq<char>| keys.contains(k) ==> #[trigger] as_map(tally(keys))[k] == count_of(keys, k),
    decreases keys.len(),
{
    if keys.len() > 0 {
        let init = keys.drop_last();
        let m = tally(init);
        let k = keys.last();
        lemma_tally(init);
        let v = if as_map(m).contains_key(k) {
            (as_map(m)[k] + 1) as u16
        } else {
            1u16
        };
        lemma_insert_as_map(m, k, v);
        assert forall|key: Seq<char>| #[trigger] keys.contains(key) <==> (init.contains(key) || key == k) by {
            if keys.contains(key) && key != k {
                let i = choose|i: int| 0 <= i < keys.len() && keys[i] == key;
                assert(init[i] == key);
            }
            if init.contains(key) {
                let i = choose|i: int| 0 <= i < init.len() && init[i] == key;
                assert(keys[i] == key);
            }
            if key == k {
                assert(keys[keys.len() - 1] == key);
            }
        };
        if counts_fit(keys) {
            assert forall|key: Seq<char>| #[trigger] count_of(init, key) <= u16::MAX by {
                lemma_count_of_prefix(keys, key);
                assert(count_of(keys, key) <= u16::MAX);
            };
            assert forall|key: Seq<char>| keys.contains(key) implies #[trigger] as_map(tally(keys))[key] == count_of(keys, key) by {
                assert(count_of(keys, key) <= u16::MAX);
                if key == k && !init.contains(k) {
                    lemma_count_of_absent(init, k);
                }
            };
        }
    }
}

/// An ordered map from strings to values.
#[derive(Debug)]
pub struct SortedMap<V> {
    entries: Vec<(String, V)>,
}

/// Entries with their keys as character sequences.
pub open spec fn entry_views<V>(e: Seq<(String, V)>) -> Seq<(Seq<char>, V)> {
    e.map_values(|x: (String, V)| (x.0@, x.1))
}

impl<V> View for SortedMap<V> {
    type V = Seq<(Seq<char>, V)>;

    closed spec fn view(&self) -> Seq<(Seq<char>, V)> {
        entry_views(self.entries@)
    }
}

impl<V> SortedMap<V> {
    /// The keys are in order, each once: an invariant of every map.
    #[verifier::type_invariant]
    spec fn wf(&self) -> bool {
        sorted_keys(self@)
    }

    /// The empty map.
    pub fn new() -> (m: Self)
        ensures
            sorted_keys(m@),
            m@ == Seq::<(Seq<char>, V)>::empty(),
    {
        let m = SortedMap { entries: Vec::new() };
        assert(m@ =~= Seq::<(Seq<char>, V)>::empty());
        m
    }

    /// The number of entries.
    pub fn len(&self) -> (n: usize)
        ensures
            n == self@.len(),
    {
        self.entries.len()
    }

    /// The key of the entry at position `i`.
    pub fn key_at(&self, i: usize) -> (k: &str)
        requires
            i < self@.len(),
        ensures
            k@ == self@[i as int].0,
    {
        self.entries[i].0.as_str()
    }

    /// The value of the entry at position `i`.
    pub fn value_at(&self, i: usize) -> (v: &V)
        requires
            i < self@.len(),
        ensures
            *v == self@[i as int].1,
    {
        &self.entries[i].1
    }

    /// The position of the entry with key `key`, if there is one.
    pub fn find(&self, key: &str) -> (r: Option<usize>)
        ensures
            r matches Some(i) ==> i < self@.len() && self@[i as int].0 == key@,
            r is None <==> !has_key(self@, key@),
    {
        let n = self.entries.len();
        let mut i: usize = 0;
        while i < n
            invariant
                n == self@.len(),
                i <= n,
                forall|j: int| 0 <= j < i ==> self@[j].0 != key@,
            decreases n - i,
        {
            if str_equal(self.entries[i].0.as_str(), key) {
                assert(self@[i as int].0 == key@);
                return Some(i);
            }
            i = i + 1;
        }
        None
    }

    /// Puts `value` under `key`: replaces the value of an entry with that
    /// key, else adds the entry at its place in key order.
    pub fn insert(&mut self, key: String, value: V)
        ensures
            sorted_keys(final(self)@),
            final(self)@ == insert_spec(old(self)@, key@, value),
            as_map(final(self)@) == as_map(old(self)@).insert(key@, value),
    {
        proof {
            use_type_invariant(&*self);
            lemma_insert_as_map(self@, key@, value);
        }
        let ghost s = self@;
        let mut entries: Vec<(String, V)> = Vec::new();
        std::mem::swap(&mut entries, &mut self.entries);
        let n = entries.len();
        let mut i: usize = 0;
        while i < n && str_less(entries[i].0.as_str(), key.as_str())
            invariant
                n == entry_views(entries@).len(),
                s == entry_views(entries@),
                i <= n,
                forall|j: int| 0 <= j < i ==> str_lt(#[trigger] s[j].0, key@),
            decreases n - i,
        {
            i = i + 1;
        }
        if i < n && entries[i].0 == key {
            let (k, _old_value) = entries.remove(i);
            entries.insert(i, (k, value));
            proof {
                assert(s[i as int].0 == key@);
                assert(has_key(s, key@));
                let c = choose|c: int| 0 <= c < s.len() && #[trigger] s[c].0 == key@;
                if c != i {
                    lemma_str_lt_strict_total_order(s[c].0, s[i as int].0, key@);
                }
                assert(entry_views(entries@) =~= s.update(i as int, (key@, value)));
            }
        } else {
            let ghost k = key@;
            entries.insert(i, (key, value));
            proof {
                if i < n {
                    lemma_str_lt_strict_total_order(s[i as int].0, k, k);
                }
                assert forall|j: int| i <= j < s.len() implies str_lt(k, #[trigger] s[j].0) by {
                    lemma_str_lt_strict_total_order(k, s[i as int].0, s[j].0);
                    if j > i {
                        assert(str_lt(s[i as int].0, s[j].0));
                    }
                }
                assert(!has_key(s, k)) by {
                    if has_key(s, k) {
                        let c = choose|c: int| 0 <= c < s.len() && #[trigger] s[c].0 == k;
                        lemma_str_lt_strict_total_order(k, k, k);
                        if c < i {
                        } else {
                        }
                    }
                }
                assert(is_insert_pos(s, k, i as int));
                let p = choose|p: int| is_insert_pos(s, k, p);
                if p < i {
                    lemma_str_lt_strict_total_order(k, s[p].0, k);
                }
                if p > i {
                    lemma_str_lt_strict_total_order(k, s[i as int].0, k);
                }
                assert(entry_views(entries@) =~= s.insert(i as int, (k, value)));
                assert forall|a: int, b: int| 0 <= a < b < entry_views(entries@).len() implies str_lt(
                    #[trigger] entry_views(entries@)[a].0,
                    #[trigger] entry_views(entries@)[b].0,
                ) by {
                    if b == i {
                        assert(str_lt(s[a].0, k));
                    } else if a == i {
                        assert(str_lt(k, s[b - 1].0));
                    } else if a < i && b > i {
                        lemma_str_lt_strict_total_order(s[a].0, k, s[b - 1].0);
                    }
                }
            }
        }
        self.entries = entries;
    }

    /// The keys, in order, each once.
    pub fn keys(&self) -> (names: Vec<String>)
        ensures
            names@.map_values(|s: String| s@) == keys_of(self@),
            forall|i: int, j: int|
                0 <= i < j < names@.len() ==> str_lt(#[trigger] names@[i]@, #[trigger] names@[j]@),
    {
        proof {
            use_type_invariant(self);
        }
        let ghost keys = keys_of(self@);
        let mut names: Vec<String> = Vec::new();
        let n = self.entries.len();
        let mut i: usize = 0;
        while i < n
            invariant
                n == self@.len(),
                keys == keys_of(self@),
                i <= n,
                names@.map_values(|s: String| s@) == keys.take(i as int),
            decreases n - i,
        {
            let ghost before = names@;
            let name = self.entries[i].0.clone();
            names.push(name);
            proof {
                assert(keys[i as int] == self@[i as int].0);
                assert(names@ == before.push(name));
                assert(keys.take(i + 1) =~= keys.take(i as int).push(keys[i as int]));
                assert(names@.map_values(|s: String| s@) =~= keys.take(i + 1));
            }
            i = i + 1;
        }
        proof {
            assert(keys.take(n as int) =~= keys);
            assert forall|a: int, b: int| 0 <= a < b < names@.len() implies str_lt(
                #[trigger] names@[a]@,
                #[trigger] names@[b]@,
            ) by {
                assert(names@[a]@ == keys[a]);
                assert(names@[b]@ == keys[b]);
                assert(str_lt(self@[a].0, self@[b].0));
            };
        }
        names
    }

    /// The value under `key`, if any.
    pub fn get(&self, key: &str) -> (r: Option<&V>)
        ensures
            r is Some <==> as_map(self@).contains_key(key@),
            r matches Some(v) ==> *v == as_map(self@)[key@],
    {
        proof {
            use_type_invariant(self);
        }
        match self.find(key) {
            Some(i) => {
                proof {
                    lemma_index_of_unique(self@, key@, i as int);
                }
                Some(&self.entries[i].1)
            },
            None => None,
        }
    }

    /// Replaces the value of the entry at position `i` and hands back the
    /// value it had.
    pub fn replace_value_at(&mut self, i: usize, value: V) -> (previous: V)
        requires
            i < old(self)@.len(),
        ensures
            sorted_keys(final(self)@),
            previous == old(self)@[i as int].1,
            final(self)@ == old(self)@.update(i as int, (old(self)@[i as int].0, value)),
            final(self)@ == insert_spec(old(self)@, old(self)@[i as int].0, value),
            as_map(final(self)@) == as_map(old(self)@).insert(old(self)@[i as int].0, value),
    {
        proof {
            use_type_invariant(&*self);
        }
        let ghost s = self@;
        let ghost k = s[i as int].0;
        let mut entries: Vec<(String, V)> = Vec::new();
        std::mem::swap(&mut entries, &mut self.entries);
        let (key, previous) = entries.remove(i);
        entries.insert(i, (key, value));
        proof {
            assert(entry_views(entries@) =~= s.update(i as int, (k, value)));
            assert(s[i as int].0 == k);
            lemma_index_of_unique(s, k, i as int);
            lemma_insert_as_map(s, k, value);
            assert forall|a: int, b: int| 0 <= a < b < entry_views(entries@).len() implies str_lt(
                #[trigger] entry_views(entries@)[a].0,
                #[trigger] entry_views(entries@)[b].0,
            ) by {
                assert(str_lt(s[a].0, s[b].0));
            };
        }
        self.entries = entries;
        previous
    }
}

} // verus!
