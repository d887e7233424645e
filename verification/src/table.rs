//! Keyed rows in a fixed order: the model of the registry's two maps.
//!
//! A table is a sequence of rows, each a key and a value, in which no key
//! occurs twice. A new key goes to the end; a key that is written again keeps
//! its place. The order is the order in which the rows are walked.

use vstd::prelude::*;
use crate::types::{BlockNumber, LockPeriod};

verus! {

/// A value that is in force for a lock period.
pub trait Timed {
    /// The period for which the value is in force.
    spec fn period(&self) -> LockPeriod;
}

impl Timed for LockPeriod {
    open spec fn period(&self) -> LockPeriod {
        *self
    }
}

/// Some row of `rows` has the key.
pub open spec fn has_key<K, V>(rows: Seq<(K, V)>, key: K) -> bool {
    exists|i: int| 0 <= i < rows.len() && (#[trigger] rows[i]).0 == key
}

/// The place of a row with the key, where there is one.
pub open spec fn index_of<K, V>(rows: Seq<(K, V)>, key: K) -> int {
    choose|i: int| 0 <= i < rows.len() && (#[trigger] rows[i]).0 == key
}

/// No key occurs in two rows.
pub open spec fn distinct_keys<K, V>(rows: Seq<(K, V)>) -> bool {
    forall|i: int, j: int|
        0 <= i < rows.len() && 0 <= j < rows.len() && i != j ==> (#[trigger] rows[i]).0
            != (#[trigger] rows[j]).0
}

/// The value stored under the key.
pub open spec fn lookup<K, V>(rows: Seq<(K, V)>, key: K) -> Option<V> {
    if has_key(rows, key) {
        Some(rows[index_of(rows, key)].1)
    } else {
        None
    }
}

/// The table after `value` is stored under `key`: in the key's row where there
/// is one, else in a new last row.
pub open spec fn put<K, V>(rows: Seq<(K, V)>, key: K, value: V) -> Seq<(K, V)> {
    if has_key(rows, key) {
        rows.update(index_of(rows, key), (key, value))
    } else {
        rows.push((key, value))
    }
}

/// The table without the key's row.
pub open spec fn without<K, V>(rows: Seq<(K, V)>, key: K) -> Seq<(K, V)> {
    if has_key(rows, key) {
        rows.remove(index_of(rows, key))
    } else {
        rows
    }
}

/// The table without the rows of all the given keys.
pub open spec fn without_all<K, V>(rows: Seq<(K, V)>, keys: Seq<K>) -> Seq<(K, V)>
    decreases rows.len(),
{
    if rows.len() == 0 {
        rows
    } else if keys.contains(rows.last().0) {
        without_all(rows.drop_last(), keys)
    } else {
        without_all(rows.drop_last(), keys).push(rows.last())
    }
}

/// The rows whose period ends after block `n`, in their order.
pub open spec fn kept<K, V: Timed>(rows: Seq<(K, V)>, n: BlockNumber) -> Seq<(K, V)>
    decreases rows.len(),
{
    if rows.len() == 0 {
        rows
    } else if rows.last().1.period().end > n {
        kept(rows.drop_last(), n).push(rows.last())
    } else {
        kept(rows.drop_last(), n)
    }
}

/// The rows whose period ends at block `n` or before, in their order.
pub open spec fn expired<K, V: Timed>(rows: Seq<(K, V)>, n: BlockNumber) -> Seq<(K, V)>
    decreases rows.len(),
{
    if rows.len() == 0 {
        rows
    } else if rows.last().1.period().end <= n {
        expired(rows.drop_last(), n).push(rows.last())
    } else {
        expired(rows.drop_last(), n)
    }
}

/// The keys of the rows, in their order.
pub open spec fn keys_of<K, V>(rows: Seq<(K, V)>) -> Seq<K> {
    Seq::new(rows.len(), |i: int| rows[i].0)
}

/// In a table, the row that holds a key is the only one.
pub proof fn lemma_index_of<K, V>(rows: Seq<(K, V)>, key: K, i: int)
    requires
        distinct_keys(rows),
        0 <= i < rows.len(),
        rows[i].0 == key,
    ensures
        has_key(rows, key),
        index_of(rows, key) == i,
        lookup(rows, key) == Some(rows[i].1),
{
}

/// Storing a value keeps the keys distinct.
pub proof fn lemma_put_distinct<K, V>(rows: Seq<(K, V)>, key: K, value: V)
    requires
        distinct_keys(rows),
    ensures
        distinct_keys(put(rows, key, value)),
{
    let after = put(rows, key, value);
    if has_key(rows, key) {
        let at = index_of(rows, key);
        assert forall|i: int, j: int|
            0 <= i < after.len() && 0 <= j < after.len() && i != j implies (#[trigger] after[i]).0
            != (#[trigger] after[j]).0 by {
            assert(after[i].0 == rows[i].0);
            assert(after[j].0 == rows[j].0);
        }
    } else {
        assert forall|i: int, j: int|
            0 <= i < after.len() && 0 <= j < after.len() && i != j implies (#[trigger] after[i]).0
            != (#[trigger] after[j]).0 by {
            if i < rows.len() {
                assert(after[i] == rows[i]);
            }
            if j < rows.len() {
                assert(after[j] == rows[j]);
            }
        }
    }
}

/// Taking a row out keeps the keys distinct.
pub proof fn lemma_without_distinct<K, V>(rows: Seq<(K, V)>, key: K)
    requires
        distinct_keys(rows),
    ensures
        distinct_keys(without(rows, key)),
{
    let after = without(rows, key);
    if has_key(rows, key) {
        let at = index_of(rows, key);
        assert forall|i: int, j: int|
            0 <= i < after.len() && 0 <= j < after.len() && i != j implies (#[trigger] after[i]).0
            != (#[trigger] after[j]).0 by {
            let oi = if i < at { i } else { i + 1 };
            let oj = if j < at { j } else { j + 1 };
            assert(after[i] == rows[oi]);
            assert(after[j] == rows[oj]);
        }
    }
}

/// What is stored under a key after a value was stored: the value under its
/// own key, and under any other key what was there before.
pub proof fn lemma_lookup_put<K, V>(rows: Seq<(K, V)>, key: K, value: V, other: K)
    requires
        distinct_keys(rows),
    ensures
        lookup(put(rows, key, value), other) == (if other == key {
            Some(value)
        } else {
            lookup(rows, other)
        }),
{
    let after = put(rows, key, value);
    lemma_put_distinct(rows, key, value);
    let at = if has_key(rows, key) {
        index_of(rows, key)
    } else {
        rows.len() as int
    };
    assert(after[at] == (key, value));
    if other == key {
        lemma_index_of(after, key, at);
    } else if has_key(rows, other) {
        let o = index_of(rows, other);
        assert(after[o] == rows[o]);
        lemma_index_of(after, other, o);
    } else {
        if has_key(after, other) {
            let o = index_of(after, other);
            assert(o != at);
            assert(after[o] == rows[o]);
        }
    }
}

/// What is stored under a key after a row was taken out: nothing under the
/// row's key, and under any other key what was there before.
pub proof fn lemma_lookup_without<K, V>(rows: Seq<(K, V)>, key: K, other: K)
    requires
        distinct_keys(rows),
    ensures
        lookup(without(rows, key), other) == (if other == key {
            None::<V>
        } else {
            lookup(rows, other)
        }),
{
    let after = without(rows, key);
    lemma_without_distinct(rows, key);
    if has_key(rows, key) {
        let at = index_of(rows, key);
        assert forall|i: int| 0 <= i < after.len() implies after[i] == rows[if i < at {
            i
        } else {
            i + 1
        }] by {}
        if other == key {
            if has_key(after, key) {
                let o = index_of(after, key);
                let oo = if o < at { o } else { o + 1 };
                assert(after[o] == rows[oo]);
                assert(rows[oo].0 == rows[at].0);
            }
        } else if has_key(rows, other) {
            let o = index_of(rows, other);
            let a = if o < at { o } else { o - 1 };
            assert(after[a] == rows[o]);
            lemma_index_of(after, other, a);
        } else {
            if has_key(after, other) {
                let o = index_of(after, other);
                let oo = if o < at { o } else { o + 1 };
                assert(after[o] == rows[oo]);
            }
        }
    }
}

/// Every row that is left after rows were taken out was there before, and its
/// key is none of those taken out.
pub proof fn lemma_without_all_rows<K, V>(rows: Seq<(K, V)>, keys: Seq<K>)
    ensures
        forall|i: int|
            0 <= i < without_all(rows, keys).len() ==> rows.contains(
                #[trigger] without_all(rows, keys)[i],
            ) && !keys.contains(without_all(rows, keys)[i].0),
        forall|i: int|
            0 <= i < rows.len() && !keys.contains(rows[i].0) ==> without_all(rows, keys).contains(
                #[trigger] rows[i],
            ),
        distinct_keys(rows) ==> distinct_keys(without_all(rows, keys)),
    decreases rows.len(),
{
    let after = without_all(rows, keys);
    if rows.len() > 0 {
        let front = rows.drop_last();
        let before = without_all(front, keys);
        lemma_without_all_rows(front, keys);
        assert forall|i: int| 0 <= i < after.len() implies rows.contains(#[trigger] after[i])
            && !keys.contains(after[i].0) by {
            if i < before.len() {
                assert(after[i] == before[i]);
                assert(front.contains(before[i]));
                let j = choose|j: int| 0 <= j < front.len() && front[j] == before[i];
                assert(rows[j] == after[i]);
            } else {
                assert(after[i] == rows[rows.len() - 1]);
            }
        }
        assert forall|i: int|
            0 <= i < rows.len() && !keys.contains(rows[i].0) implies after.contains(
            #[trigger] rows[i],
        ) by {
            if i < front.len() {
                assert(front[i] == rows[i]);
                assert(before.contains(front[i]));
                let j = choose|j: int| 0 <= j < before.len() && before[j] == front[i];
                assert(after[j] == rows[i]);
            } else {
                assert(after[after.len() - 1] == rows[i]);
            }
        }
        if distinct_keys(rows) {
            assert(distinct_keys(front)) by {
                assert forall|i: int, j: int|
                    0 <= i < front.len() && 0 <= j < front.len() && i != j implies (
                #[trigger] front[i]).0 != (#[trigger] front[j]).0 by {
                    assert(front[i] == rows[i]);
                    assert(front[j] == rows[j]);
                }
            }
            assert forall|i: int, j: int|
                0 <= i < after.len() && 0 <= j < after.len() && i != j implies (
            #[trigger] after[i]).0 != (#[trigger] after[j]).0 by {
                if i < before.len() && j < before.len() {
                    assert(after[i] == before[i]);
                    assert(after[j] == before[j]);
                } else {
                    let (low, high) = if i < j { (i, j) } else { (j, i) };
                    assert(after[high] == rows[rows.len() - 1]);
                    assert(after[low] == before[low]);
                    assert(front.contains(before[low]));
                    let o = choose|o: int| 0 <= o < front.len() && front[o] == before[low];
                    assert(rows[o] == after[low]);
                }
            }
        }
    }
}

/// Taking out keys that no row has changes nothing.
pub proof fn lemma_without_all_absent<K, V>(rows: Seq<(K, V)>, keys: Seq<K>)
    requires
        forall|i: int| 0 <= i < rows.len() ==> !keys.contains((#[trigger] rows[i]).0),
    ensures
        without_all(rows, keys) == rows,
    decreases rows.len(),
{
    if rows.len() > 0 {
        let front = rows.drop_last();
        assert forall|i: int| 0 <= i < front.len() implies !keys.contains(
            (#[trigger] front[i]).0,
        ) by {
            assert(front[i] == rows[i]);
        }
        lemma_without_all_absent(front, keys);
        assert(rows.last() == rows[rows.len() - 1]);
        assert(front.push(rows.last()) =~= rows);
    }
}

/// Which rows are taken out depends only on which of the table's own keys are
/// among those given.
pub proof fn lemma_without_all_same<K, V>(rows: Seq<(K, V)>, keys: Seq<K>, others: Seq<K>)
    requires
        forall|i: int|
            0 <= i < rows.len() ==> keys.contains((#[trigger] rows[i]).0) == others.contains(
                rows[i].0,
            ),
    ensures
        without_all(rows, keys) == without_all(rows, others),
    decreases rows.len(),
{
    if rows.len() > 0 {
        let front = rows.drop_last();
        assert forall|i: int| 0 <= i < front.len() implies keys.contains(
            (#[trigger] front[i]).0,
        ) == others.contains(front[i].0) by {
            assert(front[i] == rows[i]);
        }
        lemma_without_all_same(front, keys, others);
        assert(rows.last() == rows[rows.len() - 1]);
    }
}

/// Taking out one key is taking out its row.
pub proof fn lemma_without_one<K, V>(rows: Seq<(K, V)>, key: K)
    requires
        distinct_keys(rows),
    ensures
        without_all(rows, seq![key]) == without(rows, key),
    decreases rows.len(),
{
    let only = seq![key];
    assert(only[0] == key);
    assert forall|k: K| only.contains(k) <==> k == key by {
        if k == key {
            assert(only[0] == k);
        }
    }
    if rows.len() > 0 {
        let front = rows.drop_last();
        let last = rows.last();
        assert(last == rows[rows.len() - 1]);
        assert(distinct_keys(front)) by {
            assert forall|i: int, j: int|
                0 <= i < front.len() && 0 <= j < front.len() && i != j implies (
            #[trigger] front[i]).0 != (#[trigger] front[j]).0 by {
                assert(front[i] == rows[i]);
                assert(front[j] == rows[j]);
            }
        }
        lemma_without_one(front, key);
        if last.0 == key {
            lemma_index_of(rows, key, rows.len() - 1);
            assert forall|i: int| 0 <= i < front.len() implies !only.contains(
                (#[trigger] front[i]).0,
            ) by {
                assert(front[i] == rows[i]);
            }
            lemma_without_all_absent(front, only);
            assert(rows.remove(rows.len() - 1) =~= front);
        } else {
            if has_key(front, key) {
                let at = index_of(front, key);
                assert(rows[at] == front[at]);
                lemma_index_of(rows, key, at);
                assert(rows.remove(at) =~= front.remove(at).push(last));
            } else {
                if has_key(rows, key) {
                    let at = index_of(rows, key);
                    assert(front[at] == rows[at]);
                }
                assert(front.push(last) =~= rows);
            }
        }
    }
}

/// Taking out some keys and then others is taking out all of them.
pub proof fn lemma_without_all_twice<K, V>(rows: Seq<(K, V)>, keys: Seq<K>, more: Seq<K>)
    ensures
        without_all(without_all(rows, keys), more) == without_all(rows, keys + more),
    decreases rows.len(),
{
    let all = keys + more;
    assert forall|k: K| all.contains(k) <==> keys.contains(k) || more.contains(k) by {
        if keys.contains(k) {
            let i = choose|i: int| 0 <= i < keys.len() && keys[i] == k;
            assert(all[i] == k);
        }
        if more.contains(k) {
            let i = choose|i: int| 0 <= i < more.len() && more[i] == k;
            assert(all[keys.len() + i] == k);
        }
        if all.contains(k) {
            let i = choose|i: int| 0 <= i < all.len() && all[i] == k;
            if i < keys.len() {
                assert(keys[i] == k);
            } else {
                assert(more[i - keys.len()] == k);
            }
        }
    }
    if rows.len() > 0 {
        let front = rows.drop_last();
        let last = rows.last();
        lemma_without_all_twice(front, keys, more);
        if !keys.contains(last.0) {
            let once = without_all(front, keys).push(last);
            assert(once.drop_last() =~= without_all(front, keys));
            assert(once.last() == last);
        }
    }
}

/// The rows that are kept are rows of the table, and their periods end after
/// block `n`.
pub proof fn lemma_kept_rows<K, V: Timed>(rows: Seq<(K, V)>, n: BlockNumber)
    ensures
        forall|i: int|
            0 <= i < kept(rows, n).len() ==> rows.contains(#[trigger] kept(rows, n)[i]) && kept(
                rows,
                n,
            )[i].1.period().end > n,
    decreases rows.len(),
{
    let after = kept(rows, n);
    if rows.len() > 0 {
        let front = rows.drop_last();
        let before = kept(front, n);
        lemma_kept_rows(front, n);
        assert forall|i: int| 0 <= i < after.len() implies rows.contains(#[trigger] after[i])
            && after[i].1.period().end > n by {
            if i < before.len() {
                assert(after[i] == before[i]);
                assert(front.contains(before[i]));
                let j = choose|j: int| 0 <= j < front.len() && front[j] == before[i];
                assert(rows[j] == after[i]);
            } else {
                assert(after[i] == rows[rows.len() - 1]);
            }
        }
    }
}

/// No row whose period ends after block `n` is lost.
pub proof fn lemma_kept_all<K, V: Timed>(rows: Seq<(K, V)>, n: BlockNumber)
    ensures
        forall|i: int|
            0 <= i < rows.len() && rows[i].1.period().end > n ==> kept(rows, n).contains(
                #[trigger] rows[i],
            ),
    decreases rows.len(),
{
    let after = kept(rows, n);
    if rows.len() > 0 {
        let front = rows.drop_last();
        let before = kept(front, n);
        lemma_kept_all(front, n);
        assert forall|i: int|
            0 <= i < rows.len() && rows[i].1.period().end > n implies after.contains(
            #[trigger] rows[i],
        ) by {
            if i < front.len() {
                assert(front[i] == rows[i]);
                assert(before.contains(front[i]));
                let j = choose|j: int| 0 <= j < before.len() && before[j] == front[i];
                assert(after[j] == rows[i]);
            } else {
                assert(after[after.len() - 1] == rows[i]);
            }
        }
    }
}

/// The rows that have expired are rows of the table, and their periods end at
/// block `n` or before.
pub proof fn lemma_expired_rows<K, V: Timed>(rows: Seq<(K, V)>, n: BlockNumber)
    ensures
        forall|i: int|
            0 <= i < expired(rows, n).len() ==> rows.contains(#[trigger] expired(rows, n)[i])
                && expired(rows, n)[i].1.period().end <= n,
        forall|i: int|
            0 <= i < rows.len() && rows[i].1.period().end <= n ==> expired(rows, n).contains(
                #[trigger] rows[i],
            ),
    decreases rows.len(),
{
    let gone = expired(rows, n);
    if rows.len() > 0 {
        let front = rows.drop_last();
        let before = expired(front, n);
        lemma_expired_rows(front, n);
        assert forall|i: int| 0 <= i < gone.len() implies rows.contains(#[trigger] gone[i])
            && gone[i].1.period().end <= n by {
            if i < before.len() {
                assert(gone[i] == before[i]);
                assert(front.contains(before[i]));
                let j = choose|j: int| 0 <= j < front.len() && front[j] == before[i];
                assert(rows[j] == gone[i]);
            } else {
                assert(gone[i] == rows[rows.len() - 1]);
            }
        }
        assert forall|i: int|
            0 <= i < rows.len() && rows[i].1.period().end <= n implies gone.contains(
            #[trigger] rows[i],
        ) by {
            if i < front.len() {
                assert(front[i] == rows[i]);
                assert(before.contains(front[i]));
                let j = choose|j: int| 0 <= j < before.len() && before[j] == front[i];
                assert(gone[j] == rows[i]);
            } else {
                assert(gone[gone.len() - 1] == rows[i]);
            }
        }
    }
}

/// Taking the expired rows out by their keys leaves exactly the rows that are
/// kept.
pub proof fn lemma_sweep<K, V: Timed>(rows: Seq<(K, V)>, n: BlockNumber)
    requires
        distinct_keys(rows),
    ensures
        without_all(rows, keys_of(expired(rows, n))) == kept(rows, n),
    decreases rows.len(),
{
    if rows.len() > 0 {
        let front = rows.drop_last();
        let last = rows.last();
        assert(last == rows[rows.len() - 1]);
        assert(distinct_keys(front)) by {
            assert forall|i: int, j: int|
                0 <= i < front.len() && 0 <= j < front.len() && i != j implies (
            #[trigger] front[i]).0 != (#[trigger] front[j]).0 by {
                assert(front[i] == rows[i]);
                assert(front[j] == rows[j]);
            }
        }
        lemma_sweep(front, n);
        lemma_expired_rows(front, n);
        let gone_before = keys_of(expired(front, n));
        let gone = keys_of(expired(rows, n));
        // No row of the front has the last row's key.
        assert forall|i: int| 0 <= i < front.len() implies gone.contains(
            (#[trigger] front[i]).0,
        ) == gone_before.contains(front[i].0) by {
            assert(front[i] == rows[i]);
            if gone_before.contains(front[i].0) {
                let j = choose|j: int| 0 <= j < gone_before.len() && gone_before[j] == front[i].0;
                assert(expired(rows, n)[j] == expired(front, n)[j]);
                assert(gone[j] == front[i].0);
            }
            if gone.contains(front[i].0) {
                let j = choose|j: int| 0 <= j < gone.len() && gone[j] == front[i].0;
                if j < gone_before.len() {
                    assert(expired(rows, n)[j] == expired(front, n)[j]);
                    assert(gone_before[j] == front[i].0);
                } else {
                    assert(gone[j] == last.0);
                }
            }
        }
        lemma_without_all_same(front, gone, gone_before);
        if last.1.period().end <= n {
            assert(gone[gone.len() - 1] == last.0);
        } else {
            if gone.contains(last.0) {
                let j = choose|j: int| 0 <= j < gone.len() && gone[j] == last.0;
                let row = expired(front, n)[j];
                assert(front.contains(row));
                let o = choose|o: int| 0 <= o < front.len() && front[o] == row;
                assert(rows[o] == front[o]);
            }
        }
    }
}

/// Sweeping keeps the keys distinct.
pub proof fn lemma_kept_distinct<K, V: Timed>(rows: Seq<(K, V)>, n: BlockNumber)
    requires
        distinct_keys(rows),
    ensures
        distinct_keys(kept(rows, n)),
{
    lemma_sweep(rows, n);
    lemma_without_all_rows(rows, keys_of(expired(rows, n)));
}

/// After a sweep a key holds what it held, if that ends after block `n`, and
/// nothing else.
pub proof fn lemma_lookup_kept<K, V: Timed>(rows: Seq<(K, V)>, n: BlockNumber, key: K)
    requires
        distinct_keys(rows),
    ensures
        lookup(kept(rows, n), key) == (match lookup(rows, key) {
            Some(value) => if value.period().end > n {
                Some(value)
            } else {
                None
            },
            None => None,
        }),
{
    let after = kept(rows, n);
    lemma_kept_distinct(rows, n);
    lemma_kept_rows(rows, n);
    lemma_kept_all(rows, n);
    if has_key(after, key) {
        let a = index_of(after, key);
        assert(rows.contains(after[a]));
        let o = choose|o: int| 0 <= o < rows.len() && rows[o] == after[a];
        lemma_index_of(rows, key, o);
    } else if has_key(rows, key) {
        let o = index_of(rows, key);
        if rows[o].1.period().end > n {
            assert(after.contains(rows[o]));
            let a = choose|a: int| 0 <= a < after.len() && after[a] == rows[o];
            assert(after[a].0 == key);
        }
    }
}

} // verus!
