//! Mathematical model of the bounded LRU store.
//!
//! A store's contents are a sequence of key/value pairs in recency order:
//! the entry at index `0` is the least recently used, the entry at the back
//! is the most recently used. Keys and values are character sequences.

use vstd::prelude::*;

verus! {

/// One resident entry: a key and its value.
pub type Entry = (Seq<char>, Seq<char>);

/// Index of the first entry of `s` whose key is `k`, or `s.len()` if no
/// entry has that key.
pub open spec fn first_key(s: Seq<Entry>, k: Seq<char>) -> nat
    decreases s.len(),
{
    if s.len() == 0 {
        0
    } else if s[0].0 == k {
        0
    } else {
        (1 + first_key(s.drop_first(), k)) as nat
    }
}

/// Whether some entry of `s` has key `k` (the key is resident).
pub open spec fn has_key(s: Seq<Entry>, k: Seq<char>) -> bool {
    first_key(s, k) < s.len()
}

/// The value stored under `k`; meaningful only when `has_key(s, k)`.
pub open spec fn value_of(s: Seq<Entry>, k: Seq<char>) -> Seq<char> {
    s[first_key(s, k) as int].1
}

/// Move the entry with key `k` to the most-recently-used end, keeping its
/// value; meaningful only when `has_key(s, k)`.
pub open spec fn promote(s: Seq<Entry>, k: Seq<char>) -> Seq<Entry> {
    let i = first_key(s, k) as int;
    s.remove(i).push(s[i])
}

/// Effect of `put(k, v)` on contents `s` under capacity `cap`:
/// an already-resident key is updated in place and promoted; a new key on a
/// full store first evicts the least recently used entry (the front); a new
/// key on a store below capacity is appended. In every case the key ends at
/// the most-recently-used end.
pub open spec fn put_spec(s: Seq<Entry>, cap: nat, k: Seq<char>, v: Seq<char>) -> Seq<Entry> {
    if has_key(s, k) {
        s.remove(first_key(s, k) as int).push((k, v))
    } else if s.len() >= cap {
        s.drop_first().push((k, v))
    } else {
        s.push((k, v))
    }
}

/// Replay `records` front to back through `put_spec`, starting from `s`.
/// This is the meaning of an import: records are inserted in file order, so
/// later records may evict earlier ones.
pub open spec fn replay(s: Seq<Entry>, cap: nat, records: Seq<Entry>) -> Seq<Entry>
    decreases records.len(),
{
    if records.len() == 0 {
        s
    } else {
        replay(put_spec(s, cap, records[0].0, records[0].1), cap, records.drop_first())
    }
}

/// No two entries of `s` share a key.
pub open spec fn distinct_keys(s: Seq<Entry>) -> bool {
    forall|i: int, j: int| 0 <= i < j < s.len() ==> s[i].0 != s[j].0
}

/// Well-formed contents for capacity `cap`: the capacity is positive, the
/// resident count never exceeds it, and each key is resident at most once.
pub open spec fn wf_model(s: Seq<Entry>, cap: nat) -> bool {
    &&& 0 < cap
    &&& s.len() <= cap
    &&& distinct_keys(s)
}

/// `first_key` is at most `s.len()`, lands on an entry with key `k` when it
/// is a proper index, and no earlier entry has key `k`.
pub proof fn lemma_first_key_bound(s: Seq<Entry>, k: Seq<char>)
    ensures
        first_key(s, k) <= s.len(),
        first_key(s, k) < s.len() ==> s[first_key(s, k) as int].0 == k,
        forall|i: int| 0 <= i < first_key(s, k) ==> s[i].0 != k,
    decreases s.len(),
{
    if s.len() == 0 {
    } else if s[0].0 == k {
    } else {
        lemma_first_key_bound(s.drop_first(), k);
        assert forall|i: int| 0 <= i < first_key(s, k) implies s[i].0 != k by {
            if i > 0 {
                assert(s.drop_first()[i - 1] == s[i]);
            }
        }
    }
}

/// `first_key` is exactly the index of the first entry with key `k`.
pub proof fn lemma_first_key_at(s: Seq<Entry>, k: Seq<char>, j: int)
    requires
        0 <= j < s.len(),
        s[j].0 == k,
        forall|i: int| 0 <= i < j ==> s[i].0 != k,
    ensures
        first_key(s, k) == j,
{
    lemma_first_key_bound(s, k);
    if first_key(s, k) < j {
        assert(s[first_key(s, k) as int].0 == k);
    } else if first_key(s, k) > j {
        assert(s[j].0 != k);
    }
}

/// A key is resident exactly when some entry carries it.
pub proof fn lemma_has_key_exists(s: Seq<Entry>, k: Seq<char>)
    ensures
        has_key(s, k) <==> exists|i: int| 0 <= i < s.len() && s[i].0 == k,
{
    lemma_first_key_bound(s, k);
    if has_key(s, k) {
        assert(s[first_key(s, k) as int].0 == k);
    }
}

/// Removing the entry at `i` and appending an entry with the same key
/// keeps keys distinct and the length unchanged.
pub proof fn lemma_remove_push_distinct(s: Seq<Entry>, i: int, e: Entry)
    requires
        distinct_keys(s),
        0 <= i < s.len(),
        e.0 == s[i].0,
    ensures
        distinct_keys(s.remove(i).push(e)),
        s.remove(i).push(e).len() == s.len(),
{
    let s2 = s.remove(i).push(e);
    s.remove_ensures(i);
    assert forall|a: int, b: int| 0 <= a < b < s2.len() implies s2[a].0 != s2[b].0 by {
        let ma = if a < i { a } else { a + 1 };
        assert(s2[a] == s[ma]);
        if b < s.len() - 1 {
            let mb = if b < i { b } else { b + 1 };
            assert(s2[b] == s[mb]);
        } else {
            assert(s2[b] == e);
            if ma < i {
                assert(s[ma].0 != s[i].0);
            } else {
                assert(s[i].0 != s[ma].0);
            }
        }
    }
}

/// Appending an entry with a key that is not resident keeps keys distinct.
pub proof fn lemma_push_fresh_distinct(s: Seq<Entry>, k: Seq<char>, v: Seq<char>)
    requires
        distinct_keys(s),
        !has_key(s, k),
    ensures
        distinct_keys(s.push((k, v))),
{
    lemma_has_key_exists(s, k);
}

/// Dropping the front entry keeps keys distinct, and a key that is not
/// resident stays not resident.
pub proof fn lemma_drop_first_distinct(s: Seq<Entry>, k: Seq<char>)
    requires
        distinct_keys(s),
        !has_key(s, k),
        s.len() > 0,
    ensures
        distinct_keys(s.drop_first()),
        !has_key(s.drop_first(), k),
{
    lemma_has_key_exists(s, k);
    lemma_has_key_exists(s.drop_first(), k);
    assert forall|a: int, b: int|
        0 <= a < b < s.drop_first().len() implies s.drop_first()[a].0 != s.drop_first()[b].0 by {
        assert(s.drop_first()[a] == s[a + 1]);
        assert(s.drop_first()[b] == s[b + 1]);
    }
    if has_key(s.drop_first(), k) {
        let i = choose|i: int| 0 <= i < s.drop_first().len() && s.drop_first()[i].0 == k;
        assert(s[i + 1].0 == k);
    }
}

/// Promotion of a resident key preserves well-formedness and occupancy.
pub proof fn lemma_promote_wf(s: Seq<Entry>, cap: nat, k: Seq<char>)
    requires
        wf_model(s, cap),
        has_key(s, k),
    ensures
        wf_model(promote(s, k), cap),
        promote(s, k).len() == s.len(),
{
    lemma_first_key_bound(s, k);
    let i = first_key(s, k) as int;
    lemma_remove_push_distinct(s, i, s[i]);
}

/// Replaying one more record is one more `put_spec` at the end.
pub proof fn lemma_replay_push(s: Seq<Entry>, cap: nat, records: Seq<Entry>, r: Entry)
    ensures
        replay(s, cap, records.push(r)) == put_spec(replay(s, cap, records), cap, r.0, r.1),
    decreases records.len(),
{
    if records.len() == 0 {
        assert(records.push(r)[0] == r);
        assert(records.push(r).drop_first() =~= records);
        assert(replay(s, cap, records.push(r)) == replay(put_spec(s, cap, r.0, r.1), cap, records));
        assert(replay(put_spec(s, cap, r.0, r.1), cap, records) == put_spec(s, cap, r.0, r.1));
        assert(replay(s, cap, records) == s);
    } else {
        assert(records.push(r)[0] == records[0]);
        assert(records.push(r).drop_first() =~= records.drop_first().push(r));
        lemma_replay_push(
            put_spec(s, cap, records[0].0, records[0].1),
            cap,
            records.drop_first(),
            r,
        );
        assert(replay(s, cap, records.push(r)) == replay(
            put_spec(s, cap, records[0].0, records[0].1),
            cap,
            records.drop_first().push(r),
        ));
    }
}

} // verus!
