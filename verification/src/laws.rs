//! The store's governing laws, stated over the model and proved once for
//! all contents, capacities, keys and values.

use vstd::prelude::*;
use crate::codec::{
    encodable, encode_record, encode_store, has_char, lemma_first_occ_at, lines_of, parse_line,
    parsed_records, records_of_lines,
};
use crate::model::{
    Entry, distinct_keys, first_key, has_key, lemma_drop_first_distinct, lemma_first_key_bound,
    lemma_has_key_exists, lemma_push_fresh_distinct, lemma_remove_push_distinct, put_spec,
    replay, value_of, wf_model,
};

verus! {

/// Capacity invariant: an insertion into a well-formed store yields a
/// well-formed store, so however many `put` calls are made, the resident
/// entry count never exceeds the capacity.
pub proof fn lemma_capacity_invariant(s: Seq<Entry>, cap: nat, k: Seq<char>, v: Seq<char>)
    requires
        wf_model(s, cap),
    ensures
        wf_model(put_spec(s, cap, k, v), cap),
        put_spec(s, cap, k, v).len() <= cap,
{
    if has_key(s, k) {
        lemma_first_key_bound(s, k);
        lemma_remove_push_distinct(s, first_key(s, k) as int, (k, v));
    } else if s.len() >= cap {
        lemma_drop_first_distinct(s, k);
        lemma_push_fresh_distinct(s.drop_first(), k, v);
    } else {
        lemma_push_fresh_distinct(s, k, v);
    }
}

/// Recency invariant: a capacity-triggered insertion evicts exactly the
/// least recently used key, the front of the recency order. After it, the
/// front key is no longer resident, the new key is, and every other
/// previously resident key still is.
pub proof fn lemma_eviction_takes_lru(s: Seq<Entry>, cap: nat, k: Seq<char>, v: Seq<char>)
    requires
        wf_model(s, cap),
        s.len() == cap,
        !has_key(s, k),
    ensures
        !has_key(put_spec(s, cap, k, v), s[0].0),
        has_key(put_spec(s, cap, k, v), k),
        forall|j: int| 1 <= j < s.len() ==> has_key(put_spec(s, cap, k, v), s[j].0),
{
    let s2 = put_spec(s, cap, k, v);
    lemma_has_key_exists(s, k);
    lemma_has_key_exists(s2, s[0].0);
    lemma_has_key_exists(s2, k);
    assert(s2 == s.drop_first().push((k, v)));
    if has_key(s2, s[0].0) {
        let i = choose|i: int| 0 <= i < s2.len() && s2[i].0 == s[0].0;
        if i < s2.len() - 1 {
            assert(s2[i] == s[i + 1]);
        } else {
            assert(s2[i] == (k, v));
            assert(s[0].0 != k);
        }
        assert(false);
    }
    assert(s2[s2.len() - 1] == (k, v));
    assert forall|j: int| 1 <= j < s.len() implies has_key(s2, s[j].0) by {
        assert(s2[j - 1] == s[j]);
        lemma_has_key_exists(s2, s[j].0);
    }
}

/// Update is not insert: an insertion whose key is already resident never
/// evicts and never changes the occupancy count — exactly the keys
/// resident before are resident after.
pub proof fn lemma_update_is_not_insert(s: Seq<Entry>, cap: nat, k: Seq<char>, v: Seq<char>)
    requires
        wf_model(s, cap),
        has_key(s, k),
    ensures
        put_spec(s, cap, k, v).len() == s.len(),
        forall|x: Seq<char>| has_key(put_spec(s, cap, k, v), x) <==> has_key(s, x),
{
    let i = first_key(s, k) as int;
    lemma_first_key_bound(s, k);
    let s2 = put_spec(s, cap, k, v);
    s.remove_ensures(i);
    assert(s2 == s.remove(i).push((k, v)));
    assert(s2.len() == s.len());
    assert forall|x: Seq<char>| has_key(s2, x) <==> has_key(s, x) by {
        lemma_has_key_exists(s, x);
        lemma_has_key_exists(s2, x);
        if has_key(s, x) {
            let a = choose|a: int| 0 <= a < s.len() && s[a].0 == x;
            if a == i {
                assert(s2[s2.len() - 1].0 == k);
            } else if a < i {
                assert(s2[a] == s.remove(i)[a]);
                assert(s2[a] == s[a]);
            } else {
                assert(s2[a - 1] == s.remove(i)[a - 1]);
                assert(s2[a - 1] == s[a]);
            }
        }
        if has_key(s2, x) {
            let a = choose|a: int| 0 <= a < s2.len() && s2[a].0 == x;
            if a == s2.len() - 1 {
                assert(s2[a] == (k, v));
                assert(s[i].0 == k);
            } else if a < i {
                assert(s2[a] == s[a]);
            } else {
                assert(s2[a] == s[a + 1]);
            }
        }
    }
}

/// One encoded record parses back to the key and value it was made from,
/// when the key holds no colon and no newline and the value no newline.
pub proof fn lemma_parse_encode_record(k: Seq<char>, v: Seq<char>)
    requires
        !has_char(k, ':'),
        !has_char(k, '\n'),
        !has_char(v, '\n'),
    ensures
        parse_line(k + seq![':'] + v) == Some((k, v)),
{
    let line = k + seq![':'] + v;
    assert(line.len() == k.len() + 1 + v.len());
    assert(line[k.len() as int] == ':');
    assert forall|t: int| 0 <= t < k.len() implies line[t] != ':' by {
        assert(line[t] == k[t]);
    }
    lemma_first_occ_at(line, ':', k.len() as int);
    assert(line.take(k.len() as int) =~= k);
    assert(line.skip(k.len() as int + 1) =~= v);
}

/// The encoding of an entry followed by more text splits into the entry's
/// line followed by the lines of the rest.
pub proof fn lemma_lines_of_encode(k: Seq<char>, v: Seq<char>, rest: Seq<char>)
    requires
        !has_char(k, '\n'),
        !has_char(v, '\n'),
    ensures
        lines_of(encode_record(k, v) + rest) == seq![k + seq![':'] + v] + lines_of(rest),
{
    let s = encode_record(k, v) + rest;
    let j: nat = k.len() + 1 + v.len();
    assert(s[j as int] == '\n');
    assert forall|t: int| 0 <= t < j implies s[t] != '\n' by {
        if t < k.len() {
            assert(s[t] == k[t]);
        } else if t == k.len() {
            assert(s[t] == ':');
        } else {
            assert(s[t] == v[t - k.len() - 1]);
        }
    }
    lemma_first_occ_at(s, '\n', j as int);
    assert(lines_of(s) == seq![s.take(j as int)] + lines_of(s.skip(j as int + 1)));
    assert(s.take(j as int) =~= k + seq![':'] + v);
    assert(s.skip(j as int + 1) =~= rest);
}

/// Decoding inverts encoding: the records parsed out of an encoded store
/// are exactly its entries, in order.
pub proof fn lemma_decode_encode(s: Seq<Entry>)
    requires
        encodable(s),
    ensures
        parsed_records(encode_store(s)) == s,
    decreases s.len(),
{
    if s.len() == 0 {
        assert(parsed_records(encode_store(s)) =~= s);
    } else {
        let k = s[0].0;
        let v = s[0].1;
        assert(!has_char(k, ':') && !has_char(k, '\n') && !has_char(v, '\n'));
        assert forall|i: int| 0 <= i < s.drop_first().len() implies {
            &&& !has_char(#[trigger] s.drop_first()[i].0, ':')
            &&& !has_char(s.drop_first()[i].0, '\n')
            &&& !has_char(s.drop_first()[i].1, '\n')
        } by {
            assert(s.drop_first()[i] == s[i + 1]);
        }
        lemma_lines_of_encode(k, v, encode_store(s.drop_first()));
        lemma_parse_encode_record(k, v);
        lemma_decode_encode(s.drop_first());
        let line = k + seq![':'] + v;
        let ls = seq![line] + lines_of(encode_store(s.drop_first()));
        assert(ls[0] == line);
        assert(ls.drop_first() =~= lines_of(encode_store(s.drop_first())));
        assert(records_of_lines(ls) == seq![(k, v)] + records_of_lines(ls.drop_first()));
        assert(seq![(k, v)] + s.drop_first() =~= s);
    }
}

/// Replaying records with pairwise-distinct fresh keys into a store with
/// room for all of them appends them in order, with no eviction.
pub proof fn lemma_replay_fresh(s0: Seq<Entry>, cap: nat, recs: Seq<Entry>)
    requires
        0 < cap,
        s0.len() + recs.len() <= cap,
        distinct_keys(s0 + recs),
    ensures
        replay(s0, cap, recs) == s0 + recs,
    decreases recs.len(),
{
    if recs.len() == 0 {
        assert(s0 + recs =~= s0);
    } else {
        let r = recs[0];
        lemma_has_key_exists(s0, r.0);
        if has_key(s0, r.0) {
            let a = choose|a: int| 0 <= a < s0.len() && s0[a].0 == r.0;
            assert((s0 + recs)[a] == s0[a]);
            assert((s0 + recs)[s0.len() as int] == r);
            assert(false);
        }
        assert((r.0, r.1) == r);
        assert(put_spec(s0, cap, r.0, r.1) == s0.push(r));
        assert(s0.push(r) + recs.drop_first() =~= s0 + recs);
        lemma_replay_fresh(s0.push(r), cap, recs.drop_first());
    }
}

/// Round trip: exporting a well-formed, encodable store and importing the
/// snapshot into an empty store of equal or greater capacity restores the
/// contents exactly, so every resident key looks up to the same value as
/// before the export.
pub proof fn lemma_round_trip(s: Seq<Entry>, cap2: nat)
    requires
        distinct_keys(s),
        encodable(s),
        s.len() <= cap2,
        0 < cap2,
    ensures
        replay(Seq::<Entry>::empty(), cap2, parsed_records(encode_store(s))) == s,
        forall|k: Seq<char>|
            has_key(s, k) ==> value_of(
                replay(Seq::<Entry>::empty(), cap2, parsed_records(encode_store(s))),
                k,
            ) == value_of(s, k),
{
    lemma_decode_encode(s);
    assert(Seq::<Entry>::empty() + s =~= s);
    lemma_replay_fresh(Seq::<Entry>::empty(), cap2, s);
}

} // verus!
