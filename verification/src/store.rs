//! The bounded LRU store and its operations.

use vstd::prelude::*;
use vstd::string::*;
use crate::codec::{
    encode_record, encode_store, lemma_encode_store_push, lemma_records_of_lines_push,
    parse_record, parsed_records, record_of_line, records_of_lines, split_lines, str_views,
};
use crate::model::{
    Entry, first_key, has_key, lemma_first_key_at, lemma_first_key_bound, lemma_promote_wf,
    lemma_replay_push, promote, put_spec, replay, value_of, wf_model,
};
use crate::laws::lemma_capacity_invariant;

verus! {

/// The model of a sequence of owned entries: each key and value as its
/// character sequence, in the same order.
pub open spec fn entry_views(entries: Seq<(String, String)>) -> Seq<Entry> {
    entries.map_values(|e: (String, String)| (e.0@, e.1@))
}

/// What a cache offers: keyed lookup that counts as a use, and insertion
/// with least-recently-used eviction.
pub trait CacheTrait: Sized {
    /// Resident entries in recency order: front least recently used, back
    /// most recently used.
    spec fn model(&self) -> Seq<Entry>;

    /// Maximum number of resident entries.
    spec fn cap(&self) -> nat;

    /// Structural well-formedness.
    spec fn inv(&self) -> bool;

    /// Look a key up. On a hit the entry is promoted to most recently used
    /// and its value returned; on a miss nothing changes.
    fn get(&mut self, key: &String) -> (result: Option<String>)
        requires
            old(self).inv(),
        ensures
            final(self).inv(),
            final(self).cap() == old(self).cap(),
            has_key(old(self).model(), key@) ==> final(self).model() == promote(
                old(self).model(),
                key@,
            ),
            has_key(old(self).model(), key@) ==> (result matches Some(v) && v@ == value_of(
                old(self).model(),
                key@,
            )),
            !has_key(old(self).model(), key@) ==> final(self).model() == old(self).model()
                && result is None,
    ;

    /// Insert or update a key. The key ends most recently used; a new key
    /// on a full store first evicts the least recently used entry.
    fn put(&mut self, key: String, value: String)
        requires
            old(self).inv(),
        ensures
            final(self).inv(),
            final(self).cap() == old(self).cap(),
            final(self).model() == put_spec(old(self).model(), old(self).cap(), key@, value@),
    ;
}

/// A bounded key-value cache with least-recently-used eviction.
///
/// Entries are held in recency order: the first is the least recently
/// used, the last the most recently used.
pub struct Cache {
    capacity: usize,
    entries: Vec<(String, String)>,
}

impl View for Cache {
    type V = Seq<Entry>;

    closed spec fn view(&self) -> Seq<Entry> {
        entry_views(self.entries@)
    }
}

proof fn lemma_views_push(entries: Seq<(String, String)>, e: (String, String))
    ensures
        entry_views(entries.push(e)) == entry_views(entries).push((e.0@, e.1@)),
{
    assert(entry_views(entries.push(e)) =~= entry_views(entries).push((e.0@, e.1@)));
}

proof fn lemma_views_remove(entries: Seq<(String, String)>, i: int)
    requires
        0 <= i < entries.len(),
    ensures
        entry_views(entries.remove(i)) == entry_views(entries).remove(i),
{
    entries.remove_ensures(i);
    entry_views(entries).remove_ensures(i);
    assert(entry_views(entries.remove(i)) =~= entry_views(entries).remove(i));
}

impl Cache {
    /// Create an empty store that will hold at most `capacity` entries.
    /// A store of capacity zero could never hold an entry, so a positive
    /// capacity is demanded of the caller.
    pub fn new(capacity: usize) -> (cache: Self)
        requires
            0 < capacity,
        ensures
            cache.inv(),
            cache.cap() == capacity,
            cache@ == Seq::<Entry>::empty(),
    {
        let cache = Cache { capacity, entries: Vec::new() };
        proof {
            assert(cache@ =~= Seq::<Entry>::empty());
        }
        cache
    }

    /// Index of the entry holding `key`, if the key is resident.
    fn find_index(&self, key: &String) -> (r: Option<usize>)
        ensures
            (match r {
                Some(i) => i == first_key(self@, key@) && has_key(self@, key@),
                None => !has_key(self@, key@),
            }),
    {
        let mut i: usize = 0;
        while i < self.entries.len()
            invariant
                i <= self.entries.len(),
                forall|t: int| 0 <= t < i ==> self@[t].0 != key@,
            decreases self.entries.len() - i,
        {
            if self.entries[i].0 == *key {
                proof {
                    lemma_first_key_at(self@, key@, i as int);
                }
                return Some(i);
            }
            i += 1;
        }
        proof {
            lemma_first_key_bound(self@, key@);
            if has_key(self@, key@) {
                assert(self@[first_key(self@, key@) as int].0 == key@);
            }
        }
        None
    }

    /// Create a store of the given capacity and pre-load it from a
    /// snapshot text, if one exists; a missing snapshot gives an empty
    /// store. Records are replayed in file order through ordinary
    /// insertion, so a snapshot larger than the capacity has its later
    /// records evict its earlier ones.
    pub fn new_persistent(capacity: usize, source: Option<&str>) -> (cache: Self)
        requires
            0 < capacity,
        ensures
            cache.inv(),
            cache.cap() == capacity,
            (match source {
                Some(content) => cache@ == replay(
                    Seq::<Entry>::empty(),
                    capacity as nat,
                    parsed_records(content@),
                ),
                None => cache@ == Seq::<Entry>::empty(),
            }),
    {
        let mut cache = Cache::new(capacity);
        match source {
            Some(content) => {
                cache.load_from_string(content);
            },
            None => {},
        }
        cache
    }

    /// Export a full snapshot: every resident entry as one record, front
    /// to back.
    pub fn save_to_string(&self) -> (out: String)
        ensures
            out@ == encode_store(self@),
    {
        let mut out = String::new();
        let mut i: usize = 0;
        proof {
            assert(self@.take(0) =~= Seq::<Entry>::empty());
        }
        while i < self.entries.len()
            invariant
                i <= self.entries.len(),
                self.entries.len() == self@.len(),
                out@ == encode_store(self@.take(i as int)),
            decreases self.entries.len() - i,
        {
            let ghost prefix = self@.take(i as int);
            out.append(self.entries[i].0.as_str());
            out.append(":");
            out.append(self.entries[i].1.as_str());
            out.append("\n");
            proof {
                reveal_strlit(":");
                reveal_strlit("\n");
                assert(":"@ =~= seq![':']);
                assert("\n"@ =~= seq!['\n']);
                lemma_encode_store_push(prefix, self@[i as int]);
                assert(self@.take(i + 1) =~= prefix.push(self@[i as int]));
                assert(out@ =~= encode_store(prefix) + encode_record(
                    self@[i as int].0,
                    self@[i as int].1,
                ));
            }
            i += 1;
        }
        proof {
            assert(self@.take(self@.len() as int) =~= self@);
        }
        out
    }

    /// Import a snapshot text: each line that parses as a record is
    /// inserted in file order through ordinary insertion; lines without a
    /// colon are skipped.
    pub fn load_from_string(&mut self, content: &str)
        requires
            old(self).inv(),
        ensures
            final(self).inv(),
            final(self).cap() == old(self).cap(),
            final(self)@ == replay(old(self)@, old(self).cap(), parsed_records(content@)),
    {
        let lines = split_lines(content);
        let ghost lviews = str_views(lines@);
        let mut i: usize = 0;
        proof {
            assert(lviews.take(0) =~= Seq::<Seq<char>>::empty());
        }
        while i < lines.len()
            invariant
                i <= lines.len(),
                lviews == str_views(lines@),
                lviews.len() == lines@.len(),
                self.inv(),
                self.cap() == old(self).cap(),
                self@ == replay(
                    old(self)@,
                    old(self).cap(),
                    records_of_lines(lviews.take(i as int)),
                ),
            decreases lines.len() - i,
        {
            let ghost prefix_recs = records_of_lines(lviews.take(i as int));
            proof {
                lemma_records_of_lines_push(lviews.take(i as int), lviews[i as int]);
                assert(lviews.take(i + 1) =~= lviews.take(i as int).push(lviews[i as int]));
            }
            match parse_record(lines[i].as_str()) {
                Some(kv) => {
                    let ghost r = (kv.0@, kv.1@);
                    self.put(kv.0, kv.1);
                    proof {
                        assert(record_of_line(lviews[i as int]) == seq![r]);
                        assert(prefix_recs + seq![r] =~= prefix_recs.push(r));
                        lemma_replay_push(old(self)@, old(self).cap(), prefix_recs, r);
                    }
                },
                None => {
                    proof {
                        assert(record_of_line(lviews[i as int]) =~= Seq::<Entry>::empty());
                        assert(prefix_recs + Seq::<Entry>::empty() =~= prefix_recs);
                    }
                },
            }
            i += 1;
        }
        proof {
            assert(lviews.take(lviews.len() as int) =~= lviews);
        }
    }
}

impl CacheTrait for Cache {
    open spec fn model(&self) -> Seq<Entry> {
        self@
    }

    closed spec fn cap(&self) -> nat {
        self.capacity as nat
    }

    open spec fn inv(&self) -> bool {
        wf_model(self@, self.cap())
    }

    fn get(&mut self, key: &String) -> (result: Option<String>) {
        match self.find_index(key) {
            Some(i) => {
                let entry = self.entries.remove(i);
                let value = entry.1.clone();
                self.entries.push(entry);
                proof {
                    lemma_first_key_bound(old(self)@, key@);
                    lemma_views_remove(old(self).entries@, i as int);
                    lemma_views_push(
                        old(self).entries@.remove(i as int),
                        old(self).entries@[i as int],
                    );
                    assert(self@ == promote(old(self)@, key@));
                    lemma_promote_wf(old(self)@, old(self).cap(), key@);
                }
                Some(value)
            }
            None => None,
        }
    }

    fn put(&mut self, key: String, value: String) {
        let ghost k = key@;
        let ghost v = value@;
        proof {
            lemma_capacity_invariant(old(self)@, old(self).cap(), k, v);
        }
        match self.find_index(&key) {
            Some(i) => {
                let _prev = self.entries.remove(i);
                self.entries.push((key, value));
                proof {
                    lemma_views_remove(old(self).entries@, i as int);
                    lemma_views_push(old(self).entries@.remove(i as int), (self.entries@.last()));
                    assert(self@ == put_spec(old(self)@, old(self).cap(), k, v));
                }
            }
            None => {
                if self.entries.len() == self.capacity {
                    let _victim = self.entries.remove(0);
                    self.entries.push((key, value));
                    proof {
                        lemma_views_remove(old(self).entries@, 0);
                        lemma_views_push(old(self).entries@.remove(0), (self.entries@.last()));
                        assert(entry_views(old(self).entries@).remove(0) =~= old(
                            self,
                        )@.drop_first());
                        assert(self@ == put_spec(old(self)@, old(self).cap(), k, v));
                    }
                } else {
                    self.entries.push((key, value));
                    proof {
                        lemma_views_push(old(self).entries@, (self.entries@.last()));
                        assert(self@ == put_spec(old(self)@, old(self).cap(), k, v));
                    }
                }
            }
        }
    }
}

} // verus!
