//! Snapshot text format: one `key:value` record per line.
//!
//! On export each entry becomes the key, a colon, the value, and a newline.
//! On import the first colon of a line separates the key from the value, so
//! a value may itself contain colons; a line without a colon is skipped.

use vstd::prelude::*;
use vstd::string::*;
use crate::model::Entry;

verus! {

/// Index of the first occurrence of `c` in `s`, or `s.len()` if `c` does
/// not occur.
pub open spec fn first_occ(s: Seq<char>, c: char) -> nat
    decreases s.len(),
{
    if s.len() == 0 {
        0
    } else if s[0] == c {
        0
    } else {
        (1 + first_occ(s.drop_first(), c)) as nat
    }
}

/// Whether `c` occurs in `s`.
pub open spec fn has_char(s: Seq<char>, c: char) -> bool {
    exists|i: int| 0 <= i < s.len() && s[i] == c
}

/// Meaning of one snapshot line: everything before the first colon is the
/// key, everything after it is the value; a line without a colon carries no
/// record.
pub open spec fn parse_line(line: Seq<char>) -> Option<Entry> {
    let j = first_occ(line, ':') as int;
    if j < line.len() {
        Some((line.take(j), line.skip(j + 1)))
    } else {
        None
    }
}

/// Split `s` into lines at `'\n'`. A trailing newline does not open a final
/// empty line; text after the last newline forms one last line.
pub open spec fn lines_of(s: Seq<char>) -> Seq<Seq<char>>
    decreases s.len(),
{
    if s.len() == 0 {
        Seq::empty()
    } else {
        let j = first_occ(s, '\n') as int;
        if j < s.len() {
            seq![s.take(j)] + lines_of(s.skip(j + 1))
        } else {
            seq![s]
        }
    }
}

/// The records carried by a sequence of lines, in order, with unparsable
/// lines skipped.
pub open spec fn records_of_lines(lines: Seq<Seq<char>>) -> Seq<Entry>
    decreases lines.len(),
{
    if lines.len() == 0 {
        Seq::empty()
    } else {
        let rest = records_of_lines(lines.drop_first());
        match parse_line(lines[0]) {
            Some(r) => seq![r] + rest,
            None => rest,
        }
    }
}

/// All records of a snapshot text, in file order.
pub open spec fn parsed_records(content: Seq<char>) -> Seq<Entry> {
    records_of_lines(lines_of(content))
}

/// Encoding of one entry: key, colon, value, newline.
pub open spec fn encode_record(k: Seq<char>, v: Seq<char>) -> Seq<char> {
    k + seq![':'] + v + seq!['\n']
}

/// Encoding of whole store contents, front to back.
pub open spec fn encode_store(s: Seq<Entry>) -> Seq<char>
    decreases s.len(),
{
    if s.len() == 0 {
        Seq::empty()
    } else {
        encode_record(s[0].0, s[0].1) + encode_store(s.drop_first())
    }
}

/// Contents whose encoding parses back exactly: keys are free of colons and
/// newlines, values are free of newlines.
pub open spec fn encodable(s: Seq<Entry>) -> bool {
    forall|i: int| 0 <= i < s.len() ==> {
        &&& !has_char(#[trigger] s[i].0, ':')
        &&& !has_char(s[i].0, '\n')
        &&& !has_char(s[i].1, '\n')
    }
}

/// `first_occ` is at most `s.len()`, lands on `c` when it is a proper
/// index, and no earlier character is `c`.
pub proof fn lemma_first_occ_bound(s: Seq<char>, c: char)
    ensures
        first_occ(s, c) <= s.len(),
        first_occ(s, c) < s.len() ==> s[first_occ(s, c) as int] == c,
        forall|i: int| 0 <= i < first_occ(s, c) ==> s[i] != c,
    decreases s.len(),
{
    if s.len() == 0 {
    } else if s[0] == c {
    } else {
        lemma_first_occ_bound(s.drop_first(), c);
        assert forall|i: int| 0 <= i < first_occ(s, c) implies s[i] != c by {
            if i > 0 {
                assert(s.drop_first()[i - 1] == s[i]);
            }
        }
    }
}

/// The records carried by one line alone.
pub open spec fn record_of_line(line: Seq<char>) -> Seq<Entry> {
    match parse_line(line) {
        Some(r) => seq![r],
        None => Seq::empty(),
    }
}

/// The model of a sequence of owned lines: each line as its character
/// sequence, in the same order.
pub open spec fn str_views(lines: Seq<String>) -> Seq<Seq<char>> {
    lines.map_values(|l: String| l@)
}

/// One more line carries the records of the lines before it, then its own.
pub proof fn lemma_records_of_lines_push(lines: Seq<Seq<char>>, l: Seq<char>)
    ensures
        records_of_lines(lines.push(l)) == records_of_lines(lines) + record_of_line(l),
    decreases lines.len(),
{
    if lines.len() == 0 {
        assert(lines.push(l)[0] == l);
        assert(lines.push(l).drop_first() =~= lines);
        assert(records_of_lines(lines) =~= Seq::<Entry>::empty());
        match parse_line(l) {
            Some(r) => {
                assert(records_of_lines(lines.push(l)) == seq![r] + records_of_lines(lines));
                assert(seq![r] + records_of_lines(lines) =~= records_of_lines(lines) + seq![r]);
            },
            None => {
                assert(records_of_lines(lines.push(l)) == records_of_lines(lines));
                assert(records_of_lines(lines) =~= records_of_lines(lines)
                    + Seq::<Entry>::empty());
            },
        }
    } else {
        assert(lines.push(l)[0] == lines[0]);
        assert(lines.push(l).drop_first() =~= lines.drop_first().push(l));
        lemma_records_of_lines_push(lines.drop_first(), l);
        let tail = records_of_lines(lines.drop_first());
        assert(records_of_lines(lines.drop_first().push(l)) == tail + record_of_line(l));
        match parse_line(lines[0]) {
            Some(r) => {
                assert(records_of_lines(lines.push(l)) == seq![r] + (tail + record_of_line(l)));
                assert(records_of_lines(lines) == seq![r] + tail);
                assert(seq![r] + (tail + record_of_line(l)) =~= (seq![r] + tail) + record_of_line(
                    l,
                ));
            },
            None => {
            },
        }
    }
}

/// One more entry appends one more record to the encoding.
pub proof fn lemma_encode_store_push(s: Seq<Entry>, e: Entry)
    ensures
        encode_store(s.push(e)) == encode_store(s) + encode_record(e.0, e.1),
    decreases s.len(),
{
    if s.len() == 0 {
        assert(s.push(e)[0] == e);
        assert(s.push(e).drop_first() =~= s);
        assert(encode_store(s) =~= Seq::<char>::empty());
        assert(encode_record(e.0, e.1) + encode_store(s) =~= encode_store(s) + encode_record(
            e.0,
            e.1,
        ));
    } else {
        assert(s.push(e)[0] == s[0]);
        assert(s.push(e).drop_first() =~= s.drop_first().push(e));
        lemma_encode_store_push(s.drop_first(), e);
        let head = encode_record(s[0].0, s[0].1);
        let tail = encode_store(s.drop_first());
        assert(encode_store(s.push(e)) == head + (tail + encode_record(e.0, e.1)));
        assert(head + (tail + encode_record(e.0, e.1)) =~= (head + tail) + encode_record(
            e.0,
            e.1,
        ));
    }
}

/// Split a snapshot text into its lines, dropping the newline terminators.
pub fn split_lines(content: &str) -> (lines: Vec<String>)
    ensures
        str_views(lines@) == lines_of(content@),
{
    let n = content.unicode_len();
    let mut lines: Vec<String> = Vec::new();
    let mut start: usize = 0;
    let mut i: usize = 0;
    proof {
        assert(str_views(lines@) =~= Seq::<Seq<char>>::empty());
        assert(content@.skip(0) =~= content@);
    }
    while i < n
        invariant
            start <= i <= n,
            n == content@.len(),
            forall|t: int| start <= t < i ==> content@[t] != '\n',
            lines_of(content@) == str_views(lines@) + lines_of(content@.skip(start as int)),
        decreases n - i,
    {
        if content.get_char(i) == '\n' {
            let ghost prev_views = str_views(lines@);
            let ghost rest = content@.skip(start as int);
            let line = content.substring_char(start, i).to_owned();
            lines.push(line);
            proof {
                assert forall|t: int| 0 <= t < i - start implies rest[t] != '\n' by {
                    assert(rest[t] == content@[t + start]);
                }
                assert(rest[i - start] == content@[i as int]);
                lemma_first_occ_at(rest, '\n', i - start);
                assert(lines_of(rest) == seq![rest.take(i - start)] + lines_of(
                    rest.skip(i - start + 1),
                ));
                assert(rest.take(i - start) =~= line@);
                assert(rest.skip(i - start + 1) =~= content@.skip(i + 1));
                assert(str_views(lines@) =~= prev_views + seq![line@]);
                assert((prev_views + seq![line@]) + lines_of(content@.skip(i + 1)) =~= prev_views
                    + (seq![line@] + lines_of(content@.skip(i + 1))));
            }
            start = i + 1;
        }
        i += 1;
    }
    if start < n {
        let ghost prev_views = str_views(lines@);
        let ghost rest = content@.skip(start as int);
        let line = content.substring_char(start, n).to_owned();
        lines.push(line);
        proof {
            assert forall|t: int| 0 <= t < rest.len() implies rest[t] != '\n' by {
                assert(rest[t] == content@[t + start]);
            }
            lemma_first_occ_bound(rest, '\n');
            if first_occ(rest, '\n') < rest.len() {
                assert(rest[first_occ(rest, '\n') as int] == '\n');
            }
            assert(lines_of(rest) == seq![rest]);
            assert(rest =~= line@);
            assert(str_views(lines@) =~= prev_views + seq![line@]);
            assert(prev_views + seq![line@] =~= str_views(lines@));
        }
    } else {
        proof {
            assert(content@.skip(start as int) =~= Seq::<char>::empty());
            assert(lines_of(content@.skip(start as int)) == Seq::<Seq<char>>::empty());
            assert(str_views(lines@) + Seq::<Seq<char>>::empty() =~= str_views(lines@));
        }
    }
    lines
}

/// Parse one line into a key and a value at its first colon, or report
/// that the line carries no record.
pub fn parse_record(line: &str) -> (r: Option<(String, String)>)
    ensures
        (match r {
            Some(kv) => parse_line(line@) == Some((kv.0@, kv.1@)),
            None => parse_line(line@) is None,
        }),
{
    let n = line.unicode_len();
    let mut i: usize = 0;
    while i < n
        invariant
            i <= n,
            n == line@.len(),
            forall|t: int| 0 <= t < i ==> line@[t] != ':',
        decreases n - i,
    {
        if line.get_char(i) == ':' {
            let key = line.substring_char(0, i).to_owned();
            let value = line.substring_char(i + 1, n).to_owned();
            proof {
                lemma_first_occ_at(line@, ':', i as int);
                assert(line@.take(i as int) =~= key@);
                assert(line@.skip(i as int + 1) =~= value@);
            }
            return Some((key, value));
        }
        i += 1;
    }
    proof {
        lemma_first_occ_bound(line@, ':');
        if first_occ(line@, ':') < line@.len() {
            assert(line@[first_occ(line@, ':') as int] == ':');
        }
    }
    None
}

/// `first_occ` is exactly the index of the first occurrence of `c`.
pub proof fn lemma_first_occ_at(s: Seq<char>, c: char, j: int)
    requires
        0 <= j < s.len(),
        s[j] == c,
        forall|i: int| 0 <= i < j ==> s[i] != c,
    ensures
        first_occ(s, c) == j,
{
    lemma_first_occ_bound(s, c);
    if first_occ(s, c) < j {
        assert(s[first_occ(s, c) as int] == c);
    } else if first_occ(s, c) > j {
        assert(s[j] != c);
    }
}

} // verus!
