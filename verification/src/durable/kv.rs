//! The key-value storage of a Durable Object.

use vstd::prelude::*;

#[allow(unused_imports)]
use crate::text::{optional_bytes, precedes, precedes_is_a_total_order, texts};
use crate::text::{chars_of, copy_bytes, copy_text, same, starts_with, text_precedes};

verus! {

/// The entries of a list of keys and values.
pub open spec fn entry_texts(entries: Seq<(String, Vec<u8>)>) -> Seq<(Seq<char>, Seq<u8>)> {
    entries.map_values(|e: (String, Vec<u8>)| (e.0@, e.1@))
}

/// Whether a key comes before another.
pub open spec fn before(a: Seq<char>, b: Seq<char>) -> bool {
    precedes(a, b) && a != b
}

/// Whether entries are ordered by their keys, each key occurring once.
pub open spec fn is_ordered(rows: Seq<(Seq<char>, Seq<u8>)>) -> bool {
    forall|i: int, j: int| 0 <= i < j < rows.len() ==> before((#[trigger] rows[i]).0, (#[trigger] rows[j]).0)
}

/// Whether an entry has a key.
pub open spec fn has_key(rows: Seq<(Seq<char>, Seq<u8>)>, key: Seq<char>) -> bool {
    exists|i: int| 0 <= i < rows.len() && (#[trigger] rows[i]).0 == key
}

/// The value of the entry with a key.
pub open spec fn value_of(rows: Seq<(Seq<char>, Seq<u8>)>, key: Seq<char>) -> Seq<u8> {
    rows[choose|i: int| 0 <= i < rows.len() && (#[trigger] rows[i]).0 == key].1
}

/// What entries map keys to.
pub open spec fn mapping(rows: Seq<(Seq<char>, Seq<u8>)>) -> Map<Seq<char>, Seq<u8>> {
    Map::new(|key: Seq<char>| has_key(rows, key), |key: Seq<char>| value_of(rows, key))
}

/// The value a map has for a key.
pub open spec fn looked_up(map: Map<Seq<char>, Seq<u8>>, key: Seq<char>) -> Option<Seq<u8>> {
    if map.dom().contains(key) {
        Some(map[key])
    } else {
        None
    }
}

/// Which entries to list.
#[derive(Debug)]
pub struct ListOptions {
    /// Only keys that start with this.
    pub prefix: Option<String>,
    /// Only keys after this.
    pub start: Option<String>,
    /// Only keys before this.
    pub end: Option<String>,
    /// At most this many.
    pub limit: Option<usize>,
    /// From the last to the first.
    pub reverse: bool,
}

/// Whether a key is to be listed.
pub open spec fn admits(options: ListOptions, key: Seq<char>) -> bool {
    &&& options.prefix is Some ==> options.prefix->0@.is_prefix_of(key)
    &&& options.start is Some ==> before(options.start->0@, key)
    &&& options.end is Some ==> before(key, options.end->0@)
}

/// The first `to` entries that are to be listed.
pub open spec fn picked(
    rows: Seq<(Seq<char>, Seq<u8>)>,
    options: ListOptions,
    to: int,
) -> Seq<(Seq<char>, Seq<u8>)>
    decreases to,
{
    if to <= 0 || to > rows.len() {
        Seq::empty()
    } else {
        let earlier = picked(rows, options, to - 1);
        if admits(options, rows[to - 1].0) {
            earlier.push(rows[to - 1])
        } else {
            earlier
        }
    }
}

/// Entries in the order they are listed in.
pub open spec fn listing_order(
    rows: Seq<(Seq<char>, Seq<u8>)>,
    reverse: bool,
) -> Seq<(Seq<char>, Seq<u8>)> {
    if reverse {
        rows.reverse()
    } else {
        rows
    }
}

/// The entries that are listed.
pub open spec fn listed(
    rows: Seq<(Seq<char>, Seq<u8>)>,
    options: ListOptions,
) -> Seq<(Seq<char>, Seq<u8>)> {
    let all = picked(listing_order(rows, options.reverse), options, rows.len() as int);
    match options.limit {
        Some(limit) => if limit < all.len() {
            all.take(limit as int)
        } else {
            all
        },
        None => all,
    }
}

/// The entries found for the first `to` keys.
pub open spec fn found(
    map: Map<Seq<char>, Seq<u8>>,
    keys: Seq<Seq<char>>,
    to: int,
) -> Seq<(Seq<char>, Seq<u8>)>
    decreases to,
{
    if to <= 0 || to > keys.len() {
        Seq::empty()
    } else {
        let earlier = found(map, keys, to - 1);
        if map.dom().contains(keys[to - 1]) {
            earlier.push((keys[to - 1], map[keys[to - 1]]))
        } else {
            earlier
        }
    }
}

/// A map after the first `to` entries were put, in order.
pub open spec fn with_entries(
    map: Map<Seq<char>, Seq<u8>>,
    entries: Seq<(Seq<char>, Seq<u8>)>,
    to: int,
) -> Map<Seq<char>, Seq<u8>>
    decreases to,
{
    if to <= 0 || to > entries.len() {
        map
    } else {
        with_entries(map, entries, to - 1).insert(entries[to - 1].0, entries[to - 1].1)
    }
}

/// A map after the first `to` keys were deleted.
pub open spec fn without_keys(
    map: Map<Seq<char>, Seq<u8>>,
    keys: Seq<Seq<char>>,
    to: int,
) -> Map<Seq<char>, Seq<u8>>
    decreases to,
{
    if to <= 0 || to > keys.len() {
        map
    } else {
        without_keys(map, keys, to - 1).remove(keys[to - 1])
    }
}

/// How many of the first `to` keys were there when they were deleted in turn.
pub open spec fn deleted_count(
    map: Map<Seq<char>, Seq<u8>>,
    keys: Seq<Seq<char>>,
    to: int,
) -> nat
    decreases to,
{
    if to <= 0 || to > keys.len() {
        0
    } else {
        deleted_count(map, keys, to - 1) + if without_keys(map, keys, to - 1).dom().contains(
            keys[to - 1],
        ) {
            1nat
        } else {
            0nat
        }
    }
}

proof fn lemma_value_of(rows: Seq<(Seq<char>, Seq<u8>)>, at: int)
    requires
        is_ordered(rows),
        0 <= at < rows.len(),
    ensures
        has_key(rows, rows[at].0),
        value_of(rows, rows[at].0) == rows[at].1,
{
    let key = rows[at].0;
    let i = choose|i: int| 0 <= i < rows.len() && (#[trigger] rows[i]).0 == key;
    if i < at {
        assert(before(rows[i].0, rows[at].0));
    } else if at < i {
        assert(before(rows[at].0, rows[i].0));
    }
}

proof fn lemma_before_transitive(a: Seq<char>, b: Seq<char>, c: Seq<char>)
    requires
        before(a, b),
        before(b, c),
    ensures
        before(a, c),
{
    precedes_is_a_total_order(a, b, c);
    precedes_is_a_total_order(b, c, a);
    if a == c {
        precedes_is_a_total_order(a, b, a);
    }
}

/// Where a key stands, or would stand, among ordered entries.
spec fn is_position(rows: Seq<(Seq<char>, Seq<u8>)>, key: Seq<char>, at: int) -> bool {
    &&& 0 <= at <= rows.len()
    &&& forall|i: int| 0 <= i < at ==> before((#[trigger] rows[i]).0, key)
    &&& at < rows.len() ==> rows[at].0 == key || before(key, rows[at].0)
}

proof fn lemma_position(rows: Seq<(Seq<char>, Seq<u8>)>, key: Seq<char>, at: int)
    requires
        is_ordered(rows),
        is_position(rows, key, at),
    ensures
        has_key(rows, key) == (at < rows.len() && rows[at].0 == key),
        has_key(rows, key) ==> value_of(rows, key) == rows[at].1,
        forall|i: int| at < i < rows.len() ==> before(key, (#[trigger] rows[i]).0),
{
    assert forall|i: int| at < i < rows.len() implies before(key, (#[trigger] rows[i]).0) by {
        assert(before(rows[at].0, rows[i].0));
        if rows[at].0 != key {
            lemma_before_transitive(key, rows[at].0, rows[i].0);
        }
    }
    if has_key(rows, key) {
        let i = choose|i: int| 0 <= i < rows.len() && (#[trigger] rows[i]).0 == key;
        if i < at {
            assert(before(rows[i].0, key));
        } else if i > at {
            assert(before(key, rows[i].0));
        }
        lemma_value_of(rows, at);
    }
}

proof fn lemma_insert(rows: Seq<(Seq<char>, Seq<u8>)>, key: Seq<char>, value: Seq<u8>, at: int)
    requires
        is_ordered(rows),
        is_position(rows, key, at),
        !(at < rows.len() && rows[at].0 == key),
    ensures
        is_ordered(rows.insert(at, (key, value))),
        mapping(rows.insert(at, (key, value))) == mapping(rows).insert(key, value),
{
    let after = rows.insert(at, (key, value));
    lemma_position(rows, key, at);
    assert forall|i: int, j: int| 0 <= i < j < after.len() implies before(
        (#[trigger] after[i]).0,
        (#[trigger] after[j]).0,
    ) by {
        let k = if i < at {
            i
        } else {
            i - 1
        };
        let l = if j < at {
            j
        } else {
            j - 1
        };
        if i == at {
            assert(after[j] == rows[l]);
            assert(l >= at);
            if l == at {
                assert(before(key, rows[at].0));
            }
        } else if j == at {
            assert(after[i] == rows[k]);
        } else {
            assert(after[i] == rows[k] && after[j] == rows[l]);
            assert(before(rows[k].0, rows[l].0));
        }
    }
    let expected = mapping(rows).insert(key, value);
    assert forall|k: Seq<char>| mapping(after).dom().contains(k) == expected.dom().contains(k) by {
        if has_key(after, k) {
            let i = choose|i: int| 0 <= i < after.len() && (#[trigger] after[i]).0 == k;
            if i < at {
                assert(rows[i].0 == k);
            } else if i > at {
                assert(rows[i - 1].0 == k);
            }
        }
        if has_key(rows, k) {
            let i = choose|i: int| 0 <= i < rows.len() && (#[trigger] rows[i]).0 == k;
            if i < at {
                assert(after[i].0 == k);
            } else {
                assert(after[i + 1].0 == k);
            }
        }
        assert(after[at].0 == key);
    }
    assert forall|k: Seq<char>| expected.dom().contains(k) implies mapping(after)[k]
        == expected[k] by {
        if k == key {
            lemma_value_of(after, at);
        } else {
            let i = choose|i: int| 0 <= i < rows.len() && (#[trigger] rows[i]).0 == k;
            lemma_value_of(rows, i);
            if i < at {
                assert(after[i] == rows[i]);
                lemma_value_of(after, i);
            } else {
                assert(after[i + 1] == rows[i]);
                lemma_value_of(after, i + 1);
            }
        }
    }
    assert(mapping(after) =~= expected);
}

proof fn lemma_replace(rows: Seq<(Seq<char>, Seq<u8>)>, value: Seq<u8>, at: int)
    requires
        is_ordered(rows),
        0 <= at < rows.len(),
    ensures
        is_ordered(rows.update(at, (rows[at].0, value))),
        mapping(rows.update(at, (rows[at].0, value))) == mapping(rows).insert(rows[at].0, value),
{
    let key = rows[at].0;
    let after = rows.update(at, (key, value));
    assert forall|i: int, j: int| 0 <= i < j < after.len() implies before(
        (#[trigger] after[i]).0,
        (#[trigger] after[j]).0,
    ) by {
        assert(before(rows[i].0, rows[j].0));
    }
    let expected = mapping(rows).insert(key, value);
    assert forall|k: Seq<char>| mapping(after).dom().contains(k) == expected.dom().contains(k) by {
        if has_key(after, k) {
            let i = choose|i: int| 0 <= i < after.len() && (#[trigger] after[i]).0 == k;
            assert(rows[i].0 == k);
        }
        if has_key(rows, k) {
            let i = choose|i: int| 0 <= i < rows.len() && (#[trigger] rows[i]).0 == k;
            assert(after[i].0 == k);
        }
        assert(after[at].0 == key);
    }
    assert forall|k: Seq<char>| expected.dom().contains(k) implies mapping(after)[k]
        == expected[k] by {
        if k == key {
            lemma_value_of(after, at);
        } else {
            let i = choose|i: int| 0 <= i < rows.len() && (#[trigger] rows[i]).0 == k;
            lemma_value_of(rows, i);
            assert(after[i] == rows[i]);
            lemma_value_of(after, i);
        }
    }
    assert(mapping(after) =~= expected);
}

proof fn lemma_remove(rows: Seq<(Seq<char>, Seq<u8>)>, at: int)
    requires
        is_ordered(rows),
        0 <= at < rows.len(),
    ensures
        is_ordered(rows.remove(at)),
        mapping(rows.remove(at)) == mapping(rows).remove(rows[at].0),
{
    let key = rows[at].0;
    let after = rows.remove(at);
    assert forall|i: int, j: int| 0 <= i < j < after.len() implies before(
        (#[trigger] after[i]).0,
        (#[trigger] after[j]).0,
    ) by {
        let k = if i < at {
            i
        } else {
            i + 1
        };
        let l = if j < at {
            j
        } else {
            j + 1
        };
        assert(after[i] == rows[k] && after[j] == rows[l]);
        assert(before(rows[k].0, rows[l].0));
    }
    let expected = mapping(rows).remove(key);
    assert forall|k: Seq<char>| mapping(after).dom().contains(k) == expected.dom().contains(k) by {
        if has_key(after, k) {
            let i = choose|i: int| 0 <= i < after.len() && (#[trigger] after[i]).0 == k;
            if i < at {
                assert(rows[i].0 == k);
                assert(before(rows[i].0, rows[at].0));
            } else {
                assert(rows[i + 1].0 == k);
                assert(before(rows[at].0, rows[i + 1].0));
            }
        }
        if has_key(rows, k) && k != key {
            let i = choose|i: int| 0 <= i < rows.len() && (#[trigger] rows[i]).0 == k;
            if i < at {
                assert(after[i].0 == k);
            } else {
                assert(after[i - 1].0 == k);
            }
        }
    }
    assert forall|k: Seq<char>| expected.dom().contains(k) implies mapping(after)[k]
        == expected[k] by {
        let i = choose|i: int| 0 <= i < rows.len() && (#[trigger] rows[i]).0 == k;
        lemma_value_of(rows, i);
        if i < at {
            assert(after[i] == rows[i]);
            lemma_value_of(after, i);
        } else {
            assert(after[i - 1] == rows[i]);
            lemma_value_of(after, i - 1);
        }
    }
    assert(mapping(after) =~= expected);
}

proof fn lemma_picked_grows(
    rows: Seq<(Seq<char>, Seq<u8>)>,
    options: ListOptions,
    from: int,
    to: int,
)
    requires
        0 <= from <= to <= rows.len(),
    ensures
        picked(rows, options, from).is_prefix_of(picked(rows, options, to)),
    decreases to - from,
{
    if from < to {
        lemma_picked_grows(rows, options, from, to - 1);
        let a = picked(rows, options, from);
        let b = picked(rows, options, to - 1);
        let c = picked(rows, options, to);
        assert(a =~= c.take(a.len() as int)) by {
            assert(a =~= b.take(a.len() as int));
        }
    }
}

fn comes_before(a: &str, b: &str) -> (r: bool)
    ensures
        r == before(a@, b@),
{
    text_precedes(a, b) && !same(a, b)
}

fn is_listed(options: &ListOptions, key: &str) -> (r: bool)
    ensures
        r == admits(*options, key@),
{
    if let Some(prefix) = &options.prefix {
        let chars = chars_of(key);
        let wanted = chars_of(prefix.as_str());
        if !starts_with(&chars, &wanted) {
            return false;
        }
    }
    if let Some(start) = &options.start {
        if !comes_before(start.as_str(), key) {
            return false;
        }
    }
    if let Some(end) = &options.end {
        if !comes_before(key, end.as_str()) {
            return false;
        }
    }
    true
}

/// The key-value storage of an object, ordered by key.
#[derive(Debug)]
pub struct DurableKvStore {
    entries: Vec<(String, Vec<u8>)>,
}

impl View for DurableKvStore {
    type V = Map<Seq<char>, Seq<u8>>;

    closed spec fn view(&self) -> Map<Seq<char>, Seq<u8>> {
        mapping(self.rows())
    }
}

impl DurableKvStore {
    /// The entries, ordered by key.
    pub closed spec fn rows(&self) -> Seq<(Seq<char>, Seq<u8>)> {
        entry_texts(self.entries@)
    }

    /// Whether the entries are ordered, and are what the storage maps keys to.
    pub open spec fn wf(&self) -> bool {
        is_ordered(self.rows()) && self@ == mapping(self.rows())
    }

    /// An empty storage.
    pub fn new() -> (r: Self)
        ensures
            r.wf(),
            r@ == Map::<Seq<char>, Seq<u8>>::empty(),
            r.rows() == Seq::<(Seq<char>, Seq<u8>)>::empty(),
    {
        let r = DurableKvStore { entries: Vec::new() };
        assert(r@ =~= Map::<Seq<char>, Seq<u8>>::empty());
        r
    }

    fn position(&self, key: &str) -> (r: usize)
        requires
            self.wf(),
        ensures
            is_position(self.rows(), key@, r as int),
            r <= self.entries.len(),
    {
        let ghost rows = self.rows();
        let mut i: usize = 0;
        while i < self.entries.len()
            invariant
                i <= self.entries.len(),
                rows == self.rows(),
                rows.len() == self.entries.len(),
                forall|j: int| 0 <= j < i ==> before((#[trigger] rows[j]).0, key@),
            decreases self.entries.len() - i,
        {
            assert(rows[i as int] == (self.entries@[i as int].0@, self.entries@[i as int].1@));
            if !comes_before(self.entries[i].0.as_str(), key) {
                proof {
                    precedes_is_a_total_order(rows[i as int].0, key@, key@);
                }
                return i;
            }
            i = i + 1;
        }
        i
    }

    /// The value of a key.
    pub fn get(&self, key: &str) -> (r: Option<Vec<u8>>)
        requires
            self.wf(),
        ensures
            optional_bytes(r) == looked_up(self@, key@),
    {
        let at = self.position(key);
        proof {
            lemma_position(self.rows(), key@, at as int);
        }
        if at < self.entries.len() && same(self.entries[at].0.as_str(), key) {
            assert(self.rows()[at as int] == (
                self.entries@[at as int].0@,
                self.entries@[at as int].1@,
            ));
            Some(copy_bytes(&self.entries[at].1))
        } else {
            proof {
                if at < self.entries.len() {
                    assert(self.rows()[at as int].0 == self.entries@[at as int].0@);
                }
            }
            None
        }
    }

    /// The entries of those of the keys that are there, in the order of the keys.
    pub fn get_multiple(&self, keys: &Vec<String>) -> (r: Vec<(String, Vec<u8>)>)
        requires
            self.wf(),
        ensures
            entry_texts(r@) == found(self@, texts(keys@), keys.len() as int),
    {
        let ghost wanted = texts(keys@);
        let mut out: Vec<(String, Vec<u8>)> = Vec::new();
        let mut i: usize = 0;
        assert(entry_texts(out@) =~= Seq::empty());
        while i < keys.len()
            invariant
                i <= keys.len(),
                self.wf(),
                wanted == texts(keys@),
                entry_texts(out@) == found(self@, wanted, i as int),
            decreases keys.len() - i,
        {
            assert(wanted[i as int] == keys@[i as int]@);
            if let Some(value) = self.get(keys[i].as_str()) {
                let ghost earlier = entry_texts(out@);
                out.push((copy_text(keys[i].as_str()), value));
                assert(entry_texts(out@) =~= earlier.push((wanted[i as int], value@)));
            }
            i = i + 1;
        }
        out
    }

    /// Set the value of a key.
    pub fn put(&mut self, key: &str, value: Vec<u8>)
        requires
            old(self).wf(),
        ensures
            final(self).wf(),
            final(self)@ == old(self)@.insert(key@, value@),
    {
        let ghost rows = self.rows();
        let at = self.position(key);
        if at < self.entries.len() && same(self.entries[at].0.as_str(), key) {
            proof {
                assert(rows[at as int].0 == self.entries@[at as int].0@);
                lemma_replace(rows, value@, at as int);
            }
            self.entries.set(at, (copy_text(key), value));
            assert(self.rows() =~= rows.update(at as int, (rows[at as int].0, value@)));
        } else {
            proof {
                if at < self.entries.len() {
                    assert(rows[at as int].0 == self.entries@[at as int].0@);
                }
                lemma_insert(rows, key@, value@, at as int);
            }
            self.entries.insert(at, (copy_text(key), value));
            assert(self.rows() =~= rows.insert(at as int, (key@, value@)));
        }
    }

    /// Set the values of several keys, in order.
    pub fn put_multiple(&mut self, entries: &Vec<(String, Vec<u8>)>)
        requires
            old(self).wf(),
        ensures
            final(self).wf(),
            final(self)@ == with_entries(
                old(self)@,
                entry_texts(entries@),
                entries.len() as int,
            ),
    {
        let ghost given = entry_texts(entries@);
        let ghost map = self@;
        let mut i: usize = 0;
        while i < entries.len()
            invariant
                i <= entries.len(),
                self.wf(),
                given == entry_texts(entries@),
                self@ == with_entries(map, given, i as int),
            decreases entries.len() - i,
        {
            assert(given[i as int] == (entries@[i as int].0@, entries@[i as int].1@));
            let value = copy_bytes(&entries[i].1);
            self.put(entries[i].0.as_str(), value);
            i = i + 1;
        }
    }

    /// Delete a key; whether it was there is returned.
    pub fn delete(&mut self, key: &str) -> (r: bool)
        requires
            old(self).wf(),
        ensures
            final(self).wf(),
            r == old(self)@.dom().contains(key@),
            final(self)@ == old(self)@.remove(key@),
    {
        let ghost rows = self.rows();
        let at = self.position(key);
        proof {
            lemma_position(rows, key@, at as int);
        }
        if at < self.entries.len() && same(self.entries[at].0.as_str(), key) {
            proof {
                assert(rows[at as int].0 == self.entries@[at as int].0@);
                lemma_remove(rows, at as int);
            }
            let _removed = self.entries.remove(at);
            assert(self.rows() =~= rows.remove(at as int));
            true
        } else {
            proof {
                if at < self.entries.len() {
                    assert(rows[at as int].0 == self.entries@[at as int].0@);
                }
                assert(self@.remove(key@) =~= self@);
            }
            false
        }
    }

    /// Delete several keys; how many were there is returned.
    pub fn delete_multiple(&mut self, keys: &Vec<String>) -> (r: usize)
        requires
            old(self).wf(),
        ensures
            final(self).wf(),
            r == deleted_count(old(self)@, texts(keys@), keys.len() as int),
            final(self)@ == without_keys(old(self)@, texts(keys@), keys.len() as int),
    {
        let ghost given = texts(keys@);
        let ghost map = self@;
        let mut count: usize = 0;
        let mut i: usize = 0;
        while i < keys.len()
            invariant
                i <= keys.len(),
                count <= i,
                self.wf(),
                given == texts(keys@),
                count == deleted_count(map, given, i as int),
                self@ == without_keys(map, given, i as int),
            decreases keys.len() - i,
        {
            assert(given[i as int] == keys@[i as int]@);
            if self.delete(keys[i].as_str()) {
                count = count + 1;
            }
            i = i + 1;
        }
        count
    }

    /// Delete everything.
    pub fn delete_all(&mut self)
        ensures
            final(self).wf(),
            final(self)@ == Map::<Seq<char>, Seq<u8>>::empty(),
    {
        self.entries = Vec::new();
        assert(self@ =~= Map::<Seq<char>, Seq<u8>>::empty());
    }

    /// List entries in the order of their keys, or backwards.
    pub fn list(&self, options: &ListOptions) -> (r: Vec<(String, Vec<u8>)>)
        requires
            self.wf(),
        ensures
            entry_texts(r@) == listed(self.rows(), *options),
    {
        let ghost rows = self.rows();
        let ghost order = listing_order(rows, options.reverse);
        let mut out: Vec<(String, Vec<u8>)> = Vec::new();
        let mut i: usize = 0;
        assert(entry_texts(out@) =~= Seq::empty());
        while i < self.entries.len()
            invariant
                i <= self.entries.len(),
                rows == self.rows(),
                rows.len() == self.entries.len(),
                order == listing_order(rows, options.reverse),
                entry_texts(out@) == picked(order, *options, i as int),
                options.limit is Some ==> out.len() <= options.limit->0,
            decreases self.entries.len() - i,
        {
            if let Some(limit) = options.limit {
                if out.len() >= limit {
                    proof {
                        lemma_picked_grows(order, *options, i as int, rows.len() as int);
                        let all = picked(order, *options, rows.len() as int);
                        assert(all.take(limit as int) =~= entry_texts(out@));
                        assert(all.take(all.len() as int) =~= all);
                    }
                    return out;
                }
            }
            let at = if options.reverse {
                self.entries.len() - 1 - i
            } else {
                i
            };
            assert(order[i as int] == rows[at as int]);
            assert(rows[at as int] == (self.entries@[at as int].0@, self.entries@[at as int].1@));
            if is_listed(options, self.entries[at].0.as_str()) {
                let ghost earlier = entry_texts(out@);
                out.push((copy_text(self.entries[at].0.as_str()), copy_bytes(&self.entries[at].1)));
                assert(entry_texts(out@) =~= earlier.push(order[i as int]));
            }
            i = i + 1;
        }
        out
    }
}

/// A key that was put is read back with its value, and every other key as before.
pub proof fn a_read_gives_back_what_was_written(
    map: Map<Seq<char>, Seq<u8>>,
    key: Seq<char>,
    value: Seq<u8>,
    other: Seq<char>,
)
    requires
        other != key,
    ensures
        looked_up(map.insert(key, value), key) == Some(value),
        looked_up(map.insert(key, value), other) == looked_up(map, other),
        looked_up(map.remove(key), key) is None,
        looked_up(map.remove(key), other) == looked_up(map, other),
{
}

proof fn lemma_picked_members(rows: Seq<(Seq<char>, Seq<u8>)>, options: ListOptions, to: int)
    requires
        0 <= to <= rows.len(),
    ensures
        forall|i: int|
            0 <= i < picked(rows, options, to).len() ==> admits(
                options,
                (#[trigger] picked(rows, options, to)[i]).0,
            ) && rows.contains(picked(rows, options, to)[i]),
        forall|i: int|
            0 <= i < to && admits(options, (#[trigger] rows[i]).0) ==> picked(
                rows,
                options,
                to,
            ).contains(rows[i]),
    decreases to,
{
    if to > 0 {
        let earlier = picked(rows, options, to - 1);
        let all = picked(rows, options, to);
        lemma_picked_members(rows, options, to - 1);
        assert forall|i: int| 0 <= i < all.len() implies admits(options, (#[trigger] all[i]).0)
            && rows.contains(all[i]) by {
            if i < earlier.len() {
                assert(all[i] == earlier[i]);
            } else {
                assert(all[i] == rows[to - 1]);
            }
        }
        assert forall|i: int| 0 <= i < to && admits(options, (#[trigger] rows[i]).0)
            implies all.contains(rows[i]) by {
            if i < to - 1 {
                assert(earlier.contains(rows[i]));
                let j = choose|j: int| 0 <= j < earlier.len() && earlier[j] == rows[i];
                assert(all[j] == rows[i]);
            } else {
                assert(all[all.len() - 1] == rows[i]);
            }
        }
    }
}

/// Without a limit, listing gives exactly the entries whose keys are asked for.
pub proof fn a_listing_is_complete(rows: Seq<(Seq<char>, Seq<u8>)>, options: ListOptions, entry: (
    Seq<char>,
    Seq<u8>,
))
    requires
        options.limit is None,
    ensures
        listed(rows, options).contains(entry) <==> rows.contains(entry) && admits(options, entry.0),
{
    let order = listing_order(rows, options.reverse);
    lemma_picked_members(order, options, order.len() as int);
    let all = listed(rows, options);
    if all.contains(entry) {
        let i = choose|i: int| 0 <= i < all.len() && all[i] == entry;
        assert(order.contains(all[i]));
        let j = choose|j: int| 0 <= j < order.len() && order[j] == entry;
        if options.reverse {
            assert(rows[rows.len() - 1 - j] == entry);
        } else {
            assert(rows[j] == entry);
        }
    }
    if rows.contains(entry) && admits(options, entry.0) {
        let i = choose|i: int| 0 <= i < rows.len() && rows[i] == entry;
        if options.reverse {
            assert(order[rows.len() - 1 - i] == entry);
        } else {
            assert(order[i] == entry);
        }
    }
}

/// Ordered entries are what the storage maps their keys to, and nothing else is.
pub proof fn every_row_is_stored(rows: Seq<(Seq<char>, Seq<u8>)>, at: int, key: Seq<char>)
    requires
        is_ordered(rows),
        0 <= at < rows.len(),
    ensures
        looked_up(mapping(rows), rows[at].0) == Some(rows[at].1),
        looked_up(mapping(rows), key) is Some ==> exists|i: int|
            0 <= i < rows.len() && (#[trigger] rows[i]).0 == key,
{
    lemma_value_of(rows, at);
}

/// A key is asked for if it starts with the prefix and lies strictly between the bounds, as far as
/// they are given.
pub proof fn bounds_are_exclusive(options: ListOptions, key: Seq<char>)
    ensures
        admits(options, key) <==> {
            &&& options.prefix is Some ==> options.prefix->0@.len() <= key.len() && forall|i: int|
                0 <= i < options.prefix->0@.len() ==> options.prefix->0@[i] == #[trigger] key[i]
            &&& options.start is Some ==> precedes(options.start->0@, key) && !precedes(
                key,
                options.start->0@,
            )
            &&& options.end is Some ==> precedes(key, options.end->0@) && !precedes(
                options.end->0@,
                key,
            )
        },
{
    if options.start is Some {
        precedes_is_a_total_order(options.start->0@, key, key);
        precedes_is_a_total_order(key, key, key);
    }
    if options.end is Some {
        precedes_is_a_total_order(key, options.end->0@, key);
        precedes_is_a_total_order(key, key, key);
    }
    if options.prefix is Some {
        let prefix = options.prefix->0@;
        if prefix.len() <= key.len() && forall|i: int|
            0 <= i < prefix.len() ==> prefix[i] == #[trigger] key[i] {
            assert(prefix =~= key.subrange(0, prefix.len() as int));
        }
        if prefix.is_prefix_of(key) {
            assert forall|i: int| 0 <= i < prefix.len() implies prefix[i] == #[trigger] key[i] by {
                assert(key.subrange(0, prefix.len() as int)[i] == key[i]);
            }
        }
    }
}

proof fn lemma_picked_order(rows: Seq<(Seq<char>, Seq<u8>)>, options: ListOptions, to: int, up: bool)
    requires
        0 <= to <= rows.len(),
        forall|i: int, j: int|
            0 <= i < j < rows.len() ==> if up {
                before((#[trigger] rows[i]).0, (#[trigger] rows[j]).0)
            } else {
                before(rows[j].0, rows[i].0)
            },
    ensures
        forall|i: int, j: int|
            0 <= i < j < picked(rows, options, to).len() ==> if up {
                before(
                    (#[trigger] picked(rows, options, to)[i]).0,
                    (#[trigger] picked(rows, options, to)[j]).0,
                )
            } else {
                before(picked(rows, options, to)[j].0, picked(rows, options, to)[i].0)
            },
        forall|i: int|
            0 <= i < picked(rows, options, to).len() ==> exists|k: int|
                0 <= k < to && #[trigger] rows[k] == #[trigger] picked(rows, options, to)[i],
    decreases to,
{
    if to > 0 {
        lemma_picked_order(rows, options, to - 1, up);
        let earlier = picked(rows, options, to - 1);
        let all = picked(rows, options, to);
        assert forall|i: int| 0 <= i < all.len() implies exists|k: int|
            0 <= k < to && #[trigger] rows[k] == #[trigger] all[i] by {
            if i < earlier.len() {
                assert(all[i] == earlier[i]);
                let k = choose|k: int| 0 <= k < to - 1 && #[trigger] rows[k] == earlier[i];
                assert(rows[k] == all[i]);
            } else {
                assert(rows[to - 1] == all[i]);
            }
        }
        assert forall|i: int, j: int| 0 <= i < j < all.len() implies if up {
            before((#[trigger] all[i]).0, (#[trigger] all[j]).0)
        } else {
            before(all[j].0, all[i].0)
        } by {
            assert(all[i] == earlier[i]);
            if j < earlier.len() {
                assert(all[j] == earlier[j]);
            } else {
                assert(all[j] == rows[to - 1]);
                let k = choose|k: int| 0 <= k < to - 1 && #[trigger] rows[k] == earlier[i];
                assert(rows[k] == all[i]);
            }
        }
    }
}

/// A listing goes up in the order of the keys, or down where the reverse is asked for.
pub proof fn a_listing_is_in_order(
    rows: Seq<(Seq<char>, Seq<u8>)>,
    options: ListOptions,
    i: int,
    j: int,
)
    requires
        is_ordered(rows),
        0 <= i < j < listed(rows, options).len(),
    ensures
        !options.reverse ==> before(listed(rows, options)[i].0, listed(rows, options)[j].0),
        options.reverse ==> before(listed(rows, options)[j].0, listed(rows, options)[i].0),
{
    let order = listing_order(rows, options.reverse);
    assert forall|a: int, b: int| 0 <= a < b < order.len() implies if !options.reverse {
        before((#[trigger] order[a]).0, (#[trigger] order[b]).0)
    } else {
        before(order[b].0, order[a].0)
    } by {
        if options.reverse {
            assert(order[a] == rows[rows.len() - 1 - a]);
            assert(order[b] == rows[rows.len() - 1 - b]);
        }
    }
    lemma_picked_order(order, options, order.len() as int, !options.reverse);
    let all = picked(order, options, rows.len() as int);
    assert(order.len() == rows.len());
    assert(listed(rows, options)[i] == all[i]);
    assert(listed(rows, options)[j] == all[j]);
}

/// A limit cuts a listing off, and does nothing else.
pub proof fn a_limit_cuts_a_listing_off(
    rows: Seq<(Seq<char>, Seq<u8>)>,
    options: ListOptions,
    unlimited: ListOptions,
)
    requires
        options.limit is Some,
        unlimited == (ListOptions { limit: None, ..options }),
    ensures
        listed(rows, options).is_prefix_of(listed(rows, unlimited)),
        listed(rows, options).len() <= options.limit->0,
        listed(rows, options).len() < options.limit->0 ==> listed(rows, options) == listed(
            rows,
            unlimited,
        ),
{
    let order = listing_order(rows, options.reverse);
    lemma_picked_without_limit(order, options, unlimited, rows.len() as int);
    let all = listed(rows, unlimited);
    assert(all.subrange(0, all.len() as int) =~= all);
    assert(listed(rows, options) =~= all.subrange(0, listed(rows, options).len() as int));
}

proof fn lemma_picked_without_limit(
    rows: Seq<(Seq<char>, Seq<u8>)>,
    a: ListOptions,
    b: ListOptions,
    to: int,
)
    requires
        a.prefix == b.prefix,
        a.start == b.start,
        a.end == b.end,
    ensures
        picked(rows, a, to) == picked(rows, b, to),
    decreases to,
{
    if 0 < to <= rows.len() {
        lemma_picked_without_limit(rows, a, b, to - 1);
    }
}

/// Reading several keys gives an entry for each that is there, and for no other.
pub proof fn every_stored_key_is_found(
    map: Map<Seq<char>, Seq<u8>>,
    keys: Seq<Seq<char>>,
    to: int,
    key: Seq<char>,
    value: Seq<u8>,
)
    requires
        0 <= to <= keys.len(),
    ensures
        found(map, keys, to).contains((key, value)) <==> keys.take(to).contains(key) && looked_up(
            map,
            key,
        ) == Some(value),
    decreases to,
{
    if to > 0 {
        every_stored_key_is_found(map, keys, to - 1, key, value);
        let earlier = found(map, keys, to - 1);
        let all = found(map, keys, to);
        let asked = keys.take(to);
        let known = keys.take(to - 1);
        assert(asked =~= keys.take(to - 1).push(keys[to - 1]));
        if earlier.contains((key, value)) {
            let i = choose|i: int| 0 <= i < earlier.len() && earlier[i] == (key, value);
            assert(all[i] == (key, value));
        }
        if known.contains(key) {
            let i = choose|i: int| 0 <= i < to - 1 && known[i] == key;
            assert(asked[i] == key);
        }
        assert(asked[to - 1] == keys[to - 1]);
        if keys[to - 1] == key && looked_up(map, key) == Some(value) {
            assert(all[all.len() - 1] == (key, value));
        }
        if all.contains((key, value)) {
            let i = choose|i: int| 0 <= i < all.len() && all[i] == (key, value);
            if i < earlier.len() {
                assert(earlier[i] == (key, value));
            }
        }
        if asked.contains(key) {
            let i = choose|i: int| 0 <= i < to && asked[i] == key;
            if i < to - 1 {
                assert(known[i] == key);
            }
        }
    }
}

/// Of several entries that are put, the last of a key is read back; other keys are as before.
pub proof fn the_last_entry_of_a_key_stays(
    map: Map<Seq<char>, Seq<u8>>,
    entries: Seq<(Seq<char>, Seq<u8>)>,
    at: int,
    to: int,
    other: Seq<char>,
)
    requires
        0 <= at < to <= entries.len(),
        forall|i: int| at < i < to ==> (#[trigger] entries[i]).0 != entries[at].0,
        forall|i: int| 0 <= i < to ==> (#[trigger] entries[i]).0 != other,
    ensures
        looked_up(with_entries(map, entries, to), entries[at].0) == Some(entries[at].1),
        looked_up(with_entries(map, entries, to), other) == looked_up(map, other),
    decreases to,
{
    lemma_other_entries(map, entries, to, other);
    if at < to - 1 {
        lemma_other_entries(map, entries, to - 1, other);
        the_last_entry_of_a_key_stays(map, entries, at, to - 1, other);
    }
}

proof fn lemma_other_entries(
    map: Map<Seq<char>, Seq<u8>>,
    entries: Seq<(Seq<char>, Seq<u8>)>,
    to: int,
    other: Seq<char>,
)
    requires
        0 <= to <= entries.len(),
        forall|i: int| 0 <= i < to ==> (#[trigger] entries[i]).0 != other,
    ensures
        looked_up(with_entries(map, entries, to), other) == looked_up(map, other),
    decreases to,
{
    if to > 0 {
        lemma_other_entries(map, entries, to - 1, other);
    }
}

/// Deleting several keys removes them and no others, and counts those that were there.
pub proof fn deleted_keys_are_gone(
    map: Map<Seq<char>, Seq<u8>>,
    keys: Seq<Seq<char>>,
    to: int,
    key: Seq<char>,
)
    requires
        0 <= to <= keys.len(),
        map.dom().finite(),
    ensures
        looked_up(without_keys(map, keys, to), key) == if keys.take(to).contains(key) {
            None
        } else {
            looked_up(map, key)
        },
        without_keys(map, keys, to).dom().finite(),
        without_keys(map, keys, to).dom().len() + deleted_count(map, keys, to) == map.dom().len(),
    decreases to,
{
    if to > 0 {
        deleted_keys_are_gone(map, keys, to - 1, key);
        let asked = keys.take(to);
        let earlier = keys.take(to - 1);
        assert(asked =~= keys.take(to - 1).push(keys[to - 1]));
        assert(asked[to - 1] == keys[to - 1]);
        if earlier.contains(key) {
            let i = choose|i: int| 0 <= i < to - 1 && earlier[i] == key;
            assert(asked[i] == key);
        }
        if asked.contains(key) && keys[to - 1] != key {
            let i = choose|i: int| 0 <= i < to && asked[i] == key;
            assert(earlier[i] == key);
        }
        let before = without_keys(map, keys, to - 1);
        assert(before.remove(keys[to - 1]).dom() =~= before.dom().remove(keys[to - 1]));
    }
}

} // verus!
