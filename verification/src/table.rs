//! Tables of named values in the order of their keys.

use vstd::prelude::*;

use crate::hyperlink::same_str;
use crate::ops;

verus! {

/// A key: a number and a name.
pub type Key = (u32, Seq<char>);

/// Lexicographic order of byte strings.
pub open spec fn bytes_before(a: Seq<u8>, b: Seq<u8>) -> bool
    decreases a.len(),
{
    if b.len() == 0 {
        false
    } else if a.len() == 0 {
        true
    } else if a[0] != b[0] {
        a[0] < b[0]
    } else {
        bytes_before(a.drop_first(), b.drop_first())
    }
}

/// Keys are ordered by their number, then by the bytes of their name.
pub open spec fn key_before(a: Key, b: Key) -> bool {
    a.0 < b.0 || (a.0 == b.0 && bytes_before(ops::utf8(a.1), ops::utf8(b.1)))
}

proof fn lemma_bytes_total(a: Seq<u8>, b: Seq<u8>)
    ensures
        bytes_before(a, b) || bytes_before(b, a) || a == b,
        !(bytes_before(a, b) && bytes_before(b, a)),
        a == b ==> !bytes_before(a, b),
    decreases a.len(),
{
    if a.len() == 0 || b.len() == 0 {
        assert(a.len() == b.len() ==> a =~= b);
    } else {
        lemma_bytes_total(a.drop_first(), b.drop_first());
        if a[0] == b[0] && a.drop_first() == b.drop_first() {
            assert(a =~= seq![a[0]] + a.drop_first());
            assert(b =~= seq![b[0]] + b.drop_first());
        }
    }
}

proof fn lemma_bytes_transitive(a: Seq<u8>, b: Seq<u8>, c: Seq<u8>)
    requires
        bytes_before(a, b),
        bytes_before(b, c),
    ensures
        bytes_before(a, c),
    decreases a.len(),
{
    if a.len() > 0 && a[0] == b[0] && b[0] == c[0] {
        lemma_bytes_transitive(a.drop_first(), b.drop_first(), c.drop_first());
    }
}

/// Of two keys one comes before the other, or they are the same.
pub proof fn lemma_key_total(a: Key, b: Key)
    ensures
        key_before(a, b) || key_before(b, a) || a == b,
        !(key_before(a, b) && key_before(b, a)),
        a == b ==> !key_before(a, b),
{
    lemma_bytes_total(ops::utf8(a.1), ops::utf8(b.1));
    vstd::utf8::encode_utf8_decode_utf8(a.1);
    vstd::utf8::encode_utf8_decode_utf8(b.1);
}

/// The order of keys is transitive.
pub proof fn lemma_key_transitive(a: Key, b: Key, c: Key)
    requires
        key_before(a, b),
        key_before(b, c),
    ensures
        key_before(a, c),
{
    if a.0 == b.0 && b.0 == c.0 {
        lemma_bytes_transitive(ops::utf8(a.1), ops::utf8(b.1), ops::utf8(c.1));
    }
}

/// Whether the bytes of `a` come before those of `b`.
fn text_before(a: &str, b: &str) -> (res: bool)
    ensures
        res == bytes_before(ops::utf8(a@), ops::utf8(b@)),
{
    let left = a.as_bytes();
    let right = b.as_bytes();
    let mut i: usize = 0;
    assert(left@.skip(0) =~= left@);
    assert(right@.skip(0) =~= right@);
    while i < left.len() && i < right.len() && left[i] == right[i]
        invariant
            i <= left@.len(),
            i <= right@.len(),
            bytes_before(left@, right@) == bytes_before(left@.skip(i as int), right@.skip(i as int)),
        decreases left@.len() - i,
    {
        assert(left@.skip(i as int).drop_first() =~= left@.skip(i + 1));
        assert(right@.skip(i as int).drop_first() =~= right@.skip(i + 1));
        i += 1;
    }
    i < right.len() && (i == left.len() || left[i] < right[i])
}

/// Entries in strictly ascending order of their keys.
pub open spec fn ascending<V>(entries: Seq<(Key, V)>) -> bool {
    forall|i: int, j: int|
        0 <= i < j < entries.len() ==> key_before(
            (#[trigger] entries[i]).0,
            (#[trigger] entries[j]).0,
        )
}

/// The entry at an index has a key.
pub open spec fn has_key<V>(entries: Seq<(Key, V)>, key: Key, i: int) -> bool {
    0 <= i < entries.len() && entries[i].0 == key
}

/// The value of a key.
pub open spec fn lookup<V>(entries: Seq<(Key, V)>, key: Key) -> Option<V> {
    if exists|i: int| has_key(entries, key, i) {
        Some(entries[choose|i: int| has_key(entries, key, i)].1)
    } else {
        None
    }
}

/// The entries with one key set to a value: those before it, it, those after it.
pub open spec fn upserted<V>(entries: Seq<(Key, V)>, key: Key, value: V) -> Seq<(Key, V)> {
    entries.filter(|e: (Key, V)| key_before(e.0, key)) + seq![(key, value)] + entries.filter(
        |e: (Key, V)| key_before(key, e.0),
    )
}

/// One entry of a table.
#[derive(Debug)]
pub struct Entry<V> {
    pub number: u32,
    pub name: &'static str,
    pub value: V,
}

impl<V> View for Entry<V> {
    type V = (Key, V);

    open spec fn view(&self) -> (Key, V) {
        ((self.number, self.name@), self.value)
    }
}

/// A table in ascending order of its keys.
#[derive(Debug)]
pub struct Table<V> {
    entries: Vec<Entry<V>>,
}

impl<V> View for Table<V> {
    type V = Seq<(Key, V)>;

    closed spec fn view(&self) -> Seq<(Key, V)> {
        Seq::new(self.entries@.len(), |i: int| self.entries@[i]@)
    }
}

proof fn lemma_filter_all<T>(s: Seq<T>, keep: spec_fn(T) -> bool)
    requires
        forall|i: int| 0 <= i < s.len() ==> keep(#[trigger] s[i]),
    ensures
        s.filter(keep) == s,
    decreases s.len(),
{
    reveal_with_fuel(Seq::filter, 1);
    if s.len() > 0 {
        lemma_filter_all(s.drop_last(), keep);
        assert(keep(s[s.len() - 1]));
        assert(s.drop_last().push(s.last()) =~= s);
    }
}

proof fn lemma_filter_none<T>(s: Seq<T>, keep: spec_fn(T) -> bool)
    requires
        forall|i: int| 0 <= i < s.len() ==> !keep(#[trigger] s[i]),
    ensures
        s.filter(keep) == Seq::<T>::empty(),
    decreases s.len(),
{
    reveal_with_fuel(Seq::filter, 1);
    if s.len() > 0 {
        lemma_filter_none(s.drop_last(), keep);
        assert(!keep(s[s.len() - 1]));
    }
}

/// In an ascending table whose entries below `at` come before `key` and whose entries
/// from `next` on come after it, setting the key puts it in between.
proof fn lemma_upserted<V>(entries: Seq<(Key, V)>, key: Key, value: V, at: int, next: int)
    requires
        0 <= at <= next <= entries.len(),
        forall|i: int| 0 <= i < at ==> key_before((#[trigger] entries[i]).0, key),
        forall|i: int| at <= i < next ==> (#[trigger] entries[i]).0 == key,
        forall|i: int| next <= i < entries.len() ==> key_before(key, (#[trigger] entries[i]).0),
    ensures
        upserted(entries, key, value) == entries.take(at) + seq![(key, value)] + entries.skip(next),
{
    let below = |e: (Key, V)| key_before(e.0, key);
    let above = |e: (Key, V)| key_before(key, e.0);
    let head = entries.take(at);
    let same = entries.subrange(at, next);
    let rest = entries.skip(next);
    assert forall|i: int| 0 <= i < entries.len() implies {
        &&& #[trigger] below(entries[i]) <==> i < at
        &&& above(entries[i]) <==> i >= next
    } by {
        lemma_key_total(entries[i].0, key);
    }
    assert forall|i: int| 0 <= i < head.len() implies below(#[trigger] head[i]) && !above(
        head[i],
    ) by {
        assert(below(entries[i]));
    }
    assert forall|i: int| 0 <= i < same.len() implies !below(#[trigger] same[i]) && !above(
        same[i],
    ) by {
        assert(!below(entries[at + i]));
    }
    assert forall|i: int| 0 <= i < rest.len() implies !below(#[trigger] rest[i]) && above(
        rest[i],
    ) by {
        assert(!below(entries[next + i]));
    }
    assert(entries =~= head + (same + rest));
    Seq::filter_distributes_over_add(head, same + rest, below);
    Seq::filter_distributes_over_add(same, rest, below);
    Seq::filter_distributes_over_add(head, same + rest, above);
    Seq::filter_distributes_over_add(same, rest, above);
    lemma_filter_all(head, below);
    lemma_filter_none(same, below);
    lemma_filter_none(rest, below);
    lemma_filter_none(head, above);
    lemma_filter_none(same, above);
    lemma_filter_all(rest, above);
    assert(entries.filter(below) =~= head);
    assert(entries.filter(above) =~= rest);
}

impl<V: Copy> Table<V> {
    /// The order that every table keeps.
    pub open spec fn wf(&self) -> bool {
        ascending(self@)
    }

    pub fn new() -> (res: Self)
        ensures
            res.wf(),
            res@ == Seq::<(Key, V)>::empty(),
    {
        let res = Table { entries: Vec::new() };
        assert(res@ =~= Seq::<(Key, V)>::empty());
        res
    }

    /// Where a key stands or would stand, and whether it is there.
    fn find(&self, number: u32, name: &str) -> (res: (usize, bool))
        requires
            self.wf(),
        ensures
            res.0 <= self@.len(),
            res.1 ==> res.0 < self@.len() && self@[res.0 as int].0 == (number, name@),
            forall|i: int| 0 <= i < res.0 ==> key_before((#[trigger] self@[i]).0, (number, name@)),
            forall|i: int|
                (if res.1 {
                    res.0 + 1
                } else {
                    res.0 as int
                }) <= i < self@.len() ==> key_before((number, name@), (#[trigger] self@[i]).0),
    {
        let ghost key = (number, name@);
        let mut at: usize = 0;
        while at < self.entries.len()
            invariant
                self.wf(),
                key == (number, name@),
                at <= self@.len(),
                self@.len() == self.entries@.len(),
                forall|i: int| 0 <= i < at ==> key_before((#[trigger] self@[i]).0, key),
            decreases self.entries@.len() - at,
        {
            let entry = &self.entries[at];
            assert(self@[at as int] == entry@);
            if entry.number < number || (entry.number == number && text_before(entry.name, name)) {
                at += 1;
            } else {
                let found = entry.number == number && same_str(entry.name, name);
                proof {
                    lemma_key_total(entry@.0, key);
                    assert forall|i: int| at < i < self@.len() implies key_before(
                        key,
                        (#[trigger] self@[i]).0,
                    ) by {
                        assert(key_before(self@[at as int].0, self@[i].0));
                        if !found {
                            lemma_key_transitive(key, self@[at as int].0, self@[i].0);
                        }
                    }
                }
                return (at, found);
            }
        }
        (at, false)
    }

    /// The value of a key.
    pub fn get(&self, number: u32, name: &str) -> (res: Option<V>)
        requires
            self.wf(),
        ensures
            res == lookup(self@, (number, name@)),
    {
        let ghost key = (number, name@);
        let (at, found) = self.find(number, name);
        proof {
            assert forall|i: int| has_key(self@, key, i) implies i == at && found by {
                lemma_key_total(self@[i].0, key);
            }
            assert(found ==> has_key(self@, key, at as int));
        }
        if found {
            assert(self@[at as int] == self.entries@[at as int]@);
            Some(self.entries[at].value)
        } else {
            None
        }
    }

    /// Sets the value of a key.
    pub fn set(&mut self, number: u32, name: &'static str, value: V)
        requires
            old(self).wf(),
        ensures
            final(self).wf(),
            final(self)@ == upserted(old(self)@, (number, name@), value),
    {
        let ghost before = self@;
        let ghost key = (number, name@);
        let (at, found) = self.find(number, name);
        let entry = Entry { number, name, value };
        if found {
            proof {
                lemma_upserted(before, key, value, at as int, at + 1);
            }
            self.entries.set(at, entry);
            assert(self@ =~= before.take(at as int) + seq![(key, value)] + before.skip(at + 1));
        } else {
            proof {
                lemma_upserted(before, key, value, at as int, at as int);
            }
            self.entries.insert(at, entry);
            assert(self@ =~= before.take(at as int) + seq![(key, value)] + before.skip(at as int));
        }
        proof {
            law_upserted_is_ascending(before, key, value);
        }
    }

    /// How many entries there are.
    pub fn len(&self) -> (res: usize)
        ensures
            res == self@.len(),
    {
        self.entries.len()
    }

    /// The entry at an index.
    pub fn entry(&self, index: usize) -> (res: Entry<V>)
        requires
            index < self@.len(),
        ensures
            res@ == self@[index as int],
    {
        assert(self@[index as int] == self.entries@[index as int]@);
        let entry = &self.entries[index];
        Entry { number: entry.number, name: entry.name, value: entry.value }
    }
}

/// Setting a key keeps the order.
pub proof fn law_upserted_is_ascending<V>(entries: Seq<(Key, V)>, key: Key, value: V)
    requires
        ascending(entries),
    ensures
        ascending(upserted(entries, key, value)),
{
    let at = split_at(entries, key);
    let next = if at < entries.len() && entries[at].0 == key {
        at + 1
    } else {
        at
    };
    lemma_split_at(entries, key);
    lemma_upserted(entries, key, value, at, next);
    let after = upserted(entries, key, value);
    assert forall|i: int, j: int| 0 <= i < j < after.len() implies key_before(
        (#[trigger] after[i]).0,
        (#[trigger] after[j]).0,
    ) by {
        if i < at && j > at {
            assert(after[i] == entries[i]);
            assert(after[j] == entries[next + (j - at - 1)]);
        } else if i < at && j < at {
            assert(after[i] == entries[i]);
            assert(after[j] == entries[j]);
        } else if i < at {
            assert(after[i] == entries[i]);
        } else if i == at {
            assert(after[j] == entries[next + (j - at - 1)]);
        } else {
            assert(after[i] == entries[next + (i - at - 1)]);
            assert(after[j] == entries[next + (j - at - 1)]);
        }
    }
}

/// How many entries come before a key.
spec fn split_at<V>(entries: Seq<(Key, V)>, key: Key) -> int
    decreases entries.len(),
{
    if entries.len() == 0 {
        0
    } else if key_before(entries.last().0, key) {
        entries.len() as int
    } else {
        split_at(entries.drop_last(), key)
    }
}

proof fn lemma_split_at<V>(entries: Seq<(Key, V)>, key: Key)
    requires
        ascending(entries),
    ensures
        ({
            let at = split_at(entries, key);
            &&& 0 <= at <= entries.len()
            &&& forall|i: int| 0 <= i < at ==> key_before((#[trigger] entries[i]).0, key)
            &&& forall|i: int|
                at <= i < entries.len() && !(i == at && entries[at].0 == key) ==> key_before(
                    key,
                    (#[trigger] entries[i]).0,
                )
        }),
    decreases entries.len(),
{
    if entries.len() > 0 {
        let rest = entries.drop_last();
        let last = entries.last();
        assert(last == entries[entries.len() - 1]);
        assert forall|i: int, j: int| 0 <= i < j < rest.len() implies key_before(
            (#[trigger] rest[i]).0,
            (#[trigger] rest[j]).0,
        ) by {
            assert(key_before(entries[i].0, entries[j].0));
        }
        lemma_split_at(rest, key);
        lemma_key_total(last.0, key);
        let at = split_at(entries, key);
        if key_before(last.0, key) {
            assert forall|i: int| 0 <= i < at implies key_before((#[trigger] entries[i]).0, key) by {
                if i < entries.len() - 1 {
                    lemma_key_transitive(entries[i].0, last.0, key);
                }
            }
        } else {
            assert forall|i: int| 0 <= i < at implies key_before((#[trigger] entries[i]).0, key) by {
                assert(rest[i] == entries[i]);
            }
            assert forall|i: int|
                at <= i < entries.len() && !(i == at && entries[at].0 == key) implies key_before(
                key,
                (#[trigger] entries[i]).0,
            ) by {
                if i < rest.len() {
                    assert(rest[i] == entries[i]);
                    if at < rest.len() {
                        assert(rest[at] == entries[at]);
                    }
                } else if at < rest.len() {
                    assert(rest[at] == entries[at]);
                    assert(key_before(entries[at].0, last.0));
                    if entries[at].0 != key {
                        lemma_key_transitive(key, entries[at].0, last.0);
                    }
                }
            }
        }
    }
}

/// A key that was set has its new value, and every other key the value it had.
pub proof fn law_lookup_after_upsert<V>(
    entries: Seq<(Key, V)>,
    key: Key,
    value: V,
    other: Key,
)
    requires
        ascending(entries),
    ensures
        lookup(upserted(entries, key, value), other) == if other == key {
            Some(value)
        } else {
            lookup(entries, other)
        },
{
    let at = split_at(entries, key);
    let next = if at < entries.len() && entries[at].0 == key {
        at + 1
    } else {
        at
    };
    lemma_split_at(entries, key);
    lemma_upserted(entries, key, value, at, next);
    law_upserted_is_ascending(entries, key, value);
    let after = upserted(entries, key, value);
    assert(after[at] == (key, value));
    if other == key {
        lemma_lookup(after, at);
    } else if exists|i: int| has_key(entries, other, i) {
        let i = choose|i: int| has_key(entries, other, i);
        lemma_lookup(entries, i);
        if i < at {
            assert(after[i] == entries[i]);
            lemma_lookup(after, i);
        } else {
            assert(after[i - next + at + 1] == entries[i]);
            lemma_lookup(after, i - next + at + 1);
        }
    } else {
        assert forall|i: int| !has_key(after, other, i) by {
            if 0 <= i < at {
                assert(after[i] == entries[i]);
                assert(!has_key(entries, other, i));
            } else if at < i < after.len() {
                assert(after[i] == entries[next + (i - at - 1)]);
                assert(!has_key(entries, other, next + (i - at - 1)));
            }
        }
    }
}

/// The key of an entry has the value of the entry.
proof fn lemma_lookup<V>(entries: Seq<(Key, V)>, i: int)
    requires
        ascending(entries),
        0 <= i < entries.len(),
    ensures
        lookup(entries, entries[i].0) == Some(entries[i].1),
{
    let key = entries[i].0;
    let j = choose|j: int| has_key(entries, key, j);
    assert(has_key(entries, key, i));
    if i < j {
        lemma_key_total(entries[i].0, entries[j].0);
    } else if j < i {
        lemma_key_total(entries[j].0, entries[i].0);
    }
}

/// Setting a key twice is setting it to the second value.
pub proof fn law_second_upsert_wins<V>(entries: Seq<(Key, V)>, key: Key, first: V, second: V)
    requires
        ascending(entries),
    ensures
        upserted(upserted(entries, key, first), key, second) == upserted(entries, key, second),
{
    let at = split_at(entries, key);
    let next = if at < entries.len() && entries[at].0 == key {
        at + 1
    } else {
        at
    };
    lemma_split_at(entries, key);
    lemma_upserted(entries, key, first, at, next);
    lemma_upserted(entries, key, second, at, next);
    let once = upserted(entries, key, first);
    assert forall|i: int| 0 <= i < at implies key_before((#[trigger] once[i]).0, key) by {
        assert(once[i] == entries[i]);
    }
    assert forall|i: int| at + 1 <= i < once.len() implies key_before(
        key,
        (#[trigger] once[i]).0,
    ) by {
        assert(once[i] == entries[next + (i - at - 1)]);
    }
    lemma_upserted(once, key, second, at, at + 1);
    assert(upserted(once, key, second) =~= upserted(entries, key, second));
}

/// Byte strings are in dictionary order: the first byte in which they differ decides, and
/// one that the other starts with comes first.
pub proof fn law_bytes_are_in_dictionary_order(a: Seq<u8>, b: Seq<u8>, i: int)
    requires
        0 <= i <= a.len(),
        i < b.len(),
        a.take(i) == b.take(i),
        i == a.len() || a[i] != b[i],
    ensures
        bytes_before(a, b) <==> i == a.len() || a[i] < b[i],
    decreases i,
{
    if i > 0 {
        assert(a[0] == a.take(i)[0]);
        assert(b[0] == b.take(i)[0]);
        let (c, d) = (a.drop_first(), b.drop_first());
        assert forall|k: int| 0 <= k < i - 1 implies c[k] == d[k] by {
            assert(a[k + 1] == a.take(i)[k + 1]);
            assert(b[k + 1] == b.take(i)[k + 1]);
        }
        assert(c.take(i - 1) =~= d.take(i - 1));
        law_bytes_are_in_dictionary_order(c, d, i - 1);
    }
}

/// The number of a key decides its place, and its name among keys of one number.
pub proof fn law_keys_are_ordered_by_number_first(a: Key, b: Key)
    ensures
        a.0 < b.0 ==> key_before(a, b) && !key_before(b, a),
        a.0 == b.0 ==> (key_before(a, b) <==> bytes_before(
            vstd::utf8::encode_utf8(a.1),
            vstd::utf8::encode_utf8(b.1),
        )),
{
}

/// A key has the value of its entry, and none if it has no entry.
pub proof fn law_lookup_finds_entry<V>(entries: Seq<(Key, V)>, key: Key)
    requires
        ascending(entries),
    ensures
        forall|i: int|
            0 <= i < entries.len() && (#[trigger] entries[i]).0 == key ==> lookup(entries, key)
                == Some(entries[i].1),
        (forall|i: int| 0 <= i < entries.len() ==> (#[trigger] entries[i]).0 != key) ==> lookup(
            entries,
            key,
        ) is None,
{
    assert forall|i: int| 0 <= i < entries.len() && (#[trigger] entries[i]).0 == key implies lookup(
        entries,
        key,
    ) == Some(entries[i].1) by {
        assert(has_key(entries, key, i));
        let j = choose|j: int| has_key(entries, key, j);
        lemma_key_total(key, key);
        if i < j {
            assert(key_before(entries[i].0, entries[j].0));
        } else if j < i {
            assert(key_before(entries[j].0, entries[i].0));
        }
    }
}

} // verus!
