//! Tables: lists of named values that are kept in the order of their names,
//! each name once.
use crate::text::{chars_of, same};
use vstd::prelude::*;

verus! {

/// Whether `a` comes before `b` in the order of strings: the first
/// character in which they differ decides, by its code point, and a string
/// comes before each string that it begins.
pub open spec fn precedes(a: Seq<char>, b: Seq<char>) -> bool
    decreases a.len(),
{
    if b.len() == 0 {
        false
    } else if a.len() == 0 {
        true
    } else if a[0] != b[0] {
        (a[0] as int) < (b[0] as int)
    } else {
        precedes(a.skip(1), b.skip(1))
    }
}

/// No string comes before itself.
pub proof fn lemma_precedes_irreflexive(a: Seq<char>)
    ensures
        !precedes(a, a),
    decreases a.len(),
{
    if a.len() > 0 {
        lemma_precedes_irreflexive(a.skip(1));
    }
}

/// Of two different strings, one comes before the other.
pub proof fn lemma_precedes_total(a: Seq<char>, b: Seq<char>)
    ensures
        a == b || precedes(a, b) || precedes(b, a),
        !(precedes(a, b) && precedes(b, a)),
    decreases a.len(),
{
    if a.len() > 0 && b.len() > 0 {
        if a[0] == b[0] {
            lemma_precedes_total(a.skip(1), b.skip(1));
            if a.skip(1) == b.skip(1) {
                assert(a =~= seq![a[0]] + a.skip(1));
                assert(b =~= seq![b[0]] + b.skip(1));
            }
        }
    } else if a.len() == 0 && b.len() == 0 {
        assert(a =~= b);
    }
}

/// What comes before a string comes before all that the string comes
/// before.
pub proof fn lemma_precedes_transitive(a: Seq<char>, b: Seq<char>, c: Seq<char>)
    requires
        precedes(a, b),
        precedes(b, c),
    ensures
        precedes(a, c),
    decreases a.len(),
{
    if a.len() > 0 && b.len() > 0 && c.len() > 0 {
        if a[0] == b[0] && b[0] == c[0] {
            lemma_precedes_transitive(a.skip(1), b.skip(1), c.skip(1));
        }
    }
}

/// Whether the code point of `a` is below that of `b`.
pub fn char_less(a: char, b: char) -> (r: bool)
    ensures
        r == ((a as int) < (b as int)),
{
    (a as u32) < (b as u32)
}

/// Whether `a` comes before `b` in the order of strings.
pub fn less(a: &str, b: &str) -> (r: bool)
    ensures
        r == precedes(a@, b@),
{
    let x = chars_of(a);
    let y = chars_of(b);
    let mut i: usize = 0;
    proof {
        assert(x@.skip(0) =~= x@);
        assert(y@.skip(0) =~= y@);
    }
    while i < x.len() && i < y.len()
        invariant
            i <= x.len(),
            i <= y.len(),
            x@ == a@,
            y@ == b@,
            precedes(a@, b@) == precedes(x@.skip(i as int), y@.skip(i as int)),
        decreases x.len() - i,
    {
        proof {
            assert(x@.skip(i as int)[0] == x@[i as int]);
            assert(y@.skip(i as int)[0] == y@[i as int]);
            assert(x@.skip(i as int).skip(1) =~= x@.skip(i + 1));
            assert(y@.skip(i as int).skip(1) =~= y@.skip(i + 1));
        }
        if x[i] != y[i] {
            return char_less(x[i], y[i]);
        }
        i += 1;
    }
    i < y.len()
}

/// The names of a table, in order.
pub open spec fn keys<V>(t: Seq<(Seq<char>, V)>) -> Seq<Seq<char>> {
    t.map_values(|e: (Seq<char>, V)| e.0)
}

/// Whether each name comes before all that follow it.
pub open spec fn ascending(names: Seq<Seq<char>>) -> bool {
    forall|i: int, j: int| 0 <= i < j < names.len() ==> precedes(names[i], names[j])
}

/// The place of the first name that does not come before `key`;
/// `names.len()` if there is none.
pub open spec fn slot(names: Seq<Seq<char>>, key: Seq<char>) -> int
    decreases names.len(),
{
    if names.len() == 0 {
        0
    } else if !precedes(names[0], key) {
        0
    } else {
        1 + slot(names.skip(1), key)
    }
}

/// The value that stands under `key`, if there is one.
pub open spec fn value_of<V>(t: Seq<(Seq<char>, V)>, key: Seq<char>) -> Option<V> {
    match keys(t).index_of_first(key) {
        Some(i) => Some(t[i].1),
        None => None,
    }
}

/// `t` with `value` under `key`: in the place of the value that stood
/// there, or in a new entry before the first name that `key` does not
/// follow.
pub open spec fn with_entry<V>(t: Seq<(Seq<char>, V)>, key: Seq<char>, value: V) -> Seq<
    (Seq<char>, V),
> {
    let i = slot(keys(t), key);
    if i < t.len() && t[i].0 == key {
        t.update(i, (key, value))
    } else {
        t.insert(i, (key, value))
    }
}

/// `t` without the first entry that bears `key`.
pub open spec fn without<V>(t: Seq<(Seq<char>, V)>, key: Seq<char>) -> Seq<(Seq<char>, V)> {
    match keys(t).index_of_first(key) {
        Some(i) => t.remove(i),
        None => t,
    }
}

/// The place that `slot` names: all names before it come before `key`,
/// and the name at it does not.
pub proof fn lemma_slot(names: Seq<Seq<char>>, key: Seq<char>, i: int)
    requires
        0 <= i <= names.len(),
        forall|j: int| 0 <= j < i ==> precedes(#[trigger] names[j], key),
        i == names.len() || !precedes(names[i], key),
    ensures
        slot(names, key) == i,
    decreases i,
{
    if i > 0 {
        assert(precedes(names[0], key));
        let rest = names.skip(1);
        assert forall|j: int| 0 <= j < i - 1 implies precedes(#[trigger] rest[j], key) by {
            assert(rest[j] == names[j + 1]);
        }
        lemma_slot(rest, key, i - 1);
    }
}

/// The names before the slot of `key` come before `key`; the name at it
/// does not.
pub proof fn lemma_slot_bounds(names: Seq<Seq<char>>, key: Seq<char>)
    ensures
        0 <= slot(names, key) <= names.len(),
        forall|j: int| 0 <= j < slot(names, key) ==> precedes(#[trigger] names[j], key),
        slot(names, key) < names.len() ==> !precedes(names[slot(names, key)], key),
    decreases names.len(),
{
    if names.len() > 0 && precedes(names[0], key) {
        let rest = names.skip(1);
        lemma_slot_bounds(rest, key);
        assert forall|j: int| 0 <= j < slot(names, key) implies precedes(
            #[trigger] names[j],
            key,
        ) by {
            if j > 0 {
                assert(rest[j - 1] == names[j]);
            }
        }
        if slot(names, key) < names.len() {
            assert(rest[slot(rest, key)] == names[slot(names, key)]);
        }
    }
}

/// A table in order stays in order when a value is put into it, and then
/// holds that value under its key and what it held under every other key.
pub proof fn lemma_with_entry<V>(t: Seq<(Seq<char>, V)>, key: Seq<char>, value: V)
    requires
        ascending(keys(t)),
    ensures
        ascending(keys(with_entry(t, key, value))),
        value_of(with_entry(t, key, value), key) == Some(value),
        forall|other: Seq<char>|
            other != key ==> #[trigger] value_of(with_entry(t, key, value), other) == value_of(
                t,
                other,
            ),
{
    let names = keys(t);
    let after = with_entry(t, key, value);
    let i = slot(names, key);
    lemma_slot_bounds(names, key);
    if i < t.len() && t[i].0 == key {
        assert(keys(after) =~= names);
    } else {
        assert(keys(after) =~= names.insert(i, key));
        assert forall|a: int, b: int| 0 <= a < b < keys(after).len() implies precedes(
            keys(after)[a],
            keys(after)[b],
        ) by {
            if b == i {
                assert(keys(after)[a] == names[a]);
            } else if a == i {
                assert(keys(after)[b] == names[b - 1]);
                lemma_precedes_total(names[i], key);
                if b - 1 > i {
                    lemma_precedes_transitive(key, names[i], names[b - 1]);
                }
            } else if b < i {
                assert(keys(after)[a] == names[a] && keys(after)[b] == names[b]);
            } else if a < i {
                assert(keys(after)[a] == names[a] && keys(after)[b] == names[b - 1]);
            } else {
                assert(keys(after)[a] == names[a - 1] && keys(after)[b] == names[b - 1]);
            }
        }
    }
    lemma_ascending_unique(keys(after));
    lemma_ascending_unique(names);
    keys(after).index_of_first_ensures(key);
    assert(keys(after)[i] == key);
    assert forall|other: Seq<char>| other != key implies #[trigger] value_of(after, other)
        == value_of(t, other) by {
        names.index_of_first_ensures(other);
        keys(after).index_of_first_ensures(other);
        if i < t.len() && t[i].0 == key {
        } else {
            match names.index_of_first(other) {
                Some(k) => {
                    let k2 = if k < i {
                        k
                    } else {
                        k + 1
                    };
                    assert(keys(after)[k2] == other);
                },
                None => {
                    if keys(after).contains(other) {
                        let k = choose|k: int|
                            0 <= k < keys(after).len() && keys(after)[k] == other;
                        if k < i {
                            assert(names[k] == other);
                        } else {
                            assert(names[k - 1] == other);
                        }
                    }
                },
            }
        }
    }
}

/// In a list in order no name stands twice.
pub proof fn lemma_ascending_unique(names: Seq<Seq<char>>)
    requires
        ascending(names),
    ensures
        names.no_duplicates(),
{
    assert forall|i: int, j: int| 0 <= i < names.len() && 0 <= j < names.len() && i != j implies names[i]
        != names[j] by {
        lemma_precedes_irreflexive(names[i]);
        if i < j {
            assert(precedes(names[i], names[j]));
        } else {
            assert(precedes(names[j], names[i]));
        }
    }
}

/// A table in order stays in order when an entry leaves it, and then holds
/// nothing under the key of that entry and what it held under every other
/// key.
pub proof fn lemma_without<V>(t: Seq<(Seq<char>, V)>, key: Seq<char>)
    requires
        ascending(keys(t)),
    ensures
        ascending(keys(without(t, key))),
        value_of(without(t, key), key) is None,
        forall|other: Seq<char>|
            other != key ==> #[trigger] value_of(without(t, key), other) == value_of(t, other),
{
    let names = keys(t);
    let after = without(t, key);
    names.index_of_first_ensures(key);
    lemma_ascending_unique(names);
    match names.index_of_first(key) {
        Some(i) => {
            assert(keys(after) =~= names.remove(i));
            assert forall|a: int, b: int| 0 <= a < b < keys(after).len() implies precedes(
                keys(after)[a],
                keys(after)[b],
            ) by {
                let a2 = if a < i {
                    a
                } else {
                    a + 1
                };
                let b2 = if b < i {
                    b
                } else {
                    b + 1
                };
                assert(keys(after)[a] == names[a2] && keys(after)[b] == names[b2]);
            }
            keys(after).index_of_first_ensures(key);
            if keys(after).contains(key) {
                let k = choose|k: int| 0 <= k < keys(after).len() && keys(after)[k] == key;
                let k2 = if k < i {
                    k
                } else {
                    k + 1
                };
                assert(names[k2] == key);
            }
            assert forall|other: Seq<char>| other != key implies #[trigger] value_of(after, other)
                == value_of(t, other) by {
                names.index_of_first_ensures(other);
                keys(after).index_of_first_ensures(other);
                lemma_ascending_unique(keys(after));
                match names.index_of_first(other) {
                    Some(k) => {
                        let k2 = if k < i {
                            k
                        } else {
                            k - 1
                        };
                        assert(keys(after)[k2] == other);
                    },
                    None => {
                        if keys(after).contains(other) {
                            let k = choose|k: int|
                                0 <= k < keys(after).len() && keys(after)[k] == other;
                            let k2 = if k < i {
                                k
                            } else {
                                k + 1
                            };
                            assert(names[k2] == other);
                        }
                    },
                }
            }
        },
        None => {},
    }
}

/// The place of the first entry of `m` that bears `key`.
pub fn position<V: DeepView>(m: &Vec<(String, V)>, key: &str) -> (r: Option<usize>)
    ensures
        match r {
            Some(i) => keys(m.deep_view()).index_of_first(key@) == Some(i as int) && i < m.len(),
            None => keys(m.deep_view()).index_of_first(key@) is None,
        },
{
    let ghost names = keys(m.deep_view());
    let mut i: usize = 0;
    while i < m.len()
        invariant
            i <= m.len(),
            names == keys(m.deep_view()),
            forall|j: int| 0 <= j < i ==> names[j] != key@,
        decreases m.len() - i,
    {
        if same(m[i].0.as_str(), key) {
            proof {
                names.index_of_first_ensures(key@);
                assert(names[i as int] == key@);
            }
            return Some(i);
        }
        i += 1;
    }
    proof {
        names.index_of_first_ensures(key@);
    }
    None
}

/// Puts `value` under `key`.
pub fn insert_entry<V: DeepView>(m: &mut Vec<(String, V)>, key: String, value: V)
    ensures
        final(m).deep_view() == with_entry(old(m).deep_view(), key@, value.deep_view()),
{
    let ghost before = m.deep_view();
    let ghost names = keys(before);
    let mut i: usize = 0;
    while i < m.len() && less(m[i].0.as_str(), key.as_str())
        invariant
            i <= m.len(),
            m@ == old(m)@,
            names == keys(m.deep_view()),
            forall|j: int| 0 <= j < i ==> precedes(#[trigger] names[j], key@),
        decreases m.len() - i,
    {
        i += 1;
    }
    proof {
        lemma_slot(names, key@, i as int);
    }
    if i < m.len() && same(m[i].0.as_str(), key.as_str()) {
        let _ = m.remove(i);
        m.insert(i, (key, value));
        proof {
            assert(m.deep_view() =~= before.update(i as int, (key@, value.deep_view())));
        }
    } else {
        m.insert(i, (key, value));
        proof {
            assert(m.deep_view() =~= before.insert(i as int, (key@, value.deep_view())));
        }
    }
}

/// Takes out the first entry that bears `key`, and hands out its value.
pub fn remove_entry<V: DeepView>(m: &mut Vec<(String, V)>, key: &str) -> (r: Option<V>)
    ensures
        final(m).deep_view() == without(old(m).deep_view(), key@),
        match r {
            Some(v) => value_of(old(m).deep_view(), key@) == Some(v.deep_view()),
            None => value_of(old(m).deep_view(), key@) is None,
        },
{
    let ghost before = m.deep_view();
    match position(m, key) {
        Some(i) => {
            let e = m.remove(i);
            proof {
                assert(m.deep_view() =~= before.remove(i as int));
            }
            Some(e.1)
        },
        None => None,
    }
}

/// The value that stands under `key`, if there is one.
pub fn lookup<'a, V: DeepView>(m: &'a Vec<(String, V)>, key: &str) -> (r: Option<&'a V>)
    ensures
        match r {
            Some(v) => value_of(m.deep_view(), key@) == Some(v.deep_view()),
            None => value_of(m.deep_view(), key@) is None,
        },
{
    match position(m, key) {
        Some(i) => Some(&m[i].1),
        None => None,
    }
}

} // verus!
