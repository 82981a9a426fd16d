//! A small table from `u64` keys to `u64` values that keeps the order in which
//! its entries were made. The drivers use it for who waits on which stream and
//! for which connection an identifier belongs to.

use vstd::prelude::*;

verus! {

/// Whether no key occurs twice among the entries.
pub open spec fn distinct_keys(s: Seq<(u64, u64)>) -> bool {
    forall|i: int, j: int| 0 <= i < j < s.len() ==> s[i].0 != s[j].0
}

/// Whether some entry has the key.
pub open spec fn has_key(s: Seq<(u64, u64)>, key: u64) -> bool {
    exists|i: int| 0 <= i < s.len() && (#[trigger] s[i]).0 == key
}

/// The value entered under `key`, if any.
pub open spec fn lookup(s: Seq<(u64, u64)>, key: u64) -> Option<u64>
    decreases s.len(),
{
    if s.len() == 0 {
        None
    } else if s.last().0 == key {
        Some(s.last().1)
    } else {
        lookup(s.drop_last(), key)
    }
}

/// The entries without those of `key`; the others keep their order.
pub open spec fn erase(s: Seq<(u64, u64)>, key: u64) -> Seq<(u64, u64)>
    decreases s.len(),
{
    if s.len() == 0 {
        s
    } else if s.last().0 == key {
        erase(s.drop_last(), key)
    } else {
        erase(s.drop_last(), key).push(s.last())
    }
}

/// The entries after `value` was entered under `key`: an earlier entry of the
/// key is replaced, and the new one is the youngest.
pub open spec fn put(s: Seq<(u64, u64)>, key: u64, value: u64) -> Seq<(u64, u64)> {
    erase(s, key).push((key, value))
}

/// The values of the entries, in order.
pub open spec fn values_of(s: Seq<(u64, u64)>) -> Seq<u64> {
    Seq::new(s.len(), |i: int| s[i].1)
}

/// With distinct keys, the entry at a position is the one found under its key,
/// and erasing the key removes exactly that position.
pub proof fn lemma_entry_at(s: Seq<(u64, u64)>, at: int)
    requires
        distinct_keys(s),
        0 <= at < s.len(),
    ensures
        lookup(s, s[at].0) == Some(s[at].1),
        erase(s, s[at].0) == s.remove(at),
    decreases s.len(),
{
    let t = s.drop_last();
    assert(distinct_keys(t)) by {
        assert forall|i: int, j: int| 0 <= i < j < t.len() implies t[i].0 != t[j].0 by {
            assert(s[i].0 != s[j].0);
        }
    }
    if at == s.len() - 1 {
        lemma_absent(t, s[at].0);
        assert(s.remove(at) =~= t);
    } else {
        assert(s[at].0 != s[s.len() - 1].0);
        lemma_entry_at(t, at);
        assert(t[at] == s[at]);
        assert(s.remove(at) =~= t.remove(at).push(s.last()));
    }
}

/// A key that no entry has is not found, and erasing it changes nothing.
pub proof fn lemma_absent(s: Seq<(u64, u64)>, key: u64)
    requires
        forall|i: int| 0 <= i < s.len() ==> (#[trigger] s[i]).0 != key,
    ensures
        lookup(s, key) is None,
        erase(s, key) == s,
    decreases s.len(),
{
    if s.len() > 0 {
        let t = s.drop_last();
        assert forall|i: int| 0 <= i < t.len() implies (#[trigger] t[i]).0 != key by {
            assert(s[i].0 != key);
        }
        lemma_absent(t, key);
        assert(s[s.len() - 1].0 != key);
        assert(t.push(s.last()) =~= s);
    }
}

/// Erasing a key keeps the keys distinct, removes the key and touches no
/// other key.
pub proof fn lemma_erase(s: Seq<(u64, u64)>, key: u64)
    requires
        distinct_keys(s),
    ensures
        distinct_keys(erase(s, key)),
        erase(s, key).len() <= s.len(),
        lookup(erase(s, key), key) is None,
        forall|i: int| 0 <= i < erase(s, key).len() ==> (#[trigger] erase(s, key)[i]).0 != key,
        forall|other: u64| other != key ==> lookup(erase(s, key), other) == lookup(s, other),
        forall|i: int|
            0 <= i < erase(s, key).len() ==> exists|k: int|
                0 <= k < s.len() && s[k] == #[trigger] erase(s, key)[i],
    decreases s.len(),
{
    let r = erase(s, key);
    if s.len() > 0 {
        let t = s.drop_last();
        assert(distinct_keys(t)) by {
            assert forall|i: int, j: int| 0 <= i < j < t.len() implies t[i].0 != t[j].0 by {
                assert(s[i].0 != s[j].0);
            }
        }
        lemma_erase(t, key);
        let f = erase(t, key);
        assert forall|i: int| 0 <= i < r.len() implies exists|k: int|
            0 <= k < s.len() && s[k] == #[trigger] r[i] by {
            if i < f.len() {
                let k = choose|k: int| 0 <= k < t.len() && t[k] == f[i];
                assert(s[k] == r[i]);
            } else {
                assert(s[s.len() - 1] == r[i]);
            }
        }
        if s.last().0 != key {
            assert(r == f.push(s.last()));
            assert(r.drop_last() =~= f);
            assert forall|i: int, j: int| 0 <= i < j < r.len() implies r[i].0 != r[j].0 by {
                if j == f.len() {
                    let k = choose|k: int| 0 <= k < t.len() && t[k] == f[i];
                    assert(s[k].0 != s[s.len() - 1].0);
                } else {
                    assert(f[i].0 != f[j].0);
                }
            }
            assert(r.last() == s.last());
            assert forall|other: u64| other != key implies lookup(r, other) == lookup(
                s,
                other,
            ) by {
                if s.last().0 != other {
                    assert(lookup(r, other) == lookup(f, other));
                    assert(lookup(s, other) == lookup(t, other));
                }
            }
        } else {
            assert(r == f);
            assert forall|other: u64| other != key implies lookup(r, other) == lookup(
                s,
                other,
            ) by {
                assert(lookup(s, other) == lookup(t, other));
            }
        }
    }
    lemma_absent(r, key);
}

/// Entering a value under a key keeps the keys distinct; the key then finds
/// the new value and every other key finds what it found before.
pub proof fn lemma_put(s: Seq<(u64, u64)>, key: u64, task: u64)
    requires
        distinct_keys(s),
    ensures
        distinct_keys(put(s, key, task)),
        put(s, key, task).len() <= s.len() + 1,
        lookup(put(s, key, task), key) == Some(task),
        forall|other: u64| other != key ==> lookup(put(s, key, task), other) == lookup(s, other),
{
    lemma_erase(s, key);
    let e = erase(s, key);
    let r = put(s, key, task);
    assert(r.drop_last() =~= e);
    assert forall|i: int, j: int| 0 <= i < j < r.len() implies r[i].0 != r[j].0 by {
        if j == e.len() {
            assert(e[i].0 != key);
        } else {
            assert(e[i].0 != e[j].0);
        }
    }
}

/// The entries without those that hold `value`; the others keep their order.
pub open spec fn strip(s: Seq<(u64, u64)>, value: u64) -> Seq<(u64, u64)>
    decreases s.len(),
{
    if s.len() == 0 {
        s
    } else if s.last().1 == value {
        strip(s.drop_last(), value)
    } else {
        strip(s.drop_last(), value).push(s.last())
    }
}

/// Stripping a value keeps the keys distinct, leaves no entry with the value,
/// and leaves every key that held another value as it was.
pub proof fn lemma_strip(s: Seq<(u64, u64)>, value: u64)
    requires
        distinct_keys(s),
    ensures
        distinct_keys(strip(s, value)),
        strip(s, value).len() <= s.len(),
        forall|i: int| 0 <= i < strip(s, value).len() ==> (#[trigger] strip(s, value)[i]).1 != value,
        forall|i: int|
            0 <= i < strip(s, value).len() ==> exists|k: int|
                0 <= k < s.len() && s[k] == #[trigger] strip(s, value)[i],
        forall|key: u64|
            #[trigger] lookup(strip(s, value), key) == if lookup(s, key) == Some(value) {
                None
            } else {
                lookup(s, key)
            },
    decreases s.len(),
{
    let r = strip(s, value);
    if s.len() > 0 {
        let t = s.drop_last();
        assert(distinct_keys(t)) by {
            assert forall|i: int, j: int| 0 <= i < j < t.len() implies t[i].0 != t[j].0 by {
                assert(s[i].0 != s[j].0);
            }
        }
        lemma_strip(t, value);
        let f = strip(t, value);
        assert forall|i: int| 0 <= i < r.len() implies exists|k: int|
            0 <= k < s.len() && s[k] == #[trigger] r[i] by {
            if i < f.len() {
                let k = choose|k: int| 0 <= k < t.len() && t[k] == f[i];
                assert(s[k] == r[i]);
            } else {
                assert(s[s.len() - 1] == r[i]);
            }
        }
        assert forall|i: int| 0 <= i < t.len() implies (#[trigger] t[i]).0 != s.last().0 by {
            assert(s[i].0 != s[s.len() - 1].0);
        }
        lemma_absent(t, s.last().0);
        if s.last().1 != value {
            assert(r == f.push(s.last()));
            assert(r.drop_last() =~= f);
            assert(r.last() == s.last());
            assert forall|i: int, j: int| 0 <= i < j < r.len() implies r[i].0 != r[j].0 by {
                if j == f.len() {
                    let k = choose|k: int| 0 <= k < t.len() && t[k] == f[i];
                    assert(s[k].0 != s[s.len() - 1].0);
                } else {
                    assert(f[i].0 != f[j].0);
                }
            }
            assert forall|key: u64| #[trigger]
                lookup(r, key) == if lookup(s, key) == Some(value) {
                    None
                } else {
                    lookup(s, key)
                } by {
                if s.last().0 != key {
                    assert(lookup(r, key) == lookup(f, key));
                    assert(lookup(s, key) == lookup(t, key));
                }
            }
        } else {
            assert(r == f);
            assert forall|key: u64| #[trigger]
                lookup(r, key) == if lookup(s, key) == Some(value) {
                    None
                } else {
                    lookup(s, key)
                } by {
                if s.last().0 != key {
                    assert(lookup(s, key) == lookup(t, key));
                } else {
                    assert(lookup(t, key) is None);
                    assert(lookup(f, key) is None);
                }
            }
        }
    }
}

/// A table with one entry per key at most.
pub struct Table {
    entries: Vec<(u64, u64)>,
}

impl View for Table {
    type V = Seq<(u64, u64)>;

    closed spec fn view(&self) -> Seq<(u64, u64)> {
        self.entries@
    }
}

impl Table {
    #[verifier::type_invariant]
    spec fn inv(self) -> bool {
        distinct_keys(self.entries@)
    }

    /// An empty table.
    pub fn new() -> (t: Self)
        ensures
            t@ == Seq::<(u64, u64)>::empty(),
    {
        Table { entries: Vec::new() }
    }

    /// Where the entry of `key` stands.
    fn position(&self, key: u64) -> (r: Option<usize>)
        ensures
            match r {
                Some(at) => at < self@.len() && self@[at as int].0 == key,
                None => forall|i: int| 0 <= i < self@.len() ==> (#[trigger] self@[i]).0 != key,
            },
    {
        let mut i: usize = 0;
        while i < self.entries.len()
            invariant
                i <= self.entries.len(),
                forall|k: int| 0 <= k < i ==> (#[trigger] self.entries@[k]).0 != key,
            decreases self.entries.len() - i,
        {
            if self.entries[i].0 == key {
                return Some(i);
            }
            i += 1;
        }
        None
    }

    /// Enter `value` under `key`, in place of what was entered there.
    pub fn insert(&mut self, key: u64, value: u64)
        ensures
            final(self)@ == put(old(self)@, key, value),
            distinct_keys(final(self)@),
    {
        proof {
            use_type_invariant(&*self);
            lemma_put(self@, key, value);
        }
        let found = self.position(key);
        let mut entries: Vec<(u64, u64)> = Vec::new();
        std::mem::swap(&mut entries, &mut self.entries);
        match found {
            Some(at) => {
                proof {
                    lemma_entry_at(entries@, at as int);
                }
                entries.remove(at);
            },
            None => {
                proof {
                    lemma_absent(entries@, key);
                }
            },
        }
        entries.push((key, value));
        *self = Table { entries };
    }

    /// Take the entry of `key` out of the table.
    pub fn remove(&mut self, key: u64) -> (value: Option<u64>)
        ensures
            value == lookup(old(self)@, key),
            final(self)@ == erase(old(self)@, key),
            distinct_keys(final(self)@),
    {
        proof {
            use_type_invariant(&*self);
            lemma_erase(self@, key);
        }
        match self.position(key) {
            Some(at) => {
                proof {
                    lemma_entry_at(self@, at as int);
                }
                let mut entries: Vec<(u64, u64)> = Vec::new();
                std::mem::swap(&mut entries, &mut self.entries);
                let entry = entries.remove(at);
                *self = Table { entries };
                Some(entry.1)
            },
            None => {
                proof {
                    lemma_absent(self@, key);
                }
                None
            },
        }
    }

    /// The value entered under `key`, left in place.
    pub fn get(&self, key: u64) -> (value: Option<u64>)
        ensures
            value == lookup(self@, key),
    {
        proof {
            use_type_invariant(self);
        }
        match self.position(key) {
            Some(at) => {
                proof {
                    lemma_entry_at(self@, at as int);
                }
                Some(self.entries[at].1)
            },
            None => {
                proof {
                    lemma_absent(self@, key);
                }
                None
            },
        }
    }

    /// Empty the table and hand out every value, oldest entry first.
    pub fn drain(&mut self) -> (values: Vec<u64>)
        ensures
            values@ == values_of(old(self)@),
            final(self)@ == Seq::<(u64, u64)>::empty(),
    {
        let mut entries: Vec<(u64, u64)> = Vec::new();
        std::mem::swap(&mut entries, &mut self.entries);
        let mut values: Vec<u64> = Vec::new();
        let mut i: usize = 0;
        while i < entries.len()
            invariant
                i <= entries.len(),
                values@ == values_of(entries@).take(i as int),
            decreases entries.len() - i,
        {
            values.push(entries[i].1);
            assert(values@ =~= values_of(entries@).take(i + 1));
            i += 1;
        }
        assert(values@ =~= values_of(entries@));
        values
    }

    /// Take every entry that holds `value` out of the table.
    pub fn remove_value(&mut self, value: u64)
        ensures
            final(self)@ == strip(old(self)@, value),
            distinct_keys(final(self)@),
    {
        proof {
            use_type_invariant(&*self);
            lemma_strip(self@, value);
        }
        let mut entries: Vec<(u64, u64)> = Vec::new();
        std::mem::swap(&mut entries, &mut self.entries);
        let mut kept: Vec<(u64, u64)> = Vec::new();
        let mut i: usize = 0;
        while i < entries.len()
            invariant
                i <= entries.len(),
                kept@ == strip(entries@.take(i as int), value),
            decreases entries.len() - i,
        {
            assert(entries@.take(i + 1).drop_last() =~= entries@.take(i as int));
            let entry = entries[i];
            if entry.1 != value {
                kept.push(entry);
            }
            i += 1;
        }
        assert(entries@.take(i as int) =~= entries@);
        *self = Table { entries: kept };
    }

    /// The number of entries.
    pub fn len(&self) -> (n: usize)
        ensures
            n == self@.len(),
    {
        self.entries.len()
    }
}

} // verus!
