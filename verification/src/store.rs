//! The term-frequency store: a mapping from UTF-8 byte-string terms to
//! 64-bit frequency payloads, held as an association list and specified as a
//! mathematical map.

use vstd::prelude::*;
use vstd::utf8::valid_utf8;

verus! {

/// The map that an association list denotes; a later entry for a key
/// shadows an earlier one.
pub open spec fn assoc_map(s: Seq<(Vec<u8>, u64)>) -> Map<Seq<u8>, u64>
    decreases s.len(),
{
    if s.len() == 0 {
        Map::empty()
    } else {
        assoc_map(s.drop_last()).insert(s.last().0@, s.last().1)
    }
}

proof fn lemma_assoc_no_key(s: Seq<(Vec<u8>, u64)>, k: Seq<u8>)
    requires
        forall|i: int| 0 <= i < s.len() ==> (#[trigger] s[i]).0@ != k,
    ensures
        !assoc_map(s).contains_key(k),
    decreases s.len(),
{
    if s.len() > 0 {
        assert(forall|i: int| 0 <= i < s.len() - 1 ==> (#[trigger] s.drop_last()[i]) == s[i]);
        lemma_assoc_no_key(s.drop_last(), k);
        assert(s.last() == s[s.len() - 1]);
    }
}

proof fn lemma_assoc_match(s: Seq<(Vec<u8>, u64)>, k: Seq<u8>, j: int)
    requires
        0 <= j < s.len(),
        s[j].0@ == k,
        forall|i: int| j < i < s.len() ==> (#[trigger] s[i]).0@ != k,
    ensures
        assoc_map(s).contains_key(k),
        assoc_map(s)[k] == s[j].1,
    decreases s.len(),
{
    assert(s.last() == s[s.len() - 1]);
    if j < s.len() - 1 {
        assert(forall|i: int| 0 <= i < s.len() - 1 ==> (#[trigger] s.drop_last()[i]) == s[i]);
        lemma_assoc_match(s.drop_last(), k, j);
        assert(s.last().0@ != k);
    }
}

proof fn lemma_assoc_update(s: Seq<(Vec<u8>, u64)>, j: int, e: (Vec<u8>, u64))
    requires
        0 <= j < s.len(),
        e.0@ == s[j].0@,
        forall|i1: int, i2: int|
            0 <= i1 < i2 < s.len() ==> (#[trigger] s[i1]).0@ != (#[trigger] s[i2]).0@,
    ensures
        assoc_map(s.update(j, e)) == assoc_map(s).insert(e.0@, e.1),
    decreases s.len(),
{
    let t = s.update(j, e);
    assert(t.last() == t[s.len() - 1]);
    assert(s.last() == s[s.len() - 1]);
    if j == s.len() - 1 {
        assert(t.drop_last() =~= s.drop_last());
        assert(assoc_map(s.drop_last()).insert(s.last().0@, s.last().1).insert(e.0@, e.1)
            =~= assoc_map(s.drop_last()).insert(e.0@, e.1));
    } else {
        assert(forall|i: int| 0 <= i < s.len() - 1 ==> (#[trigger] s.drop_last()[i]) == s[i]);
        lemma_assoc_update(s.drop_last(), j, e);
        assert(t.drop_last() =~= s.drop_last().update(j, e));
        assert(t.last() == s.last());
        assert(s[j].0@ != s[s.len() - 1].0@);
        assert(assoc_map(s.drop_last()).insert(e.0@, e.1).insert(s.last().0@, s.last().1)
            =~= assoc_map(s.drop_last()).insert(s.last().0@, s.last().1).insert(e.0@, e.1));
    }
}

/// Compares two byte strings for equality.
pub fn bytes_eq(a: &Vec<u8>, b: &Vec<u8>) -> (r: bool)
    ensures
        r == (a@ == b@),
{
    if a.len() != b.len() {
        proof {
            if a@ == b@ {
                assert(a@.len() == b@.len());
            }
        }
        return false;
    }
    let mut i: usize = 0;
    while i < a.len()
        invariant
            i <= a@.len(),
            a@.len() == b@.len(),
            forall|j: int| 0 <= j < i ==> a@[j] == b@[j],
        decreases a@.len() - i,
    {
        if a[i] != b[i] {
            return false;
        }
        i += 1;
    }
    proof {
        assert(a@ =~= b@);
    }
    true
}

/// Copies a byte string.
pub fn copy_bytes(a: &Vec<u8>) -> (r: Vec<u8>)
    ensures
        r@ == a@,
{
    let mut r: Vec<u8> = Vec::new();
    let mut i: usize = 0;
    while i < a.len()
        invariant
            i <= a@.len(),
            r@ == a@.subrange(0, i as int),
        decreases a@.len() - i,
    {
        r.push(a[i]);
        proof {
            assert(a@.subrange(0, i + 1int) =~= a@.subrange(0, i as int).push(a@[i as int]));
        }
        i += 1;
    }
    proof {
        assert(a@.subrange(0, a@.len() as int) =~= a@);
    }
    r
}

/// A term-frequency map. Keys are byte strings that passed UTF-8
/// validation; the frequency payload travels as its raw 64-bit value, and
/// an insert for a present key overwrites the stored value.
pub struct TermFrequencyMap {
    entries: Vec<(Vec<u8>, u64)>,
}

impl View for TermFrequencyMap {
    type V = Map<Seq<u8>, u64>;

    closed spec fn view(&self) -> Map<Seq<u8>, u64> {
        assoc_map(self.entries@)
    }
}

impl TermFrequencyMap {
    /// Every stored key is valid UTF-8 and occurs exactly once.
    pub closed spec fn wf(&self) -> bool {
        &&& forall|i: int|
            0 <= i < self.entries@.len() ==> valid_utf8((#[trigger] self.entries@[i]).0@)
        &&& forall|i1: int, i2: int|
            0 <= i1 < i2 < self.entries@.len() ==> (#[trigger] self.entries@[i1]).0@ != (
            #[trigger] self.entries@[i2]).0@
    }

    /// A new, empty map.
    pub fn new() -> (r: TermFrequencyMap)
        ensures
            r.wf(),
            r@ == Map::<Seq<u8>, u64>::empty(),
    {
        TermFrequencyMap { entries: Vec::new() }
    }

    /// The position of `key` among the entries, when present.
    fn find_key(&self, key: &Vec<u8>) -> (r: Option<usize>)
        ensures
            match r {
                Some(j) => j < self.entries@.len() && self.entries@[j as int].0@ == key@,
                None => forall|i: int|
                    0 <= i < self.entries@.len() ==> (#[trigger] self.entries@[i]).0@ != key@,
            },
    {
        let mut i: usize = 0;
        while i < self.entries.len()
            invariant
                i <= self.entries@.len(),
                forall|j: int| 0 <= j < i ==> (#[trigger] self.entries@[j]).0@ != key@,
            decreases self.entries@.len() - i,
        {
            if bytes_eq(&self.entries[i].0, key) {
                return Some(i);
            }
            i += 1;
        }
        None
    }

    /// Inserts `value` for `key`, overwriting any stored value for it.
    pub fn insert(&mut self, key: Vec<u8>, value: u64)
        requires
            old(self).wf(),
            valid_utf8(key@),
        ensures
            final(self).wf(),
            final(self)@ == old(self)@.insert(key@, value),
    {
        let ghost kv = key@;
        match self.find_key(&key) {
            Some(j) => {
                self.entries[j] = (key, value);
                proof {
                    let s = old(self).entries@;
                    let e = self.entries@[j as int];
                    assert(self.entries@ == s.update(j as int, e));
                    assert(e.0@ == kv && e.1 == value);
                    lemma_assoc_update(s, j as int, e);
                    assert forall|i: int|
                        0 <= i < self.entries@.len() implies valid_utf8(
                        (#[trigger] self.entries@[i]).0@,
                    ) by {
                        if i != j {
                            assert(self.entries@[i] == s[i]);
                        }
                    }
                    assert forall|i1: int, i2: int|
                        0 <= i1 < i2 < self.entries@.len() implies (
                    #[trigger] self.entries@[i1]).0@ != (#[trigger] self.entries@[i2]).0@ by {
                        assert(s[i1].0@ != s[i2].0@);
                        if i1 != j {
                            assert(self.entries@[i1] == s[i1]);
                        }
                        if i2 != j {
                            assert(self.entries@[i2] == s[i2]);
                        }
                        assert(self.entries@[j as int].0@ == s[j as int].0@);
                    }
                }
            },
            None => {
                self.entries.push((key, value));
                proof {
                    let s = old(self).entries@;
                    assert(self.entries@.drop_last() =~= s);
                    assert(self.entries@.last().0@ == kv);
                    assert forall|i1: int, i2: int|
                        0 <= i1 < i2 < self.entries@.len() implies (
                    #[trigger] self.entries@[i1]).0@ != (#[trigger] self.entries@[i2]).0@ by {
                        if i2 < self.entries@.len() - 1 {
                            assert(self.entries@[i1] == s[i1]);
                            assert(self.entries@[i2] == s[i2]);
                        } else {
                            assert(self.entries@[i1] == s[i1]);
                            assert(s[i1].0@ != kv);
                        }
                    }
                }
            },
        }
    }

    /// The stored value for `key`, when one is present.
    pub fn lookup(&self, key: &Vec<u8>) -> (r: Option<u64>)
        requires
            self.wf(),
        ensures
            r == if self@.contains_key(key@) {
                Some(self@[key@])
            } else {
                None::<u64>
            },
    {
        match self.find_key(key) {
            Some(j) => {
                proof {
                    assert forall|i: int|
                        j < i < self.entries@.len() implies (#[trigger] self.entries@[i]).0@
                        != key@ by {
                        assert(self.entries@[j as int].0@ != self.entries@[i].0@);
                    }
                    lemma_assoc_match(self.entries@, key@, j as int);
                }
                Some(self.entries[j].1)
            },
            None => {
                proof {
                    lemma_assoc_no_key(self.entries@, key@);
                }
                None
            },
        }
    }
}

/// A lookup right after an insert of `k` yields exactly the inserted value,
/// and a second insert for `k` makes lookups yield the newer value, never
/// the older one.
pub proof fn lemma_insert_then_lookup(m: Map<Seq<u8>, u64>, k: Seq<u8>, v: u64, v2: u64)
    ensures
        m.insert(k, v).contains_key(k),
        m.insert(k, v)[k] == v,
        m.insert(k, v).insert(k, v2).contains_key(k),
        m.insert(k, v).insert(k, v2)[k] == v2,
{
}

/// A freshly created map holds no key at all: every lookup is absent.
pub proof fn lemma_fresh_lookup_absent(k: Seq<u8>)
    ensures
        !Map::<Seq<u8>, u64>::empty().contains_key(k),
{
}

} // verus!
