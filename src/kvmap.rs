//! A map from byte strings to byte strings, kept as a list of distinct keys.
use vstd::prelude::*;

verus! {

/// Whether two byte strings are equal.
pub fn bytes_eq(a: &Vec<u8>, b: &Vec<u8>) -> (r: bool)
    ensures
        r == (a@ == b@),
{
    if a.len() != b.len() {
        return false;
    }
    let mut i: usize = 0;
    while i < a.len()
        invariant
            a@.len() == b@.len(),
            i <= a@.len(),
            a@.subrange(0, i as int) == b@.subrange(0, i as int),
        decreases a@.len() - i,
    {
        if a[i] != b[i] {
            assert(a@[i as int] != b@[i as int]);
            return false;
        }
        assert(a@.subrange(0, i + 1) =~= a@.subrange(0, i as int).push(a@[i as int]));
        assert(b@.subrange(0, i + 1) =~= b@.subrange(0, i as int).push(b@[i as int]));
        i = i + 1;
    }
    assert(a@ =~= a@.subrange(0, i as int));
    assert(b@ =~= b@.subrange(0, i as int));
    true
}

/// A copy of a byte string.
pub fn copy_bytes(a: &Vec<u8>) -> (r: Vec<u8>)
    ensures
        r@ == a@,
{
    let mut r: Vec<u8> = Vec::with_capacity(a.len());
    let mut i: usize = 0;
    while i < a.len()
        invariant
            i <= a@.len(),
            r@ == a@.subrange(0, i as int),
        decreases a@.len() - i,
    {
        r.push(a[i]);
        assert(r@ =~= a@.subrange(0, i + 1));
        i = i + 1;
    }
    assert(r@ =~= a@);
    r
}

/// A copy of an optional byte string.
pub fn copy_opt(a: &Option<Vec<u8>>) -> (r: Option<Vec<u8>>)
    ensures
        opt_view(r) == opt_view(*a),
{
    match a {
        Some(v) => Some(copy_bytes(v)),
        None => None,
    }
}

/// Whether two optional byte strings are equal.
pub fn opt_eq(a: &Option<Vec<u8>>, b: &Option<Vec<u8>>) -> (r: bool)
    ensures
        r == (opt_view(*a) == opt_view(*b)),
{
    match (a, b) {
        (Some(x), Some(y)) => bytes_eq(x, y),
        (None, None) => true,
        _ => false,
    }
}

/// The view of an optional byte string.
pub open spec fn opt_view(v: Option<Vec<u8>>) -> Option<Seq<u8>> {
    match v {
        Some(x) => Some(x@),
        None => None,
    }
}

/// The map that a list of entries with distinct keys stands for.
pub open spec fn entries_map(s: Seq<(Vec<u8>, Vec<u8>)>) -> Map<Seq<u8>, Seq<u8>> {
    Map::new(
        |k: Seq<u8>| exists|i: int| 0 <= i < s.len() && (#[trigger] s[i]).0@ == k,
        |k: Seq<u8>| s[choose|i: int| 0 <= i < s.len() && (#[trigger] s[i]).0@ == k].1@,
    )
}

/// No key occurs twice.
pub open spec fn distinct_keys(s: Seq<(Vec<u8>, Vec<u8>)>) -> bool {
    forall|i: int, j: int| 0 <= i < s.len() && 0 <= j < s.len() && i != j ==> (#[trigger] s[i]).0@ != (#[trigger] s[j]).0@
}

pub proof fn lemma_entry_in_map(s: Seq<(Vec<u8>, Vec<u8>)>, i: int)
    requires
        distinct_keys(s),
        0 <= i < s.len(),
    ensures
        entries_map(s).contains_key(s[i].0@),
        entries_map(s)[s[i].0@] == s[i].1@,
{
    let k = s[i].0@;
    assert(exists|j: int| 0 <= j < s.len() && (#[trigger] s[j]).0@ == k);
    let c = choose|j: int| 0 <= j < s.len() && (#[trigger] s[j]).0@ == k;
    assert(c == i);
}

/// Byte-string map.
pub struct KvMap {
    entries: Vec<(Vec<u8>, Vec<u8>)>,
}

impl View for KvMap {
    type V = Map<Seq<u8>, Seq<u8>>;

    closed spec fn view(&self) -> Map<Seq<u8>, Seq<u8>> {
        entries_map(self.entries@)
    }
}

impl KvMap {
    pub closed spec fn wf(&self) -> bool {
        distinct_keys(self.entries@)
    }

    pub fn new() -> (r: KvMap)
        ensures
            r.wf(),
            r@ == Map::<Seq<u8>, Seq<u8>>::empty(),
    {
        let r = KvMap { entries: Vec::new() };
        assert(r@ =~= Map::<Seq<u8>, Seq<u8>>::empty());
        r
    }

    fn find(&self, key: &Vec<u8>) -> (r: Option<usize>)
        requires
            self.wf(),
        ensures
            match r {
                Some(i) => i < self.entries@.len() && self.entries@[i as int].0@ == key@,
                None => !self@.contains_key(key@),
            },
    {
        let mut i: usize = 0;
        while i < self.entries.len()
            invariant
                i <= self.entries@.len(),
                forall|j: int| 0 <= j < i ==> (#[trigger] self.entries@[j]).0@ != key@,
            decreases self.entries@.len() - i,
        {
            if bytes_eq(&self.entries[i].0, key) {
                return Some(i);
            }
            i = i + 1;
        }
        None
    }

    /// The value under `key`, copied.
    pub fn get(&self, key: &Vec<u8>) -> (r: Option<Vec<u8>>)
        requires
            self.wf(),
        ensures
            opt_view(r) == (if self@.contains_key(key@) {
                Some(self@[key@])
            } else {
                None::<Seq<u8>>
            }),
    {
        match self.find(key) {
            Some(i) => {
                proof {
                    lemma_entry_in_map(self.entries@, i as int);
                }
                Some(copy_bytes(&self.entries[i].1))
            },
            None => None,
        }
    }

    /// Puts `value` under `key`; returns the value it replaced.
    pub fn insert(&mut self, key: Vec<u8>, value: Vec<u8>) -> (r: Option<Vec<u8>>)
        requires
            old(self).wf(),
        ensures
            final(self).wf(),
            final(self)@ == old(self)@.insert(key@, value@),
            opt_view(r) == (if old(self)@.contains_key(key@) {
                Some(old(self)@[key@])
            } else {
                None::<Seq<u8>>
            }),
    {
        let ghost k = key@;
        let ghost v = value@;
        match self.find(&key) {
            Some(i) => {
                proof {
                    lemma_entry_in_map(self.entries@, i as int);
                }
                let ghost s0 = self.entries@;
                let prev = copy_bytes(&self.entries[i].1);
                self.entries.set(i, (key, value));
                proof {
                    let s1 = self.entries@;
                    assert(s1 == s0.update(i as int, s1[i as int]));
                    assert forall|a: int, b: int| 0 <= a < s1.len() && 0 <= b < s1.len() && a != b implies (#[trigger] s1[a]).0@ != (#[trigger] s1[b]).0@ by {
                        assert(s0[a].0@ != s0[b].0@);
                    }
                    assert forall|q: Seq<u8>| #[trigger] self@.contains_key(q) <==> old(self)@.insert(k, v).contains_key(q) by {
                        if q != k {
                            if self@.contains_key(q) {
                                let j = choose|j: int| 0 <= j < s1.len() && (#[trigger] s1[j]).0@ == q;
                                assert(s0[j].0@ == q);
                            }
                            if old(self)@.contains_key(q) {
                                let j = choose|j: int| 0 <= j < s0.len() && (#[trigger] s0[j]).0@ == q;
                                assert(s1[j].0@ == q);
                            }
                        } else {
                            assert(s1[i as int].0@ == q);
                        }
                    }
                    assert forall|q: Seq<u8>| #[trigger] self@.contains_key(q) implies self@[q] == old(self)@.insert(k, v)[q] by {
                        let j = choose|j: int| 0 <= j < s1.len() && (#[trigger] s1[j]).0@ == q;
                        lemma_entry_in_map(s1, j);
                        if q != k {
                            lemma_entry_in_map(s0, j);
                        } else {
                            assert(j == i);
                        }
                    }
                    assert(self@ =~= old(self)@.insert(k, v));
                }
                Some(prev)
            },
            None => {
                let ghost s0 = self.entries@;
                self.entries.push((key, value));
                proof {
                    let s1 = self.entries@;
                    let n = s0.len() as int;
                    assert forall|a: int, b: int| 0 <= a < s1.len() && 0 <= b < s1.len() && a != b implies (#[trigger] s1[a]).0@ != (#[trigger] s1[b]).0@ by {
                        if a < n && b < n {
                            assert(s0[a].0@ != s0[b].0@);
                        } else if a < n {
                            assert(entries_map(s0).contains_key(s0[a].0@));
                        } else {
                            assert(entries_map(s0).contains_key(s0[b].0@));
                        }
                    }
                    assert forall|q: Seq<u8>| #[trigger] self@.contains_key(q) <==> old(self)@.insert(k, v).contains_key(q) by {
                        if q != k {
                            if self@.contains_key(q) {
                                let j = choose|j: int| 0 <= j < s1.len() && (#[trigger] s1[j]).0@ == q;
                                assert(s0[j].0@ == q);
                            }
                            if old(self)@.contains_key(q) {
                                let j = choose|j: int| 0 <= j < s0.len() && (#[trigger] s0[j]).0@ == q;
                                assert(s1[j].0@ == q);
                            }
                        } else {
                            assert(s1[n].0@ == q);
                        }
                    }
                    assert forall|q: Seq<u8>| #[trigger] self@.contains_key(q) implies self@[q] == old(self)@.insert(k, v)[q] by {
                        let j = choose|j: int| 0 <= j < s1.len() && (#[trigger] s1[j]).0@ == q;
                        lemma_entry_in_map(s1, j);
                        if q != k {
                            lemma_entry_in_map(s0, j);
                        } else {
                            assert(j == n);
                        }
                    }
                    assert(self@ =~= old(self)@.insert(k, v));
                }
                None
            },
        }
    }

    /// Drops `key`; returns the value it held.
    pub fn remove(&mut self, key: &Vec<u8>) -> (r: Option<Vec<u8>>)
        requires
            old(self).wf(),
        ensures
            final(self).wf(),
            final(self)@ == old(self)@.remove(key@),
            opt_view(r) == (if old(self)@.contains_key(key@) {
                Some(old(self)@[key@])
            } else {
                None::<Seq<u8>>
            }),
    {
        let ghost k = key@;
        match self.find(key) {
            Some(i) => {
                proof {
                    lemma_entry_in_map(self.entries@, i as int);
                }
                let ghost s0 = self.entries@;
                let e = self.entries.remove(i);
                proof {
                    let s1 = self.entries@;
                    assert(s1 == s0.remove(i as int));
                    let ix = |j: int| if j < i { j } else { j + 1 };
                    assert forall|j: int| 0 <= j < s1.len() implies #[trigger] s1[j] == s0[ix(j)] by {}
                    assert forall|a: int, b: int| 0 <= a < s1.len() && 0 <= b < s1.len() && a != b implies (#[trigger] s1[a]).0@ != (#[trigger] s1[b]).0@ by {
                        assert(s1[a] == s0[ix(a)]);
                        assert(s1[b] == s0[ix(b)]);
                    }
                    assert forall|q: Seq<u8>| #[trigger] self@.contains_key(q) <==> old(self)@.remove(k).contains_key(q) by {
                        if self@.contains_key(q) {
                            let j = choose|j: int| 0 <= j < s1.len() && (#[trigger] s1[j]).0@ == q;
                            assert(s1[j] == s0[ix(j)]);
                            assert(ix(j) != i);
                        }
                        if old(self)@.remove(k).contains_key(q) {
                            let j = choose|j: int| 0 <= j < s0.len() && (#[trigger] s0[j]).0@ == q;
                            assert(j != i);
                            let j1 = if j < i { j } else { j - 1 };
                            assert(s1[j1] == s0[j]);
                        }
                    }
                    assert forall|q: Seq<u8>| #[trigger] self@.contains_key(q) implies self@[q] == old(self)@.remove(k)[q] by {
                        let j = choose|j: int| 0 <= j < s1.len() && (#[trigger] s1[j]).0@ == q;
                        lemma_entry_in_map(s1, j);
                        assert(s1[j] == s0[ix(j)]);
                        lemma_entry_in_map(s0, ix(j));
                    }
                    assert(self@ =~= old(self)@.remove(k));
                }
                Some(e.1)
            },
            None => {
                proof {
                    assert(self@ =~= old(self)@.remove(k));
                }
                None
            },
        }
    }

    /// The entries, copied, each key once.
    pub fn entries(&self) -> (r: Vec<(Vec<u8>, Vec<u8>)>)
        requires
            self.wf(),
        ensures
            distinct_keys(r@),
            entries_map(r@) == self@,
    {
        let mut r: Vec<(Vec<u8>, Vec<u8>)> = Vec::with_capacity(self.entries.len());
        let mut i: usize = 0;
        while i < self.entries.len()
            invariant
                i <= self.entries@.len(),
                r@.len() == i,
                forall|j: int| 0 <= j < i ==> (#[trigger] r@[j]).0@ == self.entries@[j].0@ && r@[j].1@ == self.entries@[j].1@,
            decreases self.entries@.len() - i,
        {
            let k = copy_bytes(&self.entries[i].0);
            let v = copy_bytes(&self.entries[i].1);
            r.push((k, v));
            i = i + 1;
        }
        proof {
            let s = self.entries@;
            assert forall|a: int, b: int| 0 <= a < r@.len() && 0 <= b < r@.len() && a != b implies (#[trigger] r@[a]).0@ != (#[trigger] r@[b]).0@ by {
                assert(s[a].0@ != s[b].0@);
            }
            assert forall|q: Seq<u8>| #[trigger] entries_map(r@).contains_key(q) <==> self@.contains_key(q) by {
                if entries_map(r@).contains_key(q) {
                    let j = choose|j: int| 0 <= j < r@.len() && (#[trigger] r@[j]).0@ == q;
                    assert(s[j].0@ == q);
                }
                if self@.contains_key(q) {
                    let j = choose|j: int| 0 <= j < s.len() && (#[trigger] s[j]).0@ == q;
                    assert(r@[j].0@ == q);
                }
            }
            assert forall|q: Seq<u8>| #[trigger] entries_map(r@).contains_key(q) implies entries_map(r@)[q] == self@[q] by {
                let j = choose|j: int| 0 <= j < r@.len() && (#[trigger] r@[j]).0@ == q;
                lemma_entry_in_map(r@, j);
                lemma_entry_in_map(s, j);
            }
            assert(entries_map(r@) =~= self@);
        }
        r
    }

    /// The map of a list of entries with distinct keys.
    pub fn from_entries(entries: Vec<(Vec<u8>, Vec<u8>)>) -> (r: KvMap)
        requires
            distinct_keys(entries@),
        ensures
            r.wf(),
            r@ == entries_map(entries@),
    {
        KvMap { entries }
    }
}

impl KvMap {
    /// A copy of the map.
    pub fn copy(&self) -> (r: KvMap)
        requires
            self.wf(),
        ensures
            r.wf(),
            r@ == self@,
    {
        KvMap::from_entries(self.entries())
    }
}

} // verus!
