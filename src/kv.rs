use vstd::prelude::*;

use crate::message::same_bytes;

verus! {

/// The byte that splits an insert into key and value.
pub const EQUALS: u8 = 61;

/// The key that no insert may change.
pub open spec fn version_key() -> Seq<u8> {
    seq![118u8, 101u8, 114u8, 115u8, 105u8, 111u8, 110u8]
}

/// The value of the version key: `KP's KV 0.1`.
pub open spec fn version_value() -> Seq<u8> {
    seq![75u8, 80u8, 39u8, 115u8, 32u8, 75u8, 86u8, 32u8, 48u8, 46u8, 49u8]
}

/// The value of `k` in `e`: that of its last entry.
pub open spec fn lookup(e: Seq<(Vec<u8>, Vec<u8>)>, k: Seq<u8>) -> Option<Seq<u8>>
    decreases e.len(),
{
    if e.len() == 0 {
        None
    } else if e.last().0@ == k {
        Some(e.last().1@)
    } else {
        lookup(e.drop_last(), k)
    }
}

/// Whether each key has one entry at most.
pub open spec fn unique_keys(e: Seq<(Vec<u8>, Vec<u8>)>) -> bool {
    forall|i: int, j: int| 0 <= i < j < e.len() ==> e[i].0@ != e[j].0@
}

/// The index of the first `=` in `m`, if any.
pub open spec fn split_at_equals(m: Seq<u8>) -> Option<int> {
    if exists|i: int| 0 <= i < m.len() && m[i] == EQUALS {
        Some(choose|i: int| 0 <= i < m.len() && m[i] == EQUALS && forall|j: int| 0 <= j < i ==> m[j] != EQUALS)
    } else {
        None
    }
}

proof fn lemma_lookup_at(e: Seq<(Vec<u8>, Vec<u8>)>, i: int)
    requires
        unique_keys(e),
        0 <= i < e.len(),
    ensures
        lookup(e, e[i].0@) == Some(e[i].1@),
    decreases e.len(),
{
    if i < e.len() - 1 {
        assert(e[i].0@ != e[e.len() - 1].0@);
        assert(e.drop_last()[i] == e[i]);
        lemma_lookup_at(e.drop_last(), i);
    }
}

proof fn lemma_lookup_none(e: Seq<(Vec<u8>, Vec<u8>)>, k: Seq<u8>)
    requires
        forall|i: int| 0 <= i < e.len() ==> e[i].0@ != k,
    ensures
        lookup(e, k) is None,
    decreases e.len(),
{
    if e.len() > 0 {
        assert forall|i: int| 0 <= i < e.len() - 1 implies e.drop_last()[i].0@ != k by {
            assert(e.drop_last()[i] == e[i]);
        }
        lemma_lookup_none(e.drop_last(), k);
    }
}

proof fn lemma_lookup_same_keys(e: Seq<(Vec<u8>, Vec<u8>)>, f: Seq<(Vec<u8>, Vec<u8>)>, i: int, k: Seq<u8>)
    requires
        unique_keys(e),
        e.len() == f.len(),
        0 <= i < e.len(),
        forall|j: int| 0 <= j < e.len() && j != i ==> f[j] == e[j],
        f[i].0@ == e[i].0@,
        k != e[i].0@,
    ensures
        lookup(f, k) == lookup(e, k),
{
    assert(unique_keys(f)) by {
        assert forall|a: int, b: int| 0 <= a < b < f.len() implies f[a].0@ != f[b].0@ by {
            assert(e[a].0@ != e[b].0@);
        }
    }
    if exists|j: int| 0 <= j < e.len() && e[j].0@ == k {
        let j = choose|j: int| 0 <= j < e.len() && e[j].0@ == k;
        lemma_lookup_at(e, j);
        lemma_lookup_at(f, j);
    } else {
        lemma_lookup_none(e, k);
        assert forall|j: int| 0 <= j < f.len() implies f[j].0@ != k by {
            if j != i {
                assert(f[j] == e[j]);
            }
        }
        lemma_lookup_none(f, k);
    }
}

/// A key-value store of byte strings.
#[derive(Debug)]
pub struct Store {
    pub entries: Vec<(Vec<u8>, Vec<u8>)>,
}

/// A copy of the bytes of `b`.
pub fn bytes_of(b: &[u8]) -> (r: Vec<u8>)
    ensures
        r@ == b@,
{
    let mut out: Vec<u8> = Vec::new();
    let mut i: usize = 0;
    while i < b.len()
        invariant
            i <= b@.len(),
            out@ == b@.subrange(0, i as int),
        decreases b@.len() - i,
    {
        out.push(b[i]);
        i = i + 1;
        assert(out@ =~= b@.subrange(0, i as int));
    }
    assert(b@.subrange(0, b@.len() as int) =~= b@);
    out
}

/// The bytes of `m` from `lo` up to `hi`.
fn slice_of(m: &[u8], lo: usize, hi: usize) -> (r: Vec<u8>)
    requires
        lo <= hi <= m@.len(),
    ensures
        r@ == m@.subrange(lo as int, hi as int),
{
    let mut out: Vec<u8> = Vec::new();
    let mut i: usize = lo;
    while i < hi
        invariant
            lo <= i <= hi,
            hi <= m@.len(),
            out@ == m@.subrange(lo as int, i as int),
        decreases hi - i,
    {
        out.push(m[i]);
        i = i + 1;
        assert(out@ =~= m@.subrange(lo as int, i as int));
    }
    out
}

impl Store {
    pub open spec fn wf(&self) -> bool {
        unique_keys(self.entries@)
    }

    /// The value of `k`, if it has one.
    pub open spec fn get(&self, k: Seq<u8>) -> Option<Seq<u8>> {
        lookup(self.entries@, k)
    }

    /// A store that holds only the version key.
    pub fn new() -> (r: Self)
        ensures
            r.wf(),
            r.get(version_key()) == Some(version_value()),
            forall|k: Seq<u8>| k != version_key() ==> r.get(k) is None,
    {
        let key: [u8; 7] = [118u8, 101u8, 114u8, 115u8, 105u8, 111u8, 110u8];
        let value: [u8; 11] = [75u8, 80u8, 39u8, 115u8, 32u8, 75u8, 86u8, 32u8, 48u8, 46u8, 49u8];
        let mut entries: Vec<(Vec<u8>, Vec<u8>)> = Vec::new();
        let k = bytes_of(&key);
        let v = bytes_of(&value);
        assert(k@ =~= version_key());
        assert(v@ =~= version_value());
        entries.push((k, v));
        let r = Store { entries };
        assert(r.entries@.drop_last() =~= Seq::<(Vec<u8>, Vec<u8>)>::empty());
        assert forall|x: Seq<u8>| x != version_key() implies r.get(x) is None by {
            assert(r.entries@.last().0@ != x);
            assert(lookup(r.entries@.drop_last(), x) is None);
        }
        r
    }

    /// Sets the value of `k` to `v`.
    fn set(&mut self, k: Vec<u8>, v: Vec<u8>)
        requires
            old(self).wf(),
        ensures
            final(self).wf(),
            forall|x: Seq<u8>| #[trigger] final(self).get(x) == if x == k@ {
                Some(v@)
            } else {
                old(self).get(x)
            },
    {
        let mut i: usize = 0;
        while i < self.entries.len()
            invariant
                i <= self.entries@.len(),
                self.entries@ == old(self).entries@,
                old(self).wf(),
                forall|j: int| 0 <= j < i ==> self.entries@[j].0@ != k@,
            decreases self.entries@.len() - i,
        {
            if same_bytes(&self.entries[i].0, &k) {
                let ghost e0 = self.entries@;
                self.entries[i] = (k, v);
                proof {
                    let e = self.entries@;
                    assert(unique_keys(e)) by {
                        assert forall|a: int, b: int| 0 <= a < b < e.len() implies e[a].0@ != e[b].0@ by {
                            assert(e0[a].0@ != e0[b].0@);
                        }
                    }
                    lemma_lookup_at(e, i as int);
                    assert forall|x: Seq<u8>| #[trigger] lookup(e, x) == if x == k@ {
                        Some(v@)
                    } else {
                        lookup(e0, x)
                    } by {
                        if x != k@ {
                            lemma_lookup_same_keys(e0, e, i as int, x);
                        }
                    }
                }
                return;
            }
            i = i + 1;
        }
        let ghost e0 = self.entries@;
        self.entries.push((k, v));
        proof {
            let e = self.entries@;
            assert(e.drop_last() =~= e0);
            assert(unique_keys(e)) by {
                assert forall|a: int, b: int| 0 <= a < b < e.len() implies e[a].0@ != e[b].0@ by {
                    if b < e0.len() {
                        assert(e0[a].0@ != e0[b].0@);
                    }
                }
            }
        }
    }

    /// Handles one request.
    ///
    /// A request with an `=` inserts: the bytes before the first `=` are the
    /// key, those after it the value, and the version key keeps its value.
    /// Nothing is answered. Any other request retrieves: the answer is the key,
    /// `=`, and its value, or nothing for a key without one.
    pub fn process_message(&mut self, msg: &[u8]) -> (r: Option<Vec<u8>>)
        requires
            old(self).wf(),
        ensures
            final(self).wf(),
            match split_at_equals(msg@) {
                Some(p) => {
                    let key = msg@.subrange(0, p);
                    let value = msg@.subrange(p + 1, msg@.len() as int);
                    &&& r is None
                    &&& key == version_key() ==> forall|x: Seq<u8>| #[trigger] final(self).get(x) == old(self).get(x)
                    &&& key != version_key() ==> forall|x: Seq<u8>| #[trigger] final(self).get(x) == if x == key {
                        Some(value)
                    } else {
                        old(self).get(x)
                    }
                },
                None => {
                    &&& forall|x: Seq<u8>| #[trigger] final(self).get(x) == old(self).get(x)
                    &&& match old(self).get(msg@) {
                        Some(v) => r matches Some(a) && a@ == msg@ + seq![EQUALS] + v,
                        None => r is None,
                    }
                },
            },
    {
        let mut p: usize = 0;
        while p < msg.len() && msg[p] != EQUALS
            invariant
                p <= msg@.len(),
                forall|j: int| 0 <= j < p ==> msg@[j] != EQUALS,
            decreases msg@.len() - p,
        {
            p = p + 1;
        }
        if p < msg.len() {
            proof {
                let q = split_at_equals(msg@)->Some_0;
                assert(msg@[p as int] == EQUALS);
                if q < p {
                    assert(msg@[q] == EQUALS);
                }
                if q > p {
                    assert(msg@[p as int] != EQUALS);
                }
            }
            let key = slice_of(msg, 0, p);
            let value = slice_of(msg, p + 1, msg.len());
            let version: [u8; 7] = [118u8, 101u8, 114u8, 115u8, 105u8, 111u8, 110u8];
            let vkey = bytes_of(&version);
            assert(vkey@ =~= version_key());
            if !same_bytes(&key, &vkey) {
                self.set(key, value);
            }
            None
        } else {
            let ghost e = self.entries@;
            proof {
                assert(e.take(e.len() as int) =~= e);
                assert(!(exists|i: int| 0 <= i < msg@.len() && msg@[i] == EQUALS));
            }
            let key = bytes_of(msg);
            let mut n: usize = self.entries.len();
            while n > 0
                invariant
                    n <= e.len(),
                    self.entries@ == e,
                    e == old(self).entries@,
                    old(self).wf(),
                    key@ == msg@,
                    split_at_equals(msg@) is None,
                    lookup(e.take(n as int), msg@) == lookup(e, msg@),
                decreases n,
            {
                proof {
                    assert(e.take(n as int).drop_last() =~= e.take(n - 1));
                }
                assert(e.take(n as int).last() == e[n - 1]);
                if same_bytes(&self.entries[n - 1].0, &key) {
                    let mut out = bytes_of(msg);
                    out.push(EQUALS);
                    let v = &self.entries[n - 1].1;
                    let ghost o0 = out@;
                    let mut j: usize = 0;
                    while j < v.len()
                        invariant
                            j <= v@.len(),
                            out@ == o0 + v@.subrange(0, j as int),
                        decreases v@.len() - j,
                    {
                        out.push(v[j]);
                        j = j + 1;
                        assert(out@ =~= o0 + v@.subrange(0, j as int));
                    }
                    assert(v@.subrange(0, v@.len() as int) =~= v@);
                    return Some(out);
                }
                n = n - 1;
            }
            None
        }
    }
}

} // verus!
