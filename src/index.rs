//! Hash indexes: a map from the encoded composite key of a row to its ordinal.
use vstd::prelude::*;
use crate::bytes::bytes_eq;
use crate::codec::text_bytes;
use crate::types::IndexType;

verus! {

/// The ordered (column name, value text) pairs a row has under an index.
#[derive(Clone, Debug)]
pub struct CompositeKey(pub Vec<(String, String)>);

impl View for CompositeKey {
    type V = Seq<(Seq<char>, Seq<char>)>;

    open spec fn view(&self) -> Seq<(Seq<char>, Seq<char>)> {
        self.0@.map_values(|p: (String, String)| (p.0@, p.1@))
    }
}

/// The key bytes of a composite key: each name and value as text, in order.
pub open spec fn key_spec(ck: Seq<(Seq<char>, Seq<char>)>) -> Seq<u8>
    decreases ck.len(),
{
    if ck.len() == 0 {
        Seq::empty()
    } else {
        key_spec(ck.drop_last()) + text_bytes(ck.last().0) + text_bytes(ck.last().1)
    }
}

/// Appends a text as its byte count and bytes.
fn push_key_text(out: &mut Vec<u8>, s: &str)
    ensures
        final(out)@ == old(out)@ + text_bytes(s@),
{
    let n = s.as_bytes().len();
    crate::bytes::push_u64(out, n as u64);
    crate::bytes::push_text(out, s);
    proof {
        assert(final(out)@ =~= old(out)@ + text_bytes(s@));
    }
}

/// The stable byte encoding of a composite key.
pub fn to_key(ck: &CompositeKey) -> (r: Vec<u8>)
    ensures
        r@ == key_spec(ck@),
{
    let mut out: Vec<u8> = Vec::new();
    let mut i: usize = 0;
    proof {
        assert(ck@.subrange(0, 0) =~= Seq::<(Seq<char>, Seq<char>)>::empty());
    }
    while i < ck.0.len()
        invariant
            i <= ck.0@.len(),
            out@ == key_spec(ck@.subrange(0, i as int)),
        decreases ck.0.len() - i,
    {
        push_key_text(&mut out, ck.0[i].0.as_str());
        push_key_text(&mut out, ck.0[i].1.as_str());
        proof {
            let p = ck@.subrange(0, i + 1);
            assert(p.drop_last() =~= ck@.subrange(0, i as int));
        }
        i = i + 1;
    }
    proof {
        assert(ck@.subrange(0, i as int) =~= ck@);
    }
    out
}

/// A hash index: at most one ordinal per key, the last one put.
pub struct HashIndex {
    name: String,
    index_type: IndexType,
    entries: Vec<(Vec<u8>, u64)>,
    map: Ghost<Map<Seq<u8>, u64>>,
}

impl HashIndex {
    /// The key → ordinal map.
    pub closed spec fn view(&self) -> Map<Seq<u8>, u64> {
        self.map@
    }

    pub closed spec fn name_view(&self) -> Seq<char> {
        self.name@
    }

    pub closed spec fn wf(&self) -> bool {
        &&& forall|i: int, j: int|
            0 <= i < j < self.entries@.len() ==> self.entries@[i].0@ != self.entries@[j].0@
        &&& forall|i: int|
            0 <= i < self.entries@.len() ==> self.map@.contains_key(#[trigger] self.entries@[i].0@)
                && self.map@[self.entries@[i].0@] == self.entries@[i].1
        &&& forall|k: Seq<u8>|
            #[trigger] self.map@.contains_key(k) ==> exists|i: int|
                0 <= i < self.entries@.len() && self.entries@[i].0@ == k
    }

    /// An empty index of the given name.
    pub fn new(name: &str, index_type: IndexType) -> (r: HashIndex)
        ensures
            r.wf(),
            r.view() == Map::<Seq<u8>, u64>::empty(),
            r.name_view() == name@,
    {
        HashIndex { name: name.to_string(), index_type, entries: Vec::new(), map: Ghost(Map::empty()) }
    }

    /// The index's name.
    pub fn name(&self) -> (r: &str)
        ensures
            r@ == self.name_view(),
    {
        self.name.as_str()
    }

    /// The position of the entry for `key`, if there is one.
    fn find(&self, key: &Vec<u8>) -> (r: Option<usize>)
        requires
            self.wf(),
        ensures
            match r {
                Some(i) => i < self.entries@.len() && self.entries@[i as int].0@ == key@,
                None => !self.view().contains_key(key@),
            },
    {
        let mut i: usize = 0;
        while i < self.entries.len()
            invariant
                i <= self.entries@.len(),
                forall|j: int| 0 <= j < i ==> self.entries@[j].0@ != key@,
            decreases self.entries.len() - i,
        {
            if bytes_eq(&self.entries[i].0, key) {
                return Some(i);
            }
            i = i + 1;
        }
        None
    }

    /// The ordinal stored under `key`.
    pub fn get(&self, key: &Vec<u8>) -> (r: Option<u64>)
        requires
            self.wf(),
        ensures
            r == (if self.view().contains_key(key@) {
                Some(self.view()[key@])
            } else {
                None::<u64>
            }),
    {
        match self.find(key) {
            Some(i) => Some(self.entries[i].1),
            None => None,
        }
    }

    /// Stores `ordinal` under `key`, replacing what was there.
    pub fn put(&mut self, key: Vec<u8>, ordinal: u64)
        requires
            old(self).wf(),
        ensures
            final(self).wf(),
            final(self).view() == old(self).view().insert(key@, ordinal),
            final(self).name_view() == old(self).name_view(),
    {
        let ghost k = key@;
        match self.find(&key) {
            Some(i) => {
                self.entries.set(i, (key, ordinal));
                proof {
                    self.map@ = self.map@.insert(k, ordinal);
                    assert forall|kk: Seq<u8>| #[trigger] self.map@.contains_key(kk) implies exists|j: int|
                        0 <= j < self.entries@.len() && self.entries@[j].0@ == kk by {
                        if kk != k {
                            let j = choose|j: int| 0 <= j < old(self).entries@.len() && old(self).entries@[j].0@ == kk;
                            assert(self.entries@[j] == old(self).entries@[j]);
                        } else {
                            assert(self.entries@[i as int].0@ == kk);
                        }
                    }
                    assert forall|a: int| 0 <= a < self.entries@.len() implies self.map@.contains_key(
                        #[trigger] self.entries@[a].0@) && self.map@[self.entries@[a].0@] == self.entries@[a].1 by {
                        if a != i {
                            assert(self.entries@[a] == old(self).entries@[a]);
                        }
                    }
                }
            },
            None => {
                self.entries.push((key, ordinal));
                proof {
                    self.map@ = self.map@.insert(k, ordinal);
                    let n = old(self).entries@.len() as int;
                    assert forall|kk: Seq<u8>| #[trigger] self.map@.contains_key(kk) implies exists|j: int|
                        0 <= j < self.entries@.len() && self.entries@[j].0@ == kk by {
                        if kk != k {
                            let j = choose|j: int| 0 <= j < old(self).entries@.len() && old(self).entries@[j].0@ == kk;
                            assert(self.entries@[j] == old(self).entries@[j]);
                        } else {
                            assert(self.entries@[n].0@ == kk);
                        }
                    }
                    assert forall|a: int| 0 <= a < self.entries@.len() implies self.map@.contains_key(
                        #[trigger] self.entries@[a].0@) && self.map@[self.entries@[a].0@] == self.entries@[a].1 by {
                        if a < n {
                            assert(self.entries@[a] == old(self).entries@[a]);
                            assert(old(self).map@.contains_key(old(self).entries@[a].0@));
                        }
                    }
                    assert forall|a: int, b: int| 0 <= a < b < self.entries@.len() implies self.entries@[a].0@
                        != self.entries@[b].0@ by {
                        if b == n {
                            assert(old(self).map@.contains_key(old(self).entries@[a].0@));
                        }
                    }
                }
            },
        }
    }
}

} // verus!
