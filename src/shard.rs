//! Append-only shards with a suffix-anchored offset directory, and the map
//! shard that spreads one ordinal space over a sequence of them.
use vstd::prelude::*;
use vstd::arithmetic::div_mod::lemma_fundamental_div_mod_converse;
use crate::bytes::{le_bytes, le_value, lemma_le_bytes_of_value, lemma_le_round_trip, push_u64, read_u64};

verus! {

/// Failures of shard storage.
#[derive(Clone, Debug, PartialEq, Eq, Structural)]
pub enum StorageError {
    /// The ordinal is not below the record count.
    OutOfRange,
}

/// One append-only shard: the records' bytes one after another, and the
/// absolute start of each record.
pub struct Shard {
    data: Vec<u8>,
    offsets: Vec<u64>,
}

/// The offset directory as bytes: each offset, eight bytes little-endian.
pub open spec fn offsets_bytes(offsets: Seq<u64>) -> Seq<u8>
    decreases offsets.len(),
{
    if offsets.len() == 0 {
        Seq::empty()
    } else {
        offsets_bytes(offsets.drop_last()) + le_bytes(offsets.last())
    }
}

/// The directory holds eight bytes per offset, offset `i` at `8 * i`.
proof fn lemma_offsets_bytes(o: Seq<u64>)
    ensures
        offsets_bytes(o).len() == 8 * o.len(),
        forall|i: int| 0 <= i < o.len() ==> #[trigger] offsets_bytes(o).subrange(8 * i, 8 * i + 8) == le_bytes(o[i]),
    decreases o.len(),
{
    if o.len() > 0 {
        let p = o.drop_last();
        lemma_offsets_bytes(p);
        lemma_le_round_trip(o.last());
        let ob = offsets_bytes(o);
        assert forall|i: int| 0 <= i < o.len() implies #[trigger] ob.subrange(8 * i, 8 * i + 8) == le_bytes(o[i]) by {
            if i < p.len() {
                assert(ob.subrange(8 * i, 8 * i + 8) =~= offsets_bytes(p).subrange(8 * i, 8 * i + 8));
                assert(p[i] == o[i]);
            } else {
                assert(ob.subrange(8 * i, 8 * i + 8) =~= le_bytes(o.last()));
            }
        }
    }
}

/// A prefix of the shards holds no more records than all of them.
proof fn lemma_concat_prefix_len(shards: Seq<Shard>, k: int)
    requires
        0 <= k <= shards.len(),
    ensures
        concat_views(shards.subrange(0, k)).len() <= concat_views(shards).len(),
    decreases shards.len() - k,
{
    if k < shards.len() {
        lemma_concat_prefix_len(shards, k + 1);
        let p = shards.subrange(0, k + 1);
        assert(p.drop_last() =~= shards.subrange(0, k));
    } else {
        assert(shards.subrange(0, k) =~= shards);
    }
}

impl Shard {
    /// The byte position where record `i` ends.
    pub closed spec fn record_end(&self, i: int) -> int {
        if i + 1 < self.offsets@.len() {
            self.offsets@[i + 1] as int
        } else {
            self.data@.len() as int
        }
    }

    /// The records, in order of append.
    pub closed spec fn view(&self) -> Seq<Seq<u8>> {
        Seq::new(
            self.offsets@.len(),
            |i: int| self.data@.subrange(self.offsets@[i] as int, self.record_end(i)),
        )
    }

    /// Offsets ascend from the start of the data and stay within it.
    pub closed spec fn wf(&self) -> bool {
        &&& (self.offsets@.len() > 0 ==> self.offsets@[0] == 0)
        &&& (self.offsets@.len() == 0 ==> self.data@.len() == 0)
        &&& forall|i: int, j: int|
            0 <= i <= j < self.offsets@.len() ==> self.offsets@[i] <= self.offsets@[j]
        &&& forall|i: int| 0 <= i < self.offsets@.len() ==> self.offsets@[i] <= self.data@.len()
    }

    /// The file image: records, offset directory, record count.
    pub closed spec fn image(&self) -> Seq<u8> {
        self.data@ + offsets_bytes(self.offsets@) + le_bytes(self.offsets@.len() as u64)
    }

    /// An empty shard.
    pub fn new() -> (r: Shard)
        ensures
            r.wf(),
            r.view().len() == 0,
    {
        Shard { data: Vec::new(), offsets: Vec::new() }
    }

    /// The number of records.
    pub fn len(&self) -> (r: u64)
        requires
            self.wf(),
        ensures
            r == self.view().len(),
    {
        self.offsets.len() as u64
    }

    /// Appends a record; returns its ordinal.
    pub fn append(&mut self, bytes: &Vec<u8>) -> (r: u64)
        requires
            old(self).wf(),
            old(self).view().len() < u64::MAX,
        ensures
            final(self).wf(),
            final(self).view() == old(self).view().push(bytes@),
            r == old(self).view().len(),
    {
        let ghost old_data = self.data@;
        let ghost old_view = self.view();
        let start = self.data.len() as u64;
        let ord = self.offsets.len() as u64;
        self.offsets.push(start);
        let mut i: usize = 0;
        while i < bytes.len()
            invariant
                i <= bytes@.len(),
                self.data@ == old_data + bytes@.subrange(0, i as int),
                self.offsets@ == old(self).offsets@.push(start),
                start == old_data.len(),
            decreases bytes.len() - i,
        {
            self.data.push(bytes[i]);
            i = i + 1;
            proof {
                assert(self.data@ =~= old_data + bytes@.subrange(0, i as int));
            }
        }
        proof {
            assert(bytes@.subrange(0, i as int) =~= bytes@);
            let n = old(self).offsets@.len() as int;
            assert forall|k: int| 0 <= k < n implies #[trigger] self.view()[k] == old_view[k] by {
                assert(self.record_end(k) == old(self).record_end(k));
                assert(self.data@.subrange(self.offsets@[k] as int, self.record_end(k))
                    =~= old_data.subrange(self.offsets@[k] as int, self.record_end(k)));
            }
            assert(self.view()[n] =~= bytes@);
            assert(self.view() =~= old_view.push(bytes@));
            assert forall|a: int, b: int| 0 <= a <= b < self.offsets@.len() implies self.offsets@[a]
                <= self.offsets@[b] by {
                if b == n && a < n {
                    assert(old(self).offsets@[a] <= old_data.len());
                }
            }
        }
        ord
    }

    /// The record at `ordinal`.
    pub fn get(&self, ordinal: u64) -> (r: Result<Vec<u8>, StorageError>)
        requires
            self.wf(),
        ensures
            match r {
                Ok(b) => ordinal < self.view().len() && b@ == self.view()[ordinal as int],
                Err(e) => ordinal >= self.view().len() && e == StorageError::OutOfRange,
            },
    {
        if ordinal >= self.offsets.len() as u64 {
            return Err(StorageError::OutOfRange);
        }
        let i = ordinal as usize;
        let dl = self.data.len();
        assert(self.offsets@[i as int] <= dl);
        assert(i + 1 < self.offsets@.len() ==> self.offsets@[i as int] <= self.offsets@[i + 1] <= dl);
        let start = self.offsets[i] as usize;
        let end = if i + 1 < self.offsets.len() {
            self.offsets[i + 1] as usize
        } else {
            self.data.len()
        };
        let mut out: Vec<u8> = Vec::new();
        let mut k: usize = start;
        while k < end
            invariant
                start <= k <= end <= self.data@.len(),
                out@ == self.data@.subrange(start as int, k as int),
            decreases end - k,
        {
            out.push(self.data[k]);
            k = k + 1;
            proof {
                assert(out@ =~= self.data@.subrange(start as int, k as int));
            }
        }
        proof {
            assert(out@ =~= self.view()[ordinal as int]);
        }
        Ok(out)
    }

    /// Reads a shard from its file image, from the end: the record count in
    /// the last eight bytes, the offset directory before it, the records'
    /// bytes before that. `None` where the bytes are no shard's image.
    pub fn from_bytes(b: &Vec<u8>) -> (r: Option<Shard>)
        ensures
            match r {
                Some(s) => s.wf() && s.image() == b@,
                None => !exists|s: Shard| s.wf() && s.image() == b@,
            },
    {
        let ghost w: Option<Shard> = if exists|s: Shard| s.wf() && s.image() == b@ {
            Some(choose|s: Shard| s.wf() && s.image() == b@)
        } else {
            None
        };
        let ghost wn: int = match w { Some(s) => s.offsets@.len() as int, None => 0 };
        proof {
            if let Some(s) = w {
                lemma_offsets_bytes(s.offsets@);
                lemma_le_round_trip(s.offsets@.len() as u64);
                assert(b@.len() == s.data@.len() + 8 * wn + 8);
            }
        }
        let len = b.len();
        if len < 8 {
            return None;
        }
        let n = read_u64(b, len - 8);
        proof {
            if let Some(s) = w {
                assert(b@.subrange(len - 8, len as int) =~= le_bytes(s.offsets@.len() as u64));
                assert(n == wn);
            }
        }
        if n > ((len - 8) / 8) as u64 {
            proof {
                if let Some(s) = w {
                    assert(8 * wn <= len - 8);
                    assert(wn <= (len - 8) / 8) by (nonlinear_arith)
                        requires
                            8 * wn <= len - 8,
                            wn >= 0,
                    ;
                }
            }
            return None;
        }
        let nn = n as usize;
        assert(8 * nn <= len - 8) by (nonlinear_arith)
            requires
                nn <= (len - 8) / 8,
                len >= 8,
        ;
        let ds = len - 8 - 8 * nn;
        let mut data: Vec<u8> = Vec::new();
        let mut k: usize = 0;
        while k < ds
            invariant
                ds <= b@.len(),
                k <= ds,
                data@ == b@.subrange(0, k as int),
            decreases ds - k,
        {
            data.push(b[k]);
            k = k + 1;
            proof {
                assert(data@ =~= b@.subrange(0, k as int));
            }
        }
        proof {
            if let Some(s) = w {
                assert(ds == s.data@.len());
                assert(b@.subrange(0, ds as int) =~= s.data@);
            }
        }
        let mut offsets: Vec<u64> = Vec::new();
        let mut i: usize = 0;
        proof {
            assert(b@.subrange(ds as int, ds as int) =~= offsets_bytes(offsets@));
        }
        while i < nn
            invariant
                len == b@.len(),
                ds + 8 * nn + 8 == len,
                i <= nn,
                offsets@.len() == i,
                data@ == b@.subrange(0, ds as int),
                offsets_bytes(offsets@) == b@.subrange(ds as int, ds + 8 * i),
                i > 0 ==> offsets@[0] == 0,
                forall|a: int, c: int| 0 <= a <= c < i ==> offsets@[a] <= offsets@[c],
                forall|a: int| 0 <= a < i ==> offsets@[a] <= ds,
                (exists|s: Shard| s.wf() && s.image() == b@) ==> w is Some,
                w matches Some(s) ==> s.wf() && s.image() == b@ && nn == s.offsets@.len() && ds == s.data@.len()
                    && offsets@ == s.offsets@.subrange(0, i as int),
            decreases nn - i,
        {
            assert(ds + 8 * i + 8 <= len) by (nonlinear_arith)
                requires
                    i < nn,
                    ds + 8 * nn + 8 == len,
            ;
            let v = read_u64(b, ds + 8 * i);
            let ghost chunk = b@.subrange(ds + 8 * i, ds + 8 * i + 8);
            proof {
                lemma_le_bytes_of_value(chunk);
                assert(w matches Some(s) ==> v == s.offsets@[i as int]) by {
                    if let Some(s) = w {
                        lemma_offsets_bytes(s.offsets@);
                        assert(chunk =~= offsets_bytes(s.offsets@).subrange(8 * i, 8 * i + 8));
                        lemma_le_round_trip(s.offsets@[i as int]);
                    }
                }
            }
            if i == 0 && v != 0 {
                proof {
                    if let Some(s) = w {
                        assert(s.offsets@.len() > 0);
                        assert(s.offsets@[0] == 0);
                        assert(false);
                    }
                }
                return None;
            }
            if i > 0 && v < offsets[i - 1] {
                proof {
                    if let Some(s) = w {
                        assert(offsets@[i - 1] == s.offsets@[i - 1]);
                        assert(s.offsets@[i - 1] <= s.offsets@[i as int]);
                    }
                }
                return None;
            }
            if v > ds as u64 {
                proof {
                    if let Some(s) = w {
                        assert(s.offsets@[i as int] <= s.data@.len());
                        assert(v == s.offsets@[i as int]);
                        assert(false);
                    }
                }
                return None;
            }
            let ghost before = offsets@;
            offsets.push(v);
            proof {
                assert(offsets@.drop_last() =~= before);
                assert(offsets_bytes(offsets@) =~= b@.subrange(ds as int, ds + 8 * i + 8));
                assert forall|a: int, c: int| 0 <= a <= c < i + 1 implies offsets@[a] <= offsets@[c] by {
                    if c == i && a < i {
                        assert(before[a] <= before[i - 1]);
                    }
                }
                if let Some(s) = w {
                    assert(offsets@ =~= s.offsets@.subrange(0, i + 1));
                }
            }
            i = i + 1;
        }
        if nn == 0 && ds != 0 {
            return None;
        }
        let shard = Shard { data, offsets };
        proof {
            lemma_le_bytes_of_value(b@.subrange(len - 8, len as int));
            assert(le_bytes(nn as u64) == b@.subrange(len - 8, len as int));
            assert(shard.image() =~= b@);
        }
        Some(shard)
    }

    /// The file image of the shard: the records' bytes, then each record's
    /// start offset, then the record count, all offsets and the count as
    /// eight little-endian bytes.
    pub fn to_bytes(&self) -> (r: Vec<u8>)
        requires
            self.wf(),
        ensures
            r@ == self.image(),
    {
        let mut out: Vec<u8> = Vec::new();
        let mut i: usize = 0;
        while i < self.data.len()
            invariant
                i <= self.data@.len(),
                out@ == self.data@.subrange(0, i as int),
            decreases self.data.len() - i,
        {
            out.push(self.data[i]);
            i = i + 1;
            proof {
                assert(out@ =~= self.data@.subrange(0, i as int));
            }
        }
        proof {
            assert(self.data@.subrange(0, i as int) =~= self.data@);
            assert(self.offsets@.subrange(0, 0) =~= Seq::<u64>::empty());
        }
        let mut j: usize = 0;
        while j < self.offsets.len()
            invariant
                j <= self.offsets@.len(),
                out@ == self.data@ + offsets_bytes(self.offsets@.subrange(0, j as int)),
            decreases self.offsets.len() - j,
        {
            push_u64(&mut out, self.offsets[j]);
            proof {
                let p = self.offsets@.subrange(0, j + 1);
                assert(p.drop_last() =~= self.offsets@.subrange(0, j as int));
            }
            j = j + 1;
        }
        proof {
            assert(self.offsets@.subrange(0, j as int) =~= self.offsets@);
        }
        push_u64(&mut out, self.offsets.len() as u64);
        out
    }
}

/// The records of a list of shards, one shard after another.
pub open spec fn concat_views(shards: Seq<Shard>) -> Seq<Seq<u8>>
    decreases shards.len(),
{
    if shards.len() == 0 {
        Seq::empty()
    } else {
        concat_views(shards.drop_last()) + shards.last().view()
    }
}

/// Records per shard of a map shard unless another maximum is chosen.
pub const DEFAULT_SHARD_RECORDS: u64 = 1000000;

/// A sequence of shards sharing one file-name prefix, exposing one ordinal
/// space: ordinal `o` lives in shard `o / max_records` at `o % max_records`.
/// Appends go to the last shard, and a new one starts when it is full.
pub struct MapShard {
    shards: Vec<Shard>,
    max_records: u64,
    prefix: String,
    records: Ghost<Seq<Seq<u8>>>,
}

impl MapShard {
    /// The records in ordinal order.
    pub closed spec fn view(&self) -> Seq<Seq<u8>> {
        self.records@
    }

    /// The file-name prefix of the shards.
    pub closed spec fn prefix_view(&self) -> Seq<char> {
        self.prefix@
    }

    /// The most records a shard holds.
    pub closed spec fn max_spec(&self) -> u64 {
        self.max_records
    }

    /// Record `o` stands in shard `o / max_records` at `o % max_records`.
    pub closed spec fn slot(&self, o: int) -> bool {
        let m = self.max_records as int;
        &&& o / m < self.shards@.len()
        &&& o % m < self.shards@[o / m].view().len()
        &&& self.records@[o] == self.shards@[o / m].view()[o % m]
    }

    pub closed spec fn wf(&self) -> bool {
        let m = self.max_records as int;
        let n = self.shards@.len();
        &&& m >= 1
        &&& n >= 1
        &&& forall|s: int| 0 <= s < n ==> (#[trigger] self.shards@[s]).wf()
        &&& forall|s: int| 0 <= s < n - 1 ==> (#[trigger] self.shards@[s]).view().len() == m
        &&& self.shards@[n - 1].view().len() <= m
        &&& self.records@.len() == (n - 1) * m + self.shards@[n - 1].view().len()
        &&& self.records@.len() <= u64::MAX
        &&& forall|o: int| 0 <= o < self.records@.len() ==> #[trigger] self.slot(o)
    }

    /// An empty map shard whose shards are named with `prefix` and hold at
    /// most `max_records` records each.
    pub fn new(prefix: &str, max_records: u64) -> (r: MapShard)
        requires
            max_records >= 1,
        ensures
            r.wf(),
            r.view().len() == 0,
            r.prefix_view() == prefix@,
            r.max_spec() == max_records,
    {
        let mut shards: Vec<Shard> = Vec::new();
        shards.push(Shard::new());
        MapShard { shards, max_records, prefix: prefix.to_string(), records: Ghost(Seq::empty()) }
    }

    /// A map shard holding the records of `shards`, oldest shard first, as
    /// read back from their files.
    pub fn load(prefix: &str, max_records: u64, shards: &Vec<Shard>) -> (r: MapShard)
        requires
            max_records >= 1,
            forall|i: int| 0 <= i < shards@.len() ==> (#[trigger] shards@[i]).wf(),
            concat_views(shards@).len() < u64::MAX,
        ensures
            r.wf(),
            r.view() == concat_views(shards@),
            r.prefix_view() == prefix@,
            r.max_spec() == max_records,
    {
        let mut m = MapShard::new(prefix, max_records);
        let mut s: usize = 0;
        proof {
            assert(shards@.subrange(0, 0) =~= Seq::<Shard>::empty());
        }
        while s < shards.len()
            invariant
                s <= shards@.len(),
                forall|i: int| 0 <= i < shards@.len() ==> (#[trigger] shards@[i]).wf(),
                concat_views(shards@).len() < u64::MAX,
                m.wf(),
                m.prefix_view() == prefix@,
                m.max_spec() == max_records,
                m.view() == concat_views(shards@.subrange(0, s as int)),
            decreases shards.len() - s,
        {
            let n = shards[s].len();
            let ghost base = m.view();
            proof {
                lemma_concat_prefix_len(shards@, s as int + 1);
                let p = shards@.subrange(0, s + 1);
                assert(p.drop_last() =~= shards@.subrange(0, s as int));
            }
            let mut k: u64 = 0;
            while k < n
                invariant
                    s < shards@.len(),
                    shards@[s as int].wf(),
                    n == shards@[s as int].view().len(),
                    k <= n,
                    base.len() + n < u64::MAX,
                    m.wf(),
                    m.prefix_view() == prefix@,
                    m.max_spec() == max_records,
                    m.view() == base + shards@[s as int].view().subrange(0, k as int),
                decreases n - k,
            {
                match shards[s].get(k) {
                    Ok(rec) => {
                        m.append(&rec);
                    },
                    Err(_) => {},
                }
                k = k + 1;
                proof {
                    assert(m.view() =~= base + shards@[s as int].view().subrange(0, k as int));
                }
            }
            proof {
                assert(shards@[s as int].view().subrange(0, n as int) =~= shards@[s as int].view());
                let p = shards@.subrange(0, s + 1);
                assert(p.last() == shards@[s as int]);
            }
            s = s + 1;
        }
        proof {
            assert(shards@.subrange(0, s as int) =~= shards@);
        }
        m
    }

    /// The file-name prefix of the shards.
    pub fn prefix(&self) -> (r: &str)
        ensures
            r@ == self.prefix_view(),
    {
        self.prefix.as_str()
    }

    /// The most records a shard holds.
    pub fn max_records(&self) -> (r: u64)
        requires
            self.wf(),
        ensures
            r == self.max_spec(),
            r >= 1,
    {
        self.max_records
    }

    /// The number of records.
    pub fn len(&self) -> (r: u64)
        requires
            self.wf(),
        ensures
            r == self.view().len(),
    {
        let n = self.shards.len();
        let last = self.shards[n - 1].len();
        proof {
            assert((n - 1) * self.max_records as int + last <= u64::MAX) by {
                assert(self.records@.len() == (n - 1) * self.max_records as int + last);
            }
        }
        (n as u64 - 1) * self.max_records + last
    }

    /// The record at `ordinal`.
    pub fn get_element(&self, ordinal: u64) -> (r: Result<Vec<u8>, StorageError>)
        requires
            self.wf(),
        ensures
            match r {
                Ok(b) => ordinal < self.view().len() && b@ == self.view()[ordinal as int],
                Err(e) => ordinal >= self.view().len() && e == StorageError::OutOfRange,
            },
    {
        if ordinal >= self.len() {
            return Err(StorageError::OutOfRange);
        }
        proof {
            assert(self.slot(ordinal as int));
        }
        let ghost m = self.max_records as int;
        let qq = ordinal / self.max_records;
        let local = ordinal % self.max_records;
        assert(qq as int == ordinal as int / m && local as int == ordinal as int % m);
        let n = self.shards.len();
        assert(qq < n);
        let q = qq as usize;
        let r = self.shards[q].get(local);
        assert(self.view()[ordinal as int] == self.shards@[q as int].view()[local as int]);
        r
    }

    /// The records of shard `s`.
    pub closed spec fn shard_view(&self, s: int) -> Seq<Seq<u8>> {
        self.shards@[s].view()
    }

    /// Record `o` is record `o % max_spec()` of shard `o / max_spec()`.
    pub open spec fn placed(&self, o: int) -> bool {
        let m = self.max_spec() as int;
        &&& o / m < self.shard_count_spec()
        &&& o % m < self.shard_view(o / m).len()
        &&& self.view()[o] == self.shard_view(o / m)[o % m]
    }

    /// How records lie in the shards: every shard but the last holds exactly
    /// `max_spec()` records, the last at most that many, and record `o` is
    /// record `o % max_spec()` of shard `o / max_spec()`.
    pub proof fn lemma_layout(&self)
        requires
            self.wf(),
        ensures
            self.shard_count_spec() >= 1,
            self.max_spec() >= 1,
            forall|s: int| 0 <= s < self.shard_count_spec() - 1 ==> #[trigger] self.shard_view(s).len() == self.max_spec(),
            forall|s: int| 0 <= s < self.shard_count_spec() ==> #[trigger] self.shard_view(s).len() <= self.max_spec(),
            forall|o: int| 0 <= o < self.view().len() ==> #[trigger] self.placed(o),
    {
        assert forall|s: int| 0 <= s < self.shard_count_spec() implies #[trigger] self.shard_view(s).len() <= self.max_spec() by {
            if s < self.shard_count_spec() - 1 {
                assert(self.shards@[s].view().len() == self.max_records);
            }
        }
        assert forall|o: int| 0 <= o < self.view().len() implies #[trigger] self.placed(o) by {
            assert(self.slot(o));
        }
    }

    /// The number of shards.
    pub closed spec fn shard_count_spec(&self) -> nat {
        self.shards@.len()
    }

    /// The number of shards.
    pub fn shard_count(&self) -> (r: usize)
        requires
            self.wf(),
        ensures
            r == self.shard_count_spec(),
            r >= 1,
    {
        self.shards.len()
    }

    /// The shard at position `s`.
    pub fn shard(&self, s: usize) -> (r: &Shard)
        requires
            self.wf(),
            s < self.shard_count_spec(),
        ensures
            r.wf(),
    {
        &self.shards[s]
    }

    /// Appends a record; returns its ordinal, the number of records before.
    pub fn append(&mut self, bytes: &Vec<u8>) -> (r: u64)
        requires
            old(self).wf(),
            old(self).view().len() < u64::MAX,
        ensures
            final(self).wf(),
            final(self).view() == old(self).view().push(bytes@),
            final(self).prefix_view() == old(self).prefix_view(),
            final(self).max_spec() == old(self).max_spec(),
            r == old(self).view().len(),
    {
        let ghost m = self.max_records as int;
        let ghost old_shards = self.shards@;
        let ghost total = self.records@.len() as int;
        let ghost old_records = self.records@;
        let before = self.len();
        let n = self.shards.len();
        if self.shards[n - 1].len() == self.max_records {
            self.shards.push(Shard::new());
        }
        let ghost mid = self.shards@;
        let mut sh = self.shards.pop().unwrap();
        let ghost local = sh.view().len() as int;
        assert(local < m);
        assert(sh.view().len() < u64::MAX);
        sh.append(bytes);
        self.shards.push(sh);
        let ghost s = self.shards@.len() - 1;
        proof {
            assert(total == s * m + local) by (nonlinear_arith)
                requires
                    total == (n - 1) * m + old_shards[n - 1].view().len(),
                    (s == n - 1 && local == old_shards[n - 1].view().len()) || (s == n && local == 0
                        && old_shards[n - 1].view().len() == m),
            ;
            lemma_fundamental_div_mod_converse(total, m, s, local);
            self.records@ = self.records@.push(bytes@);
            assert forall|t: int| 0 <= t < self.shards@.len() implies (#[trigger] self.shards@[t]).wf() by {
                if t < s {
                    assert(self.shards@[t] == mid[t]);
                }
            }
            assert forall|t: int| 0 <= t < self.shards@.len() - 1 implies (
            #[trigger] self.shards@[t]).view().len() == m by {
                assert(self.shards@[t] == mid[t]);
                if t < n {
                    assert(mid[t] == old_shards[t]);
                }
            }
            assert forall|o: int| 0 <= o < self.records@.len() implies #[trigger] self.slot(o) by {
                if o < total {
                    let q = o / m;
                    assert(old(self).slot(o));
                    assert(q < n);
                    assert(mid[q] == old_shards[q]);
                    if q < s {
                        assert(self.shards@[q] == mid[q]);
                    }
                } else {
                    assert(o == total);
                    assert(o / m == s && o % m == local);
                    assert(self.shards@[s].view()[local] == bytes@);
                }
            }
            assert(self.shards@[s].view().len() <= m);
            assert(self.records@.len() <= u64::MAX);

            assert(self.records@.len() == (self.shards@.len() - 1) * m + self.shards@[self.shards@.len() - 1].view().len()) by (nonlinear_arith)
                requires
                    self.records@.len() == total + 1,
                    total == s * m + local,
                    self.shards@.len() - 1 == s,
                    self.shards@[self.shards@.len() - 1].view().len() == local + 1,
            ;
        }
        before
    }
}

} // verus!
