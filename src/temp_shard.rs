//! The staging layer: rows are appended to temp shards and later moved, in
//! order, into the primary map shard.
use vstd::prelude::*;
use crate::shard::MapShard;

verus! {

/// Records per temp shard when none is given.
pub const DEFAULT_TEMP_RECORDS: u64 = 1000;

/// How many records a temp shard holds before a new one starts.
#[derive(Clone, Copy, Debug, PartialEq, Eq, Structural)]
pub enum TempOffsetTypes {
    Unlimited,
    /// A bound of its own, or the default where `None`.
    Custom(Option<u64>),
}

/// The number of records a temp shard holds under `t`.
pub open spec fn capacity_of(t: TempOffsetTypes) -> u64 {
    match t {
        TempOffsetTypes::Unlimited => u64::MAX,
        TempOffsetTypes::Custom(None) => DEFAULT_TEMP_RECORDS,
        TempOffsetTypes::Custom(Some(n)) => n,
    }
}

/// A staging map shard whose records wait to be reconciled into a primary one.
pub struct TempMapShard {
    staging: MapShard,
    capacity: TempOffsetTypes,
}

impl TempMapShard {
    /// The records waiting, in order of arrival.
    pub closed spec fn view(&self) -> Seq<Seq<u8>> {
        self.staging.view()
    }

    pub closed spec fn capacity_spec(&self) -> TempOffsetTypes {
        self.capacity
    }

    pub closed spec fn prefix_view(&self) -> Seq<char> {
        self.staging.prefix_view()
    }

    /// The staging map shard.
    pub closed spec fn staging_spec(&self) -> MapShard {
        self.staging
    }

    pub closed spec fn wf(&self) -> bool {
        &&& self.staging.wf()
        &&& self.staging.max_spec() == capacity_of(self.capacity)
    }

    /// An empty staging area whose temp shards are named with `prefix`.
    pub fn new(capacity: TempOffsetTypes, prefix: &str) -> (r: TempMapShard)
        requires
            capacity_of(capacity) >= 1,
        ensures
            r.wf(),
            r.view().len() == 0,
            r.capacity_spec() == capacity,
            r.prefix_view() == prefix@,
    {
        let max = match capacity {
            TempOffsetTypes::Unlimited => u64::MAX,
            TempOffsetTypes::Custom(None) => DEFAULT_TEMP_RECORDS,
            TempOffsetTypes::Custom(Some(n)) => n,
        };
        TempMapShard { staging: MapShard::new(prefix, max), capacity }
    }

    /// The number of records waiting.
    pub fn len(&self) -> (r: u64)
        requires
            self.wf(),
        ensures
            r == self.view().len(),
    {
        self.staging.len()
    }

    /// The staging map shard holds the waiting records, at most
    /// `capacity_of(capacity_spec())` in each of its shards.
    pub proof fn lemma_staging(&self)
        requires
            self.wf(),
        ensures
            self.staging_spec().wf(),
            self.staging_spec().view() == self.view(),
            self.staging_spec().max_spec() == capacity_of(self.capacity_spec()),
            self.staging_spec().prefix_view() == self.prefix_view(),
    {
    }

    /// The staging map shard, for writing its shards out.
    pub fn staging(&self) -> (r: &MapShard)
        requires
            self.wf(),
        ensures
            r.wf(),
            r.view() == self.view(),
            *r == self.staging_spec(),
            r.max_spec() == capacity_of(self.capacity_spec()),
            r.prefix_view() == self.prefix_view(),
    {
        &self.staging
    }

    /// Stages one record behind those already waiting.
    pub fn insert_row(&mut self, bytes: &Vec<u8>)
        requires
            old(self).wf(),
            old(self).view().len() < u64::MAX,
        ensures
            final(self).wf(),
            final(self).view() == old(self).view().push(bytes@),
            final(self).capacity_spec() == old(self).capacity_spec(),
            final(self).prefix_view() == old(self).prefix_view(),
    {
        self.staging.append(bytes);
    }

    /// Moves every waiting record, in order, to the end of `target`, and
    /// empties the staging area. Returns the ordinal the first moved record
    /// got in `target`.
    pub fn reconcile_all(&mut self, target: &mut MapShard) -> (r: u64)
        requires
            old(self).wf(),
            old(target).wf(),
            old(target).view().len() + old(self).view().len() <= u64::MAX,
        ensures
            final(self).wf(),
            final(self).view().len() == 0,
            final(self).capacity_spec() == old(self).capacity_spec(),
            final(self).prefix_view() == old(self).prefix_view(),
            final(target).wf(),
            final(target).view() == old(target).view() + old(self).view(),
            final(target).prefix_view() == old(target).prefix_view(),
            final(target).max_spec() == old(target).max_spec(),
            r == old(target).view().len(),
    {
        let first = target.len();
        let n = self.staging.len();
        let mut i: u64 = 0;
        while i < n
            invariant
                self.wf(),
                self.view() == old(self).view(),
                n == self.view().len(),
                i <= n,
                target.wf(),
                target.view() == old(target).view() + self.view().subrange(0, i as int),
                target.prefix_view() == old(target).prefix_view(),
                target.max_spec() == old(target).max_spec(),
                old(target).view().len() + n <= u64::MAX,
            decreases n - i,
        {
            match self.staging.get_element(i) {
                Ok(rec) => {
                    target.append(&rec);
                },
                Err(_) => {},
            }
            i = i + 1;
            proof {
                assert(target.view() =~= old(target).view() + self.view().subrange(0, i as int));
            }
        }
        proof {
            assert(self.view().subrange(0, n as int) =~= self.view());
        }
        let fresh = MapShard::new(self.staging.prefix(), self.staging.max_records());
        self.staging = fresh;
        first
    }
}

} // verus!
