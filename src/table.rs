//! A table's storage: schema validation, staging of new rows, and
//! reconciliation into the primary shard with index upkeep.
use vstd::prelude::*;
use crate::codec::{decode_document, decode_spec, encode_document, encode_spec, lemma_round_trip};
use crate::index::{key_spec, to_key, CompositeKey, HashIndex};
use crate::shard::{MapShard, DEFAULT_SHARD_RECORDS};
use crate::temp_shard::{capacity_of, TempMapShard, TempOffsetTypes};
use crate::types::{lookup, text_of, Column, DataTypes, DocView, Document, Index, Table};

verus! {

/// Why a document does not fit a table's schema.
#[derive(Clone, Debug)]
pub enum ValidationError {
    MissingColumn(String),
    ExpectedString(String),
    ExpectedBoolean(String),
}

/// The mathematical form of a [`ValidationError`].
pub enum ValidationErrorView {
    MissingColumn(Seq<char>),
    ExpectedString(Seq<char>),
    ExpectedBoolean(Seq<char>),
}

impl View for ValidationError {
    type V = ValidationErrorView;

    open spec fn view(&self) -> ValidationErrorView {
        match self {
            ValidationError::MissingColumn(n) => ValidationErrorView::MissingColumn(n@),
            ValidationError::ExpectedString(n) => ValidationErrorView::ExpectedString(n@),
            ValidationError::ExpectedBoolean(n) => ValidationErrorView::ExpectedBoolean(n@),
        }
    }
}

impl ValidationError {
    pub fn is_missing_column(&self) -> (r: bool)
        ensures
            r == (self is MissingColumn),
    {
        matches!(self, ValidationError::MissingColumn(_))
    }

    pub fn is_expected_string(&self) -> (r: bool)
        ensures
            r == (self is ExpectedString),
    {
        matches!(self, ValidationError::ExpectedString(_))
    }

    pub fn is_expected_boolean(&self) -> (r: bool)
        ensures
            r == (self is ExpectedBoolean),
    {
        matches!(self, ValidationError::ExpectedBoolean(_))
    }
}

/// Why an insert was rejected.
#[derive(Clone, Debug)]
pub enum InsertionError {
    ValidationError(ValidationError),
}

/// What is wrong with `d` under column `c`, if anything: a required column
/// must be present, and a present value must have the column's type.
pub open spec fn column_error(c: Column, d: DocView) -> Option<ValidationErrorView> {
    match lookup(d, c.name@) {
        None => if c.required {
            Some(ValidationErrorView::MissingColumn(c.name@))
        } else {
            None
        },
        Some(v) => match c.data_type {
            DataTypes::String => if v is Text {
                None
            } else {
                Some(ValidationErrorView::ExpectedString(c.name@))
            },
            DataTypes::Boolean => if v is Boolean {
                None
            } else {
                Some(ValidationErrorView::ExpectedBoolean(c.name@))
            },
        },
    }
}

/// The error of the first column, in declared order, that `d` violates.
pub open spec fn first_error(cols: Seq<Column>, d: DocView) -> Option<ValidationErrorView>
    decreases cols.len(),
{
    if cols.len() == 0 {
        None
    } else {
        match column_error(cols[0], d) {
            Some(e) => Some(e),
            None => first_error(cols.drop_first(), d),
        }
    }
}

/// The names of an index's member columns.
pub open spec fn members_of(ix: Index) -> Seq<Seq<char>> {
    ix.members@.map_values(|s: String| s@)
}

/// The composite key of `d` under the given members: each member with the
/// canonical text of its value; none where a member is absent.
pub open spec fn compose(members: Seq<Seq<char>>, d: DocView) -> Option<Seq<(Seq<char>, Seq<char>)>>
    decreases members.len(),
{
    if members.len() == 0 {
        Some(Seq::empty())
    } else {
        match compose(members.drop_last(), d) {
            Some(p) => match lookup(d, members.last()) {
                Some(v) => Some(p.push((members.last(), text_of(v)))),
                None => None,
            },
            None => None,
        }
    }
}

/// The index map after the row `d` got ordinal `o`.
pub open spec fn row_update(m: Map<Seq<u8>, u64>, members: Seq<Seq<char>>, d: DocView, o: int) -> Map<Seq<u8>, u64> {
    match compose(members, d) {
        Some(ck) => m.insert(key_spec(ck), o as u64),
        None => m,
    }
}

/// The index map after the rows `docs` got the ordinals from `first` on.
pub open spec fn index_fold(m: Map<Seq<u8>, u64>, members: Seq<Seq<char>>, docs: Seq<DocView>, first: int) -> Map<Seq<u8>, u64>
    decreases docs.len(),
{
    if docs.len() == 0 {
        m
    } else {
        row_update(index_fold(m, members, docs.drop_last(), first), members, docs.last(), first + docs.len() - 1)
    }
}

/// The documents that stored records hold.
pub open spec fn decoded(recs: Seq<Seq<u8>>) -> Seq<DocView> {
    recs.map_values(|b: Seq<u8>| decode_spec(b).unwrap())
}

/// A composite key of `d` under `members`.
pub fn compose_key(members: &Vec<String>, d: &Document) -> (r: Option<CompositeKey>)
    ensures
        match r {
            Some(ck) => compose(members@.map_values(|s: String| s@), d@) == Some(ck@),
            None => compose(members@.map_values(|s: String| s@), d@) is None,
        },
{
    let ghost mv = members@.map_values(|s: String| s@);
    let mut parts: Vec<(String, String)> = Vec::new();
    let mut i: usize = 0;
    proof {
        assert(mv.subrange(0, 0) =~= Seq::<Seq<char>>::empty());
        assert(parts@.map_values(|p: (String, String)| (p.0@, p.1@)) =~= Seq::<(Seq<char>, Seq<char>)>::empty());
    }
    while i < members.len()
        invariant
            i <= members@.len(),
            mv == members@.map_values(|s: String| s@),
            compose(mv.subrange(0, i as int), d@) == Some(parts@.map_values(|p: (String, String)| (p.0@, p.1@))),
        decreases members.len() - i,
    {
        let ghost pre = mv.subrange(0, i + 1);
        proof {
            assert(pre.drop_last() =~= mv.subrange(0, i as int));
            assert(pre.last() == members@[i as int]@);
        }
        match d.get(members[i].as_str()) {
            Some(v) => {
                let ghost old_parts = parts@;
                parts.push((members[i].clone(), v.to_text()));
                proof {
                    let f = |p: (String, String)| (p.0@, p.1@);
                    assert(parts@.map_values(f) =~= old_parts.map_values(f).push((pre.last(), text_of(v@))));
                }
            },
            None => {
                proof {
                    lemma_compose_none_extends(mv, d@, i as int + 1);
                }
                return None;
            },
        }
        i = i + 1;
    }
    proof {
        assert(mv.subrange(0, i as int) =~= mv);
    }
    Some(CompositeKey(parts))
}

/// Once a prefix of the members has no key, no longer prefix has one.
proof fn lemma_compose_none_extends(mv: Seq<Seq<char>>, d: DocView, k: int)
    requires
        0 <= k <= mv.len(),
        compose(mv.subrange(0, k), d) is None,
    ensures
        compose(mv, d) is None,
    decreases mv.len() - k,
{
    if k < mv.len() {
        let p = mv.subrange(0, k + 1);
        assert(p.drop_last() =~= mv.subrange(0, k));
        lemma_compose_none_extends(mv, d, k + 1);
    } else {
        assert(mv.subrange(0, k) =~= mv);
    }
}

/// After reconciling `docs` from ordinal `first` on, an index maps the key of
/// each row to the ordinal of the last row with that key.
pub proof fn lemma_index_coherence(
    m: Map<Seq<u8>, u64>,
    members: Seq<Seq<char>>,
    docs: Seq<DocView>,
    first: int,
    j: int,
)
    requires
        0 <= j < docs.len(),
        compose(members, docs[j]) is Some,
        forall|t: int|
            j < t < docs.len() && (#[trigger] compose(members, docs[t])) is Some ==> key_spec(
                compose(members, docs[t]).unwrap(),
            ) != key_spec(compose(members, docs[j]).unwrap()),
    ensures
        index_fold(m, members, docs, first).contains_key(key_spec(compose(members, docs[j]).unwrap())),
        index_fold(m, members, docs, first)[key_spec(compose(members, docs[j]).unwrap())] == (first + j) as u64,
    decreases docs.len(),
{
    let k = key_spec(compose(members, docs[j]).unwrap());
    let last = docs.len() - 1;
    if j < last {
        let pre = docs.drop_last();
        assert forall|t: int| j < t < pre.len() && (#[trigger] compose(members, pre[t])) is Some implies key_spec(
            compose(members, pre[t]).unwrap(),
        ) != k by {
            assert(pre[t] == docs[t]);
            assert(compose(members, docs[t]) is Some);
        }
        assert(pre[j] == docs[j]);
        lemma_index_coherence(m, members, pre, first, j);
        assert(docs.last() == docs[last]);
    }
}

/// Staged encodings of documents, once reconciled, are read back as those
/// documents in the order they were staged.
pub proof fn lemma_reconciled_order(docs: Seq<DocView>)
    requires
        forall|i: int| 0 <= i < docs.len() ==> #[trigger] crate::codec::doc_fits(docs[i]),
    ensures
        decoded(docs.map_values(|d: DocView| encode_spec(d))) == docs,
{
    let recs = docs.map_values(|d: DocView| encode_spec(d));
    assert forall|i: int| 0 <= i < docs.len() implies #[trigger] decoded(recs)[i] == docs[i] by {
        lemma_round_trip(docs[i]);
    }
    assert(decoded(recs) =~= docs);
}

/// Rows stored after `before` as the encodings of `docs`, in order, are read
/// back as exactly those documents at the ordinals from `before.len()` on.
pub proof fn lemma_staged_documents_read_back(before: Seq<Seq<u8>>, docs: Seq<DocView>)
    requires
        forall|i: int| 0 <= i < docs.len() ==> #[trigger] crate::codec::doc_fits(docs[i]),
    ensures
        decoded(before + docs.map_values(|d: DocView| encode_spec(d))).len() == (before.len() + docs.len()) as int,
        decoded(before + docs.map_values(|d: DocView| encode_spec(d))).subrange(
            before.len() as int,
            (before.len() + docs.len()) as int,
        ) == docs,
{
    let all = before + docs.map_values(|d: DocView| encode_spec(d));
    lemma_reconciled_order(docs);
    assert(decoded(all).subrange(before.len() as int, (before.len() + docs.len()) as int) =~= decoded(
        docs.map_values(|d: DocView| encode_spec(d)),
    ));
}

/// Prefix of a table's primary shards.
pub const DATA_PREFIX: &'static str = "data_";

/// Prefix of a table's temp shards.
pub const TEMP_PREFIX: &'static str = "datatemp-";

/// Records per temp shard of a table.
pub const TEMP_RECORDS: u64 = 1000;

/// What is wrong with `item` under `column`, if anything.
fn column_check(column: &Column, item: &Document) -> (r: Option<ValidationError>)
    ensures
        match r {
            Some(e) => column_error(*column, item@) == Some(e@),
            None => column_error(*column, item@) is None,
        },
{
    match item.get(column.name.as_str()) {
        None => {
            if column.required {
                Some(ValidationError::MissingColumn(column.name.clone()))
            } else {
                None
            }
        },
        Some(value) => {
            match column.data_type {
                DataTypes::String => {
                    if matches!(value, crate::types::DataValue::String(_)) {
                        None
                    } else {
                        Some(ValidationError::ExpectedString(column.name.clone()))
                    }
                },
                DataTypes::Boolean => {
                    if matches!(value, crate::types::DataValue::Boolean(_)) {
                        None
                    } else {
                        Some(ValidationError::ExpectedBoolean(column.name.clone()))
                    }
                },
            }
        },
    }
}

/// The storage settings of a table: primary shards named `data_`, temp
/// shards named `datatemp-` holding at most `TEMP_RECORDS` records each.
pub open spec fn standard_storage(t: EngineTable) -> bool {
    &&& t.data_prefix() == "data_"@
    &&& t.temp_prefix() == "datatemp-"@
    &&& t.temp_capacity() == TempOffsetTypes::Custom(Some(TEMP_RECORDS))
}

/// `t` is a new table for schema `table`: no stored or staged rows, an
/// empty map for each declared index, and the standard storage settings.
pub open spec fn fresh(t: EngineTable, table: Table) -> bool {
    &&& t.schema() == table
    &&& t.records().len() == 0
    &&& t.pending().len() == 0
    &&& t.index_views().len() == table.indexes@.len()
    &&& forall|i: int| 0 <= i < table.indexes@.len() ==> #[trigger] t.index_views()[i] == Map::<Seq<u8>, u64>::empty()
    &&& standard_storage(t)
}

/// A table of a database: its schema, its primary shard, the rows staged for
/// it, and one hash index per declared index, in declared order.
pub struct EngineTable {
    db_name: String,
    prim_table: Table,
    data: MapShard,
    temp_shards: TempMapShard,
    indexes: Vec<HashIndex>,
}

impl EngineTable {
    /// The table's schema.
    pub closed spec fn schema(&self) -> Table {
        self.prim_table
    }

    /// The name of the database the table belongs to.
    pub closed spec fn db_view(&self) -> Seq<char> {
        self.db_name@
    }

    /// The table's schema.
    pub fn table(&self) -> (r: &Table)
        ensures
            *r == self.schema(),
    {
        &self.prim_table
    }

    /// How the table's temp shards are bounded.
    pub closed spec fn temp_capacity(&self) -> TempOffsetTypes {
        self.temp_shards.capacity_spec()
    }

    /// The file-name prefix of the primary shards.
    pub closed spec fn data_prefix(&self) -> Seq<char> {
        self.data.prefix_view()
    }

    /// The file-name prefix of the temp shards.
    pub closed spec fn temp_prefix(&self) -> Seq<char> {
        self.temp_shards.prefix_view()
    }

    /// The staging map shard that holds the temp shards.
    pub closed spec fn staging_spec(&self) -> MapShard {
        self.temp_shards.staging_spec()
    }

    /// The staged rows lie in the temp shards, each holding at most
    /// `capacity_of(temp_capacity())` of them.
    pub proof fn lemma_staging_layout(&self)
        requires
            self.wf(),
        ensures
            self.staging_spec().wf(),
            self.staging_spec().view() == self.pending(),
            self.staging_spec().max_spec() == capacity_of(self.temp_capacity()),
            self.staging_spec().prefix_view() == self.temp_prefix(),
    {
        self.temp_shards.lemma_staging();
    }

    /// Under the standard storage settings no temp shard holds more than
    /// `TEMP_RECORDS` staged rows, and every temp shard but the newest is full.
    pub proof fn lemma_temp_shard_bound(&self)
        requires
            self.wf(),
            standard_storage(*self),
        ensures
            forall|s: int| 0 <= s < self.staging_spec().shard_count_spec() ==> #[trigger] self.staging_spec().shard_view(s).len() <= TEMP_RECORDS,
            forall|s: int| 0 <= s < self.staging_spec().shard_count_spec() - 1 ==> #[trigger] self.staging_spec().shard_view(s).len() == TEMP_RECORDS,
    {
        self.lemma_staging_layout();
        self.staging_spec().lemma_layout();
    }

    /// There is one index map per declared index.
    pub proof fn lemma_index_count(&self)
        requires
            self.wf(),
        ensures
            self.index_views().len() == self.schema().indexes@.len(),
    {
    }

    /// The stored records in ordinal order.
    pub closed spec fn records(&self) -> Seq<Seq<u8>> {
        self.data.view()
    }

    /// The staged records in order of arrival.
    pub closed spec fn pending(&self) -> Seq<Seq<u8>> {
        self.temp_shards.view()
    }

    /// The key → ordinal map of each declared index.
    pub closed spec fn index_views(&self) -> Seq<Map<Seq<u8>, u64>> {
        self.indexes@.map_values(|ix: HashIndex| ix.view())
    }

    /// The documents stored, in ordinal order.
    pub open spec fn rows(&self) -> Seq<DocView> {
        decoded(self.records())
    }

    pub closed spec fn wf(&self) -> bool {
        &&& self.data.wf()
        &&& self.temp_shards.wf()
        &&& self.indexes@.len() == self.prim_table.indexes@.len()
        &&& forall|i: int| 0 <= i < self.indexes@.len() ==> (#[trigger] self.indexes@[i]).wf()
        &&& forall|o: int| 0 <= o < self.data.view().len() ==> (decode_spec(#[trigger] self.data.view()[o]) is Some)
        &&& forall|s: int| 0 <= s < self.temp_shards.view().len() ==> (decode_spec(#[trigger] self.temp_shards.view()[s]) is Some)
        &&& forall|i: int, k: Seq<u8>|
            0 <= i < self.indexes@.len() && #[trigger] self.indexes@[i].view().contains_key(k)
            ==> self.indexes@[i].view()[k] < self.data.view().len()
    }

    /// An empty table of database `db` with the given schema.
    pub fn new(db: &str, table: Table) -> (r: EngineTable)
        ensures
            r.wf(),
            r.db_view() == db@,
            fresh(r, table),
    {
        let mut indexes: Vec<HashIndex> = Vec::new();
        let mut i: usize = 0;
        while i < table.indexes.len()
            invariant
                i <= table.indexes@.len(),
                indexes@.len() == i,
                forall|j: int| 0 <= j < i ==> (#[trigger] indexes@[j]).wf() && indexes@[j].view() == Map::<Seq<u8>, u64>::empty(),
            decreases table.indexes.len() - i,
        {
            indexes.push(HashIndex::new(table.indexes[i].name.as_str(), table.indexes[i].index_type));
            i = i + 1;
        }
        proof {
            reveal_strlit("data_");
            reveal_strlit("datatemp-");
        }
        let r = EngineTable {
            db_name: db.to_string(),
            prim_table: table,
            data: MapShard::new(DATA_PREFIX, DEFAULT_SHARD_RECORDS),
            temp_shards: TempMapShard::new(TempOffsetTypes::Custom(Some(TEMP_RECORDS)), TEMP_PREFIX),
            indexes,
        };
        proof {
            assert(r.index_views().len() == table.indexes@.len());
            assert forall|i: int| 0 <= i < table.indexes@.len() implies #[trigger] r.index_views()[i] == Map::<Seq<u8>, u64>::empty() by {
                assert(r.indexes@[i].view() == Map::<Seq<u8>, u64>::empty());
            }
        }
        r
    }

    /// A table of database `db` over stored rows read back from disk, with
    /// every index rebuilt by recording the rows in ordinal order. Indexes are
    /// not kept in shards of their own: the stored rows determine them, as
    /// the `ensures` states. `None` where a stored record is not an encoded
    /// document.
    pub fn restore(db: &str, table: Table, data: MapShard) -> (r: Option<EngineTable>)
        requires
            data.wf(),
        ensures
            match r {
                Some(t) => t.wf() && t.schema() == table && t.db_view() == db@ && t.records() == data.view()
                    && t.data_prefix() == data.prefix_view() && t.temp_prefix() == "datatemp-"@
                    && t.temp_capacity() == TempOffsetTypes::Custom(Some(TEMP_RECORDS))
                    && t.pending().len() == 0 && t.index_views().len() == table.indexes@.len()
                    && forall|i: int| 0 <= i < table.indexes@.len() ==> #[trigger] t.index_views()[i]
                        == index_fold(Map::empty(), members_of(table.indexes@[i]), decoded(data.view()), 0),
                None => exists|o: int| 0 <= o < data.view().len() && decode_spec(#[trigger] data.view()[o]) is None,
            },
    {
        let mut t = EngineTable::new(db, table);
        let ghost views = t.index_views();
        let ghost docs = decoded(data.view());
        t.data = data;
        let end = t.data.len();
        let mut o: u64 = 0;
        proof {
            assert forall|i: int| 0 <= i < t.indexes@.len() implies #[trigger] t.indexes@[i].view()
                == index_fold(views[i], members_of(t.prim_table.indexes@[i]), docs.take(0), 0) by {
                assert(docs.take(0) =~= Seq::<DocView>::empty());
            }
        }
        while o < end
            invariant
                o <= end,
                end == t.data.view().len(),
                t.data.wf(),
                t.data.view() == data.view(),
                t.temp_shards.wf(),
                t.temp_shards.view().len() == 0,
                t.temp_shards.prefix_view() == "datatemp-"@,
                t.temp_shards.capacity_spec() == TempOffsetTypes::Custom(Some(TEMP_RECORDS)),
                t.data.prefix_view() == data.prefix_view(),
                docs == decoded(data.view()),
                t.prim_table == table,
                t.db_name@ == db@,
                t.indexes@.len() == t.prim_table.indexes@.len(),
                forall|i: int| 0 <= i < t.indexes@.len() ==> views[i] == Map::<Seq<u8>, u64>::empty(),
                forall|i: int| 0 <= i < t.indexes@.len() ==> (#[trigger] t.indexes@[i]).wf(),
                forall|q: int| 0 <= q < o ==> (decode_spec(#[trigger] t.data.view()[q]) is Some),
                forall|i: int| 0 <= i < t.indexes@.len() ==> #[trigger] t.indexes@[i].view()
                    == index_fold(views[i], members_of(t.prim_table.indexes@[i]), docs.take(o as int), 0),
                forall|i: int, k: Seq<u8>|
                    0 <= i < t.indexes@.len() && #[trigger] t.indexes@[i].view().contains_key(k)
                    ==> t.indexes@[i].view()[k] < o,
            decreases end - o,
        {
            let rec = match t.data.get_element(o) {
                Ok(rec) => rec,
                Err(_) => {
                    return None;
                },
            };
            let d = match decode_document(&rec) {
                Some(d) => d,
                None => {
                    return None;
                },
            };
            let ghost before = t.indexes@;
            proof {
                assert(docs[o as int] == d@);
            }
            t.index_row(&d, o);
            proof {
                let tk = docs.take(o + 1);
                assert(tk.drop_last() =~= docs.take(o as int));
                assert(tk.last() == d@);
                assert forall|i: int, k: Seq<u8>|
                    0 <= i < t.indexes@.len() && #[trigger] t.indexes@[i].view().contains_key(k)
                    implies t.indexes@[i].view()[k] < o + 1 by {
                    assert(before[i].view().contains_key(k) || t.indexes@[i].view()[k] == o);
                }
            }
            o = o + 1;
        }
        proof {
            assert(docs.take(o as int) =~= docs);
        }
        Some(t)
    }

    /// Checks `item` against every declared column, in declared order, and
    /// reports the first column it violates. Fields the schema does not
    /// mention are accepted.
    pub fn validate_row_value(&self, item: &Document) -> (r: Result<(), ValidationError>)
        ensures
            r is Ok <==> first_error(self.schema().columns@, item@) is None,
            r matches Err(e) ==> first_error(self.schema().columns@, item@) == Some(e@),
    {
        let cols = &self.table().columns;
        let mut i: usize = 0;
        proof {
            assert(cols@.subrange(0, cols@.len() as int) =~= cols@);
        }
        while i < cols.len()
            invariant
                i <= cols@.len(),
                cols@ == self.schema().columns@,
                first_error(cols@, item@) == first_error(cols@.subrange(i as int, cols@.len() as int), item@),
            decreases cols.len() - i,
        {
            let ghost rest = cols@.subrange(i as int, cols@.len() as int);
            proof {
                assert(rest.drop_first() =~= cols@.subrange(i + 1, cols@.len() as int));
                assert(rest[0] == cols@[i as int]);
            }
            match column_check(&cols[i], item) {
                Some(e) => {
                    return Err(e);
                },
                None => {},
            }
            i = i + 1;
        }
        Ok(())
    }

    /// The primary map shard, for writing its shards out.
    pub fn data(&self) -> (r: &MapShard)
        requires
            self.wf(),
        ensures
            r.wf(),
            r.view() == self.records(),
    {
        &self.data
    }

    /// The staging area, for writing its temp shards out.
    pub fn temp_shards(&self) -> (r: &TempMapShard)
        requires
            self.wf(),
        ensures
            r.wf(),
            r.view() == self.pending(),
    {
        &self.temp_shards
    }

    /// The ordinal that index `i` holds under `key`.
    pub fn index_get(&self, i: usize, key: &Vec<u8>) -> (r: Option<u64>)
        requires
            self.wf(),
            i < self.schema().indexes@.len(),
        ensures
            r == (if self.index_views()[i as int].contains_key(key@) {
                Some(self.index_views()[i as int][key@])
            } else {
                None::<u64>
            }),
            r matches Some(o) ==> o < self.records().len(),
    {
        self.indexes[i].get(key)
    }

    /// The document stored at `ordinal`.
    pub fn row_at(&self, ordinal: u64) -> (r: Document)
        requires
            self.wf(),
            ordinal < self.records().len(),
        ensures
            r@ == self.rows()[ordinal as int],
    {
        match self.data.get_element(ordinal) {
            Ok(rec) => {
                match decode_document(&rec) {
                    Some(d) => d,
                    None => Document::new(),
                }
            },
            Err(_) => Document::new(),
        }
    }

    /// The number of staged rows.
    pub fn pending_len(&self) -> (r: u64)
        requires
            self.wf(),
        ensures
            r == self.pending().len(),
    {
        self.temp_shards.len()
    }

    /// The number of stored rows.
    pub fn len(&self) -> (r: u64)
        requires
            self.wf(),
        ensures
            r == self.records().len(),
    {
        self.data.len()
    }

    /// Records row `d`, which has ordinal `o`, in every index under which it
    /// has a composite key.
    fn index_row(&mut self, d: &Document, o: u64)
        requires
            old(self).indexes@.len() == old(self).prim_table.indexes@.len(),
            forall|i: int| 0 <= i < old(self).indexes@.len() ==> (#[trigger] old(self).indexes@[i]).wf(),
        ensures
            final(self).indexes@.len() == old(self).indexes@.len(),
            forall|i: int| 0 <= i < final(self).indexes@.len() ==> (#[trigger] final(self).indexes@[i]).wf(),
            forall|i: int| 0 <= i < final(self).indexes@.len() ==> #[trigger] final(self).indexes@[i].view()
                == row_update(old(self).indexes@[i].view(), members_of(old(self).prim_table.indexes@[i]), d@, o as int),
            final(self).prim_table == old(self).prim_table,
            final(self).db_name == old(self).db_name,
            final(self).data == old(self).data,
            final(self).temp_shards == old(self).temp_shards,
    {
        let n = self.indexes.len();
        let mut i: usize = 0;
        while i < n
            invariant
                n == self.indexes@.len(),
                n == self.prim_table.indexes@.len(),
                i <= n,
                self.prim_table == old(self).prim_table,
                self.db_name == old(self).db_name,
                self.data == old(self).data,
                self.temp_shards == old(self).temp_shards,
                forall|j: int| 0 <= j < n ==> (#[trigger] self.indexes@[j]).wf(),
                forall|j: int| 0 <= j < i ==> #[trigger] self.indexes@[j].view()
                    == row_update(old(self).indexes@[j].view(), members_of(old(self).prim_table.indexes@[j]), d@, o as int),
                forall|j: int| i <= j < n ==> #[trigger] self.indexes@[j] == old(self).indexes@[j],
            decreases n - i,
        {
            match compose_key(&self.prim_table.indexes[i].members, d) {
                Some(ck) => {
                    let key = to_key(&ck);
                    let ghost before = self.indexes@;
                    let mut ix = self.indexes.remove(i);
                    ix.put(key, o);
                    self.indexes.insert(i, ix);
                    proof {
                        assert forall|j: int| 0 <= j < n && j != i implies #[trigger] self.indexes@[j] == before[j] by {}
                    }
                },
                None => {},
            }
            i = i + 1;
        }
    }

    /// Moves every staged row, in order of arrival, to the end of the primary
    /// shard, and records each in every index under which it has a key.
    /// Returns the ordinal the first moved row got.
    pub fn reconcile(&mut self) -> (r: u64)
        requires
            old(self).wf(),
            old(self).records().len() + old(self).pending().len() <= u64::MAX,
        ensures
            final(self).wf(),
            final(self).schema() == old(self).schema(),
            final(self).db_view() == old(self).db_view(),
            final(self).temp_capacity() == old(self).temp_capacity(),
            final(self).data_prefix() == old(self).data_prefix(),
            final(self).temp_prefix() == old(self).temp_prefix(),
            final(self).pending().len() == 0,
            final(self).records() == old(self).records() + old(self).pending(),
            r == old(self).records().len(),
            final(self).index_views().len() == old(self).index_views().len(),
            forall|i: int| 0 <= i < old(self).index_views().len() ==> #[trigger] final(self).index_views()[i]
                == index_fold(old(self).index_views()[i], members_of(old(self).schema().indexes@[i]),
                    decoded(old(self).pending()), r as int),
    {
        let ghost docs = decoded(self.temp_shards.view());
        let ghost views = self.index_views();
        let first = self.temp_shards.reconcile_all(&mut self.data);
        let end = self.data.len();
        let mut o: u64 = first;
        proof {
            assert forall|i: int| 0 <= i < self.indexes@.len() implies #[trigger] self.indexes@[i].view()
                == index_fold(views[i], members_of(self.prim_table.indexes@[i]), docs.take(o - first), first as int) by {
                assert(docs.take(0) =~= Seq::<DocView>::empty());
            }
            assert forall|t: int| 0 <= t < self.data.view().len() implies (decode_spec(#[trigger] self.data.view()[t]) is Some) by {
                if t >= first {
                    assert(self.data.view()[t] == old(self).temp_shards.view()[t - first]);
                }
            }
        }
        while o < end
            invariant
                first <= o <= end,
                end == self.data.view().len(),
                first == old(self).data.view().len(),
                self.data.wf(),
                self.temp_shards.wf(),
                self.temp_shards.view().len() == 0,
                self.temp_shards.capacity_spec() == old(self).temp_shards.capacity_spec(),
                self.temp_shards.prefix_view() == old(self).temp_shards.prefix_view(),
                self.data.prefix_view() == old(self).data.prefix_view(),
                self.data.view() == old(self).data.view() + old(self).temp_shards.view(),
                docs == decoded(old(self).temp_shards.view()),
                views == old(self).index_views(),
                self.prim_table == old(self).prim_table,
                self.db_name == old(self).db_name,
                self.indexes@.len() == self.prim_table.indexes@.len(),
                forall|i: int| 0 <= i < self.indexes@.len() ==> (#[trigger] self.indexes@[i]).wf(),
                forall|t: int| 0 <= t < self.data.view().len() ==> (decode_spec(#[trigger] self.data.view()[t]) is Some),
                forall|i: int| 0 <= i < self.indexes@.len() ==> #[trigger] self.indexes@[i].view()
                    == index_fold(views[i], members_of(self.prim_table.indexes@[i]), docs.take(o - first), first as int),
                forall|i: int, k: Seq<u8>|
                    0 <= i < self.indexes@.len() && #[trigger] self.indexes@[i].view().contains_key(k)
                    ==> self.indexes@[i].view()[k] < self.data.view().len(),
            decreases end - o,
        {
            match self.data.get_element(o) {
                Ok(rec) => {
                    match decode_document(&rec) {
                        Some(d) => {
                            let ghost before = self.indexes@;
                            proof {
                                assert(docs[o - first] == d@);
                            }
                            self.index_row(&d, o);
                            proof {
                                let t = docs.take(o + 1 - first);
                                assert(t.drop_last() =~= docs.take(o - first));
                                assert(t.last() == d@);
                                assert forall|i: int, k: Seq<u8>|
                                    0 <= i < self.indexes@.len() && #[trigger] self.indexes@[i].view().contains_key(k)
                                    implies self.indexes@[i].view()[k] < self.data.view().len() by {
                                    assert(before[i].view().contains_key(k) || self.indexes@[i].view()[k] == o);
                                }
                            }
                        },
                        None => {},
                    }
                },
                Err(_) => {},
            }
            o = o + 1;
        }
        proof {
            assert(docs.take(o - first) =~= docs);
        }
        first
    }

    /// Validates `item`, encodes it and stages it. A rejected row changes
    /// nothing.
    pub fn insert_row(&mut self, item: Document) -> (r: Result<(), InsertionError>)
        requires
            old(self).wf(),
            old(self).pending().len() < u64::MAX,
        ensures
            final(self).wf(),
            final(self).schema() == old(self).schema(),
            final(self).db_view() == old(self).db_view(),
            final(self).temp_capacity() == old(self).temp_capacity(),
            final(self).data_prefix() == old(self).data_prefix(),
            final(self).temp_prefix() == old(self).temp_prefix(),
            final(self).records() == old(self).records(),
            final(self).index_views() == old(self).index_views(),
            match r {
                Ok(()) => first_error(old(self).schema().columns@, item@) is None
                    && crate::codec::doc_fits(item@)
                    && final(self).pending() == old(self).pending().push(encode_spec(item@)),
                Err(InsertionError::ValidationError(e)) => first_error(old(self).schema().columns@, item@) == Some(e@)
                    && final(self).pending() == old(self).pending(),
            },
    {
        match self.validate_row_value(&item) {
            Err(e) => Err(InsertionError::ValidationError(e)),
            Ok(()) => {
                let bytes = encode_document(&item);
                proof {
                    lemma_round_trip(item@);
                }
                self.temp_shards.insert_row(&bytes);
                proof {
                    assert forall|s: int| 0 <= s < self.temp_shards.view().len() implies (decode_spec(
                        #[trigger] self.temp_shards.view()[s]) is Some) by {
                        if s < old(self).temp_shards.view().len() {
                            assert(self.temp_shards.view()[s] == old(self).temp_shards.view()[s]);
                        }
                    }
                }
                Ok(())
            },
        }
    }
}

} // verus!
