//! Schema primitives and the document model.
use vstd::prelude::*;

verus! {

/// The type a column declares for its values.
#[derive(Clone, Copy, Debug, PartialEq, Eq, Structural)]
pub enum DataTypes {
    String,
    Boolean,
}

/// A scalar field value of a document.
#[derive(Clone, Debug)]
pub enum DataValue {
    Null,
    Boolean(bool),
    /// A number, held as its canonical numeral text.
    Number(String),
    String(String),
}

/// The mathematical form of a [`DataValue`].
pub enum ValueView {
    Null,
    Boolean(bool),
    Number(Seq<char>),
    Text(Seq<char>),
}

impl View for DataValue {
    type V = ValueView;

    open spec fn view(&self) -> ValueView {
        match self {
            DataValue::Null => ValueView::Null,
            DataValue::Boolean(b) => ValueView::Boolean(*b),
            DataValue::Number(s) => ValueView::Number(s@),
            DataValue::String(s) => ValueView::Text(s@),
        }
    }
}

/// Canonical text of a value: strings stand for themselves, booleans are
/// `true` / `false`, null is `null`.
pub open spec fn text_of(v: ValueView) -> Seq<char> {
    match v {
        ValueView::Null => seq!['n', 'u', 'l', 'l'],
        ValueView::Boolean(b) => if b {
            seq!['t', 'r', 'u', 'e']
        } else {
            seq!['f', 'a', 'l', 's', 'e']
        },
        ValueView::Number(s) => s,
        ValueView::Text(s) => s,
    }
}

impl DataValue {
    /// The canonical text of the value.
    pub fn to_text(&self) -> (r: String)
        ensures
            r@ == text_of(self@),
    {
        match self {
            DataValue::Null => {
                proof { reveal_strlit("null"); }
                "null".to_string()
            },
            DataValue::Boolean(b) => {
                proof {
                    reveal_strlit("true");
                    reveal_strlit("false");
                }
                if *b {
                    "true".to_string()
                } else {
                    "false".to_string()
                }
            },
            DataValue::Number(s) => s.clone(),
            DataValue::String(s) => s.clone(),
        }
    }
}

/// A column of a table.
#[derive(Clone, Debug)]
pub struct Column {
    pub name: String,
    pub data_type: DataTypes,
    pub default_value: Option<String>,
    pub required: bool,
    pub comment: Option<String>,
    pub primary_key: bool,
}

impl Column {
    /// A column of the given name and type, not required, without default.
    pub fn new(name: &str, data_type: DataTypes) -> (r: Column)
        ensures
            r.name@ == name@,
            r.data_type == data_type,
            !r.required,
            !r.primary_key,
            r.default_value.is_none(),
            r.comment.is_none(),
    {
        Column {
            name: name.to_string(),
            data_type,
            default_value: None,
            required: false,
            comment: None,
            primary_key: false,
        }
    }
}

/// The kinds of index a table can declare.
#[derive(Clone, Copy, Debug, PartialEq, Eq, Structural)]
pub enum IndexType {
    Hash,
}

/// An index over an ordered list of member columns.
#[derive(Clone, Debug)]
pub struct Index {
    pub name: String,
    pub members: Vec<String>,
    pub index_type: IndexType,
}

/// A table definition: columns, indexes and the primary-key column name
/// (empty for "use the synthetic row id").
#[derive(Clone, Debug)]
pub struct Table {
    pub name: String,
    pub columns: Vec<Column>,
    pub indexes: Vec<Index>,
    pub primary_key: String,
}

impl Table {
    /// A table of the given name with no columns and no indexes.
    pub fn new(name: &str) -> (r: Table)
        ensures
            r.name@ == name@,
            r.columns@.len() == 0,
            r.indexes@.len() == 0,
            r.primary_key@.len() == 0,
    {
        Table { name: name.to_string(), columns: Vec::new(), indexes: Vec::new(), primary_key: String::new() }
    }

    /// The table with `column` in place of the first column of its name, or
    /// at the end where there is none: column names stay unique.
    pub fn add_column(self, column: Column) -> (r: Table)
        ensures
            r.name == self.name,
            r.indexes@ == self.indexes@,
            r.primary_key == self.primary_key,
            (forall|i: int| 0 <= i < self.columns@.len() ==> self.columns@[i].name@ != column.name@)
                ==> r.columns@ == self.columns@.push(column),
            (exists|i: int| 0 <= i < self.columns@.len() && self.columns@[i].name@ == column.name@)
                ==> exists|i: int|
                0 <= i < self.columns@.len() && self.columns@[i].name@ == column.name@
                    && (forall|j: int| 0 <= j < i ==> self.columns@[j].name@ != column.name@)
                    && r.columns@ == self.columns@.update(i, column),
    {
        let mut t = self;
        let mut i: usize = 0;
        while i < t.columns.len()
            invariant
                t.name == self.name,
                t.indexes@ == self.indexes@,
                t.primary_key == self.primary_key,
                t.columns@ == self.columns@,
                i <= t.columns@.len(),
                forall|j: int| 0 <= j < i ==> self.columns@[j].name@ != column.name@,
            decreases t.columns.len() - i,
        {
            if same_text(t.columns[i].name.as_str(), column.name.as_str()) {
                t.columns.set(i, column);
                return t;
            }
            i = i + 1;
        }
        t.columns.push(column);
        t
    }

    /// The table with one more index at the end.
    pub fn add_index(self, index: Index) -> (r: Table)
        ensures
            r.name == self.name,
            r.columns@ == self.columns@,
            r.indexes@ == self.indexes@.push(index),
            r.primary_key == self.primary_key,
    {
        let mut t = self;
        t.indexes.push(index);
        t
    }

    /// The first column of the given name.
    pub fn get_column(&self, name: &str) -> (r: Option<&Column>)
        ensures
            r.is_none() <==> (forall|i: int| 0 <= i < self.columns@.len() ==> self.columns@[i].name@ != name@),
            r matches Some(c) ==> exists|i: int| 0 <= i < self.columns@.len() && self.columns@[i] == *c && c.name@ == name@,
    {
        let mut i: usize = 0;
        while i < self.columns.len()
            invariant
                i <= self.columns@.len(),
                forall|j: int| 0 <= j < i ==> self.columns@[j].name@ != name@,
            decreases self.columns.len() - i,
        {
            if same_text(self.columns[i].name.as_str(), name) {
                return Some(&self.columns[i]);
            }
            i = i + 1;
        }
        None
    }
}

/// Whether two texts are equal.
pub fn same_text(a: &str, b: &str) -> (r: bool)
    ensures
        r == (a@ == b@),
{
    a.to_owned() == b.to_owned()
}

/// One named field of a document.
#[derive(Clone, Debug)]
pub struct Field {
    pub name: String,
    pub value: DataValue,
}

/// A self-describing document: an ordered list of named scalar fields.
#[derive(Clone, Debug)]
pub struct Document {
    pub fields: Vec<Field>,
}

/// The mathematical form of a document: its (name, value) pairs in order.
pub type DocView = Seq<(Seq<char>, ValueView)>;

impl View for Document {
    type V = DocView;

    open spec fn view(&self) -> DocView {
        self.fields@.map_values(|f: Field| (f.name@, f.value@))
    }
}

/// The value of the first field named `name`, if any.
pub open spec fn lookup(d: DocView, name: Seq<char>) -> Option<ValueView>
    decreases d.len(),
{
    if d.len() == 0 {
        None
    } else if d[0].0 == name {
        Some(d[0].1)
    } else {
        lookup(d.drop_first(), name)
    }
}

impl Document {
    /// An empty document.
    pub fn new() -> (r: Document)
        ensures
            r@.len() == 0,
    {
        Document { fields: Vec::new() }
    }

    /// The document with one more field at the end.
    pub fn with(self, name: &str, value: DataValue) -> (r: Document)
        ensures
            r@ == self@.push((name@, value@)),
    {
        let mut d = self;
        d.fields.push(Field { name: name.to_string(), value });
        proof {
            assert(d@ =~= self@.push((name@, value@)));
        }
        d
    }

    /// The value of the first field named `name`.
    pub fn get(&self, name: &str) -> (r: Option<&DataValue>)
        ensures
            match r {
                Some(v) => lookup(self@, name@) == Some(v@),
                None => lookup(self@, name@).is_none(),
            },
    {
        let mut i: usize = 0;
        proof {
            assert(self@.subrange(0, self@.len() as int) =~= self@);
        }
        while i < self.fields.len()
            invariant
                i <= self.fields@.len(),
                lookup(self@, name@) == lookup(self@.subrange(i as int, self@.len() as int), name@),
            decreases self.fields.len() - i,
        {
            let ghost rest = self@.subrange(i as int, self@.len() as int);
            proof {
                assert(rest.drop_first() =~= self@.subrange(i + 1, self@.len() as int));
                assert(rest[0] == (self.fields@[i as int].name@, self.fields@[i as int].value@));
            }
            if same_text(self.fields[i].name.as_str(), name) {
                return Some(&self.fields[i].value);
            }
            i = i + 1;
        }
        proof {
            assert(self@.subrange(i as int, self@.len() as int).len() == 0);
        }
        None
    }
}

} // verus!
