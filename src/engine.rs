//! The engine facade: named databases, each with its tables.
use vstd::prelude::*;
use vstd::utf8::encode_utf8;
use vstd::string::StringExecFns;
use crate::search::{reconciled, QuerySearchManager};
use crate::table::{fresh, EngineTable};
use crate::types::{same_text, Table};

verus! {

/// Where the engine finds its configuration and keeps its data.
#[derive(Clone, Debug)]
pub struct WorkerContextInitOpts {
    pub config_path: String,
    pub data_path: Option<String>,
}

/// The configuration file a configuration folder holds.
pub const CONFIG_FILE_NAME: &'static str = "SchemeJS.toml";

/// `folder` joined with `name`: a `/` between them unless `folder` is empty
/// or its last byte already is one.
pub open spec fn join_spec(folder: Seq<char>, name: Seq<char>) -> Seq<char> {
    if encode_utf8(folder).len() == 0 || encode_utf8(folder).last() == 47u8 {
        folder + name
    } else {
        folder + seq!['/'] + name
    }
}

/// Joins a file name onto a folder path.
pub fn join_path(folder: &str, name: &str) -> (r: String)
    ensures
        r@ == join_spec(folder@, name@),
{
    let b = folder.as_bytes();
    let n = b.len();
    let base = folder.to_string();
    let slash = "/";
    proof {
        reveal_strlit("/");
        assert(slash@ =~= seq!['/']);
    }
    if n == 0 || b[n - 1] == 47u8 {
        base.concat(name)
    } else {
        base.concat(slash).concat(name)
    }
}

/// Where the configuration is. A folder holds the configuration file and is
/// the current folder; a file is the configuration itself, and its parent
/// is the current folder. Returns (current folder, configuration file).
pub fn resolve_config_location(base_path: &str, base_is_dir: bool, parent: &str) -> (r: (String, String))
    ensures
        base_is_dir ==> r.0@ == base_path@ && r.1@ == join_spec(base_path@, CONFIG_FILE_NAME@),
        !base_is_dir ==> r.0@ == parent@ && r.1@ == base_path@,
{
    if base_is_dir {
        (base_path.to_string(), join_path(base_path, CONFIG_FILE_NAME))
    } else {
        (parent.to_string(), base_path.to_string())
    }
}

/// A database: a name and the manager of its tables.
pub struct EngineDb {
    pub name: String,
    pub query_manager: QuerySearchManager,
}

impl EngineDb {
    /// An empty database.
    pub fn new(name: &str) -> (r: EngineDb)
        ensures
            r.name@ == name@,
            r.query_manager.wf(),
            r.query_manager.tables().len() == 0,
            r.query_manager.positions_view().dom() == Set::<Seq<char>>::empty(),
    {
        EngineDb { name: name.to_string(), query_manager: QuerySearchManager::new() }
    }

    /// Reconciles every table of this database, in order of registration.
    /// A table whose ordinal space cannot take its staged rows is left as it
    /// was.
    pub fn reconcile_all(&mut self)
        requires
            old(self).query_manager.wf(),
        ensures
            final(self).name == old(self).name,
            final(self).query_manager.wf(),
            final(self).query_manager.positions_view() == old(self).query_manager.positions_view(),
            forall|n: Seq<char>| #[trigger] final(self).query_manager.positions_view().contains_key(n) ==> reconcile_outcome(
                old(self).query_manager.table_of(n).unwrap(),
                final(self).query_manager.table_of(n).unwrap(),
            ),
    {
        let names = self.query_manager.table_names();
        proof {
            self.query_manager.lemma_names_are_tables();
            assert forall|n: Seq<char>| #[trigger] old(self).query_manager.positions_view().contains_key(n) implies exists|j: int|
                0 <= j < names@.len() && names@[j]@ == n by {
                let k = choose|k: int| 0 <= k < self.query_manager.tables().len() && self.query_manager.tables()[k].schema().name@ == n;
                assert(names@[k]@ == n);
            }
        }
        let mut i: usize = 0;
        while i < names.len()
            invariant
                self.name == old(self).name,
                self.query_manager.wf(),
                self.query_manager.positions_view() == old(self).query_manager.positions_view(),
                names@.len() == old(self).query_manager.tables().len(),
                forall|j: int| 0 <= j < names@.len() ==> #[trigger] names@[j]@ == old(self).query_manager.tables()[j].schema().name@,
                forall|j: int| 0 <= j < names@.len() ==> old(self).query_manager.positions_view().contains_key(#[trigger] names@[j]@),
                forall|a: int, b: int| 0 <= a < b < names@.len() ==> names@[a]@ != names@[b]@,
                forall|n: Seq<char>| #[trigger] old(self).query_manager.positions_view().contains_key(n) ==> exists|j: int|
                    0 <= j < names@.len() && names@[j]@ == n,
                i <= names@.len(),
                forall|j: int| 0 <= j < i ==> reconcile_outcome(
                    old(self).query_manager.table_of(#[trigger] names@[j]@).unwrap(),
                    self.query_manager.table_of(names@[j]@).unwrap(),
                ),
                forall|j: int| i <= j < names@.len() ==> self.query_manager.table_of(#[trigger] names@[j]@)
                    == old(self).query_manager.table_of(names@[j]@),
            decreases names.len() - i,
        {
            let ghost mid = self.query_manager;
            let res = self.query_manager.reconcile(&names[i]);
            proof {
                match res {
                    Ok(_) => {},
                    Err(_) => {},
                }
                assert forall|j: int| 0 <= j < i + 1 implies reconcile_outcome(
                    old(self).query_manager.table_of(#[trigger] names@[j]@).unwrap(),
                    self.query_manager.table_of(names@[j]@).unwrap(),
                ) by {
                    if j < i {
                        assert(names@[j]@ != names@[i as int]@);
                        assert(self.query_manager.table_of(names@[j]@) == mid.table_of(names@[j]@));
                    }
                }
                assert forall|j: int| i + 1 <= j < names@.len() implies self.query_manager.table_of(#[trigger] names@[j]@)
                    == old(self).query_manager.table_of(names@[j]@) by {
                    assert(names@[j]@ != names@[i as int]@);
                    assert(self.query_manager.table_of(names@[j]@) == mid.table_of(names@[j]@));
                }
            }
            i = i + 1;
        }
        proof {
            assert forall|n: Seq<char>| #[trigger] self.query_manager.positions_view().contains_key(n) implies reconcile_outcome(
                old(self).query_manager.table_of(n).unwrap(),
                self.query_manager.table_of(n).unwrap(),
            ) by {
                let j = choose|j: int| 0 <= j < names@.len() && names@[j]@ == n;
                assert(reconcile_outcome(
                    old(self).query_manager.table_of(names@[j]@).unwrap(),
                    self.query_manager.table_of(names@[j]@).unwrap(),
                ));
            }
        }
    }

    /// Registers a table in this database.
    pub fn add_table(&mut self, table: Table)
        requires
            old(self).query_manager.wf(),
        ensures
            final(self).name == old(self).name,
            final(self).query_manager.wf(),
            final(self).query_manager.positions_view().dom() == old(self).query_manager.positions_view().dom().insert(
                table.name@,
            ),
            final(self).query_manager.table_of(table.name@) matches Some(t) && fresh(t, table),
            forall|n: Seq<char>| n != table.name@ ==> #[trigger] final(self).query_manager.table_of(n)
                == old(self).query_manager.table_of(n),
    {
        let name = self.name.clone();
        self.query_manager.register_table(name.as_str(), table);
    }
}

/// Whether a file name ends with `.js` or `.ts`.
pub open spec fn is_script_name(b: Seq<u8>) -> bool {
    b.len() >= 3 && b[b.len() - 3] == 46u8 && b[b.len() - 1] == 115u8 && (b[b.len() - 2] == 106u8
        || b[b.len() - 2] == 116u8)
}

/// Whether `path` names a table definition: a `.js` or `.ts` file.
pub fn is_js_or_ts(path: &str) -> (r: bool)
    ensures
        r == is_script_name(encode_utf8(path@)),
{
    let b = path.as_bytes();
    let n = b.len();
    n >= 3 && b[n - 3] == 46u8 && b[n - 1] == 115u8 && (b[n - 2] == 106u8 || b[n - 2] == 116u8)
}

/// What reconciling does to table `t`: `u` is `t` reconciled, or `t` itself
/// where its ordinal space cannot take its staged rows.
pub open spec fn reconcile_outcome(t: EngineTable, u: EngineTable) -> bool {
    if t.records().len() + t.pending().len() <= u64::MAX {
        reconciled(t, u)
    } else {
        u == t
    }
}

/// No table after `t` and before `end` has the name of table `t`.
pub open spec fn last_of_name(tables: Seq<Table>, t: int, end: int) -> bool {
    forall|u: int| t < u < end ==> tables[u].name@ != tables[t].name@
}

/// The names of a list of databases.
pub open spec fn db_names(dbs: Seq<EngineDb>) -> Seq<Seq<char>> {
    dbs.map_values(|d: EngineDb| d.name@)
}

/// The engine: the databases, and the directory that holds their data.
pub struct SchemeJsEngine {
    pub databases: Vec<EngineDb>,
    pub data_path_dir: Option<String>,
}

impl SchemeJsEngine {
    /// Database names are unique and every database's manager is well formed.
    pub open spec fn wf(&self) -> bool {
        &&& forall|i: int, j: int|
            0 <= i < j < self.databases@.len() ==> self.databases@[i].name@ != self.databases@[j].name@
        &&& forall|i: int| 0 <= i < self.databases@.len() ==> (#[trigger] self.databases@[i]).query_manager.wf()
    }

    /// An engine with no databases.
    pub fn new(data_path: Option<String>) -> (r: SchemeJsEngine)
        ensures
            r.wf(),
            r.databases@.len() == 0,
            r.data_path_dir == data_path,
    {
        SchemeJsEngine { databases: Vec::new(), data_path_dir: data_path }
    }

    /// The position of the database named `name`.
    pub fn position_of(&self, name: &str) -> (r: Option<usize>)
        ensures
            match r {
                Some(i) => i < self.databases@.len() && self.databases@[i as int].name@ == name@
                    && forall|j: int| 0 <= j < i ==> self.databases@[j].name@ != name@,
                None => forall|i: int| 0 <= i < self.databases@.len() ==> self.databases@[i].name@ != name@,
            },
    {
        let mut i: usize = 0;
        while i < self.databases.len()
            invariant
                i <= self.databases@.len(),
                forall|j: int| 0 <= j < i ==> self.databases@[j].name@ != name@,
            decreases self.databases.len() - i,
        {
            if same_text(self.databases[i].name.as_str(), name) {
                return Some(i);
            }
            i = i + 1;
        }
        None
    }

    /// The database named `name`.
    pub fn find_by_name_ref(&self, name: String) -> (r: Option<&EngineDb>)
        ensures
            match r {
                Some(d) => d.name@ == name@ && exists|i: int| 0 <= i < self.databases@.len() && self.databases@[i] == *d
                    && forall|j: int| 0 <= j < i ==> self.databases@[j].name@ != name@,
                None => forall|i: int| 0 <= i < self.databases@.len() ==> self.databases@[i].name@ != name@,
            },
    {
        match self.position_of(name.as_str()) {
            Some(i) => Some(&self.databases[i]),
            None => None,
        }
    }

    /// The first database named `name`, for changing it in place.
    pub fn find_by_name(&mut self, name: String) -> (r: Option<&mut EngineDb>)
        ensures
            final(self).data_path_dir == old(self).data_path_dir,
            match r {
                Some(d) => exists|i: int|
                    0 <= i < old(self).databases@.len() && old(self).databases@[i].name@ == name@
                    && (forall|j: int| 0 <= j < i ==> old(self).databases@[j].name@ != name@)
                    && *d == old(self).databases@[i]
                    && final(self).databases@ == old(self).databases@.update(i, *final(d)),
                None => (forall|i: int| 0 <= i < old(self).databases@.len() ==> old(self).databases@[i].name@ != name@)
                    && final(self).databases@ == old(self).databases@,
            },
    {
        match self.position_of(name.as_str()) {
            Some(i) => Some(&mut self.databases[i]),
            None => None,
        }
    }

    /// Adds the database `schema_name` (unless it exists) and returns its
    /// name with the table definitions among `table_files`, in order: the
    /// `.js` and `.ts` files.
    pub fn load_database_schema(&mut self, schema_name: &str, table_files: Vec<String>) -> (r: (String, Vec<String>))
        requires
            old(self).wf(),
        ensures
            final(self).wf(),
            exists|i: int| 0 <= i < final(self).databases@.len() && final(self).databases@[i].name@ == schema_name@,
            r.0@ == schema_name@,
            r.1@.map_values(|s: String| s@) == table_files@.filter(|s: String| is_script_name(encode_utf8(s@))).map_values(|s: String| s@),
    {
        self.add_database(schema_name);
        let mut specifiers: Vec<String> = Vec::new();
        let mut i: usize = 0;
        let ghost keep = |s: String| is_script_name(encode_utf8(s@));
        let ghost f = |s: String| s@;
        proof {
            assert(table_files@.subrange(0, 0).filter(keep) =~= Seq::<String>::empty());
            assert(specifiers@.map_values(f) =~= Seq::<Seq<char>>::empty());
        }
        while i < table_files.len()
            invariant
                i <= table_files@.len(),
                keep == |s: String| is_script_name(encode_utf8(s@)),
                f == |s: String| s@,
                specifiers@.map_values(f) == table_files@.subrange(0, i as int).filter(keep).map_values(f),
            decreases table_files.len() - i,
        {
            let ghost before = specifiers@;
            let ghost p = table_files@.subrange(0, i + 1);
            proof {
                assert(p.drop_last() =~= table_files@.subrange(0, i as int));
                assert(p.last() == table_files@[i as int]);
                reveal(Seq::filter);
            }
            if is_js_or_ts(table_files[i].as_str()) {
                specifiers.push(table_files[i].clone());
                proof {
                    assert(p.filter(keep) == p.drop_last().filter(keep).push(p.last()));
                    assert(specifiers@.map_values(f) =~= before.map_values(f).push(table_files@[i as int]@));
                    assert(p.filter(keep).map_values(f) =~= p.drop_last().filter(keep).map_values(f).push(table_files@[i as int]@));
                }
            } else {
                proof {
                    assert(p.filter(keep) == p.drop_last().filter(keep));
                }
            }
            i = i + 1;
        }
        proof {
            assert(table_files@.subrange(0, i as int) =~= table_files@);
        }
        (schema_name.to_string(), specifiers)
    }

    /// Adds an empty database named `name`, unless one of that name exists.
    pub fn add_database(&mut self, name: &str)
        requires
            old(self).wf(),
        ensures
            final(self).wf(),
            final(self).data_path_dir == old(self).data_path_dir,
            (exists|i: int| 0 <= i < old(self).databases@.len() && old(self).databases@[i].name@ == name@)
                ==> final(self).databases@ == old(self).databases@,
            (forall|i: int| 0 <= i < old(self).databases@.len() ==> old(self).databases@[i].name@ != name@)
                ==> final(self).databases@.len() == old(self).databases@.len() + 1
                && final(self).databases@.subrange(0, old(self).databases@.len() as int) == old(self).databases@
                && final(self).databases@.last().name@ == name@
                && final(self).databases@.last().query_manager.tables().len() == 0,
    {
        match self.position_of(name) {
            Some(_) => {},
            None => {
                self.databases.push(EngineDb::new(name));
                proof {
                    assert(self.databases@.subrange(0, old(self).databases@.len() as int) =~= old(self).databases@);
                }
            },
        }
    }

    /// Registers `loaded_tables`, in order, in the database `schema_name`.
    pub fn register_tables(&mut self, schema_name: &str, loaded_tables: Vec<Table>)
        requires
            old(self).wf(),
            exists|i: int| 0 <= i < old(self).databases@.len() && old(self).databases@[i].name@ == schema_name@,
        ensures
            final(self).wf(),
            final(self).data_path_dir == old(self).data_path_dir,
            final(self).databases@.len() == old(self).databases@.len(),
            forall|i: int| 0 <= i < final(self).databases@.len() ==> #[trigger] final(self).databases@[i].name
                == old(self).databases@[i].name,
            forall|i: int| 0 <= i < final(self).databases@.len() && final(self).databases@[i].name@ != schema_name@
                ==> #[trigger] final(self).databases@[i] == old(self).databases@[i],
            exists|i: int| 0 <= i < final(self).databases@.len() && final(self).databases@[i].name@ == schema_name@
                && (forall|t: int| 0 <= t < loaded_tables@.len() ==> #[trigger] final(self).databases@[i].query_manager.positions_view().contains_key(
                    loaded_tables@[t].name@))
                && (forall|t: int| 0 <= t < loaded_tables@.len() && last_of_name(loaded_tables@, t, loaded_tables@.len() as int)
                    ==> (#[trigger] final(self).databases@[i].query_manager.table_of(loaded_tables@[t].name@) matches Some(x)
                        && fresh(x, loaded_tables@[t]))),
    {
        let pos = match self.position_of(schema_name) {
            Some(p) => p,
            None => {
                return;
            },
        };
        let mut db = self.databases.remove(pos);
        let ghost all = loaded_tables@;
        let n = loaded_tables.len();
        let mut tables = loaded_tables;
        let mut k: usize = 0;
        while tables.len() > 0
            invariant
                db.query_manager.wf(),
                db.name == old(self).databases@[pos as int].name,
                k + tables@.len() == all.len(),
                all.len() == n,
                tables@ == all.subrange(k as int, all.len() as int),
                forall|t: int| 0 <= t < k ==> #[trigger] db.query_manager.positions_view().contains_key(all[t].name@),
                forall|t: int| 0 <= t < k && last_of_name(all, t, k as int) ==> (#[trigger] db.query_manager.table_of(all[t].name@) matches Some(x)
                    && fresh(x, all[t])),
            decreases tables.len(),
        {
            let t = tables.remove(0);
            assert(t == all[k as int]);
            let ghost before = db.query_manager;
            db.add_table(t);
            proof {
                assert forall|u: int| 0 <= u < k + 1 && last_of_name(all, u, k + 1) implies (#[trigger] db.query_manager.table_of(all[u].name@) matches Some(x)
                    && fresh(x, all[u])) by {
                    if u < k {
                        assert(all[u].name@ != all[k as int].name@);
                        assert(last_of_name(all, u, k as int));
                        assert(db.query_manager.table_of(all[u].name@) == before.table_of(all[u].name@));
                    }
                }
            }
            k = k + 1;
            proof {
                assert(tables@ =~= all.subrange(k as int, all.len() as int));
            }
        }
        self.databases.insert(pos, db);
        proof {
            assert(self.databases@[pos as int].name@ == schema_name@);
            assert forall|i: int, j: int| 0 <= i < j < self.databases@.len() implies self.databases@[i].name@
                != self.databases@[j].name@ by {
                assert(self.databases@[i].name == old(self).databases@[i].name);
                assert(self.databases@[j].name == old(self).databases@[j].name);
            }
            assert forall|i: int| 0 <= i < self.databases@.len() implies (#[trigger] self.databases@[i]).query_manager.wf() by {
                if i != pos {
                    assert(self.databases@[i] == old(self).databases@[i]);
                }
            }
            assert forall|i: int| 0 <= i < self.databases@.len() && self.databases@[i].name@ != schema_name@
                implies #[trigger] self.databases@[i] == old(self).databases@[i] by {
                if i == pos {
                    assert(false);
                }
            }
        }
    }
}

} // verus!
