use vstd::prelude::*;

verus! {

use vstd::string::StringExecFns;
use crate::error::{StoreError, StoreResult};
use crate::index_value::{IndexValue, encode_of};
use crate::model::{IndexSpec, Model};
use crate::record_id::{RecordId, decimal_of, decimal_string};
use crate::store::{has_index, is_not_found_err, is_unique_violation_err, key_of,
    lemma_sel_of_unique, sel_of};
use crate::text::str_eq;

// ---------------------------------------------------------------------------
// The relational backend's planning layer.
//
// The physical layout is one main table per model plus one side table per
// declared index. The functions here compute, as verified pure code, the
// exact parameterized statements each store operation must run inside one
// transaction, and translate the outcomes the database reports back into the
// store's errors. Executing the statements is plain I/O and lives with the
// connection and transaction provider.
// ---------------------------------------------------------------------------
/// One parameterized SQL statement: its text and its positional parameters,
/// in order, in text form.
pub struct SqlStatement {
    /// The statement text, with `$1`, `$2`, ... placeholders.
    pub text: String,
    /// The values for the placeholders, in order.
    pub params: Vec<String>,
}

/// The name of the side table backing one index: the main table's name, a
/// double-underscore `idx` marker, and the index name.
pub open spec fn index_table_name_spec(table: Seq<char>, name: Seq<char>) -> Seq<char> {
    table + "__idx_"@ + name
}

/// The statement that creates the main table: a text primary key, the opaque
/// document, and the two timestamps.
pub open spec fn main_table_sql(table: Seq<char>) -> Seq<char> {
    "CREATE TABLE IF NOT EXISTS "@ + table
        + " (id TEXT PRIMARY KEY, data JSONB NOT NULL, created_at TIMESTAMPTZ NOT NULL DEFAULT NOW(), updated_at TIMESTAMPTZ NOT NULL DEFAULT NOW())"@
}

/// The supporting index on `updated_at` (listing order).
pub open spec fn updated_at_index_sql(table: Seq<char>) -> Seq<char> {
    "CREATE INDEX IF NOT EXISTS idx_"@ + table + "_updated_at ON "@ + table + "(updated_at)"@
}

/// The statement that creates one side table: the encoded key, the record
/// identifier with a cascading foreign key, and a uniqueness constraint on
/// the key exactly for a unique index.
pub open spec fn index_table_sql(table: Seq<char>, name: Seq<char>, unique: bool) -> Seq<char> {
    "CREATE TABLE IF NOT EXISTS "@ + index_table_name_spec(table, name)
        + " (index_key TEXT NOT NULL, record_id TEXT NOT NULL REFERENCES "@ + table
        + "(id) ON DELETE CASCADE"@ + (if unique {
        ", UNIQUE (index_key)"@
    } else {
        ""@
    }) + ")"@
}

/// The supporting index on a side table's key column (lookups).
pub open spec fn key_index_sql(table: Seq<char>, name: Seq<char>) -> Seq<char> {
    "CREATE INDEX IF NOT EXISTS idx_"@ + index_table_name_spec(table, name) + "_key ON "@
        + index_table_name_spec(table, name) + "(index_key)"@
}

/// The supporting index on a side table's record column (bulk deletion;
/// only needed where the key is not unique).
pub open spec fn record_index_sql(table: Seq<char>, name: Seq<char>) -> Seq<char> {
    "CREATE INDEX IF NOT EXISTS idx_"@ + index_table_name_spec(table, name) + "_record ON "@
        + index_table_name_spec(table, name) + "(record_id)"@
}

/// The statement that inserts a main row.
pub open spec fn insert_main_sql(table: Seq<char>) -> Seq<char> {
    "INSERT INTO "@ + table + " (id, data) VALUES ($1, $2)"@
}

/// The statement that inserts one side-table row.
pub open spec fn insert_index_sql(table: Seq<char>, name: Seq<char>) -> Seq<char> {
    "INSERT INTO "@ + index_table_name_spec(table, name) + " (index_key, record_id) VALUES ($1, $2)"@
}

/// The statement that replaces a main row's document and refreshes its
/// `updated_at`.
pub open spec fn update_main_sql(table: Seq<char>) -> Seq<char> {
    "UPDATE "@ + table + " SET data = $1, updated_at = NOW() WHERE id = $2"@
}

/// The statement that clears one side table of a record's rows.
pub open spec fn delete_index_sql(table: Seq<char>, name: Seq<char>) -> Seq<char> {
    "DELETE FROM "@ + index_table_name_spec(table, name) + " WHERE record_id = $1"@
}

/// The statement that deletes a main row (side-table rows cascade).
pub open spec fn delete_main_sql(table: Seq<char>) -> Seq<char> {
    "DELETE FROM "@ + table + " WHERE id = $1"@
}

/// The statement that reads one document by identifier.
pub open spec fn get_sql(table: Seq<char>) -> Seq<char> {
    "SELECT data FROM "@ + table + " WHERE id = $1"@
}

/// The lookup join: main table to exactly one side table, filtered by the
/// encoded key.
pub open spec fn find_sql(table: Seq<char>, name: Seq<char>) -> Seq<char> {
    "SELECT m.data FROM "@ + table + " m INNER JOIN "@ + index_table_name_spec(table, name)
        + " i ON m.id = i.record_id WHERE i.index_key = $1"@
}

/// The non-unique lookup additionally orders by most recent modification.
pub open spec fn find_ordered_sql(table: Seq<char>, name: Seq<char>) -> Seq<char> {
    find_sql(table, name) + " ORDER BY m.updated_at DESC"@
}

/// The paginated listing, most recently modified first.
pub open spec fn list_sql(table: Seq<char>) -> Seq<char> {
    "SELECT data FROM "@ + table + " ORDER BY updated_at DESC LIMIT $1 OFFSET $2"@
}

/// The row count of the main table.
pub open spec fn count_sql(table: Seq<char>) -> Seq<char> {
    "SELECT COUNT(*) as count FROM "@ + table
}

/// Join two pieces of statement text.
fn sql2(a: &str, b: &str) -> (r: String)
    ensures
        r@ == a@ + b@,
{
    a.to_owned().concat(b)
}

/// Join three pieces of statement text.
fn sql3(a: &str, b: &str, c: &str) -> (r: String)
    ensures
        r@ == a@ + b@ + c@,
{
    a.to_owned().concat(b).concat(c)
}

/// Join five pieces of statement text.
fn sql5(a: &str, b: &str, c: &str, d: &str, e: &str) -> (r: String)
    ensures
        r@ == a@ + b@ + c@ + d@ + e@,
{
    a.to_owned().concat(b).concat(c).concat(d).concat(e)
}

/// Calculate the side-table name for a given index of a table.
pub fn calculate_index_table_name(table: &str, index_name: &str) -> (r: String)
    ensures
        r@ == index_table_name_spec(table@, index_name@),
{
    sql3(table, "__idx_", index_name)
}

/// The statement texts that initialize a model's schema: the main table and
/// its listing index, then for every declared index its side table, its key
/// index, and (for a non-unique index) its record index.
pub open spec fn schema_plan_spec(table: Seq<char>, specs: Seq<IndexSpec>) -> Seq<Seq<char>>
    decreases specs.len(),
{
    if specs.len() == 0 {
        seq![main_table_sql(table), updated_at_index_sql(table)]
    } else {
        schema_plan_spec(table, specs.drop_last()) + per_index_schema_sql(table, specs.last())
    }
}

/// The statement texts that set one declared index up.
pub open spec fn per_index_schema_sql(table: Seq<char>, sp: IndexSpec) -> Seq<Seq<char>> {
    if sp.unique {
        seq![index_table_sql(table, sp.name, true), key_index_sql(table, sp.name)]
    } else {
        seq![
            index_table_sql(table, sp.name, false),
            key_index_sql(table, sp.name),
            record_index_sql(table, sp.name),
        ]
    }
}

/// The statement texts of a plan.
pub open spec fn texts_of(plan: Seq<SqlStatement>) -> Seq<Seq<char>> {
    Seq::new(plan.len(), |i: int| plan[i].text@)
}

/// Compute the idempotent schema-initialization plan for a model: every
/// statement of [`schema_plan_spec`], in order, none of them parameterized.
pub fn initialize_schema_plan<M: Model>() -> (r: Vec<SqlStatement>)
    ensures
        texts_of(r@) == schema_plan_spec(M::table_name_spec(), M::index_specs()),
        forall|i: int| 0 <= i < r@.len() ==> (#[trigger] r@[i]).params@.len() == 0,
{
    let registry = M::indices();
    let table = M::table_name();
    let mut r: Vec<SqlStatement> = Vec::new();
    r.push(
        SqlStatement {
            text: sql3(
                "CREATE TABLE IF NOT EXISTS ",
                table.as_str(),
                " (id TEXT PRIMARY KEY, data JSONB NOT NULL, created_at TIMESTAMPTZ NOT NULL DEFAULT NOW(), updated_at TIMESTAMPTZ NOT NULL DEFAULT NOW())",
            ),
            params: Vec::new(),
        },
    );
    r.push(
        SqlStatement {
            text: sql5(
                "CREATE INDEX IF NOT EXISTS idx_",
                table.as_str(),
                "_updated_at ON ",
                table.as_str(),
                "(updated_at)",
            ),
            params: Vec::new(),
        },
    );
    proof {
        assert(texts_of(r@) =~= schema_plan_spec(
            M::table_name_spec(),
            M::index_specs().subrange(0, 0),
        ));
    }
    let mut d: usize = 0;
    while d < registry.definitions.len()
        invariant
            0 <= d <= M::index_specs().len(),
            registry.definitions@.len() == M::index_specs().len(),
            forall|e: int|
                0 <= e < registry.definitions@.len() ==> {
                    &&& (#[trigger] registry.definitions@[e]).name@ == M::index_specs()[e].name
                    &&& registry.definitions@[e].unique == M::index_specs()[e].unique
                },
            table@ == M::table_name_spec(),
            texts_of(r@) == schema_plan_spec(
                M::table_name_spec(),
                M::index_specs().subrange(0, d as int),
            ),
            forall|i: int| 0 <= i < r@.len() ==> (#[trigger] r@[i]).params@.len() == 0,
        decreases M::index_specs().len() - d,
    {
        let def = &registry.definitions[d];
        let itn = calculate_index_table_name(table.as_str(), def.name.as_str());
        let base = sql5(
            "CREATE TABLE IF NOT EXISTS ",
            itn.as_str(),
            " (index_key TEXT NOT NULL, record_id TEXT NOT NULL REFERENCES ",
            table.as_str(),
            "(id) ON DELETE CASCADE",
        );
        let create_text = if def.unique {
            base.concat(", UNIQUE (index_key)").concat(")")
        } else {
            base.concat("").concat(")")
        };
        proof {
            let sp = M::index_specs()[d as int];
            assert(create_text@ == index_table_sql(M::table_name_spec(), sp.name, sp.unique));
        }
        r.push(SqlStatement { text: create_text, params: Vec::new() });
        let key_text = sql5(
            "CREATE INDEX IF NOT EXISTS idx_",
            itn.as_str(),
            "_key ON ",
            itn.as_str(),
            "(index_key)",
        );
        proof {
            let sp = M::index_specs()[d as int];
            assert(key_text@ =~= key_index_sql(M::table_name_spec(), sp.name));
        }
        r.push(SqlStatement { text: key_text, params: Vec::new() });
        if !def.unique {
            let rec_text = sql5(
                "CREATE INDEX IF NOT EXISTS idx_",
                itn.as_str(),
                "_record ON ",
                itn.as_str(),
                "(record_id)",
            );
            proof {
                let sp = M::index_specs()[d as int];
                assert(rec_text@ =~= record_index_sql(M::table_name_spec(), sp.name));
            }
            r.push(SqlStatement { text: rec_text, params: Vec::new() });
        }
        proof {
            let specs = M::index_specs();
            assert(specs.subrange(0, d as int + 1).drop_last() =~= specs.subrange(0, d as int));
            assert(specs.subrange(0, d as int + 1).last() == specs[d as int]);
            assert(texts_of(r@) =~= schema_plan_spec(
                M::table_name_spec(),
                specs.subrange(0, d as int + 1),
            ));
        }
        d = d + 1;
    }
    proof {
        assert(M::index_specs().subrange(0, M::index_specs().len() as int) =~= M::index_specs());
    }
    r
}

/// Compute an insert's transaction plan: the main-row insert, then one
/// side-table insert per declared index, carrying the record's encoded keys.
pub fn insert_plan<M: Model>(model: &M, document: &str) -> (r: Vec<SqlStatement>)
    ensures
        r@.len() == 1 + M::index_specs().len(),
        r@[0].text@ == insert_main_sql(M::table_name_spec()),
        r@[0].params@.len() == 2,
        r@[0].params@[0]@ == decimal_of(model.id_spec() as int),
        r@[0].params@[1]@ == document@,
        forall|d: int|
            0 <= d < M::index_specs().len() ==> {
                let st = #[trigger] r@[d + 1];
                &&& st.text@ == insert_index_sql(M::table_name_spec(), M::index_specs()[d].name)
                &&& st.params@.len() == 2
                &&& st.params@[0]@ == key_of(*model, d)
                &&& st.params@[1]@ == decimal_of(model.id_spec() as int)
            },
{
    let registry = M::indices();
    let table = M::table_name();
    let id_text = model.id().to_text();
    let mut r: Vec<SqlStatement> = Vec::new();
    let mut params: Vec<String> = Vec::new();
    params.push(id_text.clone());
    params.push(document.to_owned());
    r.push(
        SqlStatement { text: sql3("INSERT INTO ", table.as_str(), " (id, data) VALUES ($1, $2)"), params },
    );
    let mut d: usize = 0;
    while d < registry.definitions.len()
        invariant
            0 <= d <= M::index_specs().len(),
            registry.definitions@.len() == M::index_specs().len(),
            forall|e: int|
                0 <= e < registry.definitions@.len() ==> {
                    &&& (#[trigger] registry.definitions@[e]).name@ == M::index_specs()[e].name
                    &&& registry.definitions@[e].unique == M::index_specs()[e].unique
                    &&& registry.definitions@[e].ordinal == e
                },
            table@ == M::table_name_spec(),
            id_text@ == decimal_of(model.id_spec() as int),
            r@.len() == 1 + d,
            r@[0].text@ == insert_main_sql(M::table_name_spec()),
            r@[0].params@.len() == 2,
            r@[0].params@[0]@ == decimal_of(model.id_spec() as int),
            r@[0].params@[1]@ == document@,
            forall|e: int|
                0 <= e < d ==> {
                    let st = #[trigger] r@[e + 1];
                    &&& st.text@ == insert_index_sql(
                        M::table_name_spec(),
                        M::index_specs()[e].name,
                    )
                    &&& st.params@.len() == 2
                    &&& st.params@[0]@ == key_of(*model, e)
                    &&& st.params@[1]@ == decimal_of(model.id_spec() as int)
                },
        decreases M::index_specs().len() - d,
    {
        let def = &registry.definitions[d];
        let itn = calculate_index_table_name(table.as_str(), def.name.as_str());
        let key = def.extract(model).encode();
        let mut params: Vec<String> = Vec::new();
        params.push(key);
        params.push(id_text.clone());
        r.push(
            SqlStatement {
                text: sql3("INSERT INTO ", itn.as_str(), " (index_key, record_id) VALUES ($1, $2)"),
                params,
            },
        );
        d = d + 1;
    }
    r
}

/// Compute an update's transaction plan: the main-row update (zero affected
/// rows means "not found" and aborts the transaction), then the removal of
/// the record's rows from every side table, then fresh side-table inserts.
pub fn update_plan<M: Model>(model: &M, document: &str) -> (r: Vec<SqlStatement>)
    ensures
        r@.len() == 1 + 2 * M::index_specs().len(),
        r@[0].text@ == update_main_sql(M::table_name_spec()),
        r@[0].params@.len() == 2,
        r@[0].params@[0]@ == document@,
        r@[0].params@[1]@ == decimal_of(model.id_spec() as int),
        forall|d: int|
            0 <= d < M::index_specs().len() ==> {
                let st = #[trigger] r@[d + 1];
                &&& st.text@ == delete_index_sql(M::table_name_spec(), M::index_specs()[d].name)
                &&& st.params@.len() == 1
                &&& st.params@[0]@ == decimal_of(model.id_spec() as int)
            },
        forall|d: int|
            0 <= d < M::index_specs().len() ==> {
                let st = #[trigger] r@[d + 1 + M::index_specs().len()];
                &&& st.text@ == insert_index_sql(M::table_name_spec(), M::index_specs()[d].name)
                &&& st.params@.len() == 2
                &&& st.params@[0]@ == key_of(*model, d)
                &&& st.params@[1]@ == decimal_of(model.id_spec() as int)
            },
{
    let registry = M::indices();
    let table = M::table_name();
    let id_text = model.id().to_text();
    let mut r: Vec<SqlStatement> = Vec::new();
    let mut params: Vec<String> = Vec::new();
    params.push(document.to_owned());
    params.push(id_text.clone());
    r.push(
        SqlStatement {
            text: sql3("UPDATE ", table.as_str(), " SET data = $1, updated_at = NOW() WHERE id = $2"),
            params,
        },
    );
    let n = registry.definitions.len();
    let mut d: usize = 0;
    while d < n
        invariant
            0 <= d <= M::index_specs().len(),
            n == M::index_specs().len(),
            registry.definitions@.len() == M::index_specs().len(),
            forall|e: int|
                0 <= e < registry.definitions@.len() ==> {
                    &&& (#[trigger] registry.definitions@[e]).name@ == M::index_specs()[e].name
                    &&& registry.definitions@[e].ordinal == e
                },
            table@ == M::table_name_spec(),
            id_text@ == decimal_of(model.id_spec() as int),
            r@.len() == 1 + d,
            r@[0].text@ == update_main_sql(M::table_name_spec()),
            r@[0].params@.len() == 2,
            r@[0].params@[0]@ == document@,
            r@[0].params@[1]@ == decimal_of(model.id_spec() as int),
            forall|e: int|
                0 <= e < d ==> {
                    let st = #[trigger] r@[e + 1];
                    &&& st.text@ == delete_index_sql(
                        M::table_name_spec(),
                        M::index_specs()[e].name,
                    )
                    &&& st.params@.len() == 1
                    &&& st.params@[0]@ == decimal_of(model.id_spec() as int)
                },
        decreases n - d,
    {
        let def = &registry.definitions[d];
        let itn = calculate_index_table_name(table.as_str(), def.name.as_str());
        let mut params: Vec<String> = Vec::new();
        params.push(id_text.clone());
        r.push(
            SqlStatement { text: sql3("DELETE FROM ", itn.as_str(), " WHERE record_id = $1"), params },
        );
        d = d + 1;
    }
    let ghost mid = r@;
    let mut d2: usize = 0;
    while d2 < n
        invariant
            0 <= d2 <= M::index_specs().len(),
            n == M::index_specs().len(),
            registry.definitions@.len() == M::index_specs().len(),
            forall|e: int|
                0 <= e < registry.definitions@.len() ==> {
                    &&& (#[trigger] registry.definitions@[e]).name@ == M::index_specs()[e].name
                    &&& registry.definitions@[e].ordinal == e
                },
            table@ == M::table_name_spec(),
            id_text@ == decimal_of(model.id_spec() as int),
            mid.len() == 1 + n,
            r@.len() == 1 + n + d2,
            r@.subrange(0, 1 + n as int) == mid,
            mid[0].text@ == update_main_sql(M::table_name_spec()),
            mid[0].params@.len() == 2,
            mid[0].params@[0]@ == document@,
            mid[0].params@[1]@ == decimal_of(model.id_spec() as int),
            forall|e: int|
                0 <= e < n ==> {
                    let st = #[trigger] mid[e + 1];
                    &&& st.text@ == delete_index_sql(
                        M::table_name_spec(),
                        M::index_specs()[e].name,
                    )
                    &&& st.params@.len() == 1
                    &&& st.params@[0]@ == decimal_of(model.id_spec() as int)
                },
            forall|e: int|
                0 <= e < d2 ==> {
                    let st = #[trigger] r@[e + 1 + n];
                    &&& st.text@ == insert_index_sql(
                        M::table_name_spec(),
                        M::index_specs()[e].name,
                    )
                    &&& st.params@.len() == 2
                    &&& st.params@[0]@ == key_of(*model, e)
                    &&& st.params@[1]@ == decimal_of(model.id_spec() as int)
                },
        decreases n - d2,
    {
        let def = &registry.definitions[d2];
        let itn = calculate_index_table_name(table.as_str(), def.name.as_str());
        let key = def.extract(model).encode();
        let mut params: Vec<String> = Vec::new();
        params.push(key);
        params.push(id_text.clone());
        r.push(
            SqlStatement {
                text: sql3("INSERT INTO ", itn.as_str(), " (index_key, record_id) VALUES ($1, $2)"),
                params,
            },
        );
        proof {
            assert(r@.subrange(0, 1 + n as int) =~= mid);
        }
        d2 = d2 + 1;
    }
    proof {
        assert(forall|e: int| 0 <= e < n ==> #[trigger] r@[e + 1] == mid[e + 1]);
        assert(r@[0] == mid[0]);
    }
    r
}

/// The statement that deletes the record carrying `id`; its side-table rows
/// are removed by the cascading foreign key.
pub fn delete_statement<M: Model>(id: RecordId) -> (r: SqlStatement)
    ensures
        r.text@ == delete_main_sql(M::table_name_spec()),
        r.params@.len() == 1,
        r.params@[0]@ == decimal_of(id@ as int),
{
    let table = M::table_name();
    let mut params: Vec<String> = Vec::new();
    params.push(id.to_text());
    SqlStatement { text: sql3("DELETE FROM ", table.as_str(), " WHERE id = $1"), params }
}

/// The statement that reads the document of the record carrying `id`.
pub fn get_statement<M: Model>(id: RecordId) -> (r: SqlStatement)
    ensures
        r.text@ == get_sql(M::table_name_spec()),
        r.params@.len() == 1,
        r.params@[0]@ == decimal_of(id@ as int),
{
    let table = M::table_name();
    let mut params: Vec<String> = Vec::new();
    params.push(id.to_text());
    SqlStatement { text: sql3("SELECT data FROM ", table.as_str(), " WHERE id = $1"), params }
}

/// The lookup statement for a unique index: rejects an undeclared selector
/// and a non-unique index, exactly as the store contract asks.
pub fn find_by_unique_index_statement<M: Model>(selector: &str, key: &IndexValue) -> (r:
    StoreResult<SqlStatement>)
    ensures
        match r {
            Ok(st) => {
                &&& has_index::<M>(selector@)
                &&& M::index_specs()[sel_of::<M>(selector@)].unique
                &&& st.text@ == find_sql(
                    M::table_name_spec(),
                    M::index_specs()[sel_of::<M>(selector@)].name,
                )
                &&& st.params@.len() == 1
                &&& st.params@[0]@ == encode_of(key@)
            },
            Err(e) => match e {
                StoreError::IndexNotFound(s) => s@ == selector@ && !has_index::<M>(selector@),
                StoreError::IndexNotUnique(s) => s@ == selector@ && has_index::<M>(selector@)
                    && !M::index_specs()[sel_of::<M>(selector@)].unique,
                _ => false,
            },
        },
{
    let registry = M::indices();
    let table = M::table_name();
    let mut d: usize = 0;
    while d < registry.definitions.len()
        invariant
            0 <= d <= M::index_specs().len(),
            registry.definitions@.len() == M::index_specs().len(),
            crate::model::distinct_names(M::index_specs()),
            forall|e: int|
                0 <= e < registry.definitions@.len() ==> {
                    &&& (#[trigger] registry.definitions@[e]).name@ == M::index_specs()[e].name
                    &&& registry.definitions@[e].unique == M::index_specs()[e].unique
                },
            table@ == M::table_name_spec(),
            forall|e: int| 0 <= e < d ==> M::index_specs()[e].name != selector@,
        decreases M::index_specs().len() - d,
    {
        if str_eq(registry.definitions[d].name.as_str(), selector) {
            proof {
                lemma_sel_of_unique::<M>(d as int, selector@);
            }
            if !registry.definitions[d].unique {
                return Err(StoreError::IndexNotUnique(selector.to_owned()));
            }
            let itn = calculate_index_table_name(
                table.as_str(),
                registry.definitions[d].name.as_str(),
            );
            let text = sql5(
                "SELECT m.data FROM ",
                table.as_str(),
                " m INNER JOIN ",
                itn.as_str(),
                " i ON m.id = i.record_id WHERE i.index_key = $1",
            );
            let mut params: Vec<String> = Vec::new();
            params.push(key.encode());
            return Ok(SqlStatement { text, params });
        }
        d = d + 1;
    }
    Err(StoreError::IndexNotFound(selector.to_owned()))
}

/// The lookup statement for any declared index, ordered by most recent
/// modification first; rejects an undeclared selector.
pub fn find_by_index_statement<M: Model>(selector: &str, key: &IndexValue) -> (r: StoreResult<
    SqlStatement,
>)
    ensures
        match r {
            Ok(st) => {
                &&& has_index::<M>(selector@)
                &&& st.text@ == find_ordered_sql(
                    M::table_name_spec(),
                    M::index_specs()[sel_of::<M>(selector@)].name,
                )
                &&& st.params@.len() == 1
                &&& st.params@[0]@ == encode_of(key@)
            },
            Err(e) => e matches StoreError::IndexNotFound(s) && s@ == selector@ && !has_index::<M>(
                selector@,
            ),
        },
{
    let registry = M::indices();
    let table = M::table_name();
    let mut d: usize = 0;
    while d < registry.definitions.len()
        invariant
            0 <= d <= M::index_specs().len(),
            registry.definitions@.len() == M::index_specs().len(),
            crate::model::distinct_names(M::index_specs()),
            forall|e: int|
                0 <= e < registry.definitions@.len() ==> {
                    &&& (#[trigger] registry.definitions@[e]).name@ == M::index_specs()[e].name
                    &&& registry.definitions@[e].unique == M::index_specs()[e].unique
                },
            table@ == M::table_name_spec(),
            forall|e: int| 0 <= e < d ==> M::index_specs()[e].name != selector@,
        decreases M::index_specs().len() - d,
    {
        if str_eq(registry.definitions[d].name.as_str(), selector) {
            proof {
                lemma_sel_of_unique::<M>(d as int, selector@);
            }
            let itn = calculate_index_table_name(
                table.as_str(),
                registry.definitions[d].name.as_str(),
            );
            let base = sql5(
                "SELECT m.data FROM ",
                table.as_str(),
                " m INNER JOIN ",
                itn.as_str(),
                " i ON m.id = i.record_id WHERE i.index_key = $1",
            );
            let text = base.concat(" ORDER BY m.updated_at DESC");
            let mut params: Vec<String> = Vec::new();
            params.push(key.encode());
            return Ok(SqlStatement { text, params });
        }
        d = d + 1;
    }
    Err(StoreError::IndexNotFound(selector.to_owned()))
}

/// The paginated listing statement, most recently modified first.
pub fn list_statement<M: Model>(limit: u32, offset: u32) -> (r: SqlStatement)
    ensures
        r.text@ == list_sql(M::table_name_spec()),
        r.params@.len() == 2,
        r.params@[0]@ == decimal_of(limit as int),
        r.params@[1]@ == decimal_of(offset as int),
{
    let table = M::table_name();
    let mut params: Vec<String> = Vec::new();
    params.push(decimal_string(limit as u128));
    params.push(decimal_string(offset as u128));
    SqlStatement {
        text: sql3("SELECT data FROM ", table.as_str(), " ORDER BY updated_at DESC LIMIT $1 OFFSET $2"),
        params,
    }
}

/// The counting statement.
pub fn count_statement<M: Model>() -> (r: SqlStatement)
    ensures
        r.text@ == count_sql(M::table_name_spec()),
        r.params@.len() == 0,
{
    let table = M::table_name();
    SqlStatement { text: sql2("SELECT COUNT(*) as count FROM ", table.as_str()), params: Vec::new() }
}

/// Whether a reported SQLSTATE code is the unique-constraint violation the
/// engine raises when a side-table insert collides.
pub fn is_unique_violation(code: &str) -> (r: bool)
    ensures
        r == (code@ == "23505"@),
{
    str_eq(code, "23505")
}

/// Interpret the affected-row count of a write keyed by `id`: zero rows
/// means the record was not found and the transaction must abort.
pub fn interpret_write_outcome(rows_affected: u64, id: RecordId) -> (r: StoreResult<()>)
    ensures
        match r {
            Ok(()) => rows_affected > 0,
            Err(e) => rows_affected == 0 && is_not_found_err(e, id@),
        },
{
    if rows_affected == 0 {
        Err(StoreError::NotFound(id.to_text()))
    } else {
        Ok(())
    }
}

/// Translate the failure of the side-table insert at declaration position
/// `ordinal`: the unique-violation SQLSTATE becomes the store's unique
/// violation naming the index and the encoded key; anything else surfaces as
/// a backend error carrying the driver's message.
pub fn translate_index_insert_failure<M: Model>(
    model: &M,
    ordinal: usize,
    code: &str,
    driver_msg: String,
) -> (e: StoreError)
    requires
        ordinal < M::index_specs().len(),
    ensures
        code@ == "23505"@ ==> is_unique_violation_err::<M>(e, *model, ordinal as int),
        code@ != "23505"@ ==> (e matches StoreError::Database(m) && m@ == driver_msg@),
{
    let registry = M::indices();
    if is_unique_violation(code) {
        let key = registry.definitions[ordinal].extract(model).encode();
        StoreError::UniqueViolation { index: registry.definitions[ordinal].name.clone(), value: key }
    } else {
        StoreError::Database(driver_msg)
    }
}

} // verus!
