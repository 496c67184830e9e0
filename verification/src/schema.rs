//! DB-schema queries over the JSON that `php artisan schema:svg --format=json`
//! emits (`{tables:[{name,columns:[{name,type}]}], foreignKeys:[...]}`). This is
//! the live schema Laravel introspects, so table-structure questions are answered
//! without re-parsing migrations.

use serde_json::Value;
use vstd::prelude::*;

use crate::failure::{Failure, FailureView};
use crate::json;
use crate::json::JsonView;
use crate::query;
use crate::reading;
use crate::seqs;
use crate::sorting;
use crate::text;
use crate::text::{chars_of, join2, join3};

verus! {

broadcast use crate::seqs::group_text;

/// A column of a table.
#[derive(Debug)]
pub struct Column {
    pub name: String,
    pub ty: String,
}

/// What a [`Column`] says.
pub struct ColumnView {
    pub name: Seq<char>,
    pub ty: Seq<char>,
}

impl View for Column {
    type V = ColumnView;

    open spec fn view(&self) -> ColumnView {
        ColumnView { name: self.name@, ty: self.ty@ }
    }
}

/// A table.
#[derive(Debug)]
pub struct Table {
    pub name: String,
    pub columns: Vec<Column>,
}

/// What a [`Table`] says.
pub struct TableView {
    pub name: Seq<char>,
    pub columns: Seq<ColumnView>,
}

impl View for Table {
    type V = TableView;

    open spec fn view(&self) -> TableView {
        TableView { name: self.name@, columns: seqs::views(self.columns@) }
    }
}

/// A foreign key.
#[derive(Debug)]
pub struct ForeignKey {
    pub from_table: String,
    pub from_columns: Vec<String>,
    pub to_table: String,
    pub to_columns: Vec<String>,
}

/// What a [`ForeignKey`] says.
pub struct ForeignKeyView {
    pub from_table: Seq<char>,
    pub from_columns: Seq<Seq<char>>,
    pub to_table: Seq<char>,
    pub to_columns: Seq<Seq<char>>,
}

impl View for ForeignKey {
    type V = ForeignKeyView;

    open spec fn view(&self) -> ForeignKeyView {
        ForeignKeyView {
            from_table: self.from_table@,
            from_columns: seqs::views(self.from_columns@),
            to_table: self.to_table@,
            to_columns: seqs::views(self.to_columns@),
        }
    }
}

/// The loaded schema.
#[derive(Debug)]
pub struct Schema {
    pub tables: Vec<Table>,
    pub fks: Vec<ForeignKey>,
}

/// What a [`Schema`] says.
pub struct SchemaView {
    pub tables: Seq<TableView>,
    pub fks: Seq<ForeignKeyView>,
}

impl View for Schema {
    type V = SchemaView;

    open spec fn view(&self) -> SchemaView {
        SchemaView { tables: seqs::views(self.tables@), fks: seqs::views(self.fks@) }
    }
}

// ---------------------------------------------------------------------------
// Reading the schema

pub open spec fn string_items() -> spec_fn(JsonView) -> Seq<Seq<char>> {
    |j: JsonView| seqs::opt_seq(j.text())
}

/// The strings of an array.
pub open spec fn strings(j: JsonView) -> Seq<Seq<char>> {
    seqs::each(query::items_of(j), string_items())
}

/// The column that a JSON object describes: it has a name and a type.
pub open spec fn column_of(j: JsonView) -> Option<ColumnView> {
    match (j.at("name"@).text(), j.at("type"@).text()) {
        (Some(name), Some(ty)) => Some(ColumnView { name, ty }),
        _ => None,
    }
}

pub open spec fn column_items() -> spec_fn(JsonView) -> Seq<ColumnView> {
    |j: JsonView| seqs::opt_seq(column_of(j))
}

/// The table that a JSON object describes: it has a name and a list of columns.
pub open spec fn table_of(j: JsonView) -> Option<TableView> {
    match (j.at("name"@).text(), j.at("columns"@).items()) {
        (Some(name), Some(columns)) => Some(
            TableView { name, columns: seqs::each(columns, column_items()) },
        ),
        _ => None,
    }
}

pub open spec fn table_items() -> spec_fn(JsonView) -> Seq<TableView> {
    |j: JsonView| seqs::opt_seq(table_of(j))
}

/// The foreign key that a JSON object describes: it has two tables.
pub open spec fn key_of(j: JsonView) -> Option<ForeignKeyView> {
    match (j.at("from_table"@).text(), j.at("to_table"@).text()) {
        (Some(from_table), Some(to_table)) => Some(
            ForeignKeyView {
                from_table,
                from_columns: strings(j.at("from_columns"@)),
                to_table,
                to_columns: strings(j.at("to_columns"@)),
            },
        ),
        _ => None,
    }
}

pub open spec fn key_items() -> spec_fn(JsonView) -> Seq<ForeignKeyView> {
    |j: JsonView| seqs::opt_seq(key_of(j))
}

/// The schema that a JSON value describes; what is no table or no foreign key is
/// left out.
pub open spec fn schema_of(j: JsonView) -> SchemaView {
    SchemaView {
        tables: seqs::each(query::items_of(j.at("tables"@)), table_items()),
        fks: seqs::each(query::items_of(j.at("foreignKeys"@)), key_items()),
    }
}

fn str_array(v: &Value) -> (r: Vec<String>)
    ensures
        seqs::views(r@) == strings(json::held(*v)),
{
    let mut out: Vec<String> = Vec::new();
    let items = match v.as_array() {
        Some(items) => items,
        None => {
            return out;
        },
    };
    let ghost all = query::items_of(json::held(*v));
    let mut k: usize = 0;
    while k < items.len()
        invariant
            k <= items@.len(),
            all == json::held_all(items@),
            seqs::views(out@) + seqs::each_from(all, k as int, string_items()) == seqs::each(
                all,
                string_items(),
            ),
        decreases items@.len() - k,
    {
        assert(all[k as int] == json::held(items@[k as int]));
        if let Some(s) = items[k].as_str() {
            out.push(s.to_string());
        }
        k += 1;
    }
    out
}

fn column_rec(v: &Value) -> (r: Option<Column>)
    ensures
        seqs::opt_view(r) == column_of(json::held(*v)),
{
    let name = json::field(v, "name").as_str()?;
    let ty = json::field(v, "type").as_str()?;
    Some(Column { name: name.to_string(), ty: ty.to_string() })
}

fn table_rec(v: &Value) -> (r: Option<Table>)
    ensures
        seqs::opt_view(r) == table_of(json::held(*v)),
{
    let name = json::field(v, "name").as_str()?;
    let items = json::field(v, "columns").as_array()?;
    let ghost all = json::held_all(items@);
    let mut columns: Vec<Column> = Vec::new();
    let mut k: usize = 0;
    while k < items.len()
        invariant
            k <= items@.len(),
            all == json::held_all(items@),
            seqs::views(columns@) + seqs::each_from(all, k as int, column_items()) == seqs::each(
                all,
                column_items(),
            ),
        decreases items@.len() - k,
    {
        assert(all[k as int] == json::held(items@[k as int]));
        if let Some(c) = column_rec(&items[k]) {
            columns.push(c);
        }
        k += 1;
    }
    Some(Table { name: name.to_string(), columns })
}

fn fk_rec(v: &Value) -> (r: Option<ForeignKey>)
    ensures
        seqs::opt_view(r) == key_of(json::held(*v)),
{
    let from_table = json::field(v, "from_table").as_str()?;
    let to_table = json::field(v, "to_table").as_str()?;
    Some(
        ForeignKey {
            from_table: from_table.to_string(),
            from_columns: str_array(json::field(v, "from_columns")),
            to_table: to_table.to_string(),
            to_columns: str_array(json::field(v, "to_columns")),
        },
    )
}

/// The schema that a parsed JSON value describes.
pub fn schema(v: &Value) -> (r: Schema)
    ensures
        r@ == schema_of(json::held(*v)),
{
    let mut tables: Vec<Table> = Vec::new();
    if let Some(items) = json::field(v, "tables").as_array() {
        let ghost all = json::held_all(items@);
        let mut k: usize = 0;
        while k < items.len()
            invariant
                k <= items@.len(),
                all == json::held_all(items@),
                seqs::views(tables@) + seqs::each_from(all, k as int, table_items()) == seqs::each(
                    all,
                    table_items(),
                ),
            decreases items@.len() - k,
        {
            assert(all[k as int] == json::held(items@[k as int]));
            if let Some(t) = table_rec(&items[k]) {
                tables.push(t);
            }
            k += 1;
        }
    }
    let mut fks: Vec<ForeignKey> = Vec::new();
    if let Some(items) = json::field(v, "foreignKeys").as_array() {
        let ghost all = json::held_all(items@);
        let mut k: usize = 0;
        while k < items.len()
            invariant
                k <= items@.len(),
                all == json::held_all(items@),
                seqs::views(fks@) + seqs::each_from(all, k as int, key_items()) == seqs::each(
                    all,
                    key_items(),
                ),
            decreases items@.len() - k,
        {
            assert(all[k as int] == json::held(items@[k as int]));
            if let Some(f) = fk_rec(&items[k]) {
                fks.push(f);
            }
            k += 1;
        }
    }
    Schema { tables, fks }
}

/// The schema that a text describes.
pub open spec fn loaded(text: Seq<char>) -> Result<SchemaView, FailureView> {
    match json::parsed(text) {
        Ok(j) => Ok(schema_of(j)),
        Err(m) => Err(FailureView::Json(m)),
    }
}

/// Reads a schema JSON.
pub fn parse_schema(text: &str) -> (r: Result<Schema, Failure>)
    ensures
        match r {
            Ok(s) => loaded(text@) == Ok::<SchemaView, FailureView>(s@),
            Err(e) => loaded(text@) == Err::<SchemaView, FailureView>(e@),
        },
{
    match json::parse(text) {
        Ok(v) => Ok(schema(&v)),
        Err(m) => Err(Failure::Json(m)),
    }
}

// ---------------------------------------------------------------------------
// Answers

/// The names of the tables.
pub open spec fn table_names(tables: Seq<TableView>) -> Seq<Seq<char>> {
    tables.map_values(|t: TableView| t.name)
}

/// List every table name (alphabetical).
pub fn list_tables(schema: &Schema) -> (r: Vec<String>)
    ensures
        seqs::views(r@) == sorting::arranged(
            table_names(schema@.tables),
            table_names(schema@.tables),
        ),
{
    let ghost want = table_names(schema@.tables);
    let mut names: Vec<String> = Vec::new();
    let mut keys: Vec<Vec<char>> = Vec::new();
    let mut k: usize = 0;
    while k < schema.tables.len()
        invariant
            k <= schema.tables@.len(),
            want == table_names(seqs::views(schema.tables@)),
            seqs::views(names@) == want.take(k as int),
            seqs::views(keys@) == want.take(k as int),
        decreases schema.tables@.len() - k,
    {
        assert(want[k as int] == schema.tables@[k as int]@.name);
        assert(want.take(k + 1) =~= want.take(k as int).push(want[k as int]));
        names.push(schema.tables[k].name.clone());
        keys.push(chars_of(&schema.tables[k].name));
        k += 1;
    }
    assert(want.take(k as int) =~= want);
    assert(seqs::views(names@).len() == seqs::views(keys@).len());
    sorting::arrange(&names, &keys)
}

pub open spec fn table_called(name: Seq<char>) -> spec_fn(TableView) -> Option<TableView> {
    |t: TableView|
        if t.name == name {
            Some(t)
        } else {
            None
        }
}

pub open spec fn column_line() -> spec_fn(ColumnView) -> Seq<Seq<char>> {
    |c: ColumnView| seq!["  "@ + c.name + (": "@ + c.ty)]
}

/// A line for each foreign key that leaves the table.
pub open spec fn outgoing(name: Seq<char>) -> spec_fn(ForeignKeyView) -> Seq<Seq<char>> {
    |f: ForeignKeyView|
        if f.from_table == name {
            seq![
                "  "@ + text::joined(f.from_columns, ","@) + (" -> "@ + f.to_table + ("."@
                    + text::joined(f.to_columns, ","@))),
            ]
        } else {
            Seq::empty()
        }
}

/// A line for each foreign key that leads to the table.
pub open spec fn incoming(name: Seq<char>) -> spec_fn(ForeignKeyView) -> Seq<Seq<char>> {
    |f: ForeignKeyView|
        if f.to_table == name {
            seq![
                "  "@ + f.from_table + ("."@ + text::joined(f.from_columns, ","@) + (" -> "@
                    + text::joined(f.to_columns, ","@))),
            ]
        } else {
            Seq::empty()
        }
}

/// The lines under their heading; nothing where there are none.
pub open spec fn headed(heading: Seq<char>, lines: Seq<Seq<char>>) -> Seq<Seq<char>> {
    if lines.len() == 0 {
        Seq::empty()
    } else {
        seq![heading] + lines
    }
}

/// What a schema says of one table: its columns, its outgoing foreign keys, and
/// who references it.
pub open spec fn described(s: SchemaView, name: Seq<char>) -> Result<Seq<Seq<char>>, FailureView> {
    match seqs::first_some(s.tables, table_called(name)) {
        Some(t) => Ok(
            seq!["table "@ + t.name] + (seqs::each(t.columns, column_line()) + (headed(
                "references:"@,
                seqs::each(s.fks, outgoing(name)),
            ) + headed("referenced by:"@, seqs::each(s.fks, incoming(name))))),
        ),
        None => Err(FailureView::NoTable(name)),
    }
}

fn column_lines(columns: &[Column]) -> (r: Vec<String>)
    ensures
        seqs::views(r@) == seqs::each(seqs::views(columns@), column_line()),
{
    let ghost all = seqs::views(columns@);
    let mut out: Vec<String> = Vec::new();
    let mut k: usize = 0;
    while k < columns.len()
        invariant
            k <= columns@.len(),
            all == seqs::views(columns@),
            seqs::views(out@) + seqs::each_from(all, k as int, column_line()) == seqs::each(
                all,
                column_line(),
            ),
        decreases columns@.len() - k,
    {
        assert(all[k as int] == columns@[k as int]@);
        let tail = join2(": ", &columns[k].ty);
        out.push(join3("  ", &columns[k].name, &tail));
        k += 1;
    }
    out
}

fn outgoing_lines(fks: &[ForeignKey], name: &str) -> (r: Vec<String>)
    ensures
        seqs::views(r@) == seqs::each(seqs::views(fks@), outgoing(name@)),
{
    let ghost all = seqs::views(fks@);
    let wanted = name.to_string();
    let mut out: Vec<String> = Vec::new();
    let mut k: usize = 0;
    while k < fks.len()
        invariant
            k <= fks@.len(),
            all == seqs::views(fks@),
            wanted@ == name@,
            seqs::views(out@) + seqs::each_from(all, k as int, outgoing(name@)) == seqs::each(
                all,
                outgoing(name@),
            ),
        decreases fks@.len() - k,
    {
        assert(all[k as int] == fks@[k as int]@);
        let f = &fks[k];
        if f.from_table == wanted {
            let tail = join2(".", &text::join_strings(&f.to_columns, ","));
            let tail = join3(" -> ", &f.to_table, &tail);
            out.push(join3("  ", &text::join_strings(&f.from_columns, ","), &tail));
        }
        k += 1;
    }
    out
}

fn incoming_lines(fks: &[ForeignKey], name: &str) -> (r: Vec<String>)
    ensures
        seqs::views(r@) == seqs::each(seqs::views(fks@), incoming(name@)),
{
    let ghost all = seqs::views(fks@);
    let wanted = name.to_string();
    let mut out: Vec<String> = Vec::new();
    let mut k: usize = 0;
    while k < fks.len()
        invariant
            k <= fks@.len(),
            all == seqs::views(fks@),
            wanted@ == name@,
            seqs::views(out@) + seqs::each_from(all, k as int, incoming(name@)) == seqs::each(
                all,
                incoming(name@),
            ),
        decreases fks@.len() - k,
    {
        assert(all[k as int] == fks@[k as int]@);
        let f = &fks[k];
        if f.to_table == wanted {
            let tail = join2(" -> ", &text::join_strings(&f.to_columns, ","));
            let tail = join3(".", &text::join_strings(&f.from_columns, ","), &tail);
            out.push(join3("  ", &f.from_table, &tail));
        }
        k += 1;
    }
    out
}

fn under(heading: &str, lines: Vec<String>) -> (r: Vec<String>)
    ensures
        seqs::views(r@) == headed(heading@, seqs::views(lines@)),
{
    let mut lines = lines;
    let mut out: Vec<String> = Vec::new();
    assert(seqs::views(lines@).len() == lines@.len());
    if lines.len() > 0 {
        out.push(heading.to_string());
        out.append(&mut lines);
    }
    out
}

/// One table's columns, its outgoing FKs, and who references it.
pub fn table(schema: &Schema, name: &str) -> (r: Result<Vec<String>, Failure>)
    ensures
        match described(schema@, name@) {
            Ok(lines) => r matches Ok(v) && seqs::views(v@) == lines,
            Err(e) => r matches Err(f) && f@ == e,
        },
{
    let ghost all = schema@.tables;
    let wanted = name.to_string();
    let mut k: usize = 0;
    while k < schema.tables.len()
        invariant
            k <= schema.tables@.len(),
            all == seqs::views(schema.tables@),
            wanted@ == name@,
            seqs::first_some(all, table_called(name@)) == seqs::first_from(
                all,
                k as int,
                table_called(name@),
            ),
        decreases schema.tables@.len() - k,
    {
        let t = &schema.tables[k];
        assert(all[k as int] == t@);
        if t.name == wanted {
            let mut out: Vec<String> = Vec::new();
            out.push(join2("table ", &t.name));
            let mut columns = column_lines(&t.columns);
            out.append(&mut columns);
            let mut leaving = under("references:", outgoing_lines(&schema.fks, name));
            out.append(&mut leaving);
            let mut coming = under("referenced by:", incoming_lines(&schema.fks, name));
            out.append(&mut coming);
            return Ok(out);
        }
        k += 1;
    }
    Err(Failure::NoTable(wanted))
}

proof fn lemma_table(tables: Seq<TableView>, k: int, i: int, name: Seq<char>)
    requires
        0 <= k <= i < tables.len(),
        tables[i].name == name,
        forall|j: int| 0 <= j < i ==> (#[trigger] tables[j]).name != name,
    ensures
        seqs::first_from(tables, k, table_called(name)) == Some(tables[i]),
    decreases i - k,
{
    if k < i {
        assert(tables[k].name != name);
        lemma_table(tables, k + 1, i, name);
    }
}

proof fn lemma_no_table(tables: Seq<TableView>, k: int, name: Seq<char>)
    requires
        0 <= k <= tables.len(),
        forall|j: int| 0 <= j < tables.len() ==> (#[trigger] tables[j]).name != name,
    ensures
        seqs::first_from(tables, k, table_called(name)) is None,
    decreases tables.len() - k,
{
    if k < tables.len() {
        assert(tables[k].name != name);
        lemma_no_table(tables, k + 1, name);
    }
}

/// The text of a table says each of its columns with its type, each key that leads
/// from it to another table, and each that leads from another table to it.
pub proof fn a_table_says_its_columns_and_keys(s: SchemaView, i: int)
    requires
        0 <= i < s.tables.len(),
        forall|j: int| 0 <= j < i ==> (#[trigger] s.tables[j]).name != s.tables[i].name,
    ensures
        described(s, s.tables[i].name) is Ok,
        ({
            let t = s.tables[i];
            let lines = described(s, t.name)->Ok_0;
            &&& lines.len() > 0 && lines[0] == "table "@ + t.name
            &&& forall|k: int|
                0 <= k < t.columns.len() ==> lines.contains(
                    "  "@ + (#[trigger] t.columns[k]).name + (": "@ + t.columns[k].ty),
                )
            &&& forall|k: int|
                0 <= k < s.fks.len() && (#[trigger] s.fks[k]).from_table == t.name ==> lines.contains(
                    "references:"@,
                ) && lines.contains(
                    "  "@ + text::joined(s.fks[k].from_columns, ","@) + (" -> "@ + s.fks[k].to_table + ("."@
                        + text::joined(s.fks[k].to_columns, ","@))),
                )
            &&& forall|k: int|
                0 <= k < s.fks.len() && (#[trigger] s.fks[k]).to_table == t.name ==> lines.contains(
                    "referenced by:"@,
                ) && lines.contains(
                    "  "@ + s.fks[k].from_table + ("."@ + text::joined(s.fks[k].from_columns, ","@) + (" -> "@
                        + text::joined(s.fks[k].to_columns, ","@))),
                )
        }),
{
    let t = s.tables[i];
    let name = t.name;
    lemma_table(s.tables, 0, i, name);
    let a = seqs::each(t.columns, column_line());
    let outs = seqs::each(s.fks, outgoing(name));
    let ins = seqs::each(s.fks, incoming(name));
    let b = headed("references:"@, outs);
    let c = headed("referenced by:"@, ins);
    let head = seq!["table "@ + name];
    let lines = head + (a + (b + c));
    assert(lines[0] == head[0]);
    assert forall|k: int| 0 <= k < t.columns.len() implies lines.contains(
        "  "@ + (#[trigger] t.columns[k]).name + (": "@ + t.columns[k].ty),
    ) by {
        let line = "  "@ + t.columns[k].name + (": "@ + t.columns[k].ty);
        assert(column_line()(t.columns[k])[0] == line);
        reading::lemma_given(t.columns, column_line(), t.columns[k], line);
        reading::lemma_behind(a, b + c, line);
        reading::lemma_behind(head, a + (b + c), line);
    }
    assert forall|k: int| 0 <= k < s.fks.len() && (#[trigger] s.fks[k]).from_table == name implies lines.contains(
        "references:"@,
    ) && lines.contains(
        "  "@ + text::joined(s.fks[k].from_columns, ","@) + (" -> "@ + s.fks[k].to_table + ("."@ + text::joined(
            s.fks[k].to_columns,
            ","@,
        ))),
    ) by {
        let line = "  "@ + text::joined(s.fks[k].from_columns, ","@) + (" -> "@ + s.fks[k].to_table + ("."@
            + text::joined(s.fks[k].to_columns, ","@)));
        assert(outgoing(name)(s.fks[k])[0] == line);
        reading::lemma_given(s.fks, outgoing(name), s.fks[k], line);
        assert(b[0] == "references:"@);
        reading::lemma_behind(seq!["references:"@], outs, line);
        reading::lemma_behind(b, c, line);
        reading::lemma_behind(b, c, "references:"@);
        reading::lemma_behind(a, b + c, line);
        reading::lemma_behind(a, b + c, "references:"@);
        reading::lemma_behind(head, a + (b + c), line);
        reading::lemma_behind(head, a + (b + c), "references:"@);
    }
    assert forall|k: int| 0 <= k < s.fks.len() && (#[trigger] s.fks[k]).to_table == name implies lines.contains(
        "referenced by:"@,
    ) && lines.contains(
        "  "@ + s.fks[k].from_table + ("."@ + text::joined(s.fks[k].from_columns, ","@) + (" -> "@ + text::joined(
            s.fks[k].to_columns,
            ","@,
        ))),
    ) by {
        let line = "  "@ + s.fks[k].from_table + ("."@ + text::joined(s.fks[k].from_columns, ","@) + (" -> "@
            + text::joined(s.fks[k].to_columns, ","@)));
        assert(incoming(name)(s.fks[k])[0] == line);
        reading::lemma_given(s.fks, incoming(name), s.fks[k], line);
        assert(c[0] == "referenced by:"@);
        reading::lemma_behind(seq!["referenced by:"@], ins, line);
        reading::lemma_behind(b, c, line);
        reading::lemma_behind(b, c, "referenced by:"@);
        reading::lemma_behind(a, b + c, line);
        reading::lemma_behind(a, b + c, "referenced by:"@);
        reading::lemma_behind(head, a + (b + c), line);
        reading::lemma_behind(head, a + (b + c), "referenced by:"@);
    }
}

/// A name that no table goes by is refused.
pub proof fn an_unknown_table_is_refused(s: SchemaView, name: Seq<char>)
    requires
        forall|j: int| 0 <= j < s.tables.len() ==> (#[trigger] s.tables[j]).name != name,
    ensures
        described(s, name) == Err::<Seq<Seq<char>>, FailureView>(FailureView::NoTable(name)),
{
    lemma_no_table(s.tables, 0, name);
}

} // verus!
