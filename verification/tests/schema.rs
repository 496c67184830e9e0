//! Database schemas.

use plouf_rs::failure::Failure;
use plouf_rs::schema::{list_tables, parse_schema, table};

const FIXTURE: &str = r#"{
    "tables": [
        {"name": "companies", "columns": [{"name":"id","type":"bigint"},{"name":"name","type":"varchar"}]},
        {"name": "animals", "columns": [{"name":"id","type":"bigint"},{"name":"company_id","type":"bigint"}]}
    ],
    "foreignKeys": [
        {"from_table":"animals","from_columns":["company_id"],"to_table":"companies","to_columns":["id"]}
    ]
}"#;

#[test]
fn parses_tables_columns_and_fks() {
    let s = parse_schema(FIXTURE).unwrap();
    assert_eq!(s.tables.len(), 2);
    let companies = s.tables.iter().find(|t| t.name == "companies").unwrap();
    assert_eq!(companies.columns.len(), 2);
    assert_eq!(companies.columns[0].name, "id");
    assert_eq!(companies.columns[0].ty, "bigint");
    assert_eq!(s.fks.len(), 1);
    assert_eq!(s.fks[0].from_table, "animals");
    assert_eq!(s.fks[0].to_table, "companies");
    assert_eq!(s.fks[0].from_columns[0], "company_id");
}

#[test]
fn tolerates_missing_sections() {
    let s = parse_schema("{}").unwrap();
    assert!(s.tables.is_empty());
    assert!(s.fks.is_empty());
}

#[test]
fn rejects_invalid_json() {
    assert!(parse_schema("not json").is_err());
}

#[test]
fn tables_are_listed_in_order() {
    let s = parse_schema(FIXTURE).unwrap();
    assert_eq!(list_tables(&s), vec!["animals", "companies"]);
    assert!(list_tables(&parse_schema("{}").unwrap()).is_empty());
}

#[test]
fn a_table_shows_its_columns_and_foreign_keys() {
    let s = parse_schema(FIXTURE).unwrap();
    assert_eq!(
        table(&s, "companies").unwrap(),
        vec!["table companies", "  id: bigint", "  name: varchar", "referenced by:", "  animals.company_id -> id"]
    );
    assert_eq!(
        table(&s, "animals").unwrap(),
        vec!["table animals", "  id: bigint", "  company_id: bigint", "references:", "  company_id -> companies.id"]
    );
}

#[test]
fn an_unknown_table_fails() {
    let s = parse_schema(FIXTURE).unwrap();
    match table(&s, "no_such_table") {
        Err(Failure::NoTable(n)) => assert_eq!(n, "no_such_table"),
        other => panic!("{other:?}"),
    }
}
