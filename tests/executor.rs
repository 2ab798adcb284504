use ddql_executor::attr_value::{AttrValue, AttributeValue};
use ddql_executor::executor::{
    ExecuteError, Executor, Field, FieldExpression, Pending, Query, SelectStatement, StoreError, StoreReply,
    StoreRequest, Step,
};
use ddql_executor::result::{ExecuteResult, ExecuteResultItem};
use ddql_executor::schema::{AttributeDefinition, KeySchemaElement, TableDescription};

fn s(v: &str) -> AttributeValue {
    AttributeValue { s: Some(v.to_string()), ..AttributeValue::empty() }
}

fn users_desc() -> TableDescription {
    TableDescription {
        table_name: Some("Users".to_string()),
        attribute_definitions: Some(vec![AttributeDefinition {
            attribute_name: "id".to_string(),
            attribute_type: "S".to_string(),
        }]),
        key_schema: Some(vec![KeySchemaElement { attribute_name: "id".to_string(), key_type: "HASH".to_string() }]),
    }
}

fn select(fields: FieldExpression) -> Query {
    Query::Select(SelectStatement { table: "Users".to_string(), fields })
}

fn expect_call(step: Step) -> (StoreRequest, Pending) {
    match step {
        Step::Call(r, p) => (r, p),
        Step::Done(_) => panic!("expected a store call"),
    }
}

fn expect_done(step: Step) -> Result<ExecuteResult, ExecuteError> {
    match step {
        Step::Done(r) => r,
        Step::Call(..) => panic!("expected an outcome"),
    }
}

fn run_select_to_scan(ex: &mut Executor, q: Query) -> (StoreRequest, Pending) {
    let (req, pending) = expect_call(ex.execute(q));
    match req {
        StoreRequest::DescribeTable(t) => assert_eq!(t, "Users"),
        _ => panic!("expected a describe call"),
    }
    expect_call(ex.resume(pending, StoreReply::Table(Ok(Some(users_desc())))))
}

#[test]
fn full_scan_scenario() {
    let mut ex = Executor::new();
    let (req, pending) = run_select_to_scan(&mut ex, select(FieldExpression::AllFields));
    match req {
        StoreRequest::Scan(input) => {
            assert_eq!(input.table_name, "Users");
            assert!(input.attributes_to_get.is_none());
        },
        _ => panic!("expected a scan"),
    }
    let items = vec![
        vec![("id".to_string(), s("1")), ("name".to_string(), s("Ann"))],
        vec![("id".to_string(), s("2")), ("age".to_string(), s("30"))],
    ];
    let res = expect_done(ex.resume(pending, StoreReply::Items(Ok(Some(items))))).ok().unwrap();
    assert_eq!(res.table, "Users");
    let (headers, rows) = res.render();
    assert_eq!(headers, vec!["id".to_string(), "name".to_string(), "age".to_string()]);
    assert_eq!(rows, vec![
        vec!["1".to_string(), "Ann".to_string(), "--".to_string()],
        vec!["2".to_string(), "--".to_string(), "30".to_string()],
    ]);
}

#[test]
fn field_projection_scenario() {
    let mut ex = Executor::new();
    let fields = FieldExpression::Fields(vec![Field { name: "id".to_string() }]);
    let (req, pending) = run_select_to_scan(&mut ex, select(fields));
    match req {
        StoreRequest::Scan(input) => assert_eq!(input.attributes_to_get, Some(vec!["id".to_string()])),
        _ => panic!("expected a scan"),
    }
    let items = vec![vec![("id".to_string(), s("1"))], vec![("id".to_string(), s("2"))]];
    let res = expect_done(ex.resume(pending, StoreReply::Items(Ok(Some(items))))).ok().unwrap();
    for item in res.items.iter() {
        assert_eq!(item.attrs.len(), 1);
        assert_eq!(item.attrs[0].0, "id");
    }
    let (headers, _) = res.render();
    assert_eq!(headers, vec!["id".to_string()]);
}

#[test]
fn show_tables_scenario() {
    let ex = Executor::new();
    let (req, pending) = expect_call(ex.execute(Query::ShowTables));
    assert!(matches!(req, StoreRequest::ListTables));
    let mut ex = ex;
    let names = vec!["Users".to_string(), "Orders".to_string()];
    let res = expect_done(ex.resume(pending, StoreReply::TableNames(Ok(Some(names))))).ok().unwrap();
    assert_eq!(res.table, "tables");
    assert_eq!(res.items.len(), 2);
    assert_eq!(res.items[0].attrs.len(), 1);
    assert_eq!(res.items[0].attrs[0].0, "name");
    assert_eq!(res.items[0].attrs[0].1.to_text(), "Users");
    assert_eq!(res.items[1].attrs[0].1.to_text(), "Orders");
}

#[test]
fn schema_is_cached_after_first_resolution() {
    let mut ex = Executor::new();
    assert!(ex.load_table_desc("Users").is_none());
    let _ = run_select_to_scan(&mut ex, select(FieldExpression::AllFields));
    let first = ex.load_table_desc("Users").unwrap();
    let (req, _) = expect_call(ex.execute(select(FieldExpression::AllFields)));
    assert!(matches!(req, StoreRequest::Scan(_)));
    let second = ex.load_table_desc("Users").unwrap();
    assert_eq!(first.key_schema.hash.name, second.key_schema.hash.name);
    assert_eq!(first.key_schema.hash.attr_type, second.key_schema.hash.attr_type);
    assert!(second.key_schema.range.is_none());
}

#[test]
fn unresolvable_schema_is_not_cached() {
    let mut ex = Executor::new();
    let (_, pending) = expect_call(ex.execute(select(FieldExpression::AllFields)));
    let desc = TableDescription {
        table_name: Some("Users".to_string()),
        attribute_definitions: Some(vec![AttributeDefinition {
            attribute_name: "id".to_string(),
            attribute_type: "BOOL".to_string(),
        }]),
        key_schema: Some(vec![KeySchemaElement { attribute_name: "id".to_string(), key_type: "HASH".to_string() }]),
    };
    let r = expect_done(ex.resume(pending, StoreReply::Table(Ok(Some(desc)))));
    assert!(matches!(r, Err(ExecuteError::SchemaResolutionFailed)));
    assert!(ex.load_table_desc("Users").is_none());
    let (req, _) = expect_call(ex.execute(select(FieldExpression::AllFields)));
    assert!(matches!(req, StoreRequest::DescribeTable(_)));
}

#[test]
fn missing_table_metadata_fails() {
    let mut ex = Executor::new();
    let r = ex.store_table_desc("Users".to_string(), Ok(None));
    assert!(matches!(r, Err(ExecuteError::SchemaResolutionFailed)));
}

#[test]
fn store_errors_are_passed_on() {
    let mut ex = Executor::new();
    let e = || StoreError { message: "down".to_string() };
    let r = ex.store_table_desc("Users".to_string(), Err(e()));
    assert!(matches!(r, Err(ExecuteError::DynamoDBDescribeTableError(m)) if m.message == "down"));
    let r = Executor::execute_scan("Users".to_string(), Err(e()));
    assert!(matches!(r, Err(ExecuteError::DynamoDBScanError(_))));
    let r = Executor::execute_show_tables(Err(e()));
    assert!(matches!(r, Err(ExecuteError::DynamoDBListTableError(_))));
}

#[test]
fn unsupported_statement_is_invalid() {
    let ex = Executor::new();
    assert!(matches!(ex.execute(Query::Unsupported), Step::Done(Err(ExecuteError::InvalidQuery))));
}

#[test]
fn mismatched_reply_is_invalid() {
    let mut ex = Executor::new();
    let r = ex.resume(Pending::ShowTables, StoreReply::Items(Ok(None)));
    assert!(matches!(r, Step::Done(Err(ExecuteError::InvalidQuery))));
}

#[test]
fn empty_scan_gives_empty_table() {
    let res = Executor::execute_scan("Users".to_string(), Ok(None)).ok().unwrap();
    assert_eq!(res.items.len(), 0);
    let (headers, rows) = res.render();
    assert!(headers.is_empty() && rows.is_empty());
}

#[test]
fn missing_cells_show_placeholder() {
    let mut res = ExecuteResult::new("t".to_string());
    res.add_attrs_row(vec![("a".to_string(), s("1")), ("b".to_string(), s("2"))]);
    res.add_attrs_row(vec![("b".to_string(), s("3")), ("c".to_string(), s("4"))]);
    let (headers, rows) = res.render();
    assert_eq!(headers, vec!["a".to_string(), "b".to_string(), "c".to_string()]);
    assert_eq!(rows[0][2], "--");
    assert_eq!(rows[1][0], "--");
    assert_eq!(rows[1][1], "3");
}

#[test]
fn headers_grow_with_rows() {
    let mut res = ExecuteResult::new("t".to_string());
    res.add_attrs_row(vec![("x".to_string(), s("1"))]);
    let (h1, _) = res.render();
    let mut item = ExecuteResultItem::new();
    item.add_key_value("y".to_string(), AttrValue::from_string("2".to_string()));
    res.add_item(item);
    let (h2, rows) = res.render();
    for h in h1.iter() {
        assert!(h2.contains(h));
    }
    assert_eq!(h2.len(), 2);
    assert_eq!(rows[0][1], "--");
}

#[test]
fn add_key_value_replaces() {
    let mut item = ExecuteResultItem::new();
    item.add_key_value("k".to_string(), AttrValue::from_string("1".to_string()));
    item.add_key_value("k".to_string(), AttrValue::from_number("2".to_string()));
    assert_eq!(item.attrs.len(), 1);
    assert_eq!(item.attrs[0].1.to_text(), "2");
}
