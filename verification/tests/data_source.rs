use gloomy::data_source::{CellOrder, CellValue, DataSource, MapDataProvider, NumberCell, SortDirection, VecDataSource};

fn number(x: f64) -> CellValue {
    let bits = x.to_bits() as i64;
    let key = if bits < 0 { i64::MIN - bits } else { bits };
    CellValue::Number(NumberCell { key: Some(key), text: format!("{}", x) })
}

fn text(s: &str) -> CellValue {
    CellValue::Text(s.to_string())
}

#[test]
fn test_cell_value_ordering() {
    assert_eq!(CellValue::Integer(1).compare(&CellValue::Integer(2)), Some(CellOrder::Less));
    assert_eq!(number(1.5).compare(&number(2.5)), Some(CellOrder::Less));
    assert_eq!(text("a").compare(&text("b")), Some(CellOrder::Less));
    assert_eq!(
        CellValue::Boolean(false).compare(&CellValue::Boolean(true)),
        Some(CellOrder::Less)
    );
    assert_eq!(CellValue::Empty.compare(&CellValue::Integer(1)), Some(CellOrder::Less));
}

#[test]
fn test_vec_data_source() {
    let mut ds = VecDataSource::with_columns(vec!["Name".to_string(), "Age".to_string()]);
    ds.add_row(vec![text("Alice"), CellValue::Integer(30)]);
    ds.add_row(vec![text("Bob"), CellValue::Integer(25)]);
    assert_eq!(ds.row_count(), 2);
    assert_eq!(ds.column_count(), 2);
    assert_eq!(ds.cell_text(0, 0), "Alice");
    assert_eq!(ds.cell_text(1, 1), "25");
}

#[test]
fn mixed_types_compare_by_text() {
    assert_eq!(CellValue::Integer(10).compare(&text("9")), Some(CellOrder::Less));
    assert_eq!(CellValue::Boolean(true).compare(&text("true")), Some(CellOrder::Equal));
    assert_eq!(text("x").compare(&CellValue::Empty), Some(CellOrder::Greater));
}

#[test]
fn numbers_without_order_are_incomparable() {
    let nan = CellValue::Number(NumberCell { key: None, text: "NaN".to_string() });
    assert_eq!(nan.compare(&number(1.0)), None);
}

#[test]
fn integer_text_is_decimal() {
    assert_eq!(CellValue::Integer(-1234).to_text(), "-1234");
    assert_eq!(CellValue::Integer(0).to_text(), "0");
    assert_eq!(CellValue::Integer(i64::MIN).to_text(), "-9223372036854775808");
    assert_eq!(CellValue::Boolean(false).to_text(), "false");
    assert_eq!(CellValue::Empty.to_text(), "");
}

#[test]
fn new_transposes_and_pads_rows() {
    let ds = VecDataSource::new(
        vec!["a".to_string(), "b".to_string()],
        vec![vec![CellValue::Integer(1)], vec![CellValue::Integer(2), text("x"), text("dropped")]],
    );
    assert_eq!(ds.row_count(), 2);
    assert_eq!(ds.version(), 0);
    assert_eq!(ds.cell_text(0, 0), "1");
    assert!(matches!(ds.cell_value(0, 1), CellValue::Empty));
    assert_eq!(ds.cell_text(1, 1), "x");
    assert!(matches!(ds.cell_value(5, 0), CellValue::Empty));
    assert_eq!(ds.cell_text(0, 9), "");
    assert_eq!(ds.columns().len(), 2);
}

#[test]
fn edits_bump_the_version() {
    let mut ds = VecDataSource::with_columns(vec!["n".to_string()]);
    ds.add_row(vec![CellValue::Integer(1)]);
    assert_eq!(ds.version(), 1);
    assert!(ds.set_cell(0, 0, CellValue::Integer(7)));
    assert_eq!(ds.cell_text(0, 0), "7");
    assert_eq!(ds.version(), 2);
    assert!(!ds.set_cell(3, 0, CellValue::Integer(9)));
    assert_eq!(ds.version(), 2);
    assert_eq!(ds.add_row_default(), Some(1));
    assert_eq!(ds.row_count(), 2);
    assert!(ds.delete_row(0));
    assert_eq!(ds.row_count(), 1);
    assert!(matches!(ds.cell_value(0, 0), CellValue::Empty));
    assert!(!ds.delete_row(4));
    assert_eq!(ds.version(), 4);
}

#[test]
fn sort_orders_rows_and_keeps_them_whole() {
    let mut ds = VecDataSource::with_columns(vec!["name".to_string(), "age".to_string()]);
    ds.add_row(vec![text("Carol"), CellValue::Integer(41)]);
    ds.add_row(vec![text("Alice"), CellValue::Integer(30)]);
    ds.add_row(vec![text("Bob"), CellValue::Integer(25)]);
    ds.sort(1, SortDirection::Ascending);
    assert_eq!(ds.cell_text(0, 0), "Bob");
    assert_eq!(ds.cell_text(1, 0), "Alice");
    assert_eq!(ds.cell_text(2, 0), "Carol");
    ds.sort(0, SortDirection::Descending);
    assert_eq!(ds.cell_text(0, 0), "Carol");
    assert_eq!(ds.cell_text(0, 1), "41");
    assert_eq!(ds.cell_text(2, 0), "Alice");
    assert_eq!(ds.version(), 5);
    ds.sort(7, SortDirection::Ascending);
    assert_eq!(ds.version(), 5);
}

#[test]
fn sort_is_stable() {
    let mut ds = VecDataSource::with_columns(vec!["k".to_string(), "v".to_string()]);
    ds.add_row(vec![CellValue::Integer(2), text("first")]);
    ds.add_row(vec![CellValue::Integer(1), text("second")]);
    ds.add_row(vec![CellValue::Integer(2), text("third")]);
    ds.add_row(vec![CellValue::Integer(1), text("fourth")]);
    ds.sort(0, SortDirection::Ascending);
    let order: Vec<String> = (0..4).map(|r| ds.cell_text(r, 1)).collect();
    assert_eq!(order, vec!["second", "fourth", "first", "third"]);
    ds.sort(0, SortDirection::Descending);
    let order: Vec<String> = (0..4).map(|r| ds.cell_text(r, 1)).collect();
    assert_eq!(order, vec!["first", "third", "second", "fourth"]);
}

#[test]
fn comparing_the_other_way_reverses() {
    let cells = vec![text("b"), CellValue::Integer(3), CellValue::Boolean(true), CellValue::Empty, number(0.5)];
    for a in &cells {
        for b in &cells {
            let there = a.compare(b);
            let back = b.compare(a);
            let reversed = there.map(|o| match o {
                CellOrder::Less => CellOrder::Greater,
                CellOrder::Equal => CellOrder::Equal,
                CellOrder::Greater => CellOrder::Less,
            });
            assert_eq!(back, reversed);
        }
    }
}

#[test]
fn deleting_the_added_row_restores_the_table() {
    let mut ds = VecDataSource::with_columns(vec!["a".to_string(), "b".to_string()]);
    ds.add_row(vec![CellValue::Integer(1), text("x")]);
    ds.add_row(vec![CellValue::Integer(2)]);
    assert!(ds.delete_row(1));
    assert_eq!(ds.row_count(), 1);
    assert_eq!(ds.cell_text(0, 0), "1");
    assert_eq!(ds.cell_text(0, 1), "x");
}

fn describe<S: DataSource>(s: &S) -> (usize, usize, u64, String) {
    (s.row_count(), s.column_count(), s.version(), s.cell_text(0, 0))
}

#[test]
fn table_works_through_the_data_source_trait() {
    let mut ds = VecDataSource::with_columns(vec!["n".to_string()]);
    assert_eq!(DataSource::add_row_default(&mut ds), Some(0));
    assert!(DataSource::set_cell(&mut ds, 0, 0, CellValue::Integer(4)));
    assert!(!DataSource::set_cell(&mut ds, 3, 0, CellValue::Integer(4)));
    DataSource::add_row_default(&mut ds);
    DataSource::set_cell(&mut ds, 1, 0, CellValue::Integer(1));
    DataSource::sort(&mut ds, 0, SortDirection::Ascending);
    assert_eq!(describe(&ds), (2, 1, 5, "1".to_string()));
    assert!(matches!(DataSource::cell_value(&ds, 1, 0), CellValue::Integer(4)));
    assert!(DataSource::delete_row(&mut ds, 0));
    assert_eq!(describe(&ds), (1, 1, 6, "4".to_string()));
}

#[test]
fn map_data_provider_register_and_get() {
    let mut provider: MapDataProvider<VecDataSource> = MapDataProvider::new();
    let mut users = VecDataSource::with_columns(vec!["Name".to_string()]);
    users.add_row(vec![CellValue::Text("Alice".to_string())]);
    provider.register("users".to_string(), users);
    provider.register("empty".to_string(), VecDataSource::with_columns(vec![]));
    assert_eq!(provider.get_source("users").unwrap().row_count(), 1);
    assert_eq!(provider.get_source("empty").unwrap().column_count(), 0);
    assert!(provider.get_source("missing").is_none());
}

#[test]
fn map_data_provider_register_replaces() {
    let mut provider: MapDataProvider<u32> = MapDataProvider::default();
    provider.register("a".to_string(), 1);
    provider.register("b".to_string(), 2);
    provider.register("a".to_string(), 3);
    assert_eq!(provider.get_source("a"), Some(&3));
    assert_eq!(provider.get_source("b"), Some(&2));
}

#[test]
fn map_data_provider_get_source_mut_changes_in_place() {
    let mut provider: MapDataProvider<VecDataSource> = MapDataProvider::new();
    provider.register("t".to_string(), VecDataSource::with_columns(vec!["X".to_string()]));
    provider.get_source_mut("t").unwrap().add_row(vec![CellValue::Integer(5)]);
    assert_eq!(provider.get_source("t").unwrap().row_count(), 1);
    assert!(provider.get_source_mut("u").is_none());
}
