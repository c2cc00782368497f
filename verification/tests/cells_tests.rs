use lattice::cells::{CellValue, ValueShape};
use lattice::notebook::CellOutput;

fn rec(fields: &[(&str, CellValue)]) -> Option<Vec<(String, CellValue)>> {
    Some(fields.iter().map(|(k, v)| (k.to_string(), v.clone())).collect())
}

#[test]
fn records_with_the_same_fields_make_a_table() {
    let items = vec![
        rec(&[("name", CellValue::Str("Ann".to_string())), ("age", CellValue::Other("30".to_string()))]),
        rec(&[("age", CellValue::Null), ("name", CellValue::Str("Bob".to_string()))]),
    ];
    match CellOutput::try_as_table(&items) {
        Some(CellOutput::Table { headers, rows }) => {
            assert_eq!(headers, vec!["age".to_string(), "name".to_string()]);
            assert_eq!(rows, vec![
                vec!["30".to_string(), "Ann".to_string()],
                vec![String::new(), "Bob".to_string()],
            ]);
        }
        other => panic!("expected a table, got {:?}", other),
    }
}

#[test]
fn other_lists_are_no_table() {
    assert!(CellOutput::try_as_table(&vec![]).is_none());
    let mixed = vec![rec(&[("a", CellValue::Null)]), None];
    assert!(CellOutput::try_as_table(&mixed).is_none());
    let different = vec![rec(&[("a", CellValue::Null)]), rec(&[("b", CellValue::Null)])];
    assert!(CellOutput::try_as_table(&different).is_none());
    let repeated = vec![rec(&[("a", CellValue::Null)]), rec(&[("a", CellValue::Null), ("a", CellValue::Null)])];
    assert!(CellOutput::try_as_table(&repeated).is_none());
}

#[test]
fn values_become_outputs() {
    assert!(matches!(CellOutput::from_value(ValueShape::Null), CellOutput::Empty));
    match CellOutput::from_value(ValueShape::Other("42".to_string())) {
        CellOutput::Text(t) => assert_eq!(t, "42"),
        other => panic!("expected text, got {:?}", other),
    }
    match CellOutput::from_value(ValueShape::List { items: vec![], shown: "[]".to_string() }) {
        CellOutput::Text(t) => assert_eq!(t, "[]"),
        other => panic!("expected text, got {:?}", other),
    }
    let items = vec![rec(&[("x", CellValue::Other("1".to_string()))])];
    assert!(matches!(
        CellOutput::from_value(ValueShape::List { items, shown: "[{x: 1}]".to_string() }),
        CellOutput::Table { .. }
    ));
    let items = vec![None];
    match CellOutput::from_value(ValueShape::List { items, shown: "[1]".to_string() }) {
        CellOutput::Text(t) => assert_eq!(t, "[1]"),
        other => panic!("expected text, got {:?}", other),
    }
}

#[test]
fn cells_show_strings_as_they_are() {
    assert_eq!(CellOutput::value_to_cell_string(&CellValue::Str("a b".to_string())), "a b");
    assert_eq!(CellOutput::value_to_cell_string(&CellValue::Null), "");
    assert_eq!(CellOutput::value_to_cell_string(&CellValue::Other("[1, 2]".to_string())), "[1, 2]");
}
