use lattice::ir::{Class, Enum, FieldType, Function, IR};
use lattice::syntax::escapes::{parse_fstring_text, parse_string_content};
use lattice::text::utf8_len_of_prefix;

fn sample_ir() -> IR {
    IR {
        classes: vec![
            Class { name: "Person".to_string(), description: None, fields: vec![] },
            Class { name: "Person".to_string(), description: Some("second".to_string()), fields: vec![] },
        ],
        enums: vec![Enum { name: "Color".to_string(), description: None, values: vec!["Red".to_string()] }],
        functions: vec![Function {
            name: "greet".to_string(),
            inputs: vec![],
            output: FieldType::String,
            prompt_template: "Hi".to_string(),
            client: "gpt".to_string(),
        }],
    }
}

#[test]
fn lookups_find_the_first_definition_by_name() {
    let ir = sample_ir();
    assert!(ir.find_class("Person").unwrap().description.is_none());
    assert!(ir.find_class("Nobody").is_none());
    assert_eq!(ir.find_enum("Color").unwrap().values.len(), 1);
    assert!(ir.find_enum("Shade").is_none());
    assert_eq!(ir.find_function("greet").unwrap().client, "gpt");
    assert!(ir.find_function("wave").is_none());
}

#[test]
fn string_literals_lose_quotes_and_escapes() {
    assert_eq!(parse_string_content("\"a\\nb\\\"c\""), "a\nb\"c");
    assert_eq!(parse_string_content("\"\"\"raw \\t\"\"\""), "raw \t");
    assert_eq!(parse_string_content("\"price \\$5\""), "price $5");
}

#[test]
fn fstring_text_keeps_doubled_braces_once() {
    assert_eq!(parse_fstring_text("a {{b}} \\{c\\}"), "a {b} {c}");
    assert_eq!(parse_fstring_text("x\\ny"), "x\ny");
}

#[test]
fn encoded_prefix_lengths() {
    let v: Vec<char> = "a你b".chars().collect();
    assert_eq!(utf8_len_of_prefix(&v, 0), 0);
    assert_eq!(utf8_len_of_prefix(&v, 2), 4);
    assert_eq!(utf8_len_of_prefix(&v, 3), 5);
}
