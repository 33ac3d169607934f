use structopt_toml::args::validate_shape;
use structopt_toml::entry::from_iter_with_toml;
use structopt_toml::merge::{clone_config, merge};
use structopt_toml::{ConfigStruct, Error, ExplicitSet, Field, FieldValue};

fn int_field(name: &str, default: i64) -> Field {
    Field { name: name.to_string(), key_override: None, value: FieldValue::Int(default) }
}

fn int_field_named(name: &str, key: &str, default: i64) -> Field {
    Field {
        name: name.to_string(),
        key_override: Some(key.to_string()),
        value: FieldValue::Int(default),
    }
}

fn opt_int_field(name: &str) -> Field {
    Field { name: name.to_string(), key_override: None, value: FieldValue::OptInt(None) }
}

fn list_field(name: &str) -> Field {
    Field { name: name.to_string(), key_override: None, value: FieldValue::IntList(Vec::new()) }
}

fn flag_field(name: &str) -> Field {
    Field { name: name.to_string(), key_override: None, value: FieldValue::Flag(false) }
}

fn test_shape() -> ConfigStruct {
    ConfigStruct {
        fields: vec![
            int_field("a0", 0),
            int_field("a1", 1),
            int_field("a2", 2),
            int_field("a3", 3),
            int_field_named("b0", "B0", 10),
            int_field_named("b1", "B1", 11),
            int_field_named("b2", "B2", 12),
            int_field_named("b3", "B3", 13),
            opt_int_field("c0"),
            opt_int_field("c1"),
            opt_int_field("c2"),
            opt_int_field("c3"),
            list_field("d0"),
            list_field("d1"),
            list_field("d2"),
            list_field("d3"),
            flag_field("quiet"),
        ],
    }
}

fn tokens(words: &[&str]) -> Vec<String> {
    words.iter().map(|w| w.to_string()).collect()
}

fn value_of<'a>(c: &'a ConfigStruct, name: &str) -> &'a FieldValue {
    &c.fields.iter().find(|f| f.name == name).expect("no such field").value
}

#[test]
fn test_test() {
    let toml_str = r#"
        a2 = 102
        a3 = 103
        b2 = 112
        b3 = 113
        c2 = 122
        c3 = 123
        d2 = [132]
        d3 = [133]
    "#;
    let args = tokens(&[
        "test", "--a1", "201", "--a3", "203", "--b1", "211", "--b3", "213", "--c1", "221", "--c3",
        "223", "--d1", "231", "--d3", "233",
    ]);
    let shape = test_shape();
    assert!(validate_shape(&shape));
    let test = from_iter_with_toml(&shape, toml_str, &args).unwrap();
    assert_eq!(*value_of(&test, "a0"), FieldValue::Int(0));
    assert_eq!(*value_of(&test, "a1"), FieldValue::Int(201));
    assert_eq!(*value_of(&test, "a2"), FieldValue::Int(102));
    assert_eq!(*value_of(&test, "a3"), FieldValue::Int(203));
    assert_eq!(*value_of(&test, "b0"), FieldValue::Int(10));
    assert_eq!(*value_of(&test, "b1"), FieldValue::Int(211));
    assert_eq!(*value_of(&test, "b2"), FieldValue::Int(112));
    assert_eq!(*value_of(&test, "b3"), FieldValue::Int(213));
    assert_eq!(*value_of(&test, "c0"), FieldValue::OptInt(None));
    assert_eq!(*value_of(&test, "c1"), FieldValue::OptInt(Some(221)));
    assert_eq!(*value_of(&test, "c2"), FieldValue::OptInt(Some(122)));
    assert_eq!(*value_of(&test, "c3"), FieldValue::OptInt(Some(223)));
    assert_eq!(*value_of(&test, "d0"), FieldValue::IntList(vec![]));
    assert_eq!(*value_of(&test, "d1"), FieldValue::IntList(vec![231]));
    assert_eq!(*value_of(&test, "d2"), FieldValue::IntList(vec![132]));
    assert_eq!(*value_of(&test, "d3"), FieldValue::IntList(vec![233]));
}

#[test]
fn test_args_with_other_attributes() {
    let toml_str = r#"
    bar = "one"
    "#;
    let shape = ConfigStruct {
        fields: vec![Field {
            name: "val".to_string(),
            key_override: Some("bar".to_string()),
            value: FieldValue::OptText(None),
        }],
    };
    assert!(validate_shape(&shape));
    let test = from_iter_with_toml(&shape, toml_str, &tokens(&["test"]));
    match test {
        Err(_) => assert!(false),
        _ => assert!(true),
    }
}

fn outer_shape() -> ConfigStruct {
    ConfigStruct {
        fields: vec![
            int_field("one", 1),
            Field {
                name: "two".to_string(),
                key_override: None,
                value: FieldValue::Sub(ConfigStruct {
                    fields: vec![int_field("three", 1), int_field("four", 1)],
                }),
            },
        ],
    }
}

#[test]
fn test_flatten_args() {
    let toml_str = r#"
        one = 2
        two.three = 2
        two.four = 2
    "#;
    let args = tokens(&["test", "--four", "3"]);
    let shape = outer_shape();
    assert!(validate_shape(&shape));
    let test = from_iter_with_toml(&shape, toml_str, &args).unwrap();
    assert_eq!(*value_of(&test, "one"), FieldValue::Int(2));
    let two = match value_of(&test, "two") {
        FieldValue::Sub(c) => c,
        _ => panic!("two is not a substructure"),
    };
    assert_eq!(*value_of(two, "three"), FieldValue::Int(2));
    assert_eq!(*value_of(two, "four"), FieldValue::Int(3));
}

#[test]
fn test_toml_failed() {
    let toml_str = r#"
        a2 = "aaa"
        a3 = [102]
        c3 = 123
        d2 = 132
    "#;
    let args = tokens(&["test"]);
    let shape = test_shape();
    let test = from_iter_with_toml(&shape, toml_str, &args);
    match test {
        Err(_) => assert!(true),
        _ => assert!(false),
    }
}

#[test]
fn test_toml_args() {
    let toml_str = r#"
        a2 = 102
        a3 = 103
        b2 = 112
        b3 = 113
        c2 = 122
        c3 = 123
        d2 = [132]
        d3 = [133]
    "#;
    let shape = test_shape();
    let test = from_iter_with_toml(&shape, toml_str, &tokens(&["test"])).unwrap();
    assert_eq!(*value_of(&test, "a0"), FieldValue::Int(0));
    assert_eq!(*value_of(&test, "a1"), FieldValue::Int(1));
    assert_eq!(*value_of(&test, "a2"), FieldValue::Int(102));
    assert_eq!(*value_of(&test, "a3"), FieldValue::Int(103));
    assert_eq!(*value_of(&test, "b0"), FieldValue::Int(10));
    assert_eq!(*value_of(&test, "b1"), FieldValue::Int(11));
    assert_eq!(*value_of(&test, "b2"), FieldValue::Int(112));
    assert_eq!(*value_of(&test, "b3"), FieldValue::Int(113));
    assert_eq!(*value_of(&test, "c0"), FieldValue::OptInt(None));
    assert_eq!(*value_of(&test, "c1"), FieldValue::OptInt(None));
    assert_eq!(*value_of(&test, "c2"), FieldValue::OptInt(Some(122)));
    assert_eq!(*value_of(&test, "c3"), FieldValue::OptInt(Some(123)));
    assert_eq!(*value_of(&test, "d0"), FieldValue::IntList(vec![]));
    assert_eq!(*value_of(&test, "d1"), FieldValue::IntList(vec![]));
    assert_eq!(*value_of(&test, "d2"), FieldValue::IntList(vec![132]));
    assert_eq!(*value_of(&test, "d3"), FieldValue::IntList(vec![133]));
}

#[test]
fn test_document_error_is_document() {
    let shape = test_shape();
    let bad_syntax = from_iter_with_toml(&shape, "a2 = = 3", &tokens(&["test"]));
    assert!(matches!(bad_syntax, Err(Error::Document(_))));
    let bad_type = from_iter_with_toml(&shape, "a2 = \"aaa\"", &tokens(&["test"]));
    assert!(matches!(bad_type, Err(Error::Document(_))));
}

#[test]
fn test_argument_error_is_argument() {
    let shape = test_shape();
    let bad_value = from_iter_with_toml(&shape, "", &tokens(&["test", "--a1", "abc"]));
    assert!(matches!(bad_value, Err(Error::Argument(_))));
    let unknown_flag = from_iter_with_toml(&shape, "", &tokens(&["test", "--zz", "1"]));
    assert!(matches!(unknown_flag, Err(Error::Argument(_))));
}

#[test]
fn test_explicit_default_still_wins() {
    // Typing the literal default on the command line still counts as
    // explicit: the document value is overridden by it.
    let shape = ConfigStruct { fields: vec![int_field("a", 1)] };
    let merged =
        from_iter_with_toml(&shape, "a = 5", &tokens(&["test", "--a", "1"])).unwrap();
    assert_eq!(*value_of(&merged, "a"), FieldValue::Int(1));
}

#[test]
fn test_key_override_resolves_by_override() {
    // The field is tracked under "B", not under its declared name "b";
    // supplying --b still records explicitness under "B".
    let shape = ConfigStruct { fields: vec![int_field_named("b", "B", 0)] };
    let merged = from_iter_with_toml(&shape, "b = 5", &tokens(&["test", "--b", "7"])).unwrap();
    assert_eq!(*value_of(&merged, "b"), FieldValue::Int(7));
    let unmerged = from_iter_with_toml(&shape, "b = 5", &tokens(&["test"])).unwrap();
    assert_eq!(*value_of(&unmerged, "b"), FieldValue::Int(5));
}

#[test]
fn test_flag_explicit() {
    let shape = ConfigStruct { fields: vec![flag_field("quiet"), int_field("a", 0)] };
    let merged = from_iter_with_toml(&shape, "", &tokens(&["test", "--quiet"])).unwrap();
    assert_eq!(*value_of(&merged, "quiet"), FieldValue::Flag(true));
    let unmerged = from_iter_with_toml(&shape, "", &tokens(&["test"])).unwrap();
    assert_eq!(*value_of(&unmerged, "quiet"), FieldValue::Flag(false));
}

#[test]
fn test_merge_is_deterministic() {
    // Merging depends only on its three inputs: repeating it on equal
    // inputs yields an equal instance.
    let from_doc = ConfigStruct { fields: vec![int_field("a", 5), int_field("b", 6)] };
    let from_args = ConfigStruct { fields: vec![int_field("a", 7), int_field("b", 8)] };
    let ex = ExplicitSet { keys: vec!["b".to_string()] };
    let first = merge(clone_config(&from_doc), clone_config(&from_args), &ex);
    let second = merge(from_doc, from_args, &ex);
    assert_eq!(first, second);
    assert_eq!(*value_of(&second, "a"), FieldValue::Int(5));
    assert_eq!(*value_of(&second, "b"), FieldValue::Int(8));
}

#[test]
fn test_validate_shape_rejects_collisions() {
    let duplicate = ConfigStruct { fields: vec![int_field("a", 0), int_field("a", 1)] };
    assert!(!validate_shape(&duplicate));
    // A key override colliding with another field's merge key is rejected too.
    let collide = ConfigStruct { fields: vec![int_field("a", 0), int_field_named("b", "a", 1)] };
    assert!(!validate_shape(&collide));
    let dash = ConfigStruct { fields: vec![int_field("-a", 0)] };
    assert!(!validate_shape(&dash));
    assert!(validate_shape(&test_shape()));
}

#[test]
fn test_parse_extremes_and_signs() {
    let shape = ConfigStruct { fields: vec![int_field("a", 0)] };
    let min = from_iter_with_toml(
        &shape,
        "",
        &tokens(&["test", "--a=-9223372036854775808"]),
    )
    .unwrap();
    assert_eq!(*value_of(&min, "a"), FieldValue::Int(i64::MIN));
    let max = from_iter_with_toml(&shape, "", &tokens(&["test", "--a", "9223372036854775807"]))
        .unwrap();
    assert_eq!(*value_of(&max, "a"), FieldValue::Int(i64::MAX));
    let plus = from_iter_with_toml(&shape, "", &tokens(&["test", "--a", "+17"])).unwrap();
    assert_eq!(*value_of(&plus, "a"), FieldValue::Int(17));
    let over = from_iter_with_toml(&shape, "", &tokens(&["test", "--a", "9223372036854775808"]));
    assert!(matches!(over, Err(Error::Argument(_))));
}

#[test]
fn test_list_collects_occurrences() {
    let shape = ConfigStruct { fields: vec![list_field("d")] };
    let merged = from_iter_with_toml(
        &shape,
        "",
        &tokens(&["test", "--d", "1", "--d", "2", "--d", "3"]),
    )
    .unwrap();
    assert_eq!(*value_of(&merged, "d"), FieldValue::IntList(vec![1, 2, 3]));
}

#[test]
fn test_unknown_document_keys_ignored() {
    let shape = ConfigStruct { fields: vec![int_field("a", 0)] };
    let merged = from_iter_with_toml(&shape, "zz = 9\na = 3", &tokens(&["test"])).unwrap();
    assert_eq!(*value_of(&merged, "a"), FieldValue::Int(3));
}
