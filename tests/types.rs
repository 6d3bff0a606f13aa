use qdb_ast::types::{BinaryExpr, DataType, Decimal, FuncType, Kind, Util};

fn text(s: &str) -> DataType {
    DataType::Text(s.to_string())
}

#[test]
fn test_data_type_from_string() {
    assert_eq!(DataType::Null, DataType::from_string("NULL", "null").unwrap());
    assert_eq!(DataType::Bool(true), DataType::from_string("true", "bool").unwrap());
    assert_eq!(DataType::Int(32), DataType::from_string("32", "int").unwrap());
    assert_eq!(
        DataType::Real(Decimal { mantissa: 6401, scale: 2 }),
        DataType::from_string("64.01", "real").unwrap()
    );
    assert_eq!(
        DataType::Real(Decimal { mantissa: 320001, scale: 4 }),
        DataType::from_string("32.0001", "real").unwrap()
    );
    assert_eq!(text("my test text"), DataType::from_string("my test text", "text").unwrap());
    assert_eq!(None, DataType::from_string("tru", "bool"));
}

#[test]
fn test_is_single_word() {
    assert_eq!(true, Util::is_single_word("myvarexample".to_string()));
    assert_eq!(true, Util::is_single_word("myvar23varmy".to_string()));
    assert_eq!(true, Util::is_single_word("m".to_string()));
    assert_eq!(true, Util::is_single_word("  myvar23varmy".to_string()));

    assert_eq!(false, Util::is_single_word("5".to_string()));
    assert_eq!(false, Util::is_single_word("myvar exa23mple text".to_string()));
    assert_eq!(false, Util::is_single_word("2123example".to_string()));
}

#[test]
fn test_identify_type() {
    assert_eq!("null", Util::identify_type(&"null".to_string()));
    assert_eq!("text", Util::identify_type(&"'my string text'".to_string()));
    assert_eq!("int", Util::identify_type(&"28".to_string()));
    assert_eq!("symbol", Util::identify_type(&"my_var".to_string()));
    assert_eq!("real", Util::identify_type(&"32.0".to_string()));
}

#[test]
fn test_binary_expr_compare() {
    let cmp = |l: DataType, r: DataType, op: &str| BinaryExpr::new(l, r, op.to_string()).compare();
    assert_eq!(Some(true), cmp(text("my text"), text("my text"), "=="));
    assert_eq!(Some(true), cmp(text("my text double"), text("my text"), ">="));
    assert_eq!(Some(true), cmp(text("my text"), text("my text double"), "<="));
    let real_32 = DataType::Real(Decimal { mantissa: 320, scale: 1 });
    assert_eq!(Some(true), cmp(DataType::Int(32), real_32.clone(), "!="));
    assert_eq!(Some(true), cmp(DataType::Null, DataType::Null, "=="));
    assert_eq!(Some(false), cmp(DataType::Bool(true), DataType::Null, "=="));
    assert_eq!(Some(false), cmp(DataType::Int(32), real_32, "=="));
}

#[test]
fn digits_infer_int() {
    for t in ["0", "7", "0123", "9223372036854775807", ""] {
        assert_eq!(Kind::Int, Util::infer_kind(t));
    }
}

#[test]
fn one_point_infers_real() {
    for t in ["3.14", ".5", "7.", "0.0"] {
        assert_eq!(Kind::Real, Util::infer_kind(t));
    }
    assert_eq!(Kind::Symbol, Util::infer_kind("1.2.3"));
    assert_eq!(Kind::Bool, Util::infer_kind("false"));
    assert_eq!(Kind::Symbol, Util::infer_kind("True"));
    assert_eq!(Kind::Symbol, Util::infer_kind("'"));
}

#[test]
fn quoted_infers_text_payload() {
    for s in ["abc", "", "a b", "12", "null"] {
        let q = format!("'{}'", s);
        assert_eq!(Kind::Text, Util::infer_kind(&q));
        assert_eq!(Some(text(s)), DataType::from_inferred(&q));
    }
}

#[test]
fn int_round_trip() {
    for v in ["0", "42", "-7", "9223372036854775807", "-9223372036854775808"] {
        match DataType::from_string(v, "int") {
            Some(DataType::Int(n)) => assert_eq!(v, n.to_string()),
            other => panic!("unexpected {:?}", other),
        }
    }
    assert_eq!(None, DataType::from_string("9223372036854775808", "int"));
    assert_eq!(None, DataType::from_string("-9223372036854775809", "int"));
    assert_eq!(Some(DataType::Int(5)), DataType::from_string("+005", "int"));
    assert_eq!(None, DataType::from_string("abc", "int"));
    assert_eq!(None, DataType::from_string("", "int"));
    assert_eq!(None, DataType::from_string("-", "int"));
}

#[test]
fn real_literals() {
    let d = |mantissa: i64, scale: u32| Some(DataType::Real(Decimal { mantissa, scale }));
    assert_eq!(d(-25, 1), DataType::from_string("-2.5", "real"));
    assert_eq!(d(7, 0), DataType::from_string("7", "real"));
    assert_eq!(d(5, 1), DataType::from_string(".5", "real"));
    assert_eq!(None, DataType::from_string(".", "real"));
    assert_eq!(None, DataType::from_string("1.2.3", "real"));
    assert_eq!(None, DataType::from_string("1e5", "real"));
    assert_eq!(None, DataType::from_string("0.1234567890123456789", "real"));
    assert_eq!(d(123456789012345678, 18), DataType::from_string("0.123456789012345678", "real"));
}

#[test]
fn annotation_ignores_case() {
    assert_eq!(Some(DataType::Int(1)), DataType::from_string("1", "INT"));
    assert_eq!(Some(DataType::Bool(false)), DataType::from_string("False", "Bool"));
    assert_eq!(Some(text("hi")), DataType::from_string("'hi'", "TEXT"));
    assert_eq!(Some(DataType::Symbol("x".to_string())), DataType::from_string("x", "symbol"));
    assert_eq!(None, DataType::from_string("1", "integer"));
}

#[test]
fn type_defaults() {
    assert_eq!(Some(DataType::Null), DataType::from_type_default_value("null"));
    assert_eq!(Some(DataType::Bool(false)), DataType::from_type_default_value("bool"));
    assert_eq!(Some(DataType::Int(0)), DataType::from_type_default_value("int"));
    assert_eq!(
        Some(DataType::Real(Decimal { mantissa: 0, scale: 0 })),
        DataType::from_type_default_value("Real")
    );
    assert_eq!(Some(text("")), DataType::from_type_default_value("text"));
    assert_eq!(None, DataType::from_type_default_value("symbol"));
    assert_eq!(None, DataType::from_type_default_value("date"));
}

#[test]
fn numeric_and_cross_kind_ordering() {
    let cmp = |l: DataType, r: DataType, op: &str| BinaryExpr::new(l, r, op.to_string()).compare();
    let half = DataType::Real(Decimal { mantissa: 25, scale: 1 });
    assert_eq!(Some(true), cmp(DataType::Int(2), half.clone(), "<"));
    assert_eq!(Some(true), cmp(half.clone(), DataType::Int(2), ">"));
    assert_eq!(Some(false), cmp(half.clone(), DataType::Int(3), ">="));
    let a = DataType::Real(Decimal { mantissa: 320, scale: 1 });
    let b = DataType::Real(Decimal { mantissa: 32, scale: 0 });
    assert_eq!(Some(true), cmp(a, b, "=="));
    assert_eq!(Some(true), cmp(DataType::Int(-3), DataType::Int(2), "<="));
    assert_eq!(Some(false), cmp(DataType::Bool(true), text("x"), ">"));
    assert_eq!(Some(false), cmp(DataType::Bool(true), text("x"), "<"));
    assert_eq!(Some(false), cmp(DataType::Null, DataType::Null, ">="));
    assert_eq!(Some(true), cmp(text("b"), text("a"), ">"));
    assert_eq!(None, cmp(DataType::Int(1), DataType::Int(1), "=<"));
}

#[test]
fn keywords_ignore_case() {
    assert_eq!(Some(FuncType::OnCreate), FuncType::from_string("onCreate".to_string()));
    assert_eq!(Some(FuncType::OnRead), FuncType::from_string("ONREAD".to_string()));
    assert_eq!(Some(FuncType::OnUpdate), FuncType::from_string("onupdate".to_string()));
    assert_eq!(Some(FuncType::OnDelete), FuncType::from_string("OnDelete".to_string()));
    assert_eq!(None, FuncType::from_string("onRemove".to_string()));
}
