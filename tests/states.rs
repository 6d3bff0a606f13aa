use qdb_ast::states::{ParseError, ParserDefault, Rule};
use qdb_ast::types::{ArgumentGroup, BinaryExpr, DataType, DataVar, Decimal, FuncType, UnaryFuncExpr};

fn strings(v: &[&str]) -> Vec<String> {
    v.iter().map(|s| s.to_string()).collect()
}

fn sym(s: &str) -> DataType {
    DataType::Symbol(s.to_string())
}

fn parse_one(line: &str) -> UnaryFuncExpr {
    let mut cmds = ParserDefault::from_unary_func_expr(line).unwrap().unwrap();
    assert_eq!(1, cmds.len());
    cmds.remove(0)
}

#[test]
fn test_split_on_raw_group() {
    let result = Rule::split_on_raw_group("onCreate(my_channel)(a: int,b : text)");
    assert_eq!(result, strings(&["onCreate", "my_channel", "a:int,b:text"]));
    let result = Rule::split_on_raw_group("onUpdate(my_channel)(a >= 2)(a : int, b : text)");
    assert_eq!(result, strings(&["onUpdate", "my_channel", "a>=2", "a:int,b:text"]));
}

#[test]
fn test_from_unary_func_expr() {
    assert!(matches!(ParserDefault::from_unary_func_expr(" "), Ok(None)));
    assert!(matches!(ParserDefault::from_unary_func_expr(""), Ok(None)));
    let cmd = parse_one("onRead(vector)(x>=2);");
    assert_eq!(FuncType::OnRead, cmd.get_func_type());
    assert_eq!(&vec![sym("vector")], cmd.get_channel_names());
    let exprs = cmd.get_binary_exprs().as_ref().unwrap();
    assert_eq!(&vec![BinaryExpr::new(sym("x"), DataType::Int(2), ">=".to_string())], exprs);
    assert_eq!(&None, cmd.get_vars());
}

#[test]
fn test_from_unary_func_expr_callback() {
    let a = ParserDefault::from_unary_func_expr_callback(
        "onUpdate(my_channel)(x>=2)(a:int,b:real)",
        |elem| {
            println!("{:?}", elem);
            elem
        },
    );
    let cmds = a.unwrap();
    assert_eq!(1, cmds.len());
    assert_eq!(FuncType::OnUpdate, cmds[0].get_func_type());
}

#[test]
fn grouping_create_exact() {
    assert_eq!(
        strings(&["onCreate", "my_channel", "a:int,b:text"]),
        Rule::split_on_raw_group("onCreate(my_channel)(a:int,b:text)")
    );
}

#[test]
fn grouping_update_exact() {
    assert_eq!(
        strings(&["onUpdate", "my_channel", "a>=2", "a:int,b:text"]),
        Rule::split_on_raw_group("onUpdate(my_channel)(a>=2)(a:int,b:text)")
    );
}

#[test]
fn grouping_keeps_quoted_text() {
    assert_eq!(
        strings(&["onCreate", "'a','b'", "x:int"]),
        Rule::split_on_raw_group("onCreate('a','b')(x:int)")
    );
    assert_eq!(
        strings(&["onRead", "c", "t=='a (b); c'"]),
        Rule::split_on_raw_group("onRead(c)(t == 'a (b); c')")
    );
    assert_eq!(strings(&["a", "b", "c"]), Rule::split_on_raw_group("a;b\nc"));
    assert!(Rule::split_on_raw_group(" ( ) ;\n").is_empty());
}

#[test]
fn regrouping_a_token_keeps_it() {
    for t in ["onCreate", "a:int,b:text", "'a b'", "x=='(;)'"] {
        assert_eq!(strings(&[t]), Rule::split_on_raw_group(t));
    }
    for t in Rule::split_on_raw_group("onUpdate(c)(n == 'x y')(a:text='p q')") {
        assert_eq!(vec![t.clone()], Rule::split_on_raw_group(&t));
    }
}

#[test]
fn argument_groups_mark_commands() {
    let groups = Rule::get_argument_groups("onRead(a)(x==1);ONDELETE(b)");
    assert_eq!(
        vec![
            ArgumentGroup::Separator,
            ArgumentGroup::FuncGroup("onRead".to_string()),
            ArgumentGroup::Other("a".to_string()),
            ArgumentGroup::Other("x==1".to_string()),
            ArgumentGroup::Separator,
            ArgumentGroup::FuncGroup("ONDELETE".to_string()),
            ArgumentGroup::Other("b".to_string()),
        ],
        groups
    );
    assert_eq!("x==1", groups[3].to_string());
    assert_eq!("", groups[0].to_string());
}

#[test]
fn blank_input_is_absence() {
    for line in ["", " ", "  \t\n  ", "\u{a0}\u{3000}"] {
        assert!(matches!(ParserDefault::from_unary_func_expr(line), Ok(None)));
    }
}

#[test]
fn delete_two_channels() {
    let cmd = parse_one("onDelete(a,b)");
    assert_eq!(FuncType::OnDelete, cmd.func_type);
    assert_eq!(vec![sym("a"), sym("b")], cmd.channel_names);
    assert_eq!(None, cmd.binary_exprs);
    assert_eq!(None, cmd.vars);
}

#[test]
fn two_commands_in_order() {
    let cmds = ParserDefault::from_unary_func_expr("onRead(a)(x==1);onDelete(a)").unwrap().unwrap();
    assert_eq!(2, cmds.len());
    assert_eq!(FuncType::OnRead, cmds[0].func_type);
    assert_eq!(
        Some(vec![BinaryExpr::new(sym("x"), DataType::Int(1), "==".to_string())]),
        cmds[0].binary_exprs
    );
    assert_eq!(FuncType::OnDelete, cmds[1].func_type);
    assert_eq!(vec![sym("a")], cmds[1].channel_names);
}

#[test]
fn create_with_statements() {
    let cmd = parse_one("onCreate(users)(name:text='Ann', age:int=30, score:real, ok:bool)");
    assert_eq!(FuncType::OnCreate, cmd.func_type);
    assert_eq!(None, cmd.binary_exprs);
    assert_eq!(
        Some(vec![
            DataVar::new("name".to_string(), DataType::Text("Ann".to_string())),
            DataVar::new("age".to_string(), DataType::Int(30)),
            DataVar::new("score".to_string(), DataType::Real(Decimal { mantissa: 0, scale: 0 })),
            DataVar::new("ok".to_string(), DataType::Bool(false)),
        ]),
        cmd.vars
    );
    assert_eq!(None, parse_one("onCreate(users)").vars);
}

#[test]
fn update_with_expressions_and_statements() {
    let cmd = parse_one("onUpdate(c)(a<=2.5,b!='x')(a:int=1)");
    assert_eq!(
        Some(vec![
            BinaryExpr::new(sym("a"), DataType::Real(Decimal { mantissa: 25, scale: 1 }), "<=".to_string()),
            BinaryExpr::new(sym("b"), DataType::Text("x".to_string()), "!=".to_string()),
        ]),
        cmd.binary_exprs
    );
    assert_eq!(Some(vec![DataVar::new("a".to_string(), DataType::Int(1))]), cmd.vars);
    let bare = parse_one("onUpdate(c)");
    assert_eq!((None, None), (bare.binary_exprs, bare.vars));
}

#[test]
fn operator_priority_and_first_occurrence() {
    assert_eq!(
        Some(BinaryExpr::new(sym("a"), DataType::Int(2), ">=".to_string())),
        Rule::split_expression("a>=2")
    );
    assert_eq!(
        Some(BinaryExpr::new(sym("a"), sym("b<c"), "==".to_string())),
        Rule::split_expression("a==b<c")
    );
    assert_eq!(
        Some(BinaryExpr::new(sym("a"), DataType::Null, "<".to_string())),
        Rule::split_expression("a<null")
    );
    assert_eq!(None, Rule::split_expression("a=b"));
    assert_eq!(None, Rule::split_expression("a>99999999999999999999"));
}

#[test]
fn statement_rules() {
    assert_eq!(
        Some(DataVar::new("a".to_string(), DataType::Int(0))),
        Rule::split_statement("a:int")
    );
    assert_eq!(
        Some(DataVar::new("t".to_string(), DataType::Text("x=y".to_string()))),
        Rule::split_statement("t:text=x=y")
    );
    assert_eq!(None, Rule::split_statement("a"));
    assert_eq!(None, Rule::split_statement("a:symbol"));
    assert_eq!(None, Rule::split_statement("a:symbol=x"));
    assert_eq!(None, Rule::split_statement("a:int=abc"));
    assert_eq!(None, Rule::split_statement("2a:int"));
    assert_eq!(None, Rule::split_statement(":int"));
}

#[test]
fn channel_rules() {
    assert_eq!(Some(vec![sym("a"), sym("b_2")]), Rule::get_channels("a,b_2"));
    assert_eq!(None, Rule::get_channels("a,1"));
    assert_eq!(None, Rule::get_channels("'a'"));
    assert_eq!(None, Rule::get_channels("a,"));
    assert_eq!(Some(FuncType::OnRead), Rule::get_func_type("onread"));
}

#[test]
fn parse_errors() {
    let err = |line: &str| ParserDefault::from_unary_func_expr(line).unwrap_err();
    assert_eq!(ParseError::MissingOperation("foo".to_string()), err("foo(a)"));
    assert_eq!(ParseError::MissingChannels("onRead".to_string()), err("onRead"));
    assert_eq!(ParseError::InvalidChannel("1".to_string()), err("onRead(1)"));
    assert_eq!(ParseError::InvalidExpression("x".to_string()), err("onRead(a)(x)"));
    assert_eq!(ParseError::InvalidStatement("b".to_string()), err("onCreate(a)(b)"));
    assert_eq!(ParseError::InvalidStatement("x:int=abc".to_string()), err("onCreate(a)(x:int=abc)"));
    assert_eq!(ParseError::InvalidStatement("x:symbol".to_string()), err("onUpdate(a)(x==1)(x:symbol)"));
    assert_eq!(ParseError::InvalidChannel("1".to_string()), err("onDelete(a);onRead(1)"));
}

#[test]
fn callback_receives_nothing_for_blank_input() {
    let r = ParserDefault::from_unary_func_expr_callback("  ", |elem| {
        assert!(elem.is_empty());
        elem
    });
    assert_eq!(Ok(vec![]), r);
    let e = ParserDefault::from_unary_func_expr_callback("onRead", |elem| elem);
    assert_eq!(Err(ParseError::MissingChannels("onRead".to_string())), e);
}
