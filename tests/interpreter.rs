use minilang::ast::Node;
use minilang::eval::{run, EvalError, Machine, Value};
use minilang::parser::{parse, parse_func, ParseError};
use minilang::table::Table;

fn num(n: i32) -> Node {
    Node::Number(n)
}

fn ident(x: &str) -> Node {
    Node::Ident(x.to_string())
}

fn define(x: &str, v: Node) -> Node {
    Node::Define(x.to_string(), Box::new(v))
}

fn var(m: &Machine, x: &str) -> Option<i32> {
    m.vars.get(&x.to_string()).copied()
}

#[test]
fn number_evaluates_to_itself() {
    for n in [0, 1, -1, 42, i32::MAX, i32::MIN] {
        let mut m = Machine::new(100);
        assert_eq!(m.eval_func(&num(n)), Ok(Value::Int(n)));
        assert_eq!(m.out, "");
    }
}

#[test]
fn define_then_read() {
    let mut m = Machine::new(100);
    assert_eq!(m.eval_func(&define("x", num(5))), Ok(Value::Nothing));
    assert_eq!(m.eval_func(&ident("x")), Ok(Value::Int(5)));
}

#[test]
fn redefine_overwrites() {
    let mut m = Machine::new(100);
    m.eval_func(&define("x", num(5))).unwrap();
    m.eval_func(&define("x", num(7))).unwrap();
    assert_eq!(m.eval_func(&ident("x")), Ok(Value::Int(7)));
    assert_eq!(var(&m, "x"), Some(7));
}

#[test]
fn add_wraps_at_boundaries() {
    let mut m = Machine::new(100);
    let add = |a: i32, b: i32| Node::Add(Box::new(num(a)), Box::new(num(b)));
    assert_eq!(m.eval_func(&add(i32::MAX, 1)), Ok(Value::Int(i32::MIN)));
    assert_eq!(m.eval_func(&add(i32::MIN, -1)), Ok(Value::Int(i32::MAX)));
    assert_eq!(m.eval_func(&add(2, 3)), Ok(Value::Int(5)));
    assert_eq!(m.eval_func(&add(-5, 3)), Ok(Value::Int(-2)));
    let sub = Node::Sub(Box::new(num(i32::MIN)), Box::new(num(1)));
    assert_eq!(m.eval_func(&sub), Ok(Value::Int(i32::MAX)));
    let sub = Node::Sub(Box::new(num(10)), Box::new(num(4)));
    assert_eq!(m.eval_func(&sub), Ok(Value::Int(6)));
}

#[test]
fn comparisons_yield_zero_or_one() {
    let mut m = Machine::new(100);
    let pairs = [(1, 2), (2, 1), (3, 3), (i32::MIN, i32::MAX), (-7, -7)];
    for (a, b) in pairs {
        let l = || Box::new(num(a));
        let r = || Box::new(num(b));
        let cases = [
            (Node::Equal(l(), r()), a == b),
            (Node::NotEqual(l(), r()), a != b),
            (Node::Less(l(), r()), a < b),
            (Node::More(l(), r()), a > b),
        ];
        for (node, expected) in cases {
            assert_eq!(m.eval_func(&node), Ok(Value::Int(if expected { 1 } else { 0 })));
        }
    }
}

#[test]
fn for_prints_counter_and_removes_it() {
    let module = vec![Node::For(
        Box::new(num(0)),
        Box::new(num(5)),
        Box::new(num(1)),
        vec![Node::Print(vec![ident("_i")])],
    )];
    let (mut m, r) = run(&module, 1000);
    assert_eq!(r, Ok(()));
    assert_eq!(m.out, "0 \n1 \n2 \n3 \n4 \n");
    assert_eq!(var(&m, "_i"), None);
    assert_eq!(
        m.eval_func(&ident("_i")),
        Err(EvalError::UnboundVariable("_i".to_string()))
    );
}

#[test]
fn while_false_never_runs_body() {
    let module = vec![Node::While(
        Box::new(num(0)),
        vec![Node::Print(vec![num(1)]), define("y", num(1))],
    )];
    let (m, r) = run(&module, 1000);
    assert_eq!(r, Ok(()));
    assert_eq!(m.out, "");
    assert_eq!(var(&m, "y"), None);
}

#[test]
fn while_counts_down() {
    let module = vec![
        define("n", num(3)),
        Node::While(
            Box::new(Node::More(Box::new(ident("n")), Box::new(num(0)))),
            vec![
                Node::Print(vec![ident("n")]),
                define("n", Node::Sub(Box::new(ident("n")), Box::new(num(1)))),
            ],
        ),
    ];
    let (m, r) = run(&module, 1000);
    assert_eq!(r, Ok(()));
    assert_eq!(m.out, "3 \n2 \n1 \n");
    assert_eq!(var(&m, "n"), Some(0));
}

#[test]
fn if_false_has_no_effect() {
    let module = vec![
        define("a", num(1)),
        Node::If(
            Box::new(Node::Equal(Box::new(ident("a")), Box::new(num(2)))),
            vec![Node::Print(vec![num(9)]), define("a", num(9))],
        ),
    ];
    let (m, r) = run(&module, 1000);
    assert_eq!(r, Ok(()));
    assert_eq!(m.out, "");
    assert_eq!(var(&m, "a"), Some(1));
}

#[test]
fn if_true_runs_body() {
    let module = parse("define(a 5) if(equal(a 5) print(69))".to_string()).unwrap();
    let (m, r) = run(&module, 1000);
    assert_eq!(r, Ok(()));
    assert_eq!(m.out, "69 \n");
}

#[test]
fn parse_define_then_run() {
    let module = parse("define(a 69)".to_string()).unwrap();
    assert_eq!(module, vec![define("a", num(69))]);
    let (m, r) = run(&module, 1000);
    assert_eq!(r, Ok(()));
    assert_eq!(m.out, "");
    assert_eq!(var(&m, "a"), Some(69));
    assert_eq!(m.vars.len(), 1);
}

#[test]
fn parsed_and_built_modules_agree() {
    let text = "define(a 5)\nif(equal(a 5) print(69))\nfor(0 3 1 print(_i a))\n\
                define(b add(a 10))\nprint(a b sub(a b))\nwhile(less(a 7) define(a add(a 1)))";
    let built = vec![
        define("a", num(5)),
        Node::If(
            Box::new(Node::Equal(Box::new(ident("a")), Box::new(num(5)))),
            vec![Node::Print(vec![num(69)])],
        ),
        Node::For(
            Box::new(num(0)),
            Box::new(num(3)),
            Box::new(num(1)),
            vec![Node::Print(vec![ident("_i"), ident("a")])],
        ),
        define("b", Node::Add(Box::new(ident("a")), Box::new(num(10)))),
        Node::Print(vec![
            ident("a"),
            ident("b"),
            Node::Sub(Box::new(ident("a")), Box::new(ident("b"))),
        ]),
        Node::While(
            Box::new(Node::Less(Box::new(ident("a")), Box::new(num(7)))),
            vec![define("a", Node::Add(Box::new(ident("a")), Box::new(num(1))))],
        ),
    ];
    let parsed = parse(text.to_string()).unwrap();
    assert_eq!(parsed, built);
    let (m1, r1) = run(&parsed, 1000);
    let (m2, r2) = run(&built, 1000);
    assert_eq!(r1, Ok(()));
    assert_eq!(r1, r2);
    assert_eq!(m1.out, m2.out);
    assert_eq!(m1.out, "69 \n0 5 \n1 5 \n2 5 \n5 15 -10 \n");
    for x in ["a", "b", "_i"] {
        assert_eq!(var(&m1, x), var(&m2, x));
    }
    assert_eq!(var(&m1, "a"), Some(7));
    assert_eq!(var(&m1, "b"), Some(15));
}

#[test]
fn unterminated_print_is_parse_error() {
    assert_eq!(parse("print(".to_string()), Err(ParseError::UnexpectedEnd));
    assert_eq!(parse("print(1 2".to_string()), Err(ParseError::UnexpectedEnd));
    assert_eq!(parse("define(a 1) print(a".to_string()), Err(ParseError::UnexpectedEnd));
}

#[test]
fn parse_errors_carry_positions() {
    assert_eq!(parse("@".to_string()), Err(ParseError::UnexpectedChar(0)));
    assert_eq!(parse("define 5".to_string()), Err(ParseError::ExpectedOpen(7)));
    assert_eq!(parse("define(a 5 6)".to_string()), Err(ParseError::ExpectedClose(11)));
    assert_eq!(parse("define(5 5)".to_string()), Err(ParseError::ExpectedName(7)));
    assert_eq!(parse("  2147483648".to_string()), Err(ParseError::NumberTooLarge(2)));
    assert_eq!(parse("add(1".to_string()), Err(ParseError::UnexpectedEnd));
    assert_eq!(parse("é".to_string()), Err(ParseError::UnexpectedChar(0)));
    assert_eq!(parse("fn(f (a 1) print(a))".to_string()), Err(ParseError::ExpectedName(8)));
}

#[test]
fn parse_edge_cases() {
    assert_eq!(parse("".to_string()), Ok(vec![]));
    assert_eq!(parse(" \n\t )) ".to_string()), Ok(vec![]));
    assert_eq!(parse("2147483647".to_string()), Ok(vec![num(i32::MAX)]));
    assert_eq!(parse("007".to_string()), Ok(vec![num(7)]));
    assert_eq!(parse(")) x_y".to_string()), Ok(vec![ident("x_y")]));
    assert_eq!(parse("print()".to_string()), Ok(vec![Node::Print(vec![])]));
    assert_eq!(
        parse("define ( a  5 )".to_string()),
        Ok(vec![define("a", num(5))])
    );
    assert_eq!(
        parse("fn(f (a b) print(a))".to_string()),
        Ok(vec![Node::DefineFn(
            "f".to_string(),
            vec!["a".to_string(), "b".to_string()],
            vec![Node::Print(vec![ident("a")])],
        )])
    );
}

#[test]
fn parse_func_steps_through_text() {
    let src = "define(a 1) ) print(a)";
    let mut i: usize = 0;
    assert_eq!(parse_func(src, &mut i), Ok(Some(define("a", num(1)))));
    assert_eq!(i, 11);
    assert_eq!(parse_func(src, &mut i), Ok(Some(Node::Print(vec![ident("a")]))));
    assert_eq!(i, src.chars().count());
    assert_eq!(parse_func(src, &mut i), Ok(None));
    assert_eq!(i, src.chars().count());
    let mut j: usize = 0;
    assert_eq!(parse_func("print(", &mut j), Err(ParseError::UnexpectedEnd));
    assert_eq!(j, 0);
}

#[test]
fn unbound_variable_is_an_error() {
    let (m, r) = run(&vec![Node::Print(vec![ident("nope")])], 100);
    assert_eq!(r, Err(EvalError::UnboundVariable("nope".to_string())));
    assert_eq!(m.out, "");
}

#[test]
fn statement_as_operand_is_an_error() {
    let node = Node::Add(Box::new(define("x", num(1))), Box::new(num(2)));
    let (m, r) = run(&vec![node], 100);
    assert_eq!(r, Err(EvalError::NotAValue));
    assert_eq!(var(&m, "x"), Some(1));
}

#[test]
fn runaway_loops_hit_the_limit() {
    let (_, r) = run(&parse("while(1 define(a 1))".to_string()).unwrap(), 50);
    assert_eq!(r, Err(EvalError::LoopLimit));
    let (m, r) = run(&parse("for(0 10 0 print(_i))".to_string()).unwrap(), 3);
    assert_eq!(r, Err(EvalError::LoopLimit));
    assert_eq!(m.out, "0 \n0 \n0 \n");
    let (_, r) = run(&parse("for(0 3 1 print(_i))".to_string()).unwrap(), 3);
    assert_eq!(r, Ok(()));
}

#[test]
fn functions_are_recorded_once() {
    let module = parse("fn(f (a b) print(a)) fn(g () 1)".to_string()).unwrap();
    let (m, r) = run(&module, 100);
    assert_eq!(r, Ok(()));
    let f = m.funcs.get(&"f".to_string()).unwrap();
    assert_eq!(f.params, vec!["a".to_string(), "b".to_string()]);
    assert_eq!(f.body, vec![Node::Print(vec![ident("a")])]);
    assert!(m.funcs.contains_key(&"g".to_string()));
    let again = parse("fn(f () 1) fn(f () 2)".to_string()).unwrap();
    let (_, r) = run(&again, 100);
    assert_eq!(r, Err(EvalError::FunctionRedefined("f".to_string())));
}

#[test]
fn print_writes_signed_decimals() {
    let node = Node::Print(vec![num(-5), num(0), num(i32::MIN), num(i32::MAX), num(120)]);
    let (m, r) = run(&vec![node], 10);
    assert_eq!(r, Ok(()));
    assert_eq!(m.out, "-5 0 -2147483648 2147483647 120 \n");
}

#[test]
fn for_counter_wraps_and_step_is_fixed() {
    let module = parse("define(s 2) for(0 5 s define(s 100) print(_i))".to_string()).unwrap();
    let (m, r) = run(&module, 10);
    assert_eq!(r, Ok(()));
    assert_eq!(m.out, "0 \n2 \n4 \n");
    assert_eq!(var(&m, "s"), Some(100));
}

#[test]
fn table_insert_get_remove() {
    let mut t: Table<i32> = Table::new();
    assert_eq!(t.get(&"a".to_string()), None);
    t.insert("a".to_string(), 1);
    t.insert("b".to_string(), 2);
    t.insert("a".to_string(), 3);
    assert_eq!(t.get(&"a".to_string()), Some(&3));
    assert_eq!(t.len(), 2);
    t.remove(&"a".to_string());
    assert!(!t.contains_key(&"a".to_string()));
    assert_eq!(t.get(&"b".to_string()), Some(&2));
    t.remove(&"zz".to_string());
    assert_eq!(t.len(), 1);
}

#[test]
fn canonical_text_parses_back() {
    let text = " define(a 5) for(0 2 1 print( _i a)) fn(f ( x y) print( x)) print()";
    let expected = vec![
        define("a", num(5)),
        Node::For(
            Box::new(num(0)),
            Box::new(num(2)),
            Box::new(num(1)),
            vec![Node::Print(vec![ident("_i"), ident("a")])],
        ),
        Node::DefineFn(
            "f".to_string(),
            vec!["x".to_string(), "y".to_string()],
            vec![Node::Print(vec![ident("x")])],
        ),
        Node::Print(vec![]),
    ];
    assert_eq!(parse(text.to_string()), Ok(expected));
}

#[test]
fn parse_func_at_end_moves_cursor_to_end() {
    let mut i: usize = 0;
    assert_eq!(parse_func(" ", &mut i), Ok(None));
    assert_eq!(i, 1);
    let mut j: usize = 1;
    assert_eq!(parse_func("x ) \u{A0}", &mut j), Ok(None));
    assert_eq!(j, 5);
    let mut k: usize = 9;
    assert_eq!(parse_func("x", &mut k), Ok(None));
    assert_eq!(k, 9);
}

#[test]
fn unicode_whitespace_separates_tokens() {
    assert_eq!(parse("\u{0B}".to_string()), Ok(vec![]));
    assert_eq!(parse("\u{3000}\u{85})\u{2028}".to_string()), Ok(vec![]));
    let plain = parse("define(a 1) print(a b)".to_string());
    let spaced = parse("\u{A0}define(a\u{0B}1)\u{2003}print(a\u{205F}b)\u{202F}".to_string());
    assert!(plain.is_ok());
    assert_eq!(plain, spaced);
    assert_eq!(parse("a\u{1680}b".to_string()), Ok(vec![ident("a"), ident("b")]));
}

#[test]
fn unterminated_construct_after_valid_prefix_is_rejected() {
    for tail in ["print(", "print(a", "add(1", "define(a", "if(a", "for(0 5", "fn(f (a"] {
        let text = format!("define(a 1) print(a) {}", tail);
        match parse(text.clone()) {
            Err(ParseError::UnexpectedEnd) => {}
            Err(ParseError::ExpectedName(p)) | Err(ParseError::ExpectedClose(p)) => {
                assert!(p <= text.chars().count())
            }
            other => panic!("{} parsed as {:?}", text, other),
        }
    }
}
