use booklang::env::{Env, ErrorKind, FloatTable};
use booklang::interp::Interpreter;
use booklang::literal::parse_literal;
use booklang::condition::eval_condition;
use booklang::value::{FloatNum, Value};

fn chars(s: &str) -> Vec<char> {
    s.chars().collect()
}

fn text(v: &[char]) -> String {
    v.iter().collect()
}

fn float_table(tokens: &[&str]) -> FloatTable {
    let mut ft = FloatTable::new();
    for t in tokens {
        let f: f64 = t.parse().unwrap();
        ft.add(chars(t), Some(FloatNum { bits: f.to_bits(), text: chars(&f.to_string()) }));
    }
    ft
}

fn run_with(src: &str, ft: &FloatTable) -> (Vec<String>, Option<(ErrorKind, String)>) {
    let lines: Vec<Vec<char>> = src.lines().map(chars).collect();
    let mut it = Interpreter::new();
    let r = it.run_program(&lines, ft);
    let out = it.output.iter().map(|l| text(l)).collect();
    (out, r.err().map(|e| (e.kind, text(&e.subject))))
}

fn run(src: &str) -> (Vec<String>, Option<(ErrorKind, String)>) {
    run_with(src, &FloatTable::new())
}

fn env_with(bindings: &[(&str, Value)]) -> Env {
    let mut env = Env::new();
    for (n, v) in bindings {
        let v = match v {
            Value::Integer(i) => Value::Integer(*i),
            Value::Str(s) => Value::Str(s.clone()),
            Value::Bool(b) => Value::Bool(*b),
            Value::Nothing => Value::Nothing,
            Value::Float(f) => Value::Float(FloatNum { bits: f.bits, text: f.text.clone() }),
        };
        env.declare(chars(n), v, false);
    }
    env
}

#[test]
fn literal_single_quoted() {
    let r = parse_literal(&chars("'x'"), &Env::new(), &FloatTable::new()).unwrap();
    assert!(matches!(r, Value::Str(ref s) if text(s) == "x"));
}

#[test]
fn literal_integer() {
    let r = parse_literal(&chars(" 42 "), &Env::new(), &FloatTable::new()).unwrap();
    assert!(matches!(r, Value::Integer(42)));
    let r = parse_literal(&chars("-7"), &Env::new(), &FloatTable::new()).unwrap();
    assert!(matches!(r, Value::Integer(-7)));
    let r = parse_literal(&chars("+7"), &Env::new(), &FloatTable::new()).unwrap();
    assert!(matches!(r, Value::Integer(7)));
}

#[test]
fn literal_integer_limits() {
    let r = parse_literal(&chars("-9223372036854775808"), &Env::new(), &FloatTable::new()).unwrap();
    assert!(matches!(r, Value::Integer(i64::MIN)));
    let r = parse_literal(&chars("9223372036854775807"), &Env::new(), &FloatTable::new()).unwrap();
    assert!(matches!(r, Value::Integer(i64::MAX)));
    let e = parse_literal(&chars("9223372036854775808"), &Env::new(), &FloatTable::new()).err().unwrap();
    assert_eq!(e.kind, ErrorKind::UnreadFloat);
}

#[test]
fn literal_float_from_reading() {
    let ft = float_table(&["3.5"]);
    let r = parse_literal(&chars("3.5"), &Env::new(), &ft).unwrap();
    match r {
        Value::Float(f) => {
            assert_eq!(f.bits, 3.5f64.to_bits());
            assert_eq!(text(&f.text), "3.5");
        }
        _ => panic!("not a float"),
    }
}

#[test]
fn literal_float_unread_then_unrecognized() {
    let e = parse_literal(&chars("3.5"), &Env::new(), &FloatTable::new()).err().unwrap();
    assert_eq!(e.kind, ErrorKind::UnreadFloat);
    assert_eq!(text(&e.subject), "3.5");
    let mut ft = FloatTable::new();
    ft.add(chars("abc"), None);
    let e = parse_literal(&chars("abc"), &Env::new(), &ft).err().unwrap();
    assert_eq!(e.kind, ErrorKind::UnrecognizedLiteral);
}

#[test]
fn literal_keywords() {
    let env = Env::new();
    let ft = FloatTable::new();
    assert!(matches!(parse_literal(&chars("true"), &env, &ft).unwrap(), Value::Bool(true)));
    assert!(matches!(parse_literal(&chars("false"), &env, &ft).unwrap(), Value::Bool(false)));
    assert!(matches!(parse_literal(&chars("nothing"), &env, &ft).unwrap(), Value::Nothing));
}

#[test]
fn interpolation_known_and_unknown() {
    let env = env_with(&[("name", Value::Str(chars("World")))]);
    let r = parse_literal(&chars("\"Hello, {name}!\""), &env, &FloatTable::new()).unwrap();
    assert!(matches!(r, Value::Str(ref s) if text(s) == "Hello, World!"));
    let r = parse_literal(&chars("\"{missing}\""), &env, &FloatTable::new()).unwrap();
    assert!(matches!(r, Value::Str(ref s) if text(s) == "{UNKNOWN:missing}"));
}

#[test]
fn interpolation_trims_name_and_runs_to_end() {
    let env = env_with(&[("n", Value::Integer(-12))]);
    let r = parse_literal(&chars("\"a{ n }b\""), &env, &FloatTable::new()).unwrap();
    assert!(matches!(r, Value::Str(ref s) if text(s) == "a-12b"));
    let r = parse_literal(&chars("\"a{n\""), &env, &FloatTable::new()).unwrap();
    assert!(matches!(r, Value::Str(ref s) if text(s) == "a-12"));
    let r = parse_literal(&chars("'{n}'"), &env, &FloatTable::new()).unwrap();
    assert!(matches!(r, Value::Str(ref s) if text(s) == "{n}"));
}

#[test]
fn value_truth_and_text() {
    assert!(!Value::Integer(0).to_bool());
    assert!(Value::Integer(3).to_bool());
    assert!(!Value::Str(vec![]).to_bool());
    assert!(Value::Str(chars("a")).to_bool());
    assert!(!Value::Nothing.to_bool());
    assert!(!Value::Float(FloatNum { bits: (-0.0f64).to_bits(), text: chars("-0") }).to_bool());
    assert!(Value::Float(FloatNum { bits: 0.5f64.to_bits(), text: chars("0.5") }).to_bool());
    assert_eq!(text(&Value::Integer(-305).to_text()), "-305");
    assert_eq!(text(&Value::Bool(false).to_text()), "false");
    assert_eq!(text(&Value::Nothing.to_text()), "nothing");
}

#[test]
fn number_key_orders_like_doubles() {
    let big = Value::Integer(9007199254740993);
    let below = Value::Integer(9007199254740992);
    assert_eq!(big.number_key().unwrap(), below.number_key().unwrap());
    let k = Value::Integer(1).number_key().unwrap().unwrap();
    assert_eq!(k as u64, 1.0f64.to_bits());
    let k = Value::Integer(-3).number_key().unwrap().unwrap();
    assert_eq!(-k as u64, 3.0f64.to_bits());
    assert!(Value::Str(chars("1")).number_key().is_err());
    let nan = Value::Float(FloatNum { bits: f64::NAN.to_bits(), text: chars("NaN") });
    assert_eq!(nan.number_key().unwrap(), None);
}

#[test]
fn print_after_let() {
    let (out, err) = run("let x be 5\ncall print with x");
    assert_eq!(out, vec!["5"]);
    assert!(err.is_none());
}

#[test]
fn constant_cannot_change() {
    let (out, err) = run("constant K is 'hi'\ncall print with K\nK becomes 'bye'\ncall print with K");
    assert_eq!(out, vec!["hi"]);
    assert_eq!(err, Some((ErrorKind::ConstantReassignment, "K".to_string())));
}

#[test]
fn reassign_and_errors() {
    let (out, err) = run("let x be 1\nx becomes 'two'\ncall print with x");
    assert_eq!(out, vec!["two"]);
    assert!(err.is_none());
    let (_, err) = run("y becomes 3");
    assert_eq!(err, Some((ErrorKind::UndeclaredVariable, "y".to_string())));
    let (_, err) = run("let x be 1\nlet x be 2");
    assert_eq!(err, Some((ErrorKind::Redeclaration, "x".to_string())));
    let (_, err) = run("call print with z");
    assert_eq!(err, Some((ErrorKind::UndeclaredVariable, "z".to_string())));
    let (_, err) = run("shout loudly");
    assert_eq!(err, Some((ErrorKind::BadStatement, "shout loudly".to_string())));
    let (_, err) = run("let x 5");
    assert_eq!(err.unwrap().0, ErrorKind::BadStatement);
}

#[test]
fn comments_and_blank_lines() {
    let (out, err) = run("// note\n\n   \ncall print with 'ok'");
    assert_eq!(out, vec!["ok"]);
    assert!(err.is_none());
}

#[test]
fn conjunctive_conditions() {
    let env = env_with(&[("x", Value::Integer(5))]);
    let ft = FloatTable::new();
    assert_eq!(eval_condition(&chars("x is greater than 3 and x is less than 10"), &env, &ft).unwrap(), true);
    assert_eq!(eval_condition(&chars("x is greater than 3 and x is less than 3"), &env, &ft).unwrap(), false);
    assert_eq!(eval_condition(&chars("x is less than 3 and y is 1"), &env, &ft).unwrap(), false);
    let e = eval_condition(&chars("x is greater than 3 and y is 1"), &env, &ft).err().unwrap();
    assert_eq!(e.kind, ErrorKind::UndeclaredVariable);
    let e = eval_condition(&chars("x equals 3"), &env, &ft).err().unwrap();
    assert_eq!(e.kind, ErrorKind::BadCondition);
}

#[test]
fn comparison_type_error() {
    let env = env_with(&[("s", Value::Str(chars("a")))]);
    let e = eval_condition(&chars("s is greater than 3"), &env, &FloatTable::new()).err().unwrap();
    assert_eq!(e.kind, ErrorKind::NotANumber);
}

#[test]
fn equality_by_text() {
    let env = env_with(&[("x", Value::Integer(5))]);
    let ft = float_table(&["5.0", "5.5"]);
    assert_eq!(eval_condition(&chars("x is 5"), &env, &ft).unwrap(), true);
    assert_eq!(eval_condition(&chars("x is '5'"), &env, &ft).unwrap(), true);
    assert_eq!(eval_condition(&chars("x is not 6"), &env, &ft).unwrap(), true);
    // 5.0 is shown as "5", so it equals the integer 5 by text.
    assert_eq!(eval_condition(&chars("x is 5.0"), &env, &ft).unwrap(), true);
    assert_eq!(eval_condition(&chars("x is 5.5"), &env, &ft).unwrap(), false);
    assert_eq!(eval_condition(&chars("x is less than 5.5"), &env, &ft).unwrap(), true);
}

#[test]
fn nested_blocks_route_control() {
    let src = "let x be 5\nif x is greater than 3 then\nif x is less than 4 then\ncall print with 'inner if'\nelse\ncall print with 'inner else'\nend\ncall print with 'outer if'\nelse\ncall print with 'outer else'\nend\ncall print with 'after'";
    let (out, err) = run(src);
    assert_eq!(out, vec!["inner else", "outer if", "after"]);
    assert!(err.is_none());
    let src2 = src.replace("let x be 5", "let x be 1");
    let (out, _) = run(&src2);
    assert_eq!(out, vec!["outer else", "after"]);
}

#[test]
fn else_if_chain_selects_first_true() {
    let src = "let x be 7\nif x is less than 0\ncall print with 'neg'\nelse if x is greater than 5\ncall print with 'big'\nelse if x is greater than 1\ncall print with 'mid'\nelse\ncall print with 'small'\nend\ncall print with 'done'";
    let (out, _) = run(src);
    assert_eq!(out, vec!["big", "done"]);
    let (out, _) = run(&src.replace("let x be 7", "let x be 3"));
    assert_eq!(out, vec!["mid", "done"]);
    let (out, _) = run(&src.replace("let x be 7", "let x be 0"));
    assert_eq!(out, vec!["small", "done"]);
}

#[test]
fn chain_without_else_runs_nothing() {
    let src = "let x be 0\nif x is 1\ncall print with 'one'\nelse if x is 2\ncall print with 'two'\nend\ncall print with 'after'";
    let (out, err) = run(src);
    assert_eq!(out, vec!["after"]);
    assert!(err.is_none());
}

#[test]
fn print_interpolated_and_float() {
    let ft = float_table(&["2.5"]);
    let (out, err) = run_with("let name be 'Ada'\nlet f be 2.5\ncall print with \"Hi {name}, {f}\"\ncall print with f", &ft);
    assert_eq!(out, vec!["Hi Ada, 2.5", "2.5"]);
    assert!(err.is_none());
}

#[test]
fn unread_float_stops_run() {
    let (out, err) = run("call print with 'a'\nlet f be 2.5\ncall print with 'b'");
    assert_eq!(out, vec!["a"]);
    assert_eq!(err, Some((ErrorKind::UnreadFloat, "2.5".to_string())));
}

#[test]
fn plain_double_quoted_text_unchanged() {
    let env = env_with(&[("a", Value::Integer(1))]);
    let r = parse_literal(&chars("\"a b } c\""), &env, &FloatTable::new()).unwrap();
    assert!(matches!(r, Value::Str(ref s) if text(s) == "a b } c"));
}

#[test]
fn huge_integers_compare_as_doubles() {
    let env = env_with(&[("x", Value::Integer(9007199254740993))]);
    let ft = FloatTable::new();
    assert_eq!(eval_condition(&chars("x is greater than 9007199254740992"), &env, &ft).unwrap(), false);
    assert_eq!(eval_condition(&chars("x is greater than 9007199254740991"), &env, &ft).unwrap(), true);
}

#[test]
fn nan_compares_false() {
    let mut ft = FloatTable::new();
    ft.add(chars("NaN"), Some(FloatNum { bits: f64::NAN.to_bits(), text: chars("NaN") }));
    let env = env_with(&[("x", Value::Integer(1))]);
    assert_eq!(eval_condition(&chars("x is greater than NaN"), &env, &ft).unwrap(), false);
    assert_eq!(eval_condition(&chars("x is less than NaN"), &env, &ft).unwrap(), false);
}

#[test]
fn if_body_stops_at_else_before_else_if() {
    let (out, err) = run("let x be 5\nif x is greater than 3 then\ncall print with 'a'\nelse\ncall print with 'b'\nelse if x is less than 10 then\ncall print with 'c'\nend\ncall print with 'after'");
    assert_eq!(out, vec!["a", "after"]);
    assert!(err.is_none());
    let lines: Vec<Vec<char>> = "if x is greater than 3 then\ncall print with 'a'\nelse\ncall print with 'b'\nelse if x is less than 10 then\ncall print with 'c'\nend"
        .lines()
        .map(chars)
        .collect();
    let mut it = Interpreter::new();
    it.env.declare(chars("x"), Value::Integer(5), false);
    assert_eq!(it.run_at(&lines, 0, &FloatTable::new()).unwrap(), 7);
    assert_eq!(it.output.iter().map(|l| text(l)).collect::<Vec<_>>(), vec!["a"]);
}

#[test]
fn else_if_body_stops_at_later_else() {
    let (out, err) = run("let x be 1\nif x is 0\ncall print with 'zero'\nelse if x is 1\ncall print with 'one'\nelse\ncall print with 'other'\nend");
    assert_eq!(out, vec!["one"]);
    assert!(err.is_none());
    let (out, err) = run("let x be 1\nif x is 0\ncall print with 'zero'\nelse\ncall print with 'other'\nelse if x is 1\ncall print with 'one'\nend");
    assert_eq!(out, vec!["one"]);
    assert!(err.is_none());
}

#[test]
fn run_line_trims_first() {
    let mut it = Interpreter::new();
    let ft = FloatTable::new();
    assert!(it.run_line(&chars(" "), &ft).is_ok());
    assert!(it.run_line(&chars("   // note"), &ft).is_ok());
    assert!(it.run_line(&chars("  let y be 2  "), &ft).is_ok());
    assert!(it.run_line(&chars("\tcall print with y "), &ft).is_ok());
    assert_eq!(it.output.iter().map(|l| text(l)).collect::<Vec<_>>(), vec!["2"]);
}

#[test]
fn unclosed_if_is_a_fault() {
    let (out, err) = run("call print with 'a'\nif 1 is 1\ncall print with 'b'");
    assert_eq!(out, vec!["a"]);
    assert_eq!(err, Some((ErrorKind::UnclosedBlock, "if 1 is 1".to_string())));
}
