use calc_engine::calc::{Calc, CalcError, Format};
use calc_engine::expr::Expr;
use calc_engine::requests::{CalcRequest, CalcResponse};
use calc_engine::token::Token;

/// Numeric evaluation of an expression tree; the library keeps each number
/// as its literal text, so evaluation parses the leaves here.
fn eval(e: &Expr) -> f64 {
    match e {
        Expr::Number(s) => s.parse().unwrap(),
        Expr::Add(x, y) => eval(x) + eval(y),
        Expr::Subtract(x, y) => eval(x) - eval(y),
        Expr::Divide(x, y) => eval(x) / eval(y),
        Expr::Multiply(x, y) => eval(x) * eval(y),
        Expr::Sqrt(x) => eval(x).sqrt(),
        Expr::Power(x, y) => eval(x).powf(eval(y)),
    }
}

fn eval_all(c: &Calc) -> Vec<f64> {
    c.memory().iter().map(eval).collect()
}

fn num(text: &str) -> Box<Expr> {
    Box::new(Expr::Number(text.to_string()))
}

#[test]
fn token_should_parse_operators() {
    assert_eq!(Token::new("+"), Token::Plus);
    assert_eq!(Token::new("-"), Token::Minus);
    assert_eq!(Token::new("/"), Token::Slash);
    assert_eq!(Token::new("*"), Token::Star);
    assert_eq!(Token::new("^"), Token::Caret);
    assert_eq!(Token::new("("), Token::GroupOpen);
    assert_eq!(Token::new(")"), Token::GroupClose);
    assert_eq!(Token::new("sqrt"), Token::Sqrt);
    assert_eq!(Token::new("undo"), Token::Undo);
    assert_eq!(Token::new("xxx"), Token::Unknown("xxx".to_string()));
}

#[test]
fn token_should_parse_operands() {
    assert_eq!(Token::new("1"), Token::Number("1".to_string()));
    assert_eq!(Token::new("1.2"), Token::Number("1.2".to_string()));
}

#[test]
fn token_number_grammar_edges() {
    assert_eq!(Token::new("-2.5e-3"), Token::Number("-2.5e-3".to_string()));
    assert_eq!(Token::new("+.5"), Token::Number("+.5".to_string()));
    assert_eq!(Token::new("inf"), Token::Number("inf".to_string()));
    assert_eq!(Token::new("NaN"), Token::Number("NaN".to_string()));
    assert_eq!(Token::new("1e"), Token::Unknown("1e".to_string()));
    assert_eq!(Token::new("2e+"), Token::Unknown("2e+".to_string()));
    assert_eq!(Token::new("."), Token::Unknown(".".to_string()));
    assert_eq!(Token::new("--1"), Token::Unknown("--1".to_string()));
    assert_eq!(Token::new(""), Token::Unknown("".to_string()));
}

#[test]
fn add() {
    let expr = Expr::Add(num("2"), num("2"));
    assert_eq!(eval(&expr), 4.0);
    assert_eq!(expr.render(), "2 2 +");
}

#[test]
fn subtract() {
    let expr = Expr::Subtract(num("2"), num("2"));
    assert_eq!(eval(&expr), 0.0);
    assert_eq!(expr.render(), "2 2 -");
}

#[test]
fn multiply() {
    let expr = Expr::Multiply(num("2"), num("2"));
    assert_eq!(eval(&expr), 4.0);
    assert_eq!(expr.render(), "2 2 *");
}

#[test]
fn divide() {
    let expr = Expr::Divide(num("2"), num("2"));
    assert_eq!(eval(&expr), 1.0);
    assert_eq!(expr.render(), "2 2 /");
}

#[test]
fn pow() {
    let expr = Expr::Power(num("2"), num("2"));
    assert_eq!(eval(&expr), 4.0);
    assert_eq!(expr.render(), "2 2 ^");
}

#[test]
fn sqrt() {
    let expr = Expr::Sqrt(num("4"));
    assert_eq!(eval(&expr), 2.0);
    assert_eq!(expr.render(), "4 sqrt");
}

#[test]
fn undo_number() {
    let expr = Expr::Number("2".to_string());
    let mut undo = expr.undo().into_iter();
    let x = undo.next();
    assert!(x.is_none());
}

#[test]
fn undo_add() {
    let expr = Expr::Add(num("2"), num("1"));
    let mut undo = expr.undo().into_iter();
    let x = undo.next().unwrap();
    let y = undo.next().unwrap();
    assert_eq!(eval(&x), 2.0);
    assert_eq!(eval(&y), 1.0);
}

#[test]
fn undo_subtract() {
    let expr = Expr::Subtract(num("2"), num("1"));
    let mut undo = expr.undo().into_iter();
    let x = undo.next().unwrap();
    let y = undo.next().unwrap();
    assert_eq!(eval(&x), 2.0);
    assert_eq!(eval(&y), 1.0);
}

#[test]
fn undo_multiply() {
    let expr = Expr::Multiply(num("2"), num("4"));
    let mut undo = expr.undo().into_iter();
    let x = undo.next().unwrap();
    let y = undo.next().unwrap();
    assert_eq!(eval(&x), 2.0);
    assert_eq!(eval(&y), 4.0);
}

#[test]
fn undo_divide() {
    let expr = Expr::Divide(num("2"), num("2"));
    let mut undo = expr.undo().into_iter();
    let x = undo.next().unwrap();
    let y = undo.next().unwrap();
    assert_eq!(eval(&x), 2.0);
    assert_eq!(eval(&y), 2.0);
}

#[test]
fn undo_power() {
    let expr = Expr::Power(num("2"), num("2"));
    let mut undo = expr.undo().into_iter();
    let x = undo.next().unwrap();
    let y = undo.next().unwrap();
    assert_eq!(eval(&x), 2.0);
    assert_eq!(eval(&y), 2.0);
}

#[test]
fn undo_sqrt() {
    let expr = Expr::Sqrt(num("25"));
    let mut undo = expr.undo().into_iter();
    let x = undo.next().unwrap();
    assert_eq!(eval(&x), 25.0);
}

#[test]
fn should_shunting_yard() {
    let tokens = Token::shunting_yard("3 + 4 * 2 / ( 1 - 5 ) ^ 2 ^ 3");
    let texts: Vec<String> = tokens.iter().map(|t| t.text()).collect();
    assert_eq!(texts.join(" "), "3 4 2 * 1 5 - 2 3 ^ ^ / +".to_string());
}

#[test]
fn shunting_yard_without_spaces() {
    for (infix, postfix) in [
        ("2+2", "2 2 +"),
        ("2-2", "2 2 -"),
        ("2*2", "2 2 *"),
        ("2/2", "2 2 /"),
        ("2^2", "2 2 ^"),
        ("sqrt 4", "4 sqrt"),
    ] {
        let tokens = Token::shunting_yard(infix);
        let texts: Vec<String> = tokens.iter().map(|t| t.text()).collect();
        assert_eq!(texts.join(" "), postfix.to_string());
    }
}

#[test]
fn should_parse_postfix() {
    for (input, output) in [
        ("2", 2.0),
        ("2 2 +", 4.0),
        ("2 2 -", 0.0),
        ("2 2 *", 4.0),
        ("2 2 /", 1.0),
        ("2 3 ^", 8.0),
        ("4 sqrt", 2.0),
    ] {
        let calc = Calc::postfix(input).unwrap();
        let values = eval_all(&calc);
        assert_eq!(*values.last().unwrap(), output);
    }
}

#[test]
fn should_parse_infix() {
    for (input, output) in [
        ("2", 2.0),
        ("2 + 2", 4.0),
        ("2 - 2", 0.0),
        ("2 * 2", 4.0),
        ("2 / 2", 1.0),
        ("sqrt 4", 2.0),
        ("3 + 4 * 2 / ( 1 - 5 ) ^ 2 ^ 3", 3.0001220703125),
    ] {
        let calc = Calc::infix(input).unwrap();
        let values = eval_all(&calc);
        assert_eq!(*values.last().unwrap(), output);
    }
}

#[test]
fn right_associativity() {
    let calc = Calc::infix("2 ^ 3 ^ 2").unwrap();
    assert_eq!(calc.render(), "2 3 2 ^ ^");
    assert_eq!(eval_all(&calc), vec![512.0]);
}

#[test]
fn should_undo() {
    for (input, output) in [
        ("2", ""),
        ("2 2 +", "2 2"),
        ("2 2 -", "2 2"),
        ("2 2 *", "2 2"),
        ("2 2 /", "2 2"),
        ("4 sqrt", "4"),
    ] {
        let undo = format!("{} undo", input);
        let result = Calc::postfix(undo.as_str()).unwrap();
        assert_eq!(result.render(), output);
    }
}

#[test]
fn should_error() {
    for (input, error) in [
        ("_", "Unknown token: _"),
        ("+", "Missing operands"),
        ("1 +", "Missing operand"),
        ("-", "Missing operands"),
        ("2 -", "Missing operand"),
        ("*", "Missing operands"),
        ("3 *", "Missing operand"),
        ("/", "Missing operands"),
        ("4 /", "Missing operand"),
        ("^", "Missing operands"),
        ("4 ^", "Missing operand"),
        ("sqrt", "Missing operand"),
        ("undo", "Nothing to undo"),
    ] {
        let result = Calc::postfix(input);
        assert!(result.is_err());
        assert_eq!(result.unwrap_err().message(), error);
    }
}

#[test]
fn should_eq() {
    for (a, b) in [("2 2 +", "2 2 *"), ("1 1 +", "4 2 /"), ("3 2 ^", "81 sqrt")] {
        let x = Calc::postfix(a).unwrap();
        let y = Calc::postfix(b).unwrap();
        assert_eq!(eval_all(&x), eval_all(&y));
    }
}

#[test]
fn infix_postfix_equivalence() {
    for infix in ["3 + 4 * 2 / ( 1 - 5 ) ^ 2 ^ 3", "2 ^ 3 ^ 2", "sqrt 4 + 1"] {
        let by_infix = Calc::infix(infix).unwrap();
        let by_postfix = Calc::postfix(by_infix.render().as_str()).unwrap();
        assert_eq!(by_infix.render(), by_postfix.render());
        assert_eq!(eval_all(&by_infix), eval_all(&by_postfix));
    }
}

#[test]
fn render_reparse_roundtrip() {
    let calc = Calc::postfix("1 2 + 3 4 * 2.5").unwrap();
    let reparsed = Calc::postfix(calc.render().as_str()).unwrap();
    assert_eq!(calc.render(), reparsed.render());
    assert_eq!(eval_all(&calc), eval_all(&reparsed));
}

#[test]
fn engine_stays_usable_after_error() {
    let mut calc = Calc::empty();
    assert!(calc.input(Format::Postfix("_")).is_err());
    assert!(calc.input(Format::Postfix("2 2 +")).is_ok());
    assert_eq!(eval_all(&calc), vec![4.0]);
}

#[test]
fn error_leaves_partial_state() {
    let mut calc = Calc::empty();
    let result = calc.input(Format::Postfix("2 3 _ 4"));
    assert!(matches!(result, Err(CalcError::UnknownToken(_))));
    assert_eq!(calc.render(), "2 3");
}

#[test]
fn speculative_clone_discards_failed_feed() {
    let mut calc = Calc::empty();
    calc.input(Format::Postfix("2 2 +")).unwrap();
    let mut attempt = calc.duplicate();
    assert!(attempt.input(Format::Postfix("5 _")).is_err());
    assert_eq!(attempt.render(), "2 2 + 5");
    assert_eq!(calc.render(), "2 2 +");
}

#[test]
fn unmatched_group_close_drains_silently() {
    let calc = Calc::infix("2 + 3 )").unwrap();
    assert_eq!(calc.render(), "2 3 +");
}

#[test]
fn unmatched_group_open_is_kept() {
    let calc = Calc::infix("( 2 + 3").unwrap();
    assert_eq!(calc.render(), "2 3 +");
}

#[test]
fn default_engine_is_empty() {
    let calc = Calc::default();
    assert_eq!(calc.render(), "");
    assert_eq!(eval_all(&calc), Vec::<f64>::new());
}

#[test]
fn respond_postfix_request() {
    let request = CalcRequest { input: "2 2 +".to_string(), infix: None };
    let response: CalcResponse = calc_engine::requests::respond(&request).unwrap();
    assert_eq!(response.output, "2 2 +");
}

#[test]
fn respond_infix_request() {
    let request = CalcRequest { input: "2 + 2 * 5".to_string(), infix: Some(true) };
    let response = calc_engine::requests::respond(&request).unwrap();
    assert_eq!(response.output, "2 2 5 * +");
}

#[test]
fn respond_reports_errors() {
    let request = CalcRequest { input: "1 +".to_string(), infix: Some(false) };
    let result = calc_engine::requests::respond(&request);
    assert_eq!(result.unwrap_err().message(), "Missing operand");
}
