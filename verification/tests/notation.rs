use dsa::notation::infix_to_postfix;
use dsa::notation::infix_to_prefix;
use dsa::notation::is_operator;
use dsa::notation::precedence;
use dsa::notation::NotationError;
use dsa::notation::Precedence;

#[test]
fn test_infix_to_postfix() {
    let input = vec![
        ("a+b", "ab+"),
        ("(a-b)*(c/d)", "ab-cd/*"),
        ("a+b-c*d", "ab+cd*-"),
        ("a+(b-(c+d))/e", "abcd+-e/+"),
    ];
    for (index, (left, right)) in input.into_iter().enumerate() {
        let got = infix_to_postfix(left).unwrap();
        if got.as_str() != right {
            panic!("mismatch at index {}: {} vs {}", index, got, right);
        }
    }
}

#[test]
fn test_infix_to_prefix() {
    let value = "a+b";
    assert_eq!(infix_to_prefix(value).unwrap(), "+ab".to_owned());
}

#[test]
fn postfix_unbalanced_open() {
    assert_eq!(
        infix_to_postfix("(a+b"),
        Err(NotationError::UnbalancedParens)
    );
}

#[test]
fn postfix_unbalanced_close() {
    assert_eq!(
        infix_to_postfix("a+b)"),
        Err(NotationError::UnbalancedParens)
    );
}

#[test]
fn postfix_empty_input() {
    assert_eq!(infix_to_postfix(""), Ok(String::new()));
}

#[test]
fn prefix_empty_input() {
    assert_eq!(infix_to_prefix(""), Ok(String::new()));
}

#[test]
fn prefix_examples() {
    assert_eq!(infix_to_prefix("(a-b)*(c/d)").unwrap(), "*-ab/cd");
    assert_eq!(infix_to_prefix("a+b-c*d").unwrap(), "-+ab*cd");
    assert_eq!(infix_to_prefix("a").unwrap(), "a");
}

#[test]
fn prefix_unbalanced_open() {
    assert_eq!(
        infix_to_prefix("(a+b"),
        Err(NotationError::UnbalancedParens)
    );
}

#[test]
fn prefix_unbalanced_close() {
    assert_eq!(
        infix_to_prefix("a+b)"),
        Err(NotationError::UnbalancedParens)
    );
}

#[test]
fn prefix_operator_without_operands() {
    assert_eq!(
        infix_to_prefix("(+)"),
        Err(NotationError::MalformedExpression)
    );
}

#[test]
fn postfix_keeps_every_token() {
    let out = infix_to_postfix("a+(b-(c+d))/e").unwrap();
    let mut got: Vec<char> = out.chars().collect();
    let mut want: Vec<char> = "a+(b-(c+d))/e"
        .chars()
        .filter(|c| *c != '(' && *c != ')')
        .collect();
    got.sort();
    want.sort();
    assert_eq!(got, want);
}

#[test]
fn prefix_keeps_every_token() {
    let out = infix_to_prefix("a+(b-(c+d))/e").unwrap();
    let mut got: Vec<char> = out.chars().collect();
    let mut want: Vec<char> = "a+(b-(c+d))/e"
        .chars()
        .filter(|c| *c != '(' && *c != ')')
        .collect();
    got.sort();
    want.sort();
    assert_eq!(got, want);
}

/// A standard stack evaluator for postfix strings over one-digit operands.
fn eval_postfix(expr: &str) -> i64 {
    let mut stack: Vec<i64> = Vec::new();
    for c in expr.chars() {
        if c.is_ascii_digit() {
            stack.push(i64::from(c.to_digit(10).unwrap()));
        } else {
            let b = stack.pop().unwrap();
            let a = stack.pop().unwrap();
            let v = match c {
                '+' => a + b,
                '-' => a - b,
                '*' => a * b,
                '/' => a / b,
                '%' => a % b,
                '^' => a.pow(b as u32),
                _ => panic!("unexpected token {}", c),
            };
            stack.push(v);
        }
    }
    assert_eq!(stack.len(), 1);
    stack[0]
}

#[test]
fn postfix_round_trip_evaluation() {
    // Each pair holds an infix expression over numeric literals and its
    // value; the postfix output must evaluate to the same number.
    // `^` is left-associative here, like every other operator.
    let cases = vec![
        ("1+2*3", 7),
        ("(8-3)*(6/2)", 15),
        ("9-4+2", 7),
        ("2^3^2", 64),
        ("7%4+1", 4),
        ("1+(2-(3+4))/5", 0),
    ];
    for (infix, value) in cases {
        let postfix = infix_to_postfix(infix).unwrap();
        assert_eq!(eval_postfix(&postfix), value, "expression {}", infix);
    }
}

#[test]
fn operator_classification() {
    for c in ['+', '-', '*', '/', '%', '^'] {
        assert!(is_operator(c));
    }
    for c in ['a', '(', ')', ' ', '1'] {
        assert!(!is_operator(c));
    }
}

#[test]
fn precedence_table() {
    assert_eq!(precedence('+'), 1);
    assert_eq!(precedence('-'), 1);
    assert_eq!(precedence('%'), 2);
    assert_eq!(precedence('*'), 3);
    assert_eq!(precedence('/'), 3);
    assert_eq!(precedence('^'), 4);
    assert_eq!(precedence('a'), 0);
    assert_eq!(precedence('('), 0);
    assert!(precedence('+') < precedence('%'));
    assert!(precedence('%') < precedence('*'));
    assert!(precedence('*') < precedence('^'));
}

#[test]
fn priority_ranks() {
    assert_eq!(Precedence::try_from('+').unwrap().get_priority(), 1);
    assert_eq!(Precedence::try_from('-').unwrap().get_priority(), 1);
    assert_eq!(Precedence::try_from('%').unwrap().get_priority(), 2);
    assert_eq!(Precedence::try_from('*').unwrap().get_priority(), 3);
    assert_eq!(Precedence::try_from('/').unwrap().get_priority(), 3);
    assert_eq!(Precedence::try_from('^').unwrap().get_priority(), 4);
    assert_eq!(Precedence::try_from('x'), Err(()));
}

#[test]
fn whitespace_passes_through_as_operand() {
    assert_eq!(infix_to_postfix("a + b").unwrap(), "a  b+");
}
