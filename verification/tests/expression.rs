use rslogo::error::ErrorKind;
use rslogo::expression::{evaluate_polish, Answer, Evaluation, Operation, Request};

fn words(items: &[&str]) -> Vec<String> {
    items.iter().map(|s| s.to_string()).collect()
}

/// Works out what a request asks for, with 32-bit floating-point numbers.
fn answer(request: &Request) -> Answer {
    match request {
        Request::Canonical(text) => match text.parse::<f32>() {
            Ok(value) => Answer::Number(value.to_string()),
            Err(_) => Answer::NotANumber,
        },
        Request::Arithmetic(operation, left, right) => {
            match (left.parse::<f32>(), right.parse::<f32>()) {
                (Ok(a), Ok(b)) => match operation {
                    Operation::GreaterThan => Answer::Truth(a > b),
                    Operation::LessThan => Answer::Truth(a < b),
                    Operation::Add => Answer::Number((a + b).to_string()),
                    Operation::Sub => Answer::Number((a - b).to_string()),
                    Operation::Mul => Answer::Number((a * b).to_string()),
                    Operation::Div => {
                        if b == 0.0 {
                            Answer::ZeroDivisor
                        } else {
                            Answer::Number((a / b).to_string())
                        }
                    }
                    _ => Answer::NotANumber,
                },
                _ => Answer::NotANumber,
            }
        }
        Request::Travel { .. } => Answer::NotANumber,
    }
}

/// Evaluates tokens to the end, answering every request on the way.
fn evaluate(items: &[&str]) -> Result<Vec<String>, ErrorKind> {
    let mut answers: Vec<Answer> = Vec::new();
    loop {
        match evaluate_polish(words(items), &answers)? {
            Evaluation::Complete(tokens, used) => {
                assert_eq!(used, answers.len());
                return Ok(tokens);
            }
            Evaluation::Pending(request) => answers.push(answer(&request)),
        }
    }
}

#[test]
fn equal_tokens_are_true() {
    assert_eq!(evaluate(&["EQ", "1", "1"]), Ok(words(&["TRUE"])));
}

#[test]
fn sum_of_two_and_three() {
    assert_eq!(evaluate(&["+", "2", "3"]), Ok(words(&["5"])));
}

#[test]
fn division_by_zero_fails() {
    assert_eq!(evaluate(&["/", "4", "0"]), Err(ErrorKind::DivisionByZero));
}

#[test]
fn nested_and_or() {
    assert_eq!(
        evaluate(&["AND", "TRUE", "OR", "TRUE", "FALSE"]),
        Ok(words(&["TRUE"]))
    );
}

#[test]
fn tokens_without_operator_stay() {
    assert_eq!(evaluate(&[]), Ok(words(&[])));
    assert_eq!(evaluate(&["TRUE", "["]), Ok(words(&["TRUE", "["])));
    assert_eq!(evaluate(&["x", "12", "y"]), Ok(words(&["x", "12", "y"])));
}

#[test]
fn comparisons_of_text() {
    assert_eq!(evaluate(&["EQ", "1", "1.0"]), Ok(words(&["FALSE"])));
    assert_eq!(evaluate(&["NE", "1", "1.0"]), Ok(words(&["TRUE"])));
    assert_eq!(evaluate(&["NE", "a", "a"]), Ok(words(&["FALSE"])));
    assert_eq!(evaluate(&["EQ", "TRUE", "FALSE"]), Ok(words(&["FALSE"])));
}

#[test]
fn comparisons_of_numbers() {
    assert_eq!(evaluate(&["GT", "2", "10"]), Ok(words(&["FALSE"])));
    assert_eq!(evaluate(&["GT", "10", "2"]), Ok(words(&["TRUE"])));
    assert_eq!(evaluate(&["LT", "2", "10"]), Ok(words(&["TRUE"])));
    assert_eq!(evaluate(&["LT", "2", "2.0"]), Ok(words(&["FALSE"])));
    assert_eq!(evaluate(&["GT", "two", "1"]), Err(ErrorKind::NotANumber));
    assert_eq!(evaluate(&["LT", "1", "TRUE"]), Err(ErrorKind::NotANumber));
}

#[test]
fn arithmetic_keeps_operand_order() {
    assert_eq!(evaluate(&["-", "5", "3"]), Ok(words(&["2"])));
    assert_eq!(evaluate(&["-", "3", "5"]), Ok(words(&["-2"])));
    assert_eq!(evaluate(&["/", "1", "4"]), Ok(words(&["0.25"])));
    assert_eq!(evaluate(&["/", "0", "4"]), Ok(words(&["0"])));
    assert_eq!(evaluate(&["*", "1.5", "-2"]), Ok(words(&["-3"])));
    assert_eq!(evaluate(&["+", "0.5", "0.25"]), Ok(words(&["0.75"])));
    assert_eq!(evaluate(&["+", "a", "1"]), Err(ErrorKind::NotANumber));
    assert_eq!(evaluate(&["*", "1", ""]), Err(ErrorKind::NotANumber));
    assert_eq!(evaluate(&["/", "x", "0"]), Err(ErrorKind::NotANumber));
    assert_eq!(evaluate(&["/", "0", "-0"]), Err(ErrorKind::DivisionByZero));
}

#[test]
fn truth_values_must_be_exact() {
    assert_eq!(evaluate(&["AND", "TRUE", "TRUE"]), Ok(words(&["TRUE"])));
    assert_eq!(evaluate(&["AND", "TRUE", "FALSE"]), Ok(words(&["FALSE"])));
    assert_eq!(evaluate(&["OR", "FALSE", "FALSE"]), Ok(words(&["FALSE"])));
    assert_eq!(evaluate(&["OR", "FALSE", "TRUE"]), Ok(words(&["TRUE"])));
    assert_eq!(evaluate(&["AND", "true", "TRUE"]), Err(ErrorKind::NotABoolean));
    assert_eq!(evaluate(&["OR", "TRUE", "1"]), Err(ErrorKind::NotABoolean));
}

#[test]
fn nested_expressions() {
    assert_eq!(evaluate(&["+", "*", "2", "3", "4"]), Ok(words(&["10"])));
    assert_eq!(evaluate(&["+", "2", "*", "3", "4"]), Ok(words(&["14"])));
    assert_eq!(evaluate(&["-", "-", "10", "3", "2"]), Ok(words(&["5"])));
    assert_eq!(evaluate(&["-", "10", "-", "3", "2"]), Ok(words(&["9"])));
    assert_eq!(
        evaluate(&["AND", "GT", "3", "2", "EQ", "+", "1", "1", "2"]),
        Ok(words(&["TRUE"]))
    );
    assert_eq!(
        evaluate(&["OR", "AND", "TRUE", "FALSE", "LT", "1", "2"]),
        Ok(words(&["TRUE"]))
    );
}

#[test]
fn value_takes_the_place_of_the_expression() {
    assert_eq!(evaluate(&["x", "+", "1", "2"]), Ok(words(&["x", "3"])));
    assert_eq!(evaluate(&["EQ", "1", "1", "["]), Ok(words(&["TRUE", "["])));
    assert_eq!(
        evaluate(&["a", "b", "+", "1", "2", "c", "d"]),
        Ok(words(&["a", "b", "3", "c", "d"]))
    );
    assert_eq!(evaluate(&["+", "1", "2", "z"]), Ok(words(&["3", "z"])));
}

#[test]
fn wrong_operand_counts_fail() {
    assert_eq!(evaluate(&["+"]), Err(ErrorKind::MalformedExpression));
    assert_eq!(evaluate(&["+", "1"]), Err(ErrorKind::MalformedExpression));
    assert_eq!(evaluate(&["x", "EQ"]), Err(ErrorKind::MalformedExpression));
    assert_eq!(evaluate(&["+", "+", "1", "2"]), Err(ErrorKind::MalformedExpression));
    // a second expression after a full one leaves two values
    assert_eq!(
        evaluate(&["EQ", "a", "a", "EQ", "b", "b"]),
        Err(ErrorKind::MalformedExpression)
    );
    assert_eq!(
        evaluate(&["+", "1", "2", "x", "OR"]),
        Err(ErrorKind::MalformedExpression)
    );
}

#[test]
fn bracket_fills_a_place_without_a_value() {
    assert_eq!(evaluate(&["EQ", "1", "["]), Err(ErrorKind::MalformedExpression));
    assert_eq!(evaluate(&["EQ", "[", "1"]), Err(ErrorKind::MalformedExpression));
    assert_eq!(evaluate(&["AND", "["]), Err(ErrorKind::MalformedExpression));
    assert_eq!(
        evaluate(&["+", "[", "1", "2"]),
        Err(ErrorKind::MalformedExpression)
    );
}

#[test]
fn operator_errors_come_before_the_count() {
    // the reduction starts at the end: the sum fails before the lone EQ is reached
    assert_eq!(evaluate(&["EQ", "+", "a", "1"]), Err(ErrorKind::NotANumber));
    assert_eq!(evaluate(&["EQ", "AND", "a", "1"]), Err(ErrorKind::NotABoolean));
}

#[test]
fn requests_come_in_the_order_of_the_reduction() {
    let tokens = ["+", "*", "2", "3", "-", "9", "4"];
    assert_eq!(
        evaluate_polish(words(&tokens), &[]),
        Ok(Evaluation::Pending(Request::Arithmetic(
            Operation::Sub,
            "9".to_string(),
            "4".to_string()
        )))
    );
    let one = [Answer::Number("5".to_string())];
    assert_eq!(
        evaluate_polish(words(&tokens), &one),
        Ok(Evaluation::Pending(Request::Arithmetic(
            Operation::Mul,
            "2".to_string(),
            "3".to_string()
        )))
    );
    let two = [
        Answer::Number("5".to_string()),
        Answer::Number("6".to_string()),
    ];
    assert_eq!(
        evaluate_polish(words(&tokens), &two),
        Ok(Evaluation::Pending(Request::Arithmetic(
            Operation::Add,
            "6".to_string(),
            "5".to_string()
        )))
    );
    let three = [
        Answer::Number("5".to_string()),
        Answer::Number("6".to_string()),
        Answer::Number("11".to_string()),
        Answer::Number("unread".to_string()),
    ];
    assert_eq!(
        evaluate_polish(words(&tokens), &three),
        Ok(Evaluation::Complete(words(&["11"]), 3))
    );
}

#[test]
fn text_operations_need_no_answer() {
    assert_eq!(
        evaluate_polish(words(&["x", "AND", "TRUE", "EQ", "a", "b"]), &[]),
        Ok(Evaluation::Complete(words(&["x", "FALSE"]), 0))
    );
}

#[test]
fn answers_decide_the_number_operations() {
    let over = Operation::Div;
    assert_eq!(
        over.operate("1", "2", Some(&Answer::Number("0.5".to_string()))),
        Ok("0.5".to_string())
    );
    assert_eq!(
        over.operate("1", "0", Some(&Answer::ZeroDivisor)),
        Err(ErrorKind::DivisionByZero)
    );
    assert_eq!(
        over.operate("1", "x", Some(&Answer::NotANumber)),
        Err(ErrorKind::NotANumber)
    );
    assert_eq!(over.operate("1", "2", None), Err(ErrorKind::NotANumber));
    assert_eq!(
        over.operate("1", "2", Some(&Answer::Truth(true))),
        Err(ErrorKind::NotANumber)
    );
    for operation in [Operation::Add, Operation::Sub, Operation::Mul] {
        assert_eq!(
            operation.operate("1", "2", Some(&Answer::Number("9".to_string()))),
            Ok("9".to_string())
        );
        assert_eq!(
            operation.operate("1", "2", Some(&Answer::ZeroDivisor)),
            Err(ErrorKind::NotANumber)
        );
        assert_eq!(
            operation.operate("1", "2", Some(&Answer::Truth(true))),
            Err(ErrorKind::NotANumber)
        );
    }
    for operation in [Operation::GreaterThan, Operation::LessThan] {
        assert_eq!(
            operation.operate("1", "2", Some(&Answer::Truth(true))),
            Ok("TRUE".to_string())
        );
        assert_eq!(
            operation.operate("1", "2", Some(&Answer::Truth(false))),
            Ok("FALSE".to_string())
        );
        assert_eq!(
            operation.operate("1", "2", Some(&Answer::Number("1".to_string()))),
            Err(ErrorKind::NotANumber)
        );
        assert_eq!(
            operation.operate("1", "2", Some(&Answer::Position("1".to_string(), "2".to_string()))),
            Err(ErrorKind::NotANumber)
        );
    }
    // the operations on text do not read the answer
    assert_eq!(
        Operation::Equal.operate("a", "a", Some(&Answer::NotANumber)),
        Ok("TRUE".to_string())
    );
    assert_eq!(
        Operation::NotEqual.operate("a", "a", None),
        Ok("FALSE".to_string())
    );
    assert_eq!(
        Operation::And.operate("TRUE", "x", None),
        Err(ErrorKind::NotABoolean)
    );
    assert_eq!(
        Operation::Or.operate("TRUE", "FALSE", Some(&Answer::Truth(false))),
        Ok("TRUE".to_string())
    );
}

#[test]
fn operators_by_name() {
    let names = [
        ("EQ", Operation::Equal),
        ("NE", Operation::NotEqual),
        ("GT", Operation::GreaterThan),
        ("LT", Operation::LessThan),
        ("AND", Operation::And),
        ("OR", Operation::Or),
        ("+", Operation::Add),
        ("-", Operation::Sub),
        ("*", Operation::Mul),
        ("/", Operation::Div),
    ];
    for (name, operation) in names {
        assert_eq!(Operation::from_token(name), Some(operation));
    }
    for other in ["", "eq", "[", "++", "E", "EQ ", "1"] {
        assert_eq!(Operation::from_token(other), None);
    }
    assert!(Operation::Add.is_arithmetic());
    assert!(Operation::Sub.is_arithmetic());
    assert!(Operation::Mul.is_arithmetic());
    assert!(Operation::Div.is_arithmetic());
    assert!(Operation::GreaterThan.is_arithmetic());
    assert!(Operation::LessThan.is_arithmetic());
    assert!(!Operation::Equal.is_arithmetic());
    assert!(!Operation::NotEqual.is_arithmetic());
    assert!(!Operation::And.is_arithmetic());
    assert!(!Operation::Or.is_arithmetic());
}

#[test]
fn truth_values_by_name() {
    assert_eq!(Operation::to_bool("TRUE"), Ok(true));
    assert_eq!(Operation::to_bool("FALSE"), Ok(false));
    assert_eq!(Operation::to_bool("True"), Err(ErrorKind::NotABoolean));
    assert_eq!(Operation::to_bool(""), Err(ErrorKind::NotABoolean));
}
