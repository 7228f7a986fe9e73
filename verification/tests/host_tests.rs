use luavm::host::{FloatAnswers, FloatOp};

#[test]
fn nothing_is_answered_at_first() {
    let answers = FloatAnswers::new();
    assert_eq!(answers.arith(FloatOp::Add, 1, 2), None);
    assert_eq!(answers.parsed(&"1".to_string()), None);
    assert_eq!(answers.formatted(1), None);
}

#[test]
fn an_answer_is_found_under_exactly_what_was_asked() {
    let mut answers = FloatAnswers::new();
    answers.record_arith(FloatOp::Add, 1, 2, 3);
    answers.record_arith(FloatOp::Sub, 1, 2, 4);
    answers.record_arith(FloatOp::Add, 2, 1, 5);
    assert_eq!(answers.arith(FloatOp::Add, 1, 2), Some(3));
    assert_eq!(answers.arith(FloatOp::Sub, 1, 2), Some(4));
    assert_eq!(answers.arith(FloatOp::Add, 2, 1), Some(5));
    assert_eq!(answers.arith(FloatOp::Mul, 1, 2), None);
    assert_eq!(answers.arith(FloatOp::Add, 1, 3), None);
}

#[test]
fn a_later_answer_takes_the_place_of_an_earlier_one() {
    let mut answers = FloatAnswers::new();
    answers.record_arith(FloatOp::Div, 1, 2, 3);
    answers.record_arith(FloatOp::Div, 1, 2, 9);
    assert_eq!(answers.arith(FloatOp::Div, 1, 2), Some(9));
    answers.record_parse("x".to_string(), None);
    answers.record_parse("x".to_string(), Some(7));
    assert_eq!(answers.parsed(&"x".to_string()), Some(Some(7)));
    answers.record_format(5, "five".to_string());
    answers.record_format(5, "5".to_string());
    assert_eq!(answers.formatted(5), Some("5".to_string()));
}

#[test]
fn readings_and_texts_are_kept_apart() {
    let mut answers = FloatAnswers::new();
    answers.record_parse("1.5".to_string(), Some(1.5f64.to_bits()));
    answers.record_parse("no".to_string(), None);
    answers.record_format(1.5f64.to_bits(), "1.5".to_string());
    answers.record_format(2.5f64.to_bits(), "2.5".to_string());
    assert_eq!(answers.parsed(&"1.5".to_string()), Some(Some(1.5f64.to_bits())));
    assert_eq!(answers.parsed(&"no".to_string()), Some(None));
    assert_eq!(answers.parsed(&"2.5".to_string()), None);
    assert_eq!(answers.formatted(1.5f64.to_bits()), Some("1.5".to_string()));
    assert_eq!(answers.formatted(2.5f64.to_bits()), Some("2.5".to_string()));
    assert_eq!(answers.formatted(3.5f64.to_bits()), None);
    assert_eq!(answers.arith(FloatOp::Add, 1.5f64.to_bits(), 2.5f64.to_bits()), None);
}
