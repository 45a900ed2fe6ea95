use dice_engine::expr::{parse_expression, DiceError, DiceExpression, Limits};

fn default_limits() -> Limits {
    Limits::default()
}

#[test]
fn two_d_six() {
    let r = parse_expression("2d6", &default_limits());
    assert_eq!(r, Ok(DiceExpression { count: 2, sides: 6 }));
}

#[test]
fn default_count_d_twenty() {
    let r = parse_expression("d20", &default_limits());
    assert_eq!(r, Ok(DiceExpression { count: 1, sides: 20 }));
}

#[test]
fn uppercase_separator() {
    let r = parse_expression("2D6", &default_limits());
    assert_eq!(r, Ok(DiceExpression { count: 2, sides: 6 }));
}

#[test]
fn bare_separator_is_invalid_sides() {
    let r = parse_expression("d", &default_limits());
    assert_eq!(r, Err(DiceError::InvalidSides));
}

#[test]
fn empty_input_is_invalid_sides() {
    let r = parse_expression("", &default_limits());
    assert_eq!(r, Err(DiceError::InvalidSides));
}

#[test]
fn alphabetic_count_is_invalid() {
    let r = parse_expression("abcd6", &default_limits());
    assert_eq!(r, Err(DiceError::InvalidCount));
}

#[test]
fn zero_count_is_invalid() {
    let r = parse_expression("0d6", &default_limits());
    assert_eq!(r, Err(DiceError::InvalidCount));
}

#[test]
fn missing_separator_is_malformed() {
    let r = parse_expression("2x6", &default_limits());
    assert_eq!(r, Err(DiceError::MalformedExpression));
}

#[test]
fn count_above_limit() {
    let r = parse_expression("101d6", &default_limits());
    assert_eq!(r, Err(DiceError::CountTooLarge));
}

#[test]
fn sides_above_limit() {
    let r = parse_expression("2d100001", &default_limits());
    assert_eq!(r, Err(DiceError::SidesTooLarge));
}

#[test]
fn one_sided_die_is_invalid() {
    let r = parse_expression("2d1", &default_limits());
    assert_eq!(r, Err(DiceError::InvalidSides));
}

#[test]
fn missing_sides_is_invalid() {
    let r = parse_expression("3d", &default_limits());
    assert_eq!(r, Err(DiceError::InvalidSides));
}

#[test]
fn alphabetic_sides_is_invalid() {
    let r = parse_expression("2dx", &default_limits());
    assert_eq!(r, Err(DiceError::InvalidSides));
}

#[test]
fn oversized_count_numeral() {
    let r = parse_expression("99999999999999999999d6", &default_limits());
    assert_eq!(r, Err(DiceError::CountTooLarge));
}

#[test]
fn oversized_sides_numeral() {
    let r = parse_expression("1d99999999999999999999", &default_limits());
    assert_eq!(r, Err(DiceError::SidesTooLarge));
}

#[test]
fn leading_zeros_are_accepted() {
    let r = parse_expression("007d06", &default_limits());
    assert_eq!(r, Ok(DiceExpression { count: 7, sides: 6 }));
}

#[test]
fn second_separator_spoils_sides() {
    let r = parse_expression("2d6d6", &default_limits());
    assert_eq!(r, Err(DiceError::InvalidSides));
}

#[test]
fn largest_default_request_is_accepted() {
    let r = parse_expression("100d100000", &default_limits());
    assert_eq!(r, Ok(DiceExpression { count: 100, sides: 100000 }));
}

#[test]
fn parsing_twice_yields_identical_expressions() {
    let limits = default_limits();
    let first = parse_expression("4d12", &limits);
    let second = parse_expression("4d12", &limits);
    assert_eq!(first, second);
    assert_eq!(first, Ok(DiceExpression { count: 4, sides: 12 }));
}

#[test]
fn custom_limits_are_enforced() {
    let limits = Limits { max_count: 2, max_sides: 10 };
    assert_eq!(
        parse_expression("3d6", &limits),
        Err(DiceError::CountTooLarge)
    );
    assert_eq!(
        parse_expression("2d11", &limits),
        Err(DiceError::SidesTooLarge)
    );
    assert_eq!(
        parse_expression("2d10", &limits),
        Ok(DiceExpression { count: 2, sides: 10 })
    );
}

#[test]
fn default_limits_values() {
    let limits = Limits::default();
    assert_eq!(limits.max_count, 100);
    assert_eq!(limits.max_sides, 100000);
}
