use glitch::parser::shunting_yard;
use glitch::token::{ParseError, Token};

#[test]
fn test_simple_expression() {
    let input = "3+5";
    let expected = Ok(vec![Token::Num(3), Token::Num(5), Token::Add]);
    assert_eq!(shunting_yard(input), expected);
}

#[test]
fn test_invalid_character() {
    let input = "3$5";
    assert!(shunting_yard(input).is_err());
}

#[test]
fn test_number_exceeds_255() {
    let input = "256";
    assert!(shunting_yard(input).is_err());
}

#[test]
fn test_mixed_operators() {
    let input = "3+5*2";
    let expected = Ok(vec![
        Token::Num(3),
        Token::Num(5),
        Token::Num(2),
        Token::Mul,
        Token::Add,
    ]);
    assert_eq!(shunting_yard(input), expected);
}

#[test]
fn test_parentheses() {
    let input = "(3+5)*2";
    let expected = Ok(vec![
        Token::Num(3),
        Token::Num(5),
        Token::Add,
        Token::Num(2),
        Token::Mul,
    ]);
    assert_eq!(shunting_yard(input), expected);
}

#[test]
fn test_mismatched_parentheses() {
    let input = "(3+5*2";
    assert!(shunting_yard(input).is_err());
}

#[test]
fn test_valid_characters() {
    let input = "c+Y";
    let expected = Ok(vec![Token::Char('c'), Token::Char('Y'), Token::Add]);
    assert_eq!(shunting_yard(input), expected);
}

#[test]
fn test_complete_expression() {
    let input = "3 + 5 / (2 - 1) * 4";
    let expected = Ok(vec![
        Token::Num(3),
        Token::Num(5),
        Token::Num(2),
        Token::Num(1),
        Token::Sub,
        Token::Div,
        Token::Num(4),
        Token::Mul,
        Token::Add,
    ]);
    assert_eq!(shunting_yard(input), expected);
}

#[test]
fn test_number_too_large_position() {
    assert_eq!(
        shunting_yard("256"),
        Err(ParseError::NumberTooLarge { position: 3 })
    );
    assert_eq!(
        shunting_yard("1+999"),
        Err(ParseError::NumberTooLarge { position: 5 })
    );
}

#[test]
fn test_invalid_character_position() {
    assert_eq!(
        shunting_yard("3$5"),
        Err(ParseError::InvalidCharacter {
            character: '$',
            position: 2
        })
    );
}

#[test]
fn test_random_default_radius() {
    assert_eq!(shunting_yard("r"), Ok(vec![Token::Random(1)]));
    assert_eq!(shunting_yard("r17"), Ok(vec![Token::Random(17)]));
}

#[test]
fn test_random_radius_zero_rejected() {
    assert_eq!(shunting_yard("r0"), Err(ParseError::ZeroRange));
    assert_eq!(shunting_yard("r000"), Err(ParseError::ZeroRange));
}

#[test]
fn test_random_radius_too_large() {
    assert_eq!(
        shunting_yard("r300"),
        Err(ParseError::InvalidValue { position: 4 })
    );
}

#[test]
fn test_channel_literal_defaults() {
    assert_eq!(shunting_yard("R"), Ok(vec![Token::RGBColor('R', 255)]));
    assert_eq!(shunting_yard("G10"), Ok(vec![Token::RGBColor('G', 10)]));
    assert_eq!(shunting_yard("B0"), Ok(vec![Token::RGBColor('B', 0)]));
}

#[test]
fn test_brightness_literal() {
    assert_eq!(shunting_yard("b"), Ok(vec![Token::Brightness(255)]));
    assert_eq!(shunting_yard("b64"), Ok(vec![Token::Brightness(64)]));
    assert_eq!(
        shunting_yard("b999"),
        Err(ParseError::InvalidValue { position: 4 })
    );
}

#[test]
fn test_stray_closing_paren() {
    assert_eq!(
        shunting_yard("3+5)"),
        Err(ParseError::MismatchedParenthesis)
    );
}

#[test]
fn test_leading_zeros_literal() {
    assert_eq!(shunting_yard("0001"), Ok(vec![Token::Num(1)]));
}

#[test]
fn test_invert_does_not_flush_pending_literal() {
    // `i` and the variable characters push straight to the output while a
    // pending literal waits for its flush boundary
    assert_eq!(
        shunting_yard("3i"),
        Ok(vec![Token::Invert, Token::Num(3)])
    );
    assert_eq!(
        shunting_yard("3c"),
        Ok(vec![Token::Char('c'), Token::Num(3)])
    );
}

#[test]
fn test_all_operator_characters() {
    for (ch, tok) in [
        ('+', Token::Add),
        ('-', Token::Sub),
        ('*', Token::Mul),
        ('/', Token::Div),
        ('%', Token::Mod),
        ('#', Token::Pow),
        ('&', Token::BitAnd),
        ('|', Token::BitOr),
        (':', Token::BitAndNot),
        ('^', Token::BitXor),
        ('<', Token::BitLShift),
        ('>', Token::BitRShift),
        ('?', Token::Greater),
        ('@', Token::Weight),
    ] {
        let input = format!("1{}2", ch);
        assert_eq!(
            shunting_yard(&input),
            Ok(vec![Token::Num(1), Token::Num(2), tok]),
            "operator {}",
            ch
        );
    }
}

#[test]
fn test_equal_precedence_is_left_associative() {
    assert_eq!(
        shunting_yard("1-2+3"),
        Ok(vec![
            Token::Num(1),
            Token::Num(2),
            Token::Sub,
            Token::Num(3),
            Token::Add,
        ])
    );
}
