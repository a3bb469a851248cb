use beancode::lexer::Lexer;
use beancode::token::Keyword;
use beancode::token::Operator;
use beancode::token::Separator;
use beancode::token::Token;
use beancode::token::TokenVariant;
use beancode::value::BFloat;
use beancode::value::BInteger;
use beancode::value::BIntegerVariant;
use beancode::value::BObject;
use beancode::value::BString;
use beancode::value::LexError;

fn toks(src: &str) -> Vec<Token> {
    let mut lx = Lexer::new(String::from(src));
    lx.tokenize()
}

fn int_tok(v: BIntegerVariant, pos: usize) -> Token {
    Token::new(
        TokenVariant::Literal(BObject::Integer(BInteger::new(v))),
        pos,
    )
}

fn int_variant(src: &str) -> BIntegerVariant {
    let ts = toks(src);
    match &ts[0].variant {
        TokenVariant::Literal(BObject::Integer(b)) => b.inner.clone(),
        other => panic!("expected an integer literal, got {:?}", other),
    }
}

#[test]
fn empty_input_yields_single_eof_at_zero() {
    let ts = toks("");
    assert_eq!(ts, vec![Token::new(TokenVariant::Eof, 0)]);
}

#[test]
fn zero_is_unsigned_8() {
    let ts = toks("0");
    assert_eq!(ts[0], int_tok(BIntegerVariant::Uint8(0), 0));
    assert_eq!(ts[1], Token::new(TokenVariant::Eof, 0));
    assert_eq!(ts.len(), 2);
}

#[test]
fn three_hundred_is_unsigned_16() {
    assert_eq!(int_variant("300"), BIntegerVariant::Uint16(300));
}

#[test]
fn minus_five_is_signed_8() {
    assert_eq!(int_variant("-5"), BIntegerVariant::Int8(-5));
}

#[test]
fn float_literal_carries_cleaned_text() {
    let ts = toks("3.14");
    assert_eq!(
        ts[0],
        Token::new(
            TokenVariant::Literal(BObject::Float(BFloat::new(String::from("3.14")))),
            0
        )
    );
    match &ts[0].variant {
        TokenVariant::Literal(BObject::Float(f)) => {
            let parsed: f64 = f.inner.parse().unwrap();
            assert_eq!(parsed, 3.14f64);
        }
        other => panic!("expected a float literal, got {:?}", other),
    }
}

#[test]
fn two_decimal_points_yield_invalid() {
    let ts = toks("1.2.3");
    assert_eq!(ts[0], Token::new(TokenVariant::Invalid, 0));
    assert_eq!(ts.len(), 2);
}

#[test]
fn quoted_word_is_string_literal() {
    let ts = toks("\"hello\"");
    assert_eq!(
        ts[0],
        Token::new(
            TokenVariant::Literal(BObject::String(BString::new(String::from("hello")))),
            0
        )
    );
}

#[test]
fn unterminated_string_captures_to_word_end() {
    let ts = toks("\"abc");
    assert_eq!(
        ts[0],
        Token::new(
            TokenVariant::Literal(BObject::String(BString::new(String::from("abc")))),
            0
        )
    );
}

#[test]
fn declare_is_keyword() {
    let ts = toks("DECLARE");
    assert_eq!(ts[0], Token::new(TokenVariant::Keyword(Keyword::Declare), 0));
}

#[test]
fn unreserved_word_is_identifier() {
    let ts = toks("myVar");
    assert_eq!(
        ts[0],
        Token::new(TokenVariant::Ident(String::from("myVar")), 0)
    );
}

#[test]
fn every_reserved_word_is_recognized() {
    let table: Vec<(&str, Keyword)> = vec![
        ("DECLARE", Keyword::Declare),
        ("IF", Keyword::If),
        ("ELSE", Keyword::Else),
        ("ENDIF", Keyword::Endif),
        ("THEN", Keyword::Then),
        ("CASE", Keyword::Case),
        ("OF", Keyword::Of),
        ("FOR", Keyword::For),
        ("NEXT", Keyword::Next),
        ("TO", Keyword::To),
        ("REPEAT", Keyword::Repeat),
        ("UNTIL", Keyword::Until),
        ("WHILE", Keyword::While),
        ("ENDWHILE", Keyword::Endwhile),
        ("FUNCTION", Keyword::Function),
        ("ENDFUNCTION", Keyword::Endfunction),
        ("RETURN", Keyword::Return),
        ("OUTPUT", Keyword::Output),
        ("INPUT", Keyword::Input),
        ("CALL", Keyword::Call),
        ("TRUE", Keyword::True),
        ("FALSE", Keyword::False),
    ];
    for (text, kw) in table {
        let ts = toks(text);
        assert_eq!(ts[0], Token::new(TokenVariant::Keyword(kw), 0), "{}", text);
    }
}

#[test]
fn left_assign_and_less_eq_are_two_byte_operators() {
    let ts = toks("<-");
    assert_eq!(
        ts[0],
        Token::new(TokenVariant::Operator(Operator::LAssign), 0)
    );
    let ts = toks("<=");
    assert_eq!(ts[0], Token::new(TokenVariant::Operator(Operator::Leq), 0));
}

#[test]
fn lone_less_than_maps_to_greater_than() {
    let ts = toks("<");
    assert_eq!(ts[0], Token::new(TokenVariant::Operator(Operator::Gt), 0));
    let ts = toks("a < b");
    assert_eq!(ts[1], Token::new(TokenVariant::Operator(Operator::Gt), 2));
}

#[test]
fn remaining_two_byte_operators() {
    for (text, op) in vec![
        ("->", Operator::RAssign),
        ("<>", Operator::Neq),
        ("<<", Operator::Shl),
        (">>", Operator::Shr),
        (">=", Operator::Geq),
        ("**", Operator::Pow),
        ("//", Operator::FloorDiv),
    ] {
        let ts = toks(text);
        assert_eq!(ts[0], Token::new(TokenVariant::Operator(op), 0), "{}", text);
    }
}

#[test]
fn single_byte_operators_and_separators() {
    let ts = toks("+ - * / % = > ( ) [ ] { }");
    let expect = vec![
        TokenVariant::Operator(Operator::Add),
        TokenVariant::Operator(Operator::Sub),
        TokenVariant::Operator(Operator::Mul),
        TokenVariant::Operator(Operator::Div),
        TokenVariant::Operator(Operator::Mod),
        TokenVariant::Operator(Operator::Eq),
        TokenVariant::Operator(Operator::Gt),
        TokenVariant::Separator(Separator::LParen),
        TokenVariant::Separator(Separator::RParen),
        TokenVariant::Separator(Separator::LBracket),
        TokenVariant::Separator(Separator::RBracket),
        TokenVariant::Separator(Separator::LCurly),
        TokenVariant::Separator(Separator::RCurly),
    ];
    for (k, v) in expect.iter().enumerate() {
        assert_eq!(&ts[k].variant, v);
        assert_eq!(ts[k].pos, 2 * k);
    }
    assert_eq!(ts[expect.len()].variant, TokenVariant::Eof);
}

#[test]
fn block_comment_is_skipped_entirely() {
    let src = ";;; skip this ;;; DECLARE x";
    let ts = toks(src);
    assert_eq!(
        ts[0],
        Token::new(TokenVariant::Keyword(Keyword::Declare), 18)
    );
    assert_eq!(ts[1], Token::new(TokenVariant::Ident(String::from("x")), 26));
    assert_eq!(ts[2], Token::new(TokenVariant::Eof, 26));
    assert_eq!(ts.len(), 3);
}

#[test]
fn byte_after_block_comment_closer_is_skipped() {
    let ts = toks(";;;c;;;X");
    assert_eq!(ts, vec![Token::new(TokenVariant::Eof, 7)]);
}

#[test]
fn unclosed_block_comment_runs_to_buffer_end() {
    let ts = toks(";;; abc");
    assert_eq!(ts, vec![Token::new(TokenVariant::Eof, 6)]);
}

#[test]
fn line_comment_consumes_to_line_end() {
    let src = ";; rest of line\nDECLARE";
    let ts = toks(src);
    assert_eq!(
        ts[0],
        Token::new(TokenVariant::Keyword(Keyword::Declare), 16)
    );
    assert_eq!(ts[1], Token::new(TokenVariant::Eof, 22));
    assert_eq!(ts.len(), 2);
}

#[test]
fn line_comment_at_buffer_end_emits_nothing() {
    let ts = toks(";; only a comment");
    assert_eq!(ts, vec![Token::new(TokenVariant::Eof, 16)]);
}

#[test]
fn tokenize_is_idempotent_on_identical_input() {
    let src = "DECLARE x <- 3.14 ;; note\nOUTPUT \"done\" 1_000 -42";
    let a = toks(src);
    let b = toks(src);
    assert_eq!(a, b);
}

#[test]
fn output_always_ends_with_exactly_one_eof() {
    for src in vec!["", "a", "DECLARE x", ";;c", "\"s\" 3.3 -1", "< <= ;;;"] {
        let ts = toks(src);
        assert!(ts.len() >= 1);
        assert_eq!(ts.last().unwrap().variant, TokenVariant::Eof, "{}", src);
        let earlier = &ts[..ts.len() - 1];
        assert!(
            earlier.iter().all(|t| t.variant != TokenVariant::Eof),
            "{}",
            src
        );
    }
}

#[test]
fn minimal_width_escalation_points() {
    assert_eq!(int_variant("255"), BIntegerVariant::Uint8(255));
    assert_eq!(int_variant("256"), BIntegerVariant::Uint16(256));
    assert_eq!(int_variant("65535"), BIntegerVariant::Uint16(65535));
    assert_eq!(int_variant("65536"), BIntegerVariant::Uint32(65536));
    assert_eq!(int_variant("4294967295"), BIntegerVariant::Uint32(4294967295));
    assert_eq!(int_variant("4294967296"), BIntegerVariant::Uint64(4294967296));
    assert_eq!(
        int_variant("18446744073709551615"),
        BIntegerVariant::Uint64(18446744073709551615)
    );
    assert_eq!(
        int_variant("18446744073709551616"),
        BIntegerVariant::Uint128(18446744073709551616)
    );
    assert_eq!(
        int_variant("340282366920938463463374607431768211455"),
        BIntegerVariant::Uint128(u128::MAX)
    );
    assert_eq!(int_variant("-128"), BIntegerVariant::Int8(-128));
    assert_eq!(int_variant("-129"), BIntegerVariant::Int16(-129));
    assert_eq!(int_variant("-32768"), BIntegerVariant::Int16(-32768));
    assert_eq!(int_variant("-32769"), BIntegerVariant::Int32(-32769));
    assert_eq!(int_variant("-2147483648"), BIntegerVariant::Int32(-2147483648));
    assert_eq!(int_variant("-2147483649"), BIntegerVariant::Int64(-2147483649));
    assert_eq!(
        int_variant("-9223372036854775808"),
        BIntegerVariant::Int64(-9223372036854775808)
    );
    assert_eq!(
        int_variant("-9223372036854775809"),
        BIntegerVariant::Int128(-9223372036854775809)
    );
    assert_eq!(
        int_variant("-170141183460469231731687303715884105728"),
        BIntegerVariant::Int128(i128::MIN)
    );
}

#[test]
fn negative_zero_parses_as_unsigned_8() {
    assert_eq!(int_variant("-0"), BIntegerVariant::Uint8(0));
}

#[test]
fn digit_group_separators_are_stripped() {
    assert_eq!(int_variant("1_000"), BIntegerVariant::Uint16(1000));
    let ts = toks("1_0.2_5");
    assert_eq!(
        ts[0],
        Token::new(
            TokenVariant::Literal(BObject::Float(BFloat::new(String::from("10.25")))),
            0
        )
    );
}

#[test]
fn integer_past_128_bits_is_a_fatal_scan_error() {
    let mut lx = Lexer::new(String::from(
        "340282366920938463463374607431768211456",
    ));
    assert_eq!(lx.try_tokenize(), Err(LexError::IntegerOverflow));
    let mut lx = Lexer::new(String::from(
        "-170141183460469231731687303715884105729",
    ));
    assert_eq!(lx.try_tokenize(), Err(LexError::IntegerOverflow));
}

#[test]
fn numeric_word_with_stray_bytes_is_a_fatal_scan_error() {
    let mut lx = Lexer::new(String::from("5x"));
    assert_eq!(lx.try_tokenize(), Err(LexError::MalformedNumber));
    let mut lx = Lexer::new(String::from("-1-2"));
    assert_eq!(lx.try_tokenize(), Err(LexError::MalformedNumber));
}

#[test]
fn parse_from_string_selects_minimal_width() {
    assert_eq!(
        BInteger::parse_from_string("300").inner,
        BIntegerVariant::Uint16(300)
    );
    assert_eq!(
        BInteger::parse_from_string("-5").inner,
        BIntegerVariant::Int8(-5)
    );
    assert_eq!(
        BInteger::parse_from_string("0").inner,
        BIntegerVariant::Uint8(0)
    );
}

#[test]
fn assignment_statement_scans_as_expected() {
    let ts = toks("DECLARE count <- -42");
    assert_eq!(ts[0], Token::new(TokenVariant::Keyword(Keyword::Declare), 0));
    assert_eq!(
        ts[1],
        Token::new(TokenVariant::Ident(String::from("count")), 8)
    );
    assert_eq!(
        ts[2],
        Token::new(TokenVariant::Operator(Operator::LAssign), 14)
    );
    assert_eq!(ts[3], int_tok(BIntegerVariant::Int8(-42), 17));
    assert_eq!(ts[4], Token::new(TokenVariant::Eof, 19));
    assert_eq!(ts.len(), 5);
}

#[test]
fn string_literal_stops_at_closing_quote_within_word() {
    let ts = toks("\"ab\"cd");
    assert_eq!(
        ts[0],
        Token::new(
            TokenVariant::Literal(BObject::String(BString::new(String::from("ab")))),
            0
        )
    );
    assert_eq!(ts.len(), 2);
}

#[test]
fn constructors_carry_their_arguments() {
    let t = Token::new(TokenVariant::Unrecognized, 7);
    assert_eq!(t.pos, 7);
    assert_eq!(t.variant, TokenVariant::Unrecognized);
    let b = BInteger::new(BIntegerVariant::Int32(-7));
    assert_eq!(b.inner, BIntegerVariant::Int32(-7));
    let f = BFloat::new(String::from("2.5"));
    assert_eq!(f.inner, "2.5");
    let s = BString::new(String::from("abc"));
    assert_eq!(s, BString::new(String::from("abc")));
}
