//! Tokens: literal forms and ranges, reserved words, operators, and errors.

use snacc_compiler::ast::NumLiteral;
use snacc_compiler::lexer::{lex, Lexed, Operator, Token};
use snacc_compiler::{parse, DiagnosticPhase};

fn lexed(source: &str) -> Lexed {
    let chars: Vec<char> = source.chars().collect();
    lex(&chars)
}

fn tokens(source: &str) -> Vec<Token> {
    let l = lexed(source);
    assert!(l.errors.is_empty(), "unexpected lex errors for {source}: {:?}", l.errors);
    l.tokens.into_iter().map(|(t, _)| t).collect()
}

fn same(actual: Vec<Token>, expected: Vec<Token>) {
    assert_eq!(format!("{actual:?}"), format!("{expected:?}"));
}

fn lex_failing(source: &str) -> Vec<(String, (usize, usize))> {
    lexed(source).errors.into_iter().map(|(span, message)| (message, (span.start, span.end))).collect()
}

fn num(source: &str) -> NumLiteral {
    let t = tokens(source);
    match t.as_slice() {
        [Token::Num(literal)] => literal.clone(),
        other => panic!("expected one numeric token for {source}, got: {other:?}"),
    }
}

fn f32_of(literal: NumLiteral) -> f32 {
    match literal {
        NumLiteral::F32(text) => text.parse::<f32>().expect("the digits of a Float32 literal"),
        other => panic!("expected a Float32 literal, got {other:?}"),
    }
}

fn dec_of(literal: NumLiteral) -> f64 {
    match literal {
        NumLiteral::Dec(text) => text.parse::<f64>().expect("the digits of a Dec64 literal"),
        other => panic!("expected a Dec64 literal, got {other:?}"),
    }
}

fn ident(name: &str) -> Token {
    Token::Ident(name.to_string())
}

#[test]
fn lexes_zero_and_the_maximum_for_every_unsigned_width() {
    assert!(matches!(num("0u8"), NumLiteral::U8(0)));
    assert!(matches!(num("255u8"), NumLiteral::U8(u8::MAX)));
    assert!(matches!(num("0u16"), NumLiteral::U16(0)));
    assert!(matches!(num("65535u16"), NumLiteral::U16(u16::MAX)));
    assert!(matches!(num("0u32"), NumLiteral::U32(0)));
    assert!(matches!(num("4294967295u32"), NumLiteral::U32(u32::MAX)));
    assert!(matches!(num("0u64"), NumLiteral::U64(0)));
    assert!(matches!(num("18446744073709551615u64"), NumLiteral::U64(u64::MAX)));
}

#[test]
fn rejects_one_above_the_maximum_for_every_unsigned_width() {
    for (source, ty) in [
        ("256u8", "UInt8"),
        ("65536u16", "UInt16"),
        ("4294967296u32", "UInt32"),
        ("18446744073709551616u64", "UInt64"),
    ] {
        let errors = lex_failing(source);
        assert!(
            errors.iter().any(|(message, _)| message.contains(source) && message.contains(ty)),
            "expected an out-of-range error naming {source} and {ty}, got: {errors:?}"
        );
    }
}

#[test]
fn lexes_float32_with_and_without_a_fractional_part() {
    assert_eq!(f32_of(num("0f32")), 0.0);
    assert_eq!(f32_of(num("1f32")), 1.0);
    assert_eq!(f32_of(num("1.5f32")), 1.5);
}

#[test]
fn a_float32_literal_is_rounded_to_the_nearest_binary32_value() {
    assert_eq!(f32_of(num("0.1f32")), "0.1".parse::<f32>().expect("0.1 parses as f32"));
    assert_eq!(f32_of(num("16777217f32")), 16_777_216.0);
}

#[test]
fn rejects_a_float32_literal_that_rounds_to_infinity() {
    let source = "999999999999999999999999999999999999999999f32";
    let errors = lex_failing(source);
    assert!(
        errors.iter().any(|(message, _)| message.contains("Float32") && message.contains("out of range")),
        "expected a Float32 range error, got: {errors:?}"
    );
}

#[test]
fn a_malformed_suffix_is_one_invalid_token_not_a_number_and_an_identifier() {
    for source in ["1u9", "1u8x", "1f64", "1.0u8", "1u8_", "12.5f64"] {
        let errors = lex_failing(source);
        assert_eq!(errors.len(), 1, "expected exactly one error for {source}, got: {errors:?}");
        let (message, span) = &errors[0];
        assert!(message.contains(source), "error for {source} should name the complete token, got: {message}");
        assert_eq!(*span, (0, source.len()), "the error for {source} should span the whole token");
    }
}

#[test]
fn suffix_spellings_stay_ordinary_identifiers_away_from_digits() {
    same(tokens("u8"), vec![ident("u8")]);
    same(tokens("f32"), vec![ident("f32")]);
    same(tokens("1 u8"), vec![Token::Num(NumLiteral::Int(1)), ident("u8")]);
}

#[test]
fn the_new_type_names_are_reserved_words() {
    same(
        tokens("UInt8 UInt16 UInt32 UInt64 Float32"),
        vec![Token::TyUInt8, Token::TyUInt16, Token::TyUInt32, Token::TyUInt64, Token::TyFloat32],
    );
}

#[test]
fn unsuffixed_literals_keep_their_existing_types() {
    assert!(matches!(num("7"), NumLiteral::Int(7)));
    assert_eq!(dec_of(num("7.5")), 7.5);
    assert!(matches!(num("9223372036854775807"), NumLiteral::Int(i64::MAX)));
}

#[test]
fn break_lexes_to_its_own_token() {
    same(tokens("break"), vec![Token::Break]);
}

#[test]
fn break_is_unavailable_as_an_identifier_regardless_of_context() {
    same(
        tokens("while break do break end"),
        vec![Token::While, Token::Break, Token::Do, Token::Break, Token::End],
    );
}

#[test]
fn the_nominal_type_keywords_are_reserved_words() {
    same(
        tokens("type is struct union method self mut"),
        vec![Token::Type, Token::Is, Token::Struct, Token::Union, Token::Method, Token::SelfKw, Token::Mut],
    );
}

#[test]
fn ref_is_reserved_and_type_brackets_lex_one_at_a_time() {
    same(
        tokens("Ref<Ref<Int64>>"),
        vec![
            Token::Ref,
            Token::Op(Operator::Less),
            Token::Ref,
            Token::Op(Operator::Less),
            Token::TyInt64,
            Token::Op(Operator::Greater),
            Token::Op(Operator::Greater),
        ],
    );
}

#[test]
fn two_character_comparisons_still_lex_as_one_token() {
    same(
        tokens("a == b != c <= d >= e"),
        vec![
            ident("a"),
            Token::Op(Operator::EqEq),
            ident("b"),
            Token::Op(Operator::NotEq),
            ident("c"),
            Token::Op(Operator::LessEq),
            ident("d"),
            Token::Op(Operator::GreaterEq),
            ident("e"),
        ],
    );
}

#[test]
fn member_selection_and_union_bars_lex_as_control_characters() {
    same(
        tokens("a.b | c"),
        vec![ident("a"), Token::Ctrl('.'), ident("b"), Token::Ctrl('|'), ident("c")],
    );
}

#[test]
fn a_decimal_literal_still_munches_its_own_point() {
    let t = tokens("1.5");
    assert_eq!(t.len(), 1);
    match &t[0] {
        Token::Num(NumLiteral::Dec(text)) => assert_eq!(text.parse::<f64>().unwrap(), 1.5),
        other => panic!("expected one decimal literal, got {other:?}"),
    }
}

#[test]
fn semicolon_is_a_lex_error() {
    let errors = lex_failing("let x: Int64 = 1;");
    assert!(!errors.is_empty(), "expected a lex error for a bare semicolon");
    assert!(
        errors.iter().any(|(message, _)| message.contains("';'")),
        "expected the error to name the semicolon, got: {errors:?}"
    );
}

#[test]
fn semicolon_is_a_lex_error_via_parse_entrypoint() {
    let diagnostics = parse("let x: Int64 = 1;")
        .err()
        .expect("snacc has no semicolon syntax; `parse` should report a diagnostic");
    let diagnostic = diagnostics.first().expect("expected at least one diagnostic");
    assert_eq!(diagnostic.phase, DiagnosticPhase::Lex);
}

#[test]
fn lexing_continues_past_an_error_and_reports_each_bad_token() {
    let errors = lex_failing("1u9 + 2u9");
    assert_eq!(errors.len(), 2, "{errors:?}");
    assert_eq!(errors[0].1, (0, 3));
    assert_eq!(errors[1].1, (6, 9));
}

#[test]
fn comments_and_whitespace_only_separate_tokens() {
    same(tokens("a // trailing words\nb"), vec![ident("a"), ident("b")]);
}

#[test]
fn lex_error_spans_are_reported_in_bytes_through_parse() {
    let diagnostics = parse("// α\n;").err().expect("a semicolon is a lex error");
    assert_eq!(diagnostics.items.len(), 1);
    let first = diagnostics.first().expect("one diagnostic");
    assert_eq!(first.span, Some(6..7), "the span counts the two bytes of 'α'");
}

#[test]
fn replacing_whitespace_keeps_every_token_in_place() {
    let spans = |source: &str| -> Vec<(usize, usize)> {
        lexed(source).tokens.iter().map(|(_, span)| (span.start, span.end)).collect()
    };
    let one_line = "let x: Int64 = 10 print(x)";
    let multi_line = "let x: Int64 = 10\nprint(x)";
    assert_eq!(spans(one_line), spans(multi_line));
    assert_eq!(format!("{:?}", tokens(one_line)), format!("{:?}", tokens(multi_line)));
    assert_eq!(spans("a\tb\u{3000}c"), vec![(0, 1), (2, 3), (4, 5)]);
}
