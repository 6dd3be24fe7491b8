use sexpr::lexer::{do_nothing, lexer, tag_add, LexError, Token};
use sexpr::parser::{
    parse_expr, parse_integer, parse_list, parse_symbol, read, tag_integer, tag_lparan,
    tag_rparan, tag_symbol, CustomParserError, Expr, ReadError, Tokens,
};

#[test]
fn read_test() {
    assert_eq!(read("()").unwrap(), Expr::List(vec![]));
    assert_eq!(read("(42)").unwrap(), Expr::List(vec![Expr::Integer(42)]));
    assert_eq!(
        read("(the_number 42)").unwrap(),
        Expr::List(vec![
            Expr::Symbol("the_number".to_owned()),
            Expr::Integer(42),
        ])
    );
    assert_eq!(
        read("(plus 40 2)").unwrap(),
        Expr::List(vec![
            Expr::Symbol("plus".to_owned()),
            Expr::Integer(40),
            Expr::Integer(2),
        ])
    );
    assert_eq!(
        read("(( 42) )").unwrap(),
        Expr::List(vec![Expr::List(vec![Expr::Integer(42)])])
    );
}

#[test]
fn lexer_test() {
    assert_eq!(
        lexer("(some_name 42)").unwrap(),
        vec![
            Token::LParan,
            Token::Symbol("some_name".to_owned()),
            Token::Integer(42),
            Token::RParan
        ]
    )
}

#[test]
fn lex_single_tokens_with_padding() {
    assert_eq!(lexer(" (").unwrap(), vec![Token::LParan]);
    assert_eq!(lexer("  ) ").unwrap(), vec![Token::RParan]);
    assert_eq!(lexer(" 42 ").unwrap(), vec![Token::Integer(42)]);
    assert_eq!(
        lexer(" some_name ").unwrap(),
        vec![Token::Symbol("some_name".to_owned())]
    );
}

#[test]
fn lex_padded_integers() {
    assert_eq!(lexer(" -17 ").unwrap(), vec![Token::Integer(-17)]);
    assert_eq!(lexer("\t0\n").unwrap(), vec![Token::Integer(0)]);
    assert_eq!(
        lexer(" 9223372036854775807 ").unwrap(),
        vec![Token::Integer(i64::MAX)]
    );
    assert_eq!(
        lexer(" -9223372036854775808 ").unwrap(),
        vec![Token::Integer(i64::MIN)]
    );
}

#[test]
fn lex_padded_symbols() {
    assert_eq!(lexer(" a_B9 ").unwrap(), vec![Token::Symbol("a_B9".to_owned())]);
    assert_eq!(lexer(" _ ").unwrap(), vec![Token::Symbol("_".to_owned())]);
}

#[test]
fn lex_rejects_unsupported_characters() {
    assert_eq!(lexer("a.b"), Err(LexError { position: 1 }));
    assert_eq!(lexer(" some_name = 42"), Err(LexError { position: 11 }));
    assert_eq!(lexer("+5"), Err(LexError { position: 0 }));
    assert_eq!(lexer("-"), Err(LexError { position: 0 }));
    assert_eq!(lexer("(\u{e9})"), Err(LexError { position: 1 }));
}

#[test]
fn lex_integer_then_symbol() {
    assert_eq!(
        lexer("42abc").unwrap(),
        vec![Token::Integer(42), Token::Symbol("abc".to_owned())]
    );
}

#[test]
fn lex_digits_too_large_for_an_integer_are_a_symbol() {
    assert_eq!(
        lexer("99999999999999999999").unwrap(),
        vec![Token::Symbol("99999999999999999999".to_owned())]
    );
}

#[test]
fn lex_empty_and_blank_text() {
    assert_eq!(lexer("").unwrap(), vec![]);
    assert_eq!(lexer(" \t\r\n ").unwrap(), vec![]);
}

#[test]
fn read_unterminated_list_is_a_parse_error() {
    assert_eq!(
        read("(42"),
        Err(ReadError::Parse(CustomParserError { position: 2 }))
    );
    assert_eq!(
        read("((42)"),
        Err(ReadError::Parse(CustomParserError { position: 4 }))
    );
}

#[test]
fn read_unsupported_character_is_a_lex_error() {
    assert_eq!(read("(4.2)"), Err(ReadError::Lex(LexError { position: 2 })));
}

#[test]
fn read_stray_closing_parenthesis() {
    assert_eq!(
        read(")"),
        Err(ReadError::Parse(CustomParserError { position: 0 }))
    );
    assert_eq!(
        read(""),
        Err(ReadError::Parse(CustomParserError { position: 0 }))
    );
}

#[test]
fn read_atoms_and_nesting() {
    assert_eq!(read(" 42 ").unwrap(), Expr::Integer(42));
    assert_eq!(read("x").unwrap(), Expr::Symbol("x".to_owned()));
    assert_eq!(
        read("( ( 42 ) )").unwrap(),
        Expr::List(vec![Expr::List(vec![Expr::Integer(42)])])
    );
    assert_eq!(
        read("\n(\t(42)\r)  ").unwrap(),
        Expr::List(vec![Expr::List(vec![Expr::Integer(42)])])
    );
}

#[test]
fn read_ignores_tokens_after_the_first_expression() {
    assert_eq!(read("(1)(2)").unwrap(), Expr::List(vec![Expr::Integer(1)]));
}

#[test]
fn cursor_take_and_slice() {
    let tokens = vec![Token::LParan, Token::Integer(7), Token::RParan];
    let all = Tokens::new(&tokens);
    assert_eq!(all.input_len(), 3);
    let (rest, taken) = all.take_split(1);
    assert_eq!(taken.input_len(), 1);
    assert_eq!(*taken.token(0), Token::LParan);
    assert_eq!(rest.input_len(), 2);
    assert_eq!(*rest.token(0), Token::Integer(7));
    let middle = all.slice(1..2);
    assert_eq!(middle.input_len(), 1);
    assert_eq!(*middle.token(0), Token::Integer(7));
    assert_eq!(all.take(2).input_len(), 2);
    assert_eq!(all.slice(3..3).input_len(), 0);
}

#[test]
fn recognizers_consume_one_token() {
    let tokens = vec![
        Token::Integer(42),
        Token::Symbol("()".to_owned()),
        Token::RParan,
    ];
    let all = Tokens::new(&tokens);
    let (rest, e) = parse_integer(all).unwrap();
    assert_eq!(e, Expr::Integer(42));
    assert_eq!(rest.input_len(), 2);
    let (rest, e) = parse_symbol(rest).unwrap();
    assert_eq!(e, Expr::Symbol("()".to_owned()));
    assert_eq!(*rest.token(0), Token::RParan);
    assert_eq!(parse_symbol(all).unwrap_err(), CustomParserError { position: 0 });
    assert_eq!(parse_integer(rest).unwrap_err(), CustomParserError { position: 2 });
    assert_eq!(parse_expr(rest).unwrap_err(), CustomParserError { position: 2 });
}

#[test]
fn parse_list_needs_balanced_parentheses() {
    let balanced = vec![Token::LParan, Token::LParan, Token::RParan, Token::RParan];
    let (rest, e) = parse_list(Tokens::new(&balanced)).unwrap();
    assert_eq!(e, Expr::List(vec![Expr::List(vec![])]));
    assert_eq!(rest.input_len(), 0);
    let open = vec![Token::LParan, Token::LParan, Token::RParan];
    assert_eq!(
        parse_list(Tokens::new(&open)).unwrap_err(),
        CustomParserError { position: 3 }
    );
    let atom = vec![Token::Integer(1)];
    assert_eq!(
        parse_list(Tokens::new(&atom)).unwrap_err(),
        CustomParserError { position: 0 }
    );
}

#[test]
fn cursor_slice_index_and_position() {
    let tokens = vec![
        Token::Integer(1),
        Token::Symbol("x".to_owned()),
        Token::RParan,
    ];
    let all = Tokens::new(&tokens);
    assert_eq!(all.slice_index(3), Some(3));
    assert_eq!(all.slice_index(4), None);
    assert_eq!(all.position(|t| matches!(t, Token::RParan)), Some(2));
    assert_eq!(all.position(|t| matches!(t, Token::LParan)), None);
    let (rest, _) = all.take_split(1);
    assert_eq!(rest.position(|t| matches!(t, Token::Symbol(_))), Some(0));
}

#[test]
fn take_test() {
    let tokens = vec![Token::LParan];
    assert_eq!(
        Tokens::new(&tokens).take_split(1),
        (Tokens::new(&vec![]), Tokens::new(&vec![Token::LParan]))
    );
}

#[test]
fn tag_lparan_test() {
    assert_eq!(
        tag_lparan(Tokens::new(&vec![Token::LParan, Token::RParan])).unwrap(),
        (
            Tokens::new(&vec![Token::RParan]),
            Tokens::new(&vec![Token::LParan])
        )
    );
}

#[test]
fn tag_rparan_test() {
    assert_eq!(
        tag_rparan(Tokens::new(&vec![Token::RParan, Token::LParan])).unwrap(),
        (
            Tokens::new(&vec![Token::LParan]),
            Tokens::new(&vec![Token::RParan]),
        )
    );
}

#[test]
fn tag_integer_test() {
    assert_eq!(
        tag_integer(Tokens::new(&vec![Token::Integer(42), Token::RParan])).unwrap(),
        (
            Tokens::new(&vec![Token::RParan]),
            Tokens::new(&vec![Token::Integer(42)]),
        )
    );
}

#[test]
fn tag_symbol_test() {
    assert_eq!(
        tag_symbol(Tokens::new(&vec![
            Token::Symbol("()".to_owned()),
            Token::RParan
        ]))
        .unwrap(),
        (
            Tokens::new(&vec![Token::RParan]),
            Tokens::new(&vec![Token::Symbol("()".to_owned())]),
        )
    );
}

#[test]
fn recognizer_remainders_equal_fresh_cursors() {
    let ints = vec![Token::Integer(42), Token::RParan];
    let (rest, e) = parse_integer(Tokens::new(&ints)).unwrap();
    assert_eq!(e, Expr::Integer(42));
    assert_eq!(rest, Tokens::new(&vec![Token::RParan]));
    let syms = vec![Token::Symbol("()".to_owned()), Token::RParan];
    let (rest, e) = parse_symbol(Tokens::new(&syms)).unwrap();
    assert_eq!(e, Expr::Symbol("()".to_owned()));
    assert_eq!(rest, Tokens::new(&vec![Token::RParan]));
    assert_eq!(tag_lparan(rest).unwrap_err(), CustomParserError { position: 1 });
    let all = Tokens::new(&syms);
    assert_eq!(all.slice(0..2), all);
    assert_ne!(all.take(1), all);
}

#[test]
fn expr_clone_is_equal() {
    let e = Expr::List(vec![Expr::Integer(1), Expr::List(vec![Expr::Symbol("a".to_owned())])]);
    assert_eq!(e.clone(), e);
}

#[test]
fn do_nothing_test() {
    assert_eq!(do_nothing("hi").unwrap(), ("hi", ""));
}

#[test]
fn tag_add_test() {
    assert_eq!(tag_add("add2").unwrap(), ("2", "add"));
}

#[test]
fn tag_add_needs_the_whole_word() {
    assert_eq!(tag_add("ad"), None);
    assert_eq!(tag_add("sub"), None);
    assert_eq!(tag_add("add"), Some(("", "add")));
}

#[test]
fn lex_rejects_minus_without_digit() {
    assert_eq!(lexer("(- 1)"), Err(LexError { position: 1 }));
    assert_eq!(lexer("a-"), Err(LexError { position: 1 }));
}
