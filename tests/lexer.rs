use monkey::lexer::{lex, Lexer};
use monkey::token::Token;

#[test]
fn test_lexing() {
    let input = "=+(){},;!-/*<>";
    let mut lexer = Lexer::new(input);
    let tests = vec![
        Token::ASSIGN,
        Token::PLUS,
        Token::LPAREN,
        Token::RPAREN,
        Token::LBRACE,
        Token::RBRACE,
        Token::COMMA,
        Token::SEMICOLON,
        Token::BANG,
        Token::MINUS,
        Token::SLASH,
        Token::ASTERISK,
        Token::LT,
        Token::GT,
    ];
    for t in tests {
        let token = lexer.next_token();
        assert_eq!(token, t);
    }
}

#[test]
fn test_next_token() {
    let input = r#"
            let five = 5;
            let ten = 10;
            let add = fn(x,y) {
                x + y;
            };
            let result = add(five, ten);
            if 
            else 
            return 
            true 
            false
            ==
            !=
            "foobar"
            "foo bar"
            []
            :
            5.5;
            for 
            in
            "#;

    let mut lexer = Lexer::new(input);
    let tests = vec![
        Token::LET,
        Token::IDENT("five".to_string()),
        Token::ASSIGN,
        Token::INT(5),
        Token::SEMICOLON,
        Token::LET,
        Token::IDENT("ten".to_string()),
        Token::ASSIGN,
        Token::INT(10),
        Token::SEMICOLON,
        Token::LET,
        Token::IDENT("add".to_string()),
        Token::ASSIGN,
        Token::FUNCTION,
        Token::LPAREN,
        Token::IDENT("x".to_string()),
        Token::COMMA,
        Token::IDENT("y".to_string()),
        Token::RPAREN,
        Token::LBRACE,
        Token::IDENT("x".to_string()),
        Token::PLUS,
        Token::IDENT("y".to_string()),
        Token::SEMICOLON,
        Token::RBRACE,
        Token::SEMICOLON,
        Token::LET,
        Token::IDENT("result".to_string()),
        Token::ASSIGN,
        Token::IDENT("add".to_string()),
        Token::LPAREN,
        Token::IDENT("five".to_string()),
        Token::COMMA,
        Token::IDENT("ten".to_string()),
        Token::RPAREN,
        Token::SEMICOLON,
        Token::IF,
        Token::ELSE,
        Token::RETURN,
        Token::TRUE,
        Token::FALSE,
        Token::EQ,
        Token::NEQ,
        Token::STRING("foobar".to_string()),
        Token::STRING("foo bar".to_string()),
        Token::LBRACKET,
        Token::RBRACKET,
        Token::COLON,
        Token::FLOAT("5.5".to_string()),
        Token::SEMICOLON,
        Token::FOR,
        Token::IN,
        Token::EOF,
    ];
    for t in tests {
        let token = lexer.next_token();
        assert_eq!(token, t);
    }
}

#[test]
fn float_literal_keeps_its_spelling_and_value() {
    let toks = lex("5.5");
    match &toks[0] {
        Token::FLOAT(s) => {
            assert_eq!(s, "5.5");
            assert_eq!(s.parse::<f32>().unwrap(), 5.5);
        }
        t => panic!("expected a float, got {:?}", t),
    }
}

#[test]
fn each_fixed_token_lexes_alone() {
    let cases = vec![
        ("=", Token::ASSIGN),
        ("+", Token::PLUS),
        ("-", Token::MINUS),
        ("*", Token::ASTERISK),
        ("/", Token::SLASH),
        ("<", Token::LT),
        (">", Token::GT),
        ("!", Token::BANG),
        (",", Token::COMMA),
        (":", Token::COLON),
        (";", Token::SEMICOLON),
        ("(", Token::LPAREN),
        (")", Token::RPAREN),
        ("{", Token::LBRACE),
        ("}", Token::RBRACE),
        ("[", Token::LBRACKET),
        ("]", Token::RBRACKET),
        ("fn", Token::FUNCTION),
        ("let", Token::LET),
        ("true", Token::TRUE),
        ("false", Token::FALSE),
        ("if", Token::IF),
        ("else", Token::ELSE),
        ("return", Token::RETURN),
        ("for", Token::FOR),
        ("in", Token::IN),
        ("==", Token::EQ),
        ("!=", Token::NEQ),
    ];
    for (src, kind) in cases {
        assert_eq!(lex(src), vec![kind, Token::EOF], "spelling {:?}", src);
    }
}

#[test]
fn identifier_lexes_to_itself() {
    for name in ["x", "foobar", "snake_case", "CamelCase", "lets", "iff"] {
        assert_eq!(lex(name), vec![Token::IDENT(name.to_string()), Token::EOF]);
    }
}

#[test]
fn two_char_operator_wins() {
    assert_eq!(lex("=="), vec![Token::EQ, Token::EOF]);
    assert_eq!(lex("!="), vec![Token::NEQ, Token::EOF]);
    assert_eq!(lex("= ="), vec![Token::ASSIGN, Token::ASSIGN, Token::EOF]);
}

#[test]
fn digits_end_an_identifier() {
    assert_eq!(
        lex("ab12"),
        vec![Token::IDENT("ab".to_string()), Token::INT(12), Token::EOF]
    );
}

#[test]
fn unknown_character_is_illegal_and_scanning_goes_on() {
    assert_eq!(lex("@ 1"), vec![Token::ILLEGAL, Token::INT(1), Token::EOF]);
}

#[test]
fn unterminated_string_is_illegal() {
    assert_eq!(lex("\"abc"), vec![Token::ILLEGAL, Token::EOF]);
}

#[test]
fn integer_literal_out_of_range_is_illegal() {
    assert_eq!(lex("2147483647"), vec![Token::INT(2147483647), Token::EOF]);
    assert_eq!(lex("2147483648"), vec![Token::ILLEGAL, Token::EOF]);
}

#[test]
fn end_of_input_repeats() {
    let mut l = Lexer::new("  ");
    assert_eq!(l.next_token(), Token::EOF);
    assert_eq!(l.next_token(), Token::EOF);
    assert_eq!(lex(""), vec![Token::EOF]);
}
