use monkey_lexer::{lookup_ident, Lexer, Token, TokenType};

fn scan(input: &str) -> Vec<Token> {
    let mut lexer = Lexer::new(input.to_string());
    let mut out = Vec::new();
    loop {
        let token = lexer.next_token();
        let done = token.token_type == TokenType::EOF;
        out.push(token);
        if done {
            return out;
        }
    }
}

fn summary(tokens: &[Token]) -> Vec<(TokenType, String, usize, usize)> {
    tokens
        .iter()
        .map(|t| (t.token_type.clone(), t.literal.clone(), t.line, t.column))
        .collect()
}

#[test]
fn test_next_token() {
    let input = r#"let five = 5;
let ten = 10;

let add = fn(x, y) {
  x + y;
};

let result = add(five, ten);
!-/*5;
5 < 10 > 5;

if (5 < 10) {
    return true;
} else {
    return false;
}

10 == 10;
10 != 9;
"#;

    let tests = vec![
        (TokenType::Let, "let", 1, 1),
        (TokenType::Identifier("five".to_string()), "five", 1, 5),
        (TokenType::Assign, "=", 1, 10),
        (TokenType::Integer(5), "5", 1, 12),
        (TokenType::Semicolon, ";", 1, 13),
        (TokenType::Let, "let", 2, 1),
        (TokenType::Identifier("ten".to_string()), "ten", 2, 5),
        (TokenType::Assign, "=", 2, 9),
        (TokenType::Integer(10), "10", 2, 11),
        (TokenType::Semicolon, ";", 2, 13),
        (TokenType::Let, "let", 4, 1),
        (TokenType::Identifier("add".to_string()), "add", 4, 5),
        (TokenType::Assign, "=", 4, 9),
        (TokenType::Function, "fn", 4, 11),
        (TokenType::LeftParen, "(", 4, 13),
        (TokenType::Identifier("x".to_string()), "x", 4, 14),
        (TokenType::Comma, ",", 4, 15),
        (TokenType::Identifier("y".to_string()), "y", 4, 17),
        (TokenType::RightParen, ")", 4, 18),
        (TokenType::LeftBrace, "{", 4, 20),
        (TokenType::Identifier("x".to_string()), "x", 5, 3),
        (TokenType::Plus, "+", 5, 5),
        (TokenType::Identifier("y".to_string()), "y", 5, 7),
        (TokenType::Semicolon, ";", 5, 8),
        (TokenType::RightBrace, "}", 6, 1),
        (TokenType::Semicolon, ";", 6, 2),
        (TokenType::Let, "let", 8, 1),
        (TokenType::Identifier("result".to_string()), "result", 8, 5),
        (TokenType::Assign, "=", 8, 12),
        (TokenType::Identifier("add".to_string()), "add", 8, 14),
        (TokenType::LeftParen, "(", 8, 17),
        (TokenType::Identifier("five".to_string()), "five", 8, 18),
        (TokenType::Comma, ",", 8, 22),
        (TokenType::Identifier("ten".to_string()), "ten", 8, 24),
        (TokenType::RightParen, ")", 8, 27),
        (TokenType::Semicolon, ";", 8, 28),
        (TokenType::Bang, "!", 9, 1),
        (TokenType::Minus, "-", 9, 2),
        (TokenType::Slash, "/", 9, 3),
        (TokenType::Asterisk, "*", 9, 4),
        (TokenType::Integer(5), "5", 9, 5),
        (TokenType::Semicolon, ";", 9, 6),
        (TokenType::Integer(5), "5", 10, 1),
        (TokenType::LT, "<", 10, 3),
        (TokenType::Integer(10), "10", 10, 5),
        (TokenType::GT, ">", 10, 8),
        (TokenType::Integer(5), "5", 10, 10),
        (TokenType::Semicolon, ";", 10, 11),
        (TokenType::If, "if", 12, 1),
        (TokenType::LeftParen, "(", 12, 4),
        (TokenType::Integer(5), "5", 12, 5),
        (TokenType::LT, "<", 12, 7),
        (TokenType::Integer(10), "10", 12, 9),
        (TokenType::RightParen, ")", 12, 11),
        (TokenType::LeftBrace, "{", 12, 13),
        (TokenType::Return, "return", 13, 5),
        (TokenType::Bool(true), "true", 13, 12),
        (TokenType::Semicolon, ";", 13, 16),
        (TokenType::RightBrace, "}", 14, 1),
        (TokenType::Else, "else", 14, 3),
        (TokenType::LeftBrace, "{", 14, 8),
        (TokenType::Return, "return", 15, 5),
        (TokenType::Bool(false), "false", 15, 12),
        (TokenType::Semicolon, ";", 15, 17),
        (TokenType::RightBrace, "}", 16, 1),
        (TokenType::Integer(10), "10", 18, 1),
        (TokenType::Equals, "==", 18, 4),
        (TokenType::Integer(10), "10", 18, 7),
        (TokenType::Semicolon, ";", 18, 9),
        (TokenType::Integer(10), "10", 19, 1),
        (TokenType::NotEquals, "!=", 19, 4),
        (TokenType::Integer(9), "9", 19, 7),
        (TokenType::Semicolon, ";", 19, 8),
    ];

    let mut lexer = Lexer::new(input.to_string());

    for (i, (expected_type, expected_literal, expected_line, expected_column)) in
        tests.iter().enumerate()
    {
        let token = lexer.next_token();

        assert_eq!(token.token_type, *expected_type, "tests[{}] - tokentype wrong. expected={:?}, got={:?}", i, expected_type, token.token_type);
        assert_eq!(token.literal, *expected_literal, "tests[{}] - literal wrong. expected={:?}, got={:?}", i, expected_literal, token.literal);
        assert_eq!(token.line, *expected_line, "tests[{}] - line wrong. expected={}, got={}", i, expected_line, token.line);
        assert_eq!(token.column, *expected_column, "tests[{}] - column wrong. expected={}, got={}", i, expected_column, token.column);
    }
}

#[test]
fn end_of_input_repeats() {
    let mut lexer = Lexer::new("x  \n ".to_string());
    assert_eq!(lexer.next_token().token_type, TokenType::Identifier("x".to_string()));
    for _ in 0..5 {
        let token = lexer.next_token();
        assert_eq!(token.token_type, TokenType::EOF);
        assert_eq!(token.literal, "");
        assert_eq!((token.line, token.column), (2, 2));
    }
}

#[test]
fn empty_input_is_end_of_input() {
    let tokens = scan("");
    assert_eq!(summary(&tokens), vec![(TokenType::EOF, String::new(), 1, 1)]);
    let tokens = scan(" \t\n");
    assert_eq!(summary(&tokens), vec![(TokenType::EOF, String::new(), 2, 1)]);
}

#[test]
fn literals_spell_input_without_whitespace() {
    let input = "let  a=b!=c;\n\tif(a<10){return @x_1}";
    let joined: String = scan(input).iter().map(|t| t.literal.clone()).collect();
    let expected: String = input.chars().filter(|c| !c.is_whitespace()).collect();
    assert_eq!(joined, expected);
}

#[test]
fn double_equals_is_one_token() {
    let tokens = scan("==");
    assert_eq!(
        summary(&tokens),
        vec![
            (TokenType::Equals, "==".to_string(), 1, 1),
            (TokenType::EOF, String::new(), 1, 3),
        ]
    );
    let tokens = scan("=");
    assert_eq!(
        summary(&tokens),
        vec![
            (TokenType::Assign, "=".to_string(), 1, 1),
            (TokenType::EOF, String::new(), 1, 2),
        ]
    );
    let tokens = scan("!= ! =");
    let kinds: Vec<TokenType> = tokens.iter().map(|t| t.token_type.clone()).collect();
    assert_eq!(kinds, vec![TokenType::NotEquals, TokenType::Bang, TokenType::Assign, TokenType::EOF]);
}

#[test]
fn keywords_and_identifiers() {
    let words = [
        ("let", TokenType::Let),
        ("fn", TokenType::Function),
        ("if", TokenType::If),
        ("else", TokenType::Else),
        ("return", TokenType::Return),
        ("true", TokenType::Bool(true)),
        ("false", TokenType::Bool(false)),
    ];
    for (word, kind) in words.iter() {
        assert_eq!(scan(word)[0].token_type, *kind);
        assert_eq!(lookup_ident(word), *kind);
    }
    for word in ["let1", "_x", "Foo", "lets", "f"].iter() {
        assert_eq!(scan(word)[0].token_type, TokenType::Identifier(word.to_string()));
        assert_eq!(lookup_ident(word), TokenType::Identifier(word.to_string()));
    }
}

#[test]
fn positions_count_lines_and_columns() {
    let tokens = scan("a\n  bc\n\n   d e");
    assert_eq!(
        summary(&tokens),
        vec![
            (TokenType::Identifier("a".to_string()), "a".to_string(), 1, 1),
            (TokenType::Identifier("bc".to_string()), "bc".to_string(), 2, 3),
            (TokenType::Identifier("d".to_string()), "d".to_string(), 4, 4),
            (TokenType::Identifier("e".to_string()), "e".to_string(), 4, 6),
            (TokenType::EOF, String::new(), 4, 7),
        ]
    );
}

#[test]
fn assign_plus_assign() {
    let tokens = scan("=+=");
    assert_eq!(
        summary(&tokens),
        vec![
            (TokenType::Assign, "=".to_string(), 1, 1),
            (TokenType::Plus, "+".to_string(), 1, 2),
            (TokenType::Assign, "=".to_string(), 1, 3),
            (TokenType::EOF, String::new(), 1, 4),
        ]
    );
}

#[test]
fn ten_equals_ten() {
    let tokens = scan("10 == 10;");
    assert_eq!(
        summary(&tokens),
        vec![
            (TokenType::Integer(10), "10".to_string(), 1, 1),
            (TokenType::Equals, "==".to_string(), 1, 4),
            (TokenType::Integer(10), "10".to_string(), 1, 7),
            (TokenType::Semicolon, ";".to_string(), 1, 9),
            (TokenType::EOF, String::new(), 1, 10),
        ]
    );
}

#[test]
fn second_line_starts_at_column_one() {
    let tokens = scan("let x = 5;\nx;");
    assert_eq!(tokens.len(), 8);
    assert_eq!(tokens[5].token_type, TokenType::Identifier("x".to_string()));
    assert_eq!((tokens[5].line, tokens[5].column), (2, 1));
    assert_eq!((tokens[6].line, tokens[6].column), (2, 2));
}

#[test]
fn illegal_character_does_not_stop_the_scan() {
    let tokens = scan("a @ 7");
    assert_eq!(
        summary(&tokens),
        vec![
            (TokenType::Identifier("a".to_string()), "a".to_string(), 1, 1),
            (TokenType::Illegal('@'), "@".to_string(), 1, 3),
            (TokenType::Integer(7), "7".to_string(), 1, 5),
            (TokenType::EOF, String::new(), 1, 6),
        ]
    );
}

#[test]
fn non_ascii_characters_are_single_illegal_tokens() {
    let tokens = scan("é\u{3000}ß1");
    assert_eq!(
        summary(&tokens),
        vec![
            (TokenType::Illegal('é'), "é".to_string(), 1, 1),
            (TokenType::Illegal('ß'), "ß".to_string(), 1, 3),
            (TokenType::Integer(1), "1".to_string(), 1, 4),
            (TokenType::EOF, String::new(), 1, 5),
        ]
    );
}

#[test]
fn integer_overflow_reads_as_zero() {
    let tokens = scan("18446744073709551615 18446744073709551616 007");
    assert_eq!(tokens[0].token_type, TokenType::Integer(u64::MAX));
    assert_eq!(tokens[1].token_type, TokenType::Integer(0));
    assert_eq!(tokens[1].literal, "18446744073709551616");
    assert_eq!(tokens[2].token_type, TokenType::Integer(7));
    assert_eq!(tokens[2].literal, "007");
}

#[test]
fn number_followed_by_letters_splits() {
    let tokens = scan("12ab_3");
    assert_eq!(tokens[0].token_type, TokenType::Integer(12));
    assert_eq!(tokens[1].token_type, TokenType::Identifier("ab_3".to_string()));
    assert_eq!(tokens[1].column, 3);
}

#[test]
fn reading_methods_move_the_cursor() {
    let mut lexer = Lexer::new("  abc1 42".to_string());
    assert_eq!(lexer.peek_char(), Some(' '));
    lexer.skip_whitespace();
    assert_eq!(lexer.current_char, Some('a'));
    assert_eq!(lexer.peek_char(), Some('b'));
    let word = lexer.read_identifier();
    assert_eq!(word.token_type, TokenType::Identifier("abc1".to_string()));
    assert_eq!((word.line, word.column), (1, 3));
    assert_eq!(lexer.current_char, Some('1'));
    lexer.read_char();
    lexer.read_char();
    assert_eq!(lexer.current_char, Some('4'));
    let number = lexer.read_number();
    assert_eq!(number.token_type, TokenType::Integer(42));
    assert_eq!(number.literal, "42");
    assert_eq!(lexer.current_char, Some('2'));
    lexer.read_char();
    assert_eq!(lexer.current_char, None);
    assert_eq!((lexer.position, lexer.read_position), (9, 10));
}

#[test]
fn read_identifier_stops_on_last_character_of_run() {
    let mut lexer = Lexer::new("else{".to_string());
    let token = lexer.read_identifier();
    assert_eq!(token.token_type, TokenType::Else);
    assert_eq!((token.literal.as_str(), token.line, token.column), ("else", 1, 1));
    assert_eq!((lexer.position, lexer.read_position), (3, 4));

    let mut lexer = Lexer::new("return;".to_string());
    let token = lexer.read_identifier();
    assert_eq!(token.token_type, TokenType::Return);
    assert_eq!(lexer.read_position, 6);

    let mut lexer = Lexer::new("abé".to_string());
    let token = lexer.read_identifier();
    assert_eq!(token.token_type, TokenType::Identifier("ab".to_string()));
    assert_eq!((token.line, token.column), (1, 1));
    assert_eq!(lexer.read_position, 2);
}

#[test]
fn read_number_stops_on_last_digit() {
    let mut lexer = Lexer::new("10;".to_string());
    let token = lexer.read_number();
    assert_eq!(token.token_type, TokenType::Integer(10));
    assert_eq!((token.literal.as_str(), token.line, token.column), ("10", 1, 1));
    assert_eq!(lexer.read_position, 2);

    let mut lexer = Lexer::new("007x".to_string());
    let token = lexer.read_number();
    assert_eq!(token.token_type, TokenType::Integer(7));
    assert_eq!(token.literal, "007");
    assert_eq!(lexer.read_position, 3);
}

#[test]
fn counters_follow_the_character_under_the_cursor() {
    let lexer = Lexer::new("\n".to_string());
    assert_eq!((lexer.line, lexer.column), (2, 1));

    let mut lexer = Lexer::new("a\nb".to_string());
    assert_eq!((lexer.line, lexer.column), (1, 2));
    lexer.read_char();
    assert_eq!(lexer.current_char, Some('\n'));
    assert_eq!((lexer.position, lexer.read_position), (1, 2));
    assert_eq!((lexer.line, lexer.column), (2, 1));
    lexer.read_char();
    assert_eq!(lexer.current_char, Some('b'));
    assert_eq!(lexer.position, 2);
    assert_eq!((lexer.line, lexer.column), (2, 2));
    lexer.read_char();
    assert_eq!(lexer.current_char, None);
    assert_eq!((lexer.line, lexer.column), (2, 2));

    let mut lexer = Lexer::new("\nx".to_string());
    lexer.skip_whitespace();
    assert_eq!(lexer.current_char, Some('x'));
    assert_eq!((lexer.line, lexer.column), (2, 2));
}

#[test]
fn read_char_moves_past_the_end() {
    let mut lexer = Lexer::new(String::new());
    assert_eq!((lexer.line, lexer.column), (1, 1));
    lexer.read_char();
    assert_eq!((lexer.position, lexer.read_position), (1, 2));
    assert_eq!(lexer.current_char, None);
    assert_eq!((lexer.line, lexer.column), (1, 1));
    let token = lexer.next_token();
    assert_eq!(token.token_type, TokenType::EOF);
    assert_eq!((token.line, token.column), (1, 1));
}
