use basic_lex::lex::{lex, Lex, DIRECT};
use basic_lex::line::Line;
use basic_lex::token::{Ident, Literal, Operator, Token, Word};

fn tok(s: &str) -> Token {
    let s = format!("?{}", s);
    let (_, l) = lex(&s);
    let mut i = l.iter();
    i.next();
    i.next().unwrap().clone()
}

fn unknown(s: &str) -> Token {
    Token::Unknown(s.to_string())
}

#[test]
fn lex_test_numbers() {
    assert_eq!(
        tok("3.141593"),
        Token::Literal(Literal::Single("3.141593".to_string()))
    );
    assert_eq!(
        lex("3.1415926").1.iter().next().unwrap(),
        &Token::Literal(Literal::Double("3.1415926".to_string()))
    );
    assert_eq!(
        tok("32767"),
        Token::Literal(Literal::Integer("32767".to_string()))
    );
    assert_eq!(
        tok("32768"),
        Token::Literal(Literal::Single("32768".to_string()))
    );
    assert_eq!(
        tok("24e9"),
        Token::Literal(Literal::Single("24E9".to_string()))
    );
}

#[test]
fn lex_test_remark() {
    let (ln, v) = lex(" 100REM A fortunate comment\n");
    assert_eq!(ln, 100);
    let mut x = v.iter();
    assert_eq!(x.next().unwrap(), &Token::Whitespace(1));
    assert_eq!(x.next().unwrap(), &Token::Word(Word::Rem));
    assert_eq!(x.next().unwrap(), &unknown(" A fortunate comment"));
    assert_eq!(x.next(), None);
}

#[test]
fn lex_test_remark2() {
    let (ln, v) = lex("100  'The comment  \r\n");
    assert_eq!(ln, 100);
    let mut x = v.iter();
    assert_eq!(x.next().unwrap(), &Token::Whitespace(2));
    assert_eq!(x.next().unwrap(), &Token::Word(Word::Rem2));
    assert_eq!(x.next().unwrap(), &unknown("The comment"));
    assert_eq!(x.next(), None);
}

#[test]
fn lex_test_scanner() {
    let (ln, v) = lex("BANDS\r");
    assert_eq!(ln, 65535);
    let mut x = v.iter();
    assert_eq!(
        x.next().unwrap(),
        &Token::Ident(Ident::Plain("BANDS".to_string()))
    );
    assert_eq!(x.next(), None);
}

#[test]
fn lex_test_for_loop() {
    let (ln, v) = lex(" forI%=1to30-10");
    assert_eq!(ln, 65535);
    let mut x = v.iter();

    assert_eq!(x.next().unwrap(), &Token::Whitespace(1));
    assert_eq!(x.next().unwrap(), &Token::Word(Word::For));
    assert_eq!(
        x.next().unwrap(),
        &Token::Ident(Ident::Integer("I%".to_string()))
    );
    assert_eq!(x.next().unwrap(), &Token::Operator(Operator::Equals));
    assert_eq!(
        x.next().unwrap(),
        &Token::Literal(Literal::Integer("1".to_string()))
    );
    assert_eq!(x.next().unwrap(), &Token::Word(Word::To));
    assert_eq!(
        x.next().unwrap(),
        &Token::Literal(Literal::Integer("30".to_string()))
    );
    assert_eq!(x.next().unwrap(), &Token::Operator(Operator::Minus));
    assert_eq!(
        x.next().unwrap(),
        &Token::Literal(Literal::Integer("10".to_string()))
    );
    assert_eq!(x.next(), None);
}

#[test]
fn test_unk() {
    let (ln, v) = lex("10 PRINT 10");
    assert_eq!(ln, 10);
    let mut x = v.iter();
    assert_eq!(x.next().unwrap(), &Token::Whitespace(1));
    assert_eq!(x.next().unwrap(), &Token::Word(Word::Print));
    assert_eq!(x.next().unwrap(), &Token::Whitespace(1));
}

#[test]
fn lex_test_unknown() {
    let (ln, v) = lex("10 fOr %woo in 0..4 \n");
    assert_eq!(ln, 10);
    let mut x = v.iter();
    assert_eq!(x.next().unwrap(), &Token::Whitespace(1));
    assert_eq!(x.next().unwrap(), &Token::Word(Word::For));
    assert_eq!(x.next().unwrap(), &Token::Whitespace(1));
    assert_eq!(x.next().unwrap(), &unknown("%"));
    assert_eq!(
        x.next().unwrap(),
        &Token::Ident(Ident::Plain("WOO".to_string()))
    );
    assert_eq!(x.next().unwrap(), &Token::Whitespace(1));
    assert_eq!(
        x.next().unwrap(),
        &Token::Ident(Ident::Plain("IN".to_string()))
    );
    assert_eq!(x.next().unwrap(), &Token::Whitespace(1));
    assert_eq!(
        x.next().unwrap(),
        &Token::Literal(Literal::Single("0.".to_string()))
    );
    assert_eq!(
        x.next().unwrap(),
        &Token::Literal(Literal::Single(".4".to_string()))
    );
    assert_eq!(x.next(), None);
}

#[test]
fn test_foo() {
    let _ = Line::from_str("100 fancy");
}

#[test]
fn numbers_at_line_start() {
    // a first number that is no line number stays a token
    let (ln, v) = lex("3.141593");
    assert_eq!(ln, DIRECT);
    assert_eq!(v, vec![Token::Literal(Literal::Single("3.141593".to_string()))]);
    let (ln, v) = lex("99999");
    assert_eq!(ln, DIRECT);
    assert_eq!(v, vec![Token::Literal(Literal::Single("99999".to_string()))]);
}

#[test]
fn largest_line_number() {
    let (ln, v) = lex("65529 END");
    assert_eq!(ln, 65529);
    assert_eq!(v, vec![Token::Whitespace(1), Token::Word(Word::End)]);
    let (ln, v) = lex("65530 END");
    assert_eq!(ln, DIRECT);
    assert_eq!(
        v,
        vec![
            Token::Literal(Literal::Single("65530".to_string())),
            Token::Whitespace(1),
            Token::Word(Word::End)
        ]
    );
}

#[test]
fn line_number_gets_a_blank() {
    let (ln, v) = lex("20GOTO10");
    assert_eq!(ln, 20);
    assert_eq!(
        v,
        vec![
            Token::Whitespace(1),
            Token::Word(Word::GoTo),
            Token::Literal(Literal::Integer("10".to_string()))
        ]
    );
}

#[test]
fn keyword_glued_to_letter_in_numbered_line() {
    let (ln, v) = lex("30 FORI=1");
    assert_eq!(ln, 30);
    assert_eq!(
        v,
        vec![
            Token::Whitespace(1),
            Token::Word(Word::For),
            Token::Whitespace(1),
            Token::Ident(Ident::Plain("I".to_string())),
            Token::Operator(Operator::Equals),
            Token::Literal(Literal::Integer("1".to_string()))
        ]
    );
}

#[test]
fn empty_and_blank_lines() {
    assert_eq!(lex(""), (DIRECT, vec![]));
    assert_eq!(lex("\r\n"), (DIRECT, vec![]));
    assert_eq!(lex("  \t "), (DIRECT, vec![]));
    assert_eq!(lex("100"), (100, vec![]));
}

#[test]
fn number_suffixes_and_exponents() {
    assert_eq!(tok("12!"), Token::Literal(Literal::Single("12!".to_string())));
    assert_eq!(tok("12#"), Token::Literal(Literal::Double("12#".to_string())));
    assert_eq!(tok("12%"), Token::Literal(Literal::Integer("12%".to_string())));
    assert_eq!(tok("1d5"), Token::Literal(Literal::Double("1D5".to_string())));
    assert_eq!(tok("1e-5"), Token::Literal(Literal::Single("1E-5".to_string())));
    assert_eq!(tok("12345678"), Token::Literal(Literal::Double("12345678".to_string())));
    assert_eq!(tok("1234567"), Token::Literal(Literal::Single("1234567".to_string())));
}

#[test]
fn identifier_sigils() {
    let (_, v) = lex("A$=B!+C#*D%");
    assert_eq!(
        v,
        vec![
            Token::Ident(Ident::String("A$".to_string())),
            Token::Operator(Operator::Equals),
            Token::Ident(Ident::Single("B!".to_string())),
            Token::Operator(Operator::Plus),
            Token::Ident(Ident::Double("C#".to_string())),
            Token::Operator(Operator::Multiply),
            Token::Ident(Ident::Integer("D%".to_string()))
        ]
    );
}

#[test]
fn shortest_keyword_wins() {
    let (_, v) = lex("TOTAL");
    assert_eq!(
        v,
        vec![Token::Word(Word::To), Token::Ident(Ident::Plain("TAL".to_string()))]
    );
    let (_, v) = lex("x mod y");
    assert_eq!(
        v,
        vec![
            Token::Ident(Ident::Plain("X".to_string())),
            Token::Whitespace(1),
            Token::Operator(Operator::Modulus),
            Token::Whitespace(1),
            Token::Ident(Ident::Plain("Y".to_string()))
        ]
    );
}

#[test]
fn strings_and_punctuation() {
    let (_, v) = lex("PRINT \"a, b\";(X):\"open");
    assert_eq!(
        v,
        vec![
            Token::Word(Word::Print),
            Token::Whitespace(1),
            Token::Literal(Literal::String("a, b".to_string())),
            unknown(";("),
            Token::Ident(Ident::Plain("X".to_string())),
            Token::ParenClose,
            Token::Colon,
            Token::Literal(Literal::String("open".to_string()))
        ]
    );
    let (_, v) = lex("(1,2)");
    assert_eq!(
        v,
        vec![
            Token::ParenOpen,
            Token::Literal(Literal::Integer("1".to_string())),
            Token::Comma,
            Token::Literal(Literal::Integer("2".to_string())),
            Token::ParenClose
        ]
    );
}

#[test]
fn comment_keeps_case_and_trims_end() {
    let (ln, v) = lex("5 rem Hello \t");
    assert_eq!(ln, 5);
    assert_eq!(
        v,
        vec![Token::Whitespace(1), Token::Word(Word::Rem), unknown(" Hello")]
    );
    let (_, v) = lex("REM   ");
    assert_eq!(v, vec![Token::Word(Word::Rem), unknown("")]);
}

#[test]
fn pulling_tokens_one_by_one() {
    let mut x = Lex::new("10 PRINT X\n");
    assert!(x.is_direct());
    assert_eq!(x.next(), Some(Token::Whitespace(1)));
    assert_eq!(x.line_number(), 10);
    assert!(!x.is_direct());
    assert_eq!(x.next(), Some(Token::Word(Word::Print)));
    assert_eq!(x.next(), Some(Token::Whitespace(1)));
    assert_eq!(x.next(), Some(Token::Ident(Ident::Plain("X".to_string()))));
    assert_eq!(x.next(), None);
}

#[test]
fn line_written_out_again() {
    let l = Line::from_str("100 PRINT \"HI\"");
    assert_eq!(l.number(), 100);
    assert!(!l.is_direct());
    assert_eq!(l.tokens().len(), 4);
    assert_eq!(l.text(), "100 PRINT \"HI\"");
    let l = Line::from_str(" forI%=1to30-10");
    assert!(l.is_direct());
    assert_eq!(l.text(), " FORI%=1TO30-10");
    // the one-token lookahead already holds FOR after the line number, so
    // no blank is held back between FOR and I here
    let l = Line::from_str("10FORI=1");
    assert_eq!(l.text(), "10 FORI=1");
    let l = Line::from_str("10 FORI=1");
    assert_eq!(l.text(), "10 FOR I=1");
}

fn joined(tokens: &[Token]) -> String {
    tokens.iter().map(|t| t.text()).collect()
}

#[test]
fn reading_lines_back() {
    let s = "PRINT \"A; B\";X$(1),Y:GOTO 20";
    let (ln, v) = lex(s);
    assert_eq!(ln, DIRECT);
    assert_eq!(joined(&v), s);
    // letters come back in upper case, tabs as spaces
    let (_, v) = lex("let\ta=b*2");
    assert_eq!(joined(&v), "LET A=B*2");
    // an open string literal gets its closing quote
    let (_, v) = lex("PRINT \"OPEN");
    assert_eq!(joined(&v), "PRINT \"OPEN\"");
    // a numbered line: the rest after the number reads back
    let (ln, v) = lex("40 IF X THEN 10   ");
    assert_eq!(ln, 40);
    assert_eq!(joined(&v), " IF X THEN 10");
}
