use basic_lex::token::{Ident, Literal, Operator, Token, Word};

#[test]
fn token_test_from_string() {
    let t = Token::from_string("REM");
    assert_eq!(t, Some(Token::Word(Word::Rem)));
    let t = Token::from_string("PICKLES");
    assert_eq!(t, None);
}

const WORDS: [Word; 22] = [
    Word::Data,
    Word::Def,
    Word::Dim,
    Word::Else,
    Word::End,
    Word::For,
    Word::GoSub,
    Word::GoTo,
    Word::If,
    Word::Input,
    Word::Let,
    Word::Next,
    Word::On,
    Word::Print,
    Word::Read,
    Word::Rem,
    Word::Rem2,
    Word::Restore,
    Word::Return,
    Word::Stop,
    Word::Then,
    Word::To,
];

const OPERATORS: [Operator; 14] = [
    Operator::Equals,
    Operator::Plus,
    Operator::Minus,
    Operator::Multiply,
    Operator::Divide,
    Operator::DivideInt,
    Operator::Caret,
    Operator::Modulus,
    Operator::Not,
    Operator::And,
    Operator::Or,
    Operator::Xor,
    Operator::Eqv,
    Operator::Imp,
];

#[test]
fn lookup_of_every_spelling() {
    let mut all: Vec<Token> = WORDS.iter().map(|w| Token::Word(*w)).collect();
    all.extend(OPERATORS.iter().map(|o| Token::Operator(*o)));
    all.extend(vec![Token::ParenOpen, Token::ParenClose, Token::Comma, Token::Colon]);
    for t in all {
        assert_eq!(Token::from_string(&t.text()), Some(t.clone()));
    }
}

#[test]
fn spellings() {
    assert_eq!(Word::GoSub.text(), "GOSUB");
    assert_eq!(Word::Rem2.text(), "'");
    assert_eq!(Operator::DivideInt.text(), "\\");
    assert_eq!(Operator::Modulus.text(), "MOD");
    assert_eq!(Token::from_string("go"), None);
    assert_eq!(Token::from_string("rem"), None);
    assert_eq!(Token::from_string(":"), Some(Token::Colon));
}

#[test]
fn display_texts() {
    assert_eq!(Token::Whitespace(3).text(), "   ");
    assert_eq!(Token::Literal(Literal::String("A B".to_string())).text(), "\"A B\"");
    assert_eq!(Token::Literal(Literal::Double("1D5".to_string())).text(), "1D5");
    assert_eq!(Token::Ident(Ident::String("N$".to_string())).text(), "N$");
    assert_eq!(Token::Unknown("?!".to_string()).text(), "?!");
    assert_eq!(Token::Comma.text(), ",");
}
