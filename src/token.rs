//! The token vocabulary: the closed set of token kinds, the canonical
//! spelling of every reserved word and symbol, and the lookup from spelling
//! back to token.

use crate::text::{push_char, same_text};
use vstd::prelude::*;

verus! {

/// Statement keywords, and the two comment introducers `REM` and `'`.
#[derive(Debug, Clone, Copy, PartialEq, Eq, Structural, Hash)]
pub enum Word {
    Data,
    Def,
    Dim,
    Else,
    End,
    For,
    GoSub,
    GoTo,
    If,
    Input,
    Let,
    Next,
    On,
    Print,
    Read,
    Rem,
    Rem2,
    Restore,
    Return,
    Stop,
    Then,
    To,
}

/// Symbolic operators and operator words.
#[derive(Debug, Clone, Copy, PartialEq, Eq, Structural, Hash)]
pub enum Operator {
    Equals,
    Plus,
    Minus,
    Multiply,
    Divide,
    DivideInt,
    Caret,
    Modulus,
    Not,
    And,
    Or,
    Xor,
    Eqv,
    Imp,
}

/// A numeric or string constant, with the text it was written with (a
/// string without its quotes).
#[derive(Debug, Clone, PartialEq, Hash)]
pub enum Literal {
    Single(String),
    Double(String),
    Integer(String),
    String(String),
}

/// A user-defined name, tagged by the storage-class sigil that ends it.
#[derive(Debug, Clone, PartialEq, Hash)]
pub enum Ident {
    Plain(String),
    String(String),
    Single(String),
    Double(String),
    Integer(String),
}

/// One lexical unit of a line.
#[derive(Debug, Clone, PartialEq, Hash)]
pub enum Token {
    Unknown(String),
    Whitespace(usize),
    Literal(Literal),
    Word(Word),
    Operator(Operator),
    Ident(Ident),
    ParenOpen,
    ParenClose,
    Comma,
    Colon,
}

/// The kind of a literal.
#[derive(Debug, Clone, Copy, PartialEq, Eq, Structural)]
pub enum LiteralKind {
    Single,
    Double,
    Integer,
    String,
}

/// The storage class of an identifier.
#[derive(Debug, Clone, Copy, PartialEq, Eq, Structural)]
pub enum IdentKind {
    Plain,
    String,
    Single,
    Double,
    Integer,
}

/// The mathematical value of a token: its kind, with its text as a sequence
/// of characters.
pub enum Lexeme {
    Unknown(Seq<char>),
    Whitespace(nat),
    Literal(LiteralKind, Seq<char>),
    Word(Word),
    Operator(Operator),
    Ident(IdentKind, Seq<char>),
    ParenOpen,
    ParenClose,
    Comma,
    Colon,
}

impl View for Literal {
    type V = (LiteralKind, Seq<char>);

    open spec fn view(&self) -> (LiteralKind, Seq<char>) {
        match self {
            Literal::Single(s) => (LiteralKind::Single, s@),
            Literal::Double(s) => (LiteralKind::Double, s@),
            Literal::Integer(s) => (LiteralKind::Integer, s@),
            Literal::String(s) => (LiteralKind::String, s@),
        }
    }
}

impl View for Ident {
    type V = (IdentKind, Seq<char>);

    open spec fn view(&self) -> (IdentKind, Seq<char>) {
        match self {
            Ident::Plain(s) => (IdentKind::Plain, s@),
            Ident::String(s) => (IdentKind::String, s@),
            Ident::Single(s) => (IdentKind::Single, s@),
            Ident::Double(s) => (IdentKind::Double, s@),
            Ident::Integer(s) => (IdentKind::Integer, s@),
        }
    }
}

impl View for Token {
    type V = Lexeme;

    open spec fn view(&self) -> Lexeme {
        match self {
            Token::Unknown(s) => Lexeme::Unknown(s@),
            Token::Whitespace(n) => Lexeme::Whitespace(*n as nat),
            Token::Literal(l) => Lexeme::Literal(l@.0, l@.1),
            Token::Word(w) => Lexeme::Word(*w),
            Token::Operator(o) => Lexeme::Operator(*o),
            Token::Ident(i) => Lexeme::Ident(i@.0, i@.1),
            Token::ParenOpen => Lexeme::ParenOpen,
            Token::ParenClose => Lexeme::ParenClose,
            Token::Comma => Lexeme::Comma,
            Token::Colon => Lexeme::Colon,
        }
    }
}

/// The value of an optional token.
pub open spec fn view_opt(t: Option<Token>) -> Option<Lexeme> {
    match t {
        Some(t) => Some(t@),
        None => None,
    }
}

/// The values of a sequence of tokens.
pub open spec fn view_seq(ts: Seq<Token>) -> Seq<Lexeme> {
    ts.map_values(|t: Token| t@)
}

/// Canonical spelling of a keyword.
pub open spec fn word_text(w: Word) -> Seq<char> {
    match w {
        Word::Data => "DATA"@,
        Word::Def => "DEF"@,
        Word::Dim => "DIM"@,
        Word::Else => "ELSE"@,
        Word::End => "END"@,
        Word::For => "FOR"@,
        Word::GoSub => "GOSUB"@,
        Word::GoTo => "GOTO"@,
        Word::If => "IF"@,
        Word::Input => "INPUT"@,
        Word::Let => "LET"@,
        Word::Next => "NEXT"@,
        Word::On => "ON"@,
        Word::Print => "PRINT"@,
        Word::Read => "READ"@,
        Word::Rem => "REM"@,
        Word::Rem2 => "'"@,
        Word::Restore => "RESTORE"@,
        Word::Return => "RETURN"@,
        Word::Stop => "STOP"@,
        Word::Then => "THEN"@,
        Word::To => "TO"@,
    }
}

/// Canonical spelling of an operator.
pub open spec fn operator_text(o: Operator) -> Seq<char> {
    match o {
        Operator::Equals => "="@,
        Operator::Plus => "+"@,
        Operator::Minus => "-"@,
        Operator::Multiply => "*"@,
        Operator::Divide => "/"@,
        Operator::DivideInt => "\\"@,
        Operator::Caret => "^"@,
        Operator::Modulus => "MOD"@,
        Operator::Not => "NOT"@,
        Operator::And => "AND"@,
        Operator::Or => "OR"@,
        Operator::Xor => "XOR"@,
        Operator::Eqv => "EQV"@,
        Operator::Imp => "IMP"@,
    }
}

/// The display text of a token: reserved words and symbols in their canonical
/// spelling, a whitespace run as that many spaces, a string literal between
/// quotes, anything else as its text.
pub open spec fn display(t: Lexeme) -> Seq<char> {
    match t {
        Lexeme::Unknown(s) => s,
        Lexeme::Whitespace(n) => Seq::new(n, |i: int| ' '),
        Lexeme::Literal(k, s) => if k == LiteralKind::String {
            seq!['"'] + s + seq!['"']
        } else {
            s
        },
        Lexeme::Word(w) => word_text(w),
        Lexeme::Operator(o) => operator_text(o),
        Lexeme::Ident(_, s) => s,
        Lexeme::ParenOpen => seq!['('],
        Lexeme::ParenClose => seq![')'],
        Lexeme::Comma => seq![','],
        Lexeme::Colon => seq![':'],
    }
}

/// The tokens that the vocabulary spells: keywords, operators, punctuation.
pub open spec fn is_reserved(t: Lexeme) -> bool {
    match t {
        Lexeme::Word(_) | Lexeme::Operator(_) | Lexeme::ParenOpen | Lexeme::ParenClose
        | Lexeme::Comma | Lexeme::Colon => true,
        _ => false,
    }
}

/// The keyword spelled `s`, if any.
pub open spec fn word_named(s: Seq<char>) -> Option<Word> {
    if s == word_text(Word::Data) {
        Some(Word::Data)
    }
    else if s == word_text(Word::Def) {
        Some(Word::Def)
    }
    else if s == word_text(Word::Dim) {
        Some(Word::Dim)
    }
    else if s == word_text(Word::Else) {
        Some(Word::Else)
    }
    else if s == word_text(Word::End) {
        Some(Word::End)
    }
    else if s == word_text(Word::For) {
        Some(Word::For)
    }
    else if s == word_text(Word::GoSub) {
        Some(Word::GoSub)
    }
    else if s == word_text(Word::GoTo) {
        Some(Word::GoTo)
    }
    else if s == word_text(Word::If) {
        Some(Word::If)
    }
    else if s == word_text(Word::Input) {
        Some(Word::Input)
    }
    else if s == word_text(Word::Let) {
        Some(Word::Let)
    }
    else if s == word_text(Word::Next) {
        Some(Word::Next)
    }
    else if s == word_text(Word::On) {
        Some(Word::On)
    }
    else if s == word_text(Word::Print) {
        Some(Word::Print)
    }
    else if s == word_text(Word::Read) {
        Some(Word::Read)
    }
    else if s == word_text(Word::Rem) {
        Some(Word::Rem)
    }
    else if s == word_text(Word::Rem2) {
        Some(Word::Rem2)
    }
    else if s == word_text(Word::Restore) {
        Some(Word::Restore)
    }
    else if s == word_text(Word::Return) {
        Some(Word::Return)
    }
    else if s == word_text(Word::Stop) {
        Some(Word::Stop)
    }
    else if s == word_text(Word::Then) {
        Some(Word::Then)
    }
    else if s == word_text(Word::To) {
        Some(Word::To)
    }
    else {
        None
    }
}

/// The operator spelled `s`, if any.
pub open spec fn operator_named(s: Seq<char>) -> Option<Operator> {
    if s == operator_text(Operator::Equals) {
        Some(Operator::Equals)
    }
    else if s == operator_text(Operator::Plus) {
        Some(Operator::Plus)
    }
    else if s == operator_text(Operator::Minus) {
        Some(Operator::Minus)
    }
    else if s == operator_text(Operator::Multiply) {
        Some(Operator::Multiply)
    }
    else if s == operator_text(Operator::Divide) {
        Some(Operator::Divide)
    }
    else if s == operator_text(Operator::DivideInt) {
        Some(Operator::DivideInt)
    }
    else if s == operator_text(Operator::Caret) {
        Some(Operator::Caret)
    }
    else if s == operator_text(Operator::Modulus) {
        Some(Operator::Modulus)
    }
    else if s == operator_text(Operator::Not) {
        Some(Operator::Not)
    }
    else if s == operator_text(Operator::And) {
        Some(Operator::And)
    }
    else if s == operator_text(Operator::Or) {
        Some(Operator::Or)
    }
    else if s == operator_text(Operator::Xor) {
        Some(Operator::Xor)
    }
    else if s == operator_text(Operator::Eqv) {
        Some(Operator::Eqv)
    }
    else if s == operator_text(Operator::Imp) {
        Some(Operator::Imp)
    }
    else {
        None
    }
}

/// The punctuation mark spelled `s`, if any.
pub open spec fn punctuation_named(s: Seq<char>) -> Option<Lexeme> {
    if s == seq!['('] {
        Some(Lexeme::ParenOpen)
    } else if s == seq![')'] {
        Some(Lexeme::ParenClose)
    } else if s == seq![','] {
        Some(Lexeme::Comma)
    } else if s == seq![':'] {
        Some(Lexeme::Colon)
    } else {
        None
    }
}

/// The reserved token whose canonical spelling is `s`, if any.
pub open spec fn lookup(s: Seq<char>) -> Option<Lexeme> {
    match word_named(s) {
        Some(w) => Some(Lexeme::Word(w)),
        None => match operator_named(s) {
            Some(o) => Some(Lexeme::Operator(o)),
            None => punctuation_named(s),
        },
    }
}

impl Word {
    /// The canonical spelling of this keyword.
    pub fn text(&self) -> (r: &'static str)
        ensures
            r@ == word_text(*self),
    {
        match self {
            Word::Data => "DATA",
            Word::Def => "DEF",
            Word::Dim => "DIM",
            Word::Else => "ELSE",
            Word::End => "END",
            Word::For => "FOR",
            Word::GoSub => "GOSUB",
            Word::GoTo => "GOTO",
            Word::If => "IF",
            Word::Input => "INPUT",
            Word::Let => "LET",
            Word::Next => "NEXT",
            Word::On => "ON",
            Word::Print => "PRINT",
            Word::Read => "READ",
            Word::Rem => "REM",
            Word::Rem2 => "'",
            Word::Restore => "RESTORE",
            Word::Return => "RETURN",
            Word::Stop => "STOP",
            Word::Then => "THEN",
            Word::To => "TO",
        }
    }

    /// The keyword spelled `s`, if any.
    pub fn named(s: &str) -> (r: Option<Word>)
        ensures
            r == word_named(s@),
    {
        if same_text(s, "DATA") {
            Some(Word::Data)
        }
        else if same_text(s, "DEF") {
            Some(Word::Def)
        }
        else if same_text(s, "DIM") {
            Some(Word::Dim)
        }
        else if same_text(s, "ELSE") {
            Some(Word::Else)
        }
        else if same_text(s, "END") {
            Some(Word::End)
        }
        else if same_text(s, "FOR") {
            Some(Word::For)
        }
        else if same_text(s, "GOSUB") {
            Some(Word::GoSub)
        }
        else if same_text(s, "GOTO") {
            Some(Word::GoTo)
        }
        else if same_text(s, "IF") {
            Some(Word::If)
        }
        else if same_text(s, "INPUT") {
            Some(Word::Input)
        }
        else if same_text(s, "LET") {
            Some(Word::Let)
        }
        else if same_text(s, "NEXT") {
            Some(Word::Next)
        }
        else if same_text(s, "ON") {
            Some(Word::On)
        }
        else if same_text(s, "PRINT") {
            Some(Word::Print)
        }
        else if same_text(s, "READ") {
            Some(Word::Read)
        }
        else if same_text(s, "REM") {
            Some(Word::Rem)
        }
        else if same_text(s, "'") {
            Some(Word::Rem2)
        }
        else if same_text(s, "RESTORE") {
            Some(Word::Restore)
        }
        else if same_text(s, "RETURN") {
            Some(Word::Return)
        }
        else if same_text(s, "STOP") {
            Some(Word::Stop)
        }
        else if same_text(s, "THEN") {
            Some(Word::Then)
        }
        else if same_text(s, "TO") {
            Some(Word::To)
        }
        else {
            None
        }
    }
}

impl Operator {
    /// The canonical spelling of this operator.
    pub fn text(&self) -> (r: &'static str)
        ensures
            r@ == operator_text(*self),
    {
        match self {
            Operator::Equals => "=",
            Operator::Plus => "+",
            Operator::Minus => "-",
            Operator::Multiply => "*",
            Operator::Divide => "/",
            Operator::DivideInt => "\\",
            Operator::Caret => "^",
            Operator::Modulus => "MOD",
            Operator::Not => "NOT",
            Operator::And => "AND",
            Operator::Or => "OR",
            Operator::Xor => "XOR",
            Operator::Eqv => "EQV",
            Operator::Imp => "IMP",
        }
    }

    /// The operator spelled `s`, if any.
    pub fn named(s: &str) -> (r: Option<Operator>)
        ensures
            r == operator_named(s@),
    {
        if same_text(s, "=") {
            Some(Operator::Equals)
        }
        else if same_text(s, "+") {
            Some(Operator::Plus)
        }
        else if same_text(s, "-") {
            Some(Operator::Minus)
        }
        else if same_text(s, "*") {
            Some(Operator::Multiply)
        }
        else if same_text(s, "/") {
            Some(Operator::Divide)
        }
        else if same_text(s, "\\") {
            Some(Operator::DivideInt)
        }
        else if same_text(s, "^") {
            Some(Operator::Caret)
        }
        else if same_text(s, "MOD") {
            Some(Operator::Modulus)
        }
        else if same_text(s, "NOT") {
            Some(Operator::Not)
        }
        else if same_text(s, "AND") {
            Some(Operator::And)
        }
        else if same_text(s, "OR") {
            Some(Operator::Or)
        }
        else if same_text(s, "XOR") {
            Some(Operator::Xor)
        }
        else if same_text(s, "EQV") {
            Some(Operator::Eqv)
        }
        else if same_text(s, "IMP") {
            Some(Operator::Imp)
        }
        else {
            None
        }
    }
}

impl Token {
    /// The reserved token spelled exactly `s` (already in upper case), if any.
    pub fn from_string(s: &str) -> (r: Option<Token>)
        ensures
            view_opt(r) == lookup(s@),
    {
        match Word::named(s) {
            Some(w) => Some(Token::Word(w)),
            None => match Operator::named(s) {
                Some(o) => Some(Token::Operator(o)),
                None => punctuation(s),
            },
        }
    }
}

/// The punctuation mark spelled `s`, if any.
fn punctuation(s: &str) -> (r: Option<Token>)
    ensures
        view_opt(r) == punctuation_named(s@),
{
    proof {
        reveal_strlit("(");
        reveal_strlit(")");
        reveal_strlit(",");
        reveal_strlit(":");
        assert("("@ =~= seq!['(']);
        assert(")"@ =~= seq![')']);
        assert(","@ =~= seq![',']);
        assert(":"@ =~= seq![':']);
    }
    if same_text(s, "(") {
        Some(Token::ParenOpen)
    } else if same_text(s, ")") {
        Some(Token::ParenClose)
    } else if same_text(s, ",") {
        Some(Token::Comma)
    } else if same_text(s, ":") {
        Some(Token::Colon)
    } else {
        None
    }
}

/// A string holding the one character `c`.
fn single(c: char) -> (r: String)
    ensures
        r@ == seq![c],
{
    let mut r = String::new();
    push_char(&mut r, c);
    r
}

impl Literal {
    /// The display text of this literal: a string literal between quotes.
    pub fn text(&self) -> (r: String)
        ensures
            r@ == display(Lexeme::Literal(self@.0, self@.1)),
    {
        match self {
            Literal::Single(s) => s.clone(),
            Literal::Double(s) => s.clone(),
            Literal::Integer(s) => s.clone(),
            Literal::String(s) => {
                let mut r = single('"');
                r.append(s.as_str());
                push_char(&mut r, '"');
                r
            },
        }
    }
}

impl Ident {
    /// The name of this identifier, with its sigil.
    pub fn text(&self) -> (r: String)
        ensures
            r@ == self@.1,
    {
        match self {
            Ident::Plain(s) => s.clone(),
            Ident::String(s) => s.clone(),
            Ident::Single(s) => s.clone(),
            Ident::Double(s) => s.clone(),
            Ident::Integer(s) => s.clone(),
        }
    }
}

impl Token {
    /// The display text of this token.
    pub fn text(&self) -> (r: String)
        ensures
            r@ == display(self@),
    {
        match self {
            Token::Unknown(s) => s.clone(),
            Token::Whitespace(n) => {
                let mut r = String::new();
                let mut i: usize = 0;
                while i < *n
                    invariant
                        i <= *n,
                        r@ == Seq::new(i as nat, |j: int| ' '),
                    decreases *n - i,
                {
                    push_char(&mut r, ' ');
                    i += 1;
                    assert(r@ =~= Seq::new(i as nat, |j: int| ' '));
                }
                r
            },
            Token::Literal(l) => l.text(),
            Token::Word(w) => String::from_str(w.text()),
            Token::Operator(o) => String::from_str(o.text()),
            Token::Ident(i) => i.text(),
            Token::ParenOpen => single('('),
            Token::ParenClose => single(')'),
            Token::Comma => single(','),
            Token::Colon => single(':'),
        }
    }
}

/// The canonical spellings, character by character.
proof fn lemma_spellings()
    ensures
        word_text(Word::Data) == seq!['D', 'A', 'T', 'A'],
        word_text(Word::Def) == seq!['D', 'E', 'F'],
        word_text(Word::Dim) == seq!['D', 'I', 'M'],
        word_text(Word::Else) == seq!['E', 'L', 'S', 'E'],
        word_text(Word::End) == seq!['E', 'N', 'D'],
        word_text(Word::For) == seq!['F', 'O', 'R'],
        word_text(Word::GoSub) == seq!['G', 'O', 'S', 'U', 'B'],
        word_text(Word::GoTo) == seq!['G', 'O', 'T', 'O'],
        word_text(Word::If) == seq!['I', 'F'],
        word_text(Word::Input) == seq!['I', 'N', 'P', 'U', 'T'],
        word_text(Word::Let) == seq!['L', 'E', 'T'],
        word_text(Word::Next) == seq!['N', 'E', 'X', 'T'],
        word_text(Word::On) == seq!['O', 'N'],
        word_text(Word::Print) == seq!['P', 'R', 'I', 'N', 'T'],
        word_text(Word::Read) == seq!['R', 'E', 'A', 'D'],
        word_text(Word::Rem) == seq!['R', 'E', 'M'],
        word_text(Word::Rem2) == seq!['\''],
        word_text(Word::Restore) == seq!['R', 'E', 'S', 'T', 'O', 'R', 'E'],
        word_text(Word::Return) == seq!['R', 'E', 'T', 'U', 'R', 'N'],
        word_text(Word::Stop) == seq!['S', 'T', 'O', 'P'],
        word_text(Word::Then) == seq!['T', 'H', 'E', 'N'],
        word_text(Word::To) == seq!['T', 'O'],
        operator_text(Operator::Equals) == seq!['='],
        operator_text(Operator::Plus) == seq!['+'],
        operator_text(Operator::Minus) == seq!['-'],
        operator_text(Operator::Multiply) == seq!['*'],
        operator_text(Operator::Divide) == seq!['/'],
        operator_text(Operator::DivideInt) == seq!['\\'],
        operator_text(Operator::Caret) == seq!['^'],
        operator_text(Operator::Modulus) == seq!['M', 'O', 'D'],
        operator_text(Operator::Not) == seq!['N', 'O', 'T'],
        operator_text(Operator::And) == seq!['A', 'N', 'D'],
        operator_text(Operator::Or) == seq!['O', 'R'],
        operator_text(Operator::Xor) == seq!['X', 'O', 'R'],
        operator_text(Operator::Eqv) == seq!['E', 'Q', 'V'],
        operator_text(Operator::Imp) == seq!['I', 'M', 'P'],
{
    reveal_strlit("DATA");
    reveal_strlit("DEF");
    reveal_strlit("DIM");
    reveal_strlit("ELSE");
    reveal_strlit("END");
    reveal_strlit("FOR");
    reveal_strlit("GOSUB");
    reveal_strlit("GOTO");
    reveal_strlit("IF");
    reveal_strlit("INPUT");
    reveal_strlit("LET");
    reveal_strlit("NEXT");
    reveal_strlit("ON");
    reveal_strlit("PRINT");
    reveal_strlit("READ");
    reveal_strlit("REM");
    reveal_strlit("'");
    reveal_strlit("RESTORE");
    reveal_strlit("RETURN");
    reveal_strlit("STOP");
    reveal_strlit("THEN");
    reveal_strlit("TO");
    reveal_strlit("=");
    reveal_strlit("+");
    reveal_strlit("-");
    reveal_strlit("*");
    reveal_strlit("/");
    reveal_strlit("\\");
    reveal_strlit("^");
    reveal_strlit("MOD");
    reveal_strlit("NOT");
    reveal_strlit("AND");
    reveal_strlit("OR");
    reveal_strlit("XOR");
    reveal_strlit("EQV");
    reveal_strlit("IMP");
    assert(word_text(Word::Data) =~= seq!['D', 'A', 'T', 'A']);
    assert(word_text(Word::Def) =~= seq!['D', 'E', 'F']);
    assert(word_text(Word::Dim) =~= seq!['D', 'I', 'M']);
    assert(word_text(Word::Else) =~= seq!['E', 'L', 'S', 'E']);
    assert(word_text(Word::End) =~= seq!['E', 'N', 'D']);
    assert(word_text(Word::For) =~= seq!['F', 'O', 'R']);
    assert(word_text(Word::GoSub) =~= seq!['G', 'O', 'S', 'U', 'B']);
    assert(word_text(Word::GoTo) =~= seq!['G', 'O', 'T', 'O']);
    assert(word_text(Word::If) =~= seq!['I', 'F']);
    assert(word_text(Word::Input) =~= seq!['I', 'N', 'P', 'U', 'T']);
    assert(word_text(Word::Let) =~= seq!['L', 'E', 'T']);
    assert(word_text(Word::Next) =~= seq!['N', 'E', 'X', 'T']);
    assert(word_text(Word::On) =~= seq!['O', 'N']);
    assert(word_text(Word::Print) =~= seq!['P', 'R', 'I', 'N', 'T']);
    assert(word_text(Word::Read) =~= seq!['R', 'E', 'A', 'D']);
    assert(word_text(Word::Rem) =~= seq!['R', 'E', 'M']);
    assert(word_text(Word::Rem2) =~= seq!['\'']);
    assert(word_text(Word::Restore) =~= seq!['R', 'E', 'S', 'T', 'O', 'R', 'E']);
    assert(word_text(Word::Return) =~= seq!['R', 'E', 'T', 'U', 'R', 'N']);
    assert(word_text(Word::Stop) =~= seq!['S', 'T', 'O', 'P']);
    assert(word_text(Word::Then) =~= seq!['T', 'H', 'E', 'N']);
    assert(word_text(Word::To) =~= seq!['T', 'O']);
    assert(operator_text(Operator::Equals) =~= seq!['=']);
    assert(operator_text(Operator::Plus) =~= seq!['+']);
    assert(operator_text(Operator::Minus) =~= seq!['-']);
    assert(operator_text(Operator::Multiply) =~= seq!['*']);
    assert(operator_text(Operator::Divide) =~= seq!['/']);
    assert(operator_text(Operator::DivideInt) =~= seq!['\\']);
    assert(operator_text(Operator::Caret) =~= seq!['^']);
    assert(operator_text(Operator::Modulus) =~= seq!['M', 'O', 'D']);
    assert(operator_text(Operator::Not) =~= seq!['N', 'O', 'T']);
    assert(operator_text(Operator::And) =~= seq!['A', 'N', 'D']);
    assert(operator_text(Operator::Or) =~= seq!['O', 'R']);
    assert(operator_text(Operator::Xor) =~= seq!['X', 'O', 'R']);
    assert(operator_text(Operator::Eqv) =~= seq!['E', 'Q', 'V']);
    assert(operator_text(Operator::Imp) =~= seq!['I', 'M', 'P']);
}

/// Looking up the canonical spelling of a keyword, operator or punctuation
/// mark gives that same token back.
pub proof fn lemma_lookup_display(t: Lexeme)
    requires
        is_reserved(t),
    ensures
        lookup(display(t)) == Some(t),
{
    lemma_spellings();
    match t {
        Lexeme::Word(w) => match w {
            Word::Data => assert(lookup(display(t)) == Some(t)),
            Word::Def => assert(lookup(display(t)) == Some(t)),
            Word::Dim => assert(lookup(display(t)) == Some(t)),
            Word::Else => assert(lookup(display(t)) == Some(t)),
            Word::End => assert(lookup(display(t)) == Some(t)),
            Word::For => assert(lookup(display(t)) == Some(t)),
            Word::GoSub => assert(lookup(display(t)) == Some(t)),
            Word::GoTo => assert(lookup(display(t)) == Some(t)),
            Word::If => assert(lookup(display(t)) == Some(t)),
            Word::Input => assert(lookup(display(t)) == Some(t)),
            Word::Let => assert(lookup(display(t)) == Some(t)),
            Word::Next => assert(lookup(display(t)) == Some(t)),
            Word::On => assert(lookup(display(t)) == Some(t)),
            Word::Print => assert(lookup(display(t)) == Some(t)),
            Word::Read => assert(lookup(display(t)) == Some(t)),
            Word::Rem => assert(lookup(display(t)) == Some(t)),
            Word::Rem2 => assert(lookup(display(t)) == Some(t)),
            Word::Restore => assert(lookup(display(t)) == Some(t)),
            Word::Return => assert(lookup(display(t)) == Some(t)),
            Word::Stop => assert(lookup(display(t)) == Some(t)),
            Word::Then => assert(lookup(display(t)) == Some(t)),
            Word::To => assert(lookup(display(t)) == Some(t)),
        },
        Lexeme::Operator(o) => match o {
            Operator::Equals => {
                assert(display(t)[0] != word_text(Word::Rem2)[0]);
            },
            Operator::Plus => {
                assert(display(t)[0] != word_text(Word::Rem2)[0]);
            },
            Operator::Minus => {
                assert(display(t)[0] != word_text(Word::Rem2)[0]);
            },
            Operator::Multiply => {
                assert(display(t)[0] != word_text(Word::Rem2)[0]);
            },
            Operator::Divide => {
                assert(display(t)[0] != word_text(Word::Rem2)[0]);
            },
            Operator::DivideInt => {
                assert(display(t)[0] != word_text(Word::Rem2)[0]);
            },
            Operator::Caret => {
                assert(display(t)[0] != word_text(Word::Rem2)[0]);
            },
            Operator::Modulus => assert(lookup(display(t)) == Some(t)),
            Operator::Not => assert(lookup(display(t)) == Some(t)),
            Operator::And => assert(lookup(display(t)) == Some(t)),
            Operator::Or => assert(lookup(display(t)) == Some(t)),
            Operator::Xor => assert(lookup(display(t)) == Some(t)),
            Operator::Eqv => assert(lookup(display(t)) == Some(t)),
            Operator::Imp => assert(lookup(display(t)) == Some(t)),
        },
        _ => {
            assert(display(t)[0] != word_text(Word::Rem2)[0]);
            assert(display(t)[0] != operator_text(Operator::Equals)[0]);
        },
    }
}

} // verus!
