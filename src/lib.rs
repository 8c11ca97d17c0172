//! A line scanner for a BASIC dialect: it turns one line of source text into
//! typed tokens, with the leading line number split off. The token
//! vocabulary, the scanner and the laws it keeps are verified; so are the
//! rules of the small console games that ship with it (Hexapawn, Life and
//! Acey-Deucey).

pub mod text;
pub mod token;
pub mod lex;
pub mod line;
pub mod round_trip;

pub mod cards;
pub mod hexapawn;
pub mod life;
