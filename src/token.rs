use vstd::prelude::*;
use vstd::std_specs::iter::IteratorSpec;

verus! {

/// What a token is: an operator, a delimiter, a literal, an identifier, a
/// reserved word, or one of the two sentinels.
#[derive(Debug, Clone, PartialEq, Eq)]
pub enum TokenType {
    // Operators
    Equals,
    NotEquals,
    Plus,
    Minus,
    Bang,
    Asterisk,
    Slash,
    LT,
    GT,
    // Delimiters
    Comma,
    Semicolon,
    LeftParen,
    RightParen,
    LeftBrace,
    RightBrace,
    // Literals and identifiers
    Identifier(String),
    Integer(u64),
    Bool(bool),
    // Reserved words
    Function,
    Let,
    Return,
    Assign,
    If,
    Else,
    // Sentinels
    Illegal(char),
    EOF,
}

/// A classified piece of source text with the position of its first character.
#[derive(Debug, Clone, PartialEq, Eq)]
pub struct Token {
    pub token_type: TokenType,
    /// The exact source text of the token; empty for the end of input.
    pub literal: String,
    /// 1-based line of the first character.
    pub line: usize,
    /// 1-based column (in characters) of the first character.
    pub column: usize,
}

/// The reserved word that `text` spells, if it spells one.
pub open spec fn keyword(text: Seq<char>) -> Option<TokenType> {
    if text == seq!['f', 'n'] {
        Some(TokenType::Function)
    } else if text == seq!['l', 'e', 't'] {
        Some(TokenType::Let)
    } else if text == seq!['i', 'f'] {
        Some(TokenType::If)
    } else if text == seq!['e', 'l', 's', 'e'] {
        Some(TokenType::Else)
    } else if text == seq!['r', 'e', 't', 'u', 'r', 'n'] {
        Some(TokenType::Return)
    } else if text == seq!['t', 'r', 'u', 'e'] {
        Some(TokenType::Bool(true))
    } else if text == seq!['f', 'a', 'l', 's', 'e'] {
        Some(TokenType::Bool(false))
    } else {
        None
    }
}

/// The kind given to an identifier-shaped run `text`: its reserved word, or
/// an identifier named `text`.
pub open spec fn word_kind_is(t: TokenType, text: Seq<char>) -> bool {
    match keyword(text) {
        Some(k) => t == k,
        None => t is Identifier && t->Identifier_0@ == text,
    }
}

fn spells(cs: &Vec<char>, from: usize, to: usize, word: &[char]) -> (r: bool)
    requires
        from <= to <= cs@.len(),
    ensures
        r == (cs@.subrange(from as int, to as int) == word@),
{
    if to - from != word.len() {
        proof {
            assert(cs@.subrange(from as int, to as int).len() != word@.len());
        }
        return false;
    }
    let mut k: usize = 0;
    while k < word.len()
        invariant
            from <= to <= cs@.len(),
            to - from == word@.len(),
            k <= word@.len(),
            forall|j: int| 0 <= j < k ==> cs@[from + j] == word@[j],
        decreases word@.len() - k,
    {
        if cs[from + k] != word[k] {
            proof {
                assert(cs@.subrange(from as int, to as int)[k as int] != word@[k as int]);
            }
            return false;
        }
        k = k + 1;
    }
    proof {
        assert(cs@.subrange(from as int, to as int) =~= word@);
    }
    true
}

/// The reserved word spelt by `cs[from..to]`, if any.
pub(crate) fn keyword_of(cs: &Vec<char>, from: usize, to: usize) -> (r: Option<TokenType>)
    requires
        from <= to <= cs@.len(),
    ensures
        r == keyword(cs@.subrange(from as int, to as int)),
{
    if spells(cs, from, to, &['f', 'n']) {
        Some(TokenType::Function)
    } else if spells(cs, from, to, &['l', 'e', 't']) {
        Some(TokenType::Let)
    } else if spells(cs, from, to, &['i', 'f']) {
        Some(TokenType::If)
    } else if spells(cs, from, to, &['e', 'l', 's', 'e']) {
        Some(TokenType::Else)
    } else if spells(cs, from, to, &['r', 'e', 't', 'u', 'r', 'n']) {
        Some(TokenType::Return)
    } else if spells(cs, from, to, &['t', 'r', 'u', 'e']) {
        Some(TokenType::Bool(true))
    } else if spells(cs, from, to, &['f', 'a', 'l', 's', 'e']) {
        Some(TokenType::Bool(false))
    } else {
        None
    }
}

/// The characters of `s`, in order.
pub(crate) fn chars_of(s: &str) -> (r: Vec<char>)
    ensures
        r@ == s@,
{
    broadcast use vstd::string::group_string_axioms;
    broadcast use vstd::string::next_postcondition;

    let mut it = s.chars();
    let mut out: Vec<char> = Vec::new();
    loop
        invariant
            out@ + it.remaining() == s@,
            it.obeys_prophetic_iter_laws(),
            it.decrease() is Some,
        ensures
            out@ == s@,
        decreases it.decrease()->0,
    {
        match it.next() {
            Some(c) => {
                out.push(c);
            },
            None => {
                return out;
            },
        }
    }
}

/// Classifies an identifier-shaped word: one of the reserved words (`fn`,
/// `let`, `if`, `else`, `return`, `true`, `false`), or else an identifier
/// named by the word itself.
pub fn lookup_ident(ident: &str) -> (r: TokenType)
    ensures
        word_kind_is(r, ident@),
{
    let cs = chars_of(ident);
    match keyword_of(&cs, 0, cs.len()) {
        Some(k) => {
            proof {
                assert(cs@.subrange(0, cs@.len() as int) =~= ident@);
            }
            k
        },
        None => {
            proof {
                assert(cs@.subrange(0, cs@.len() as int) =~= ident@);
            }
            TokenType::Identifier(ident.to_owned())
        },
    }
}

} // verus!
