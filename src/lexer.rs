//! A lexer for a richer token set: comparison operators and the keywords
//! `true`, `false`, `and` and `or`, each token with its source text.
use crate::num::Num;
use crate::tokenizer::{
    alphabetic, char_is_alphabetic, char_is_whitespace, is_numeral_char, lemma_numeral_end,
    numeral_end, whitespace,
};
use vstd::prelude::*;

verus! {

#[derive(Debug, Copy, Clone, PartialEq, Eq, Structural)]
pub enum Operator {
    Plus,
    Minus,
    Star,
    Slash,
    Percent,
    Caret,
    LParen,
    RParen,
    Pipe,
    /// Comparison or assignment.
    Equal,
    /// Boolean not or factorial.
    Exclamation,
    Greater,
    GreaterEqual,
    Lesser,
    LesserEqual,
    NotEqual,
}

#[derive(Debug, Copy, Clone, PartialEq, Eq, Structural)]
pub enum Keyword {
    True,
    False,
    And,
    Or,
}

#[derive(Debug, Clone, PartialEq)]
pub enum TokenValue<T> {
    Number(Box<T>),
    Operator(Operator),
    Keyword(Keyword),
    Identifier(String),
}

/// A token with the source text it was made from and the character offset where that starts.
#[derive(Debug, Clone)]
pub struct Token<T> {
    pub value: TokenValue<T>,
    pub lexeme: String,
    pub pos: usize,
}

#[derive(Debug)]
pub struct Lexer<T> {
    source: String,
    pub tokens: Vec<Token<T>>,
}

/// `InvalidCharacter`: a character that starts no token.
/// `InvalidNumber`: a numeral that the numeric type does not parse, such as `2.34.2`.
#[derive(Debug, Clone, PartialEq)]
pub enum LexerError {
    InvalidCharacter(char),
    InvalidNumber(String),
}

pub enum LexValue<T> {
    Number(T),
    Operator(Operator),
    Keyword(Keyword),
    Identifier(Seq<char>),
}

pub struct LexToken<T> {
    pub value: LexValue<T>,
    pub lexeme: Seq<char>,
    pub pos: int,
}

pub enum LexErrorView {
    InvalidCharacter(char),
    InvalidNumber(Seq<char>),
}

impl<T: Copy> View for Token<T> {
    type V = LexToken<T>;

    open spec fn view(&self) -> LexToken<T> {
        LexToken {
            value: match self.value {
                TokenValue::Number(n) => LexValue::Number(*n),
                TokenValue::Operator(o) => LexValue::Operator(o),
                TokenValue::Keyword(k) => LexValue::Keyword(k),
                TokenValue::Identifier(id) => LexValue::Identifier(id@),
            },
            lexeme: self.lexeme@,
            pos: self.pos as int,
        }
    }
}

impl View for LexerError {
    type V = LexErrorView;

    open spec fn view(&self) -> LexErrorView {
        match self {
            LexerError::InvalidCharacter(c) => LexErrorView::InvalidCharacter(*c),
            LexerError::InvalidNumber(s) => LexErrorView::InvalidNumber(s@),
        }
    }
}

pub open spec fn lex_tokens_view<T: Copy>(ts: Seq<Token<T>>) -> Seq<LexToken<T>> {
    ts.map_values(|t: Token<T>| t@)
}

impl<T> Token<T> {
    pub fn value(&self) -> (r: &TokenValue<T>)
        ensures
            *r == self.value,
    {
        &self.value
    }

    pub fn lexeme(&self) -> (r: &str)
        ensures
            r@ == self.lexeme@,
    {
        self.lexeme.as_str()
    }

    pub fn pos(&self) -> (r: usize)
        ensures
            r == self.pos,
    {
        self.pos
    }
}

/// The operator that a character makes on its own, where no `=` can follow it.
pub open spec fn plain_operator(c: char) -> Option<Operator> {
    if c == '+' {
        Some(Operator::Plus)
    } else if c == '-' {
        Some(Operator::Minus)
    } else if c == '*' {
        Some(Operator::Star)
    } else if c == '/' {
        Some(Operator::Slash)
    } else if c == '%' {
        Some(Operator::Percent)
    } else if c == '^' {
        Some(Operator::Caret)
    } else if c == '(' {
        Some(Operator::LParen)
    } else if c == ')' {
        Some(Operator::RParen)
    } else if c == '|' {
        Some(Operator::Pipe)
    } else if c == '=' {
        Some(Operator::Equal)
    } else {
        None
    }
}

/// The operators of `!`, `>` and `<`: alone, and followed by `=`.
pub open spec fn pair_operator(c: char) -> Option<(Operator, Operator)> {
    if c == '!' {
        Some((Operator::Exclamation, Operator::NotEqual))
    } else if c == '>' {
        Some((Operator::Greater, Operator::GreaterEqual))
    } else if c == '<' {
        Some((Operator::Lesser, Operator::LesserEqual))
    } else {
        None
    }
}

pub open spec fn keyword_of(w: Seq<char>) -> Option<Keyword> {
    if w == seq!['t', 'r', 'u', 'e'] {
        Some(Keyword::True)
    } else if w == seq!['f', 'a', 'l', 's', 'e'] {
        Some(Keyword::False)
    } else if w == seq!['a', 'n', 'd'] {
        Some(Keyword::And)
    } else if w == seq!['o', 'r'] {
        Some(Keyword::Or)
    } else {
        None
    }
}

pub open spec fn is_word_char(c: char) -> bool {
    alphabetic(c) || c == '_'
}

/// The end of the run of word characters that starts at `i`.
pub open spec fn word_end(s: Seq<char>, i: int) -> int
    decreases s.len() - i,
{
    if 0 <= i < s.len() && is_word_char(s[i]) {
        word_end(s, i + 1)
    } else {
        i
    }
}

pub open spec fn lex_token<T>(value: LexValue<T>, s: Seq<char>, start: int, end: int) -> LexToken<T> {
    LexToken { value, lexeme: s.subrange(start, end), pos: start }
}

/// Puts `t` in front of the tokens of a lexing run.
pub open spec fn cons<T>(t: LexToken<T>, r: (Seq<LexToken<T>>, Option<LexErrorView>)) -> (
    Seq<LexToken<T>>,
    Option<LexErrorView>,
) {
    (seq![t] + r.0, r.1)
}

/// The tokens that lexing `s` from character `i` makes, and the error that
/// stops it, if one does.
pub open spec fn lex<T: Num>(s: Seq<char>, i: int) -> (Seq<LexToken<T>>, Option<LexErrorView>)
    decreases s.len() - i,
    via lex_decreases::<T>
{
    if i < 0 || i >= s.len() {
        (Seq::empty(), None)
    } else {
        let c = s[i];
        if plain_operator(c) is Some {
            cons(lex_token(LexValue::Operator(plain_operator(c).unwrap()), s, i, i + 1), lex(s, i + 1))
        } else if pair_operator(c) is Some {
            let (alone, with_eq) = pair_operator(c).unwrap();
            if i + 1 < s.len() && s[i + 1] == '=' {
                cons(lex_token(LexValue::Operator(with_eq), s, i, i + 2), lex(s, i + 2))
            } else {
                cons(lex_token(LexValue::Operator(alone), s, i, i + 1), lex(s, i + 1))
            }
        } else if whitespace(c) {
            lex(s, i + 1)
        } else if is_numeral_char(c) {
            let e = numeral_end(s, i + 1);
            match T::spec_parse(s.subrange(i, e)) {
                Some(n) => cons(lex_token(LexValue::Number(n), s, i, e), lex(s, e)),
                None => (Seq::empty(), Some(LexErrorView::InvalidNumber(s.subrange(i, e)))),
            }
        } else if alphabetic(c) {
            let e = word_end(s, i + 1);
            let w = s.subrange(i, e);
            match keyword_of(w) {
                Some(k) => cons(lex_token(LexValue::Keyword(k), s, i, e), lex(s, e)),
                None => cons(lex_token(LexValue::Identifier(w), s, i, e), lex(s, e)),
            }
        } else {
            (Seq::empty(), Some(LexErrorView::InvalidCharacter(c)))
        }
    }
}

proof fn lemma_word_end(s: Seq<char>, i: int)
    requires
        0 <= i <= s.len(),
    ensures
        i <= word_end(s, i) <= s.len(),
    decreases s.len() - i,
{
    if i < s.len() && is_word_char(s[i]) {
        lemma_word_end(s, i + 1);
    }
}

#[via_fn]
proof fn lex_decreases<T: Num>(s: Seq<char>, i: int) {
    if 0 <= i < s.len() {
        lemma_word_end(s, i + 1);
        lemma_numeral_end(s, i + 1);
    }
}

fn keyword_for(w: &String) -> (r: Option<Keyword>)
    ensures
        r == keyword_of(w@),
{
    let t = "true".to_owned();
    let f = "false".to_owned();
    let a = "and".to_owned();
    let o = "or".to_owned();
    proof {
        reveal_strlit("true");
        reveal_strlit("false");
        reveal_strlit("and");
        reveal_strlit("or");
        assert(t@ =~= seq!['t', 'r', 'u', 'e']);
        assert(f@ =~= seq!['f', 'a', 'l', 's', 'e']);
        assert(a@ =~= seq!['a', 'n', 'd']);
        assert(o@ =~= seq!['o', 'r']);
    }
    if *w == t {
        Some(Keyword::True)
    } else if *w == f {
        Some(Keyword::False)
    } else if *w == a {
        Some(Keyword::And)
    } else if *w == o {
        Some(Keyword::Or)
    } else {
        None
    }
}

proof fn lemma_cons_step<T>(
    done: Seq<LexToken<T>>,
    t: LexToken<T>,
    rest: (Seq<LexToken<T>>, Option<LexErrorView>),
)
    ensures
        done.push(t) + rest.0 == done + cons(t, rest).0,
{
    assert(done.push(t) + rest.0 =~= done + (seq![t] + rest.0));
}

impl<T: Num> Lexer<T> {
    /// The characters of the source text.
    pub closed spec fn source_view(&self) -> Seq<char> {
        self.source@
    }

    /// The tokens made so far.
    pub closed spec fn token_seq(&self) -> Seq<Token<T>> {
        self.tokens@
    }

    pub fn new(input: &str) -> (r: Lexer<T>)
        ensures
            r.source_view() == input@,
            r.token_seq().len() == 0,
    {
        Lexer { source: input.to_owned(), tokens: Vec::new() }
    }

    pub fn tokens(&self) -> (r: &[Token<T>])
        ensures
            r@ == self.token_seq(),
    {
        self.tokens.as_slice()
    }

    /// Lexes the source text and appends its tokens; at an error the tokens
    /// before it stay appended.
    pub fn scan(&mut self) -> (r: Result<(), LexerError>)
        ensures
            final(self).source_view() == old(self).source_view(),
            lex_tokens_view(final(self).token_seq()) == lex_tokens_view(old(self).token_seq()) + lex::<T>(
                old(self).source_view(),
                0,
            ).0,
            match r {
                Ok(()) => lex::<T>(old(self).source_view(), 0).1 is None,
                Err(e) => lex::<T>(old(self).source_view(), 0).1 == Some(e@),
            },
    {
        let source = self.source.clone();
        let ghost s = source@;
        let ghost start = lex_tokens_view(self.tokens@);
        let n = source.as_str().unicode_len();
        let mut i: usize = 0;
        proof {
            assert(start + lex::<T>(s, 0).0 == start + lex::<T>(s, 0).0);
        }
        while i < n
            invariant
                s == source@,
                s == self.source@,
                s == old(self).source_view(),
                start == lex_tokens_view(old(self).token_seq()),
                n == s.len(),
                i <= n,
                lex_tokens_view(self.tokens@) + lex::<T>(s, i as int).0 == start + lex::<T>(s, 0).0,
                lex::<T>(s, i as int).1 == lex::<T>(s, 0).1,
            decreases n - i,
        {
            let text = source.as_str();
            let c = text.get_char(i);
            let ghost done = lex_tokens_view(self.tokens@);
            let plain: Option<Operator> = if c == '+' {
                Some(Operator::Plus)
            } else if c == '-' {
                Some(Operator::Minus)
            } else if c == '*' {
                Some(Operator::Star)
            } else if c == '/' {
                Some(Operator::Slash)
            } else if c == '%' {
                Some(Operator::Percent)
            } else if c == '^' {
                Some(Operator::Caret)
            } else if c == '(' {
                Some(Operator::LParen)
            } else if c == ')' {
                Some(Operator::RParen)
            } else if c == '|' {
                Some(Operator::Pipe)
            } else if c == '=' {
                Some(Operator::Equal)
            } else {
                None
            };
            let pair: Option<(Operator, Operator)> = if c == '!' {
                Some((Operator::Exclamation, Operator::NotEqual))
            } else if c == '>' {
                Some((Operator::Greater, Operator::GreaterEqual))
            } else if c == '<' {
                Some((Operator::Lesser, Operator::LesserEqual))
            } else {
                None
            };
            let mut end: usize = i + 1;
            let value: TokenValue<T>;
            if let Some(op) = plain {
                value = TokenValue::Operator(op);
            } else if let Some((alone, with_eq)) = pair {
                if i + 1 < n && text.get_char(i + 1) == '=' {
                    end = i + 2;
                    value = TokenValue::Operator(with_eq);
                } else {
                    value = TokenValue::Operator(alone);
                }
            } else if char_is_whitespace(c) {
                i = i + 1;
                continue;
            } else if ('0' <= c && c <= '9') || c == '.' {
                proof {
                    lemma_numeral_end(s, i + 1);
                }
                while end < n
                    invariant
                        s == source@,
                        text@ == s,
                        n == s.len(),
                        i < end <= n,
                        end <= numeral_end(s, i + 1),
                        numeral_end(s, end as int) == numeral_end(s, i + 1),
                    ensures
                        numeral_end(s, end as int) == end,
                    decreases n - end,
                {
                    let nc = text.get_char(end);
                    if ('0' <= nc && nc <= '9') || nc == '.' {
                        proof {
                            assert(numeral_end(s, end as int) == numeral_end(s, end + 1));
                            lemma_numeral_end(s, end + 1);
                        }
                        end = end + 1;
                    } else {
                        break;
                    }
                }
                let digits = text.substring_char(i, end);
                match T::parse(digits) {
                    Some(num) => {
                        value = TokenValue::Number(Box::new(num));
                    },
                    None => {
                        return Err(LexerError::InvalidNumber(digits.to_owned()));
                    },
                }
            } else if char_is_alphabetic(c) {
                proof {
                    lemma_word_end(s, i + 1);
                }
                while end < n
                    invariant
                        s == source@,
                        text@ == s,
                        n == s.len(),
                        i < end <= n,
                        end <= word_end(s, i + 1),
                        word_end(s, end as int) == word_end(s, i + 1),
                    ensures
                        word_end(s, end as int) == end,
                    decreases n - end,
                {
                    let nc = text.get_char(end);
                    if char_is_alphabetic(nc) || nc == '_' {
                        proof {
                            assert(word_end(s, end as int) == word_end(s, end + 1));
                            lemma_word_end(s, end + 1);
                        }
                        end = end + 1;
                    } else {
                        break;
                    }
                }
                let word = text.substring_char(i, end).to_owned();
                value = match keyword_for(&word) {
                    Some(k) => TokenValue::Keyword(k),
                    None => TokenValue::Identifier(word),
                };
            } else {
                return Err(LexerError::InvalidCharacter(c));
            }
            let lexeme = text.substring_char(i, end).to_owned();
            let tok = Token { value, lexeme, pos: i };
            proof {
                assert(lex::<T>(s, i as int) == cons(tok@, lex::<T>(s, end as int)));
                lemma_cons_step(done, tok@, lex::<T>(s, end as int));
                assert(lex_tokens_view(self.tokens@.push(tok)) =~= done.push(tok@));
            }
            self.tokens.push(tok);
            i = end;
        }
        proof {
            assert(lex_tokens_view(self.tokens@) + Seq::<LexToken<T>>::empty() =~= lex_tokens_view(
                self.tokens@,
            ));
        }
        Ok(())
    }
}

} // verus!
