use crate::num::{is_digit, Num};
use std::ops::Range;
use vstd::prelude::*;
use vstd::utf8::{encode_scalar, encode_utf8};

verus! {

/// Relies on the `Clone` impl of `std::ops::Range`, which copies both bounds;
/// the spans here are cloned only to be handed out.
pub assume_specification<Idx: Clone>[ <Range<Idx> as Clone>::clone ](r: &Range<Idx>) -> Range<Idx>;

#[derive(Debug, Copy, Clone, PartialEq, Eq, Structural)]
pub enum OpVal {
    Add,
    Sub,
    Mul,
    Div,
    Mod,
    Pow,
    Eq,
    Exclaim,
}

#[derive(Debug, Copy, Clone, PartialEq, Eq, Structural)]
pub enum SymbolVal {
    LP,
    RP,
    Comma,
    Pipe,
}

#[derive(Debug, Clone, PartialEq)]
pub enum TokenValue<N> {
    Num(N),
    Id(String),
    Op(OpVal),
    Symbol(SymbolVal),
}

/// A token and the half-open range of byte offsets in the source that it covers.
#[derive(Debug, Clone, PartialEq)]
pub struct Token<N> {
    pub value: TokenValue<N>,
    pub span: Range<usize>,
}

#[derive(Debug, Clone, PartialEq)]
pub enum TokenizeErrorCode {
    InvalidNumber(String),
    UnrecognizedChar(char),
}

#[derive(Debug, Clone, PartialEq)]
pub struct TokenizeError {
    pub code: TokenizeErrorCode,
    pub span: Range<usize>,
}

#[derive(Debug, Clone)]
pub struct TokenizeOptions {
    /// Lets identifiers hold ASCII digits after their first character.
    pub identifiers_contain_numbers: bool,
}

impl Default for TokenizeOptions {
    fn default() -> (r: TokenizeOptions)
        ensures
            !r.identifiers_contain_numbers,
    {
        TokenizeOptions { identifiers_contain_numbers: false }
    }
}

/// What a token value is, with an identifier given by its characters.
pub enum TokenValueView<N> {
    Num(N),
    Id(Seq<char>),
    Op(OpVal),
    Symbol(SymbolVal),
}

pub struct TokenView<N> {
    pub value: TokenValueView<N>,
    pub span: Range<usize>,
}

pub enum TokenizeErrorCodeView {
    InvalidNumber(Seq<char>),
    UnrecognizedChar(char),
}

pub struct TokenizeErrorView {
    pub code: TokenizeErrorCodeView,
    pub span: Range<usize>,
}

impl<N> View for TokenValue<N> {
    type V = TokenValueView<N>;

    open spec fn view(&self) -> TokenValueView<N> {
        match self {
            TokenValue::Num(n) => TokenValueView::Num(*n),
            TokenValue::Id(s) => TokenValueView::Id(s@),
            TokenValue::Op(o) => TokenValueView::Op(*o),
            TokenValue::Symbol(s) => TokenValueView::Symbol(*s),
        }
    }
}

impl<N> View for Token<N> {
    type V = TokenView<N>;

    open spec fn view(&self) -> TokenView<N> {
        TokenView { value: self.value@, span: self.span }
    }
}

impl View for TokenizeError {
    type V = TokenizeErrorView;

    open spec fn view(&self) -> TokenizeErrorView {
        TokenizeErrorView {
            code: match self.code {
                TokenizeErrorCode::InvalidNumber(s) => TokenizeErrorCodeView::InvalidNumber(s@),
                TokenizeErrorCode::UnrecognizedChar(c) => TokenizeErrorCodeView::UnrecognizedChar(c),
            },
            span: self.span,
        }
    }
}

/// The views of a sequence of tokens.
pub open spec fn tokens_view<N>(ts: Seq<Token<N>>) -> Seq<TokenView<N>> {
    ts.map_values(|t: Token<N>| t@)
}

/// What `char::is_alphabetic` says of a character.
pub uninterp spec fn alphabetic(c: char) -> bool;

/// What `char::is_alphanumeric` says of a character.
pub uninterp spec fn alphanumeric(c: char) -> bool;

/// What `char::is_whitespace` says of a character.
pub uninterp spec fn whitespace(c: char) -> bool;

/// Relies on char::is_alphabetic: the Unicode Alphabetic property of `c`.
#[verifier::external_body]
pub(crate) fn char_is_alphabetic(c: char) -> (r: bool)
    ensures
        r == alphabetic(c),
{
    c.is_alphabetic()
}

/// Relies on char::is_alphanumeric: the Unicode Alphabetic or Numeric property of `c`.
#[verifier::external_body]
fn char_is_alphanumeric(c: char) -> (r: bool)
    ensures
        r == alphanumeric(c),
{
    c.is_alphanumeric()
}

/// Relies on char::is_whitespace: the Unicode White_Space property of `c`.
#[verifier::external_body]
pub(crate) fn char_is_whitespace(c: char) -> (r: bool)
    ensures
        r == whitespace(c),
{
    c.is_whitespace()
}

/// The token that a character makes on its own, if it is an operator or a symbol.
pub open spec fn single_char_token<N>(c: char) -> Option<TokenValueView<N>> {
    if c == '+' {
        Some(TokenValueView::Op(OpVal::Add))
    } else if c == '-' {
        Some(TokenValueView::Op(OpVal::Sub))
    } else if c == '*' {
        Some(TokenValueView::Op(OpVal::Mul))
    } else if c == '/' {
        Some(TokenValueView::Op(OpVal::Div))
    } else if c == '%' {
        Some(TokenValueView::Op(OpVal::Mod))
    } else if c == '^' {
        Some(TokenValueView::Op(OpVal::Pow))
    } else if c == '=' {
        Some(TokenValueView::Op(OpVal::Eq))
    } else if c == '!' {
        Some(TokenValueView::Op(OpVal::Exclaim))
    } else if c == '(' {
        Some(TokenValueView::Symbol(SymbolVal::LP))
    } else if c == ')' {
        Some(TokenValueView::Symbol(SymbolVal::RP))
    } else if c == ',' {
        Some(TokenValueView::Symbol(SymbolVal::Comma))
    } else if c == '|' {
        Some(TokenValueView::Symbol(SymbolVal::Pipe))
    } else {
        None
    }
}

pub open spec fn is_numeral_char(c: char) -> bool {
    is_digit(c) || c == '.'
}

pub open spec fn is_ident_start(c: char) -> bool {
    c == '_' || alphabetic(c)
}

pub open spec fn is_ident_char(c: char, digits: bool) -> bool {
    c == '_' || alphanumeric(c) || (digits && is_digit(c))
}

/// The end of the run of numeral characters that starts at `i`.
pub open spec fn numeral_end(s: Seq<char>, i: int) -> int
    decreases s.len() - i,
{
    if 0 <= i < s.len() && is_numeral_char(s[i]) {
        numeral_end(s, i + 1)
    } else {
        i
    }
}

/// The end of the run of identifier characters that starts at `i`.
pub open spec fn ident_end(s: Seq<char>, i: int, digits: bool) -> int
    decreases s.len() - i,
{
    if 0 <= i < s.len() && is_ident_char(s[i], digits) {
        ident_end(s, i + 1, digits)
    } else {
        i
    }
}

pub open spec fn span(start: int, end: int) -> Range<usize> {
    Range { start: start as usize, end: end as usize }
}

/// The byte offset in the UTF-8 text of `s` where character `i` starts.
pub open spec fn byte_at(s: Seq<char>, i: int) -> int {
    encode_utf8(s.subrange(0, i)).len() as int
}

/// The byte range of the characters `i..e` of `s`.
pub open spec fn char_span(s: Seq<char>, i: int, e: int) -> Range<usize> {
    span(byte_at(s, i), byte_at(s, e))
}

/// Puts `ts` in front of the tokens of a successful scan.
pub open spec fn prepend<N>(
    ts: Seq<TokenView<N>>,
    r: Result<Seq<TokenView<N>>, TokenizeErrorView>,
) -> Result<Seq<TokenView<N>>, TokenizeErrorView> {
    match r {
        Ok(rest) => Ok(ts + rest),
        Err(e) => Err(e),
    }
}

/// The tokens of `s` from character `i` on, scanning left to right and
/// stopping at the first error.
#[verifier::opaque]
pub open spec fn scan<N: Num>(s: Seq<char>, i: int, digits: bool) -> Result<
    Seq<TokenView<N>>,
    TokenizeErrorView,
>
    decreases s.len() - i,
    via scan_decreases::<N>
{
    if i < 0 || i >= s.len() {
        Ok(Seq::empty())
    } else {
        let c = s[i];
        match single_char_token::<N>(c) {
            Some(v) => prepend(
                seq![TokenView { value: v, span: char_span(s, i, i + 1) }],
                scan(s, i + 1, digits),
            ),
            None => {
                if is_numeral_char(c) {
                    let e = numeral_end(s, i + 1);
                    match N::spec_parse(s.subrange(i, e)) {
                        Some(n) => prepend(
                            seq![TokenView { value: TokenValueView::Num(n), span: char_span(s, i, e) }],
                            scan(s, e, digits),
                        ),
                        None => Err(
                            TokenizeErrorView {
                                code: TokenizeErrorCodeView::InvalidNumber(s.subrange(i, e)),
                                span: char_span(s, i, e),
                            },
                        ),
                    }
                } else if is_ident_start(c) {
                    let e = ident_end(s, i + 1, digits);
                    prepend(
                        seq![TokenView { value: TokenValueView::Id(s.subrange(i, e)), span: char_span(s, i, e) }],
                        scan(s, e, digits),
                    )
                } else if whitespace(c) {
                    scan(s, i + 1, digits)
                } else {
                    Err(
                        TokenizeErrorView {
                            code: TokenizeErrorCodeView::UnrecognizedChar(c),
                            span: char_span(s, i, i + 1),
                        },
                    )
                }
            },
        }
    }
}

pub(crate) proof fn lemma_numeral_end(s: Seq<char>, i: int)
    requires
        0 <= i <= s.len(),
    ensures
        i <= numeral_end(s, i) <= s.len(),
        forall|k: int| i <= k < numeral_end(s, i) ==> is_numeral_char(#[trigger] s[k]),
        numeral_end(s, i) < s.len() ==> !is_numeral_char(s[numeral_end(s, i)]),
    decreases s.len() - i,
{
    if i < s.len() && is_numeral_char(s[i]) {
        lemma_numeral_end(s, i + 1);
    }
}

pub(crate) proof fn lemma_ident_end(s: Seq<char>, i: int, digits: bool)
    requires
        0 <= i <= s.len(),
    ensures
        i <= ident_end(s, i, digits) <= s.len(),
        ident_end(s, i, digits) < s.len() ==> !is_ident_char(s[ident_end(s, i, digits)], digits),
    decreases s.len() - i,
{
    if i < s.len() && is_ident_char(s[i], digits) {
        lemma_ident_end(s, i + 1, digits);
    }
}

#[via_fn]
proof fn scan_decreases<N: Num>(s: Seq<char>, i: int, digits: bool) {
    if 0 <= i < s.len() {
        lemma_numeral_end(s, i + 1);
        lemma_ident_end(s, i + 1, digits);
    }
}

proof fn lemma_encode_concat(a: Seq<char>, b: Seq<char>)
    ensures
        encode_utf8(a + b) == encode_utf8(a) + encode_utf8(b),
    decreases a.len(),
{
    if a.len() == 0 {
        assert(a + b =~= b);
        assert(encode_utf8(a) + encode_utf8(b) =~= encode_utf8(b));
    } else {
        lemma_encode_concat(a.drop_first(), b);
        assert((a + b).drop_first() =~= a.drop_first() + b);
        assert((a + b)[0] == a[0]);
        assert(encode_scalar(a[0] as u32) + (encode_utf8(a.drop_first()) + encode_utf8(b))
            =~= encode_scalar(a[0] as u32) + encode_utf8(a.drop_first()) + encode_utf8(b));
    }
}

/// Each character takes one to four bytes.
proof fn lemma_byte_step(s: Seq<char>, i: int)
    requires
        0 <= i < s.len(),
    ensures
        byte_at(s, i + 1) == byte_at(s, i) + encode_scalar(s[i] as u32).len(),
        1 <= encode_scalar(s[i] as u32).len() <= 4,
{
    let a = s.subrange(0, i);
    let c = seq![s[i]];
    assert(s.subrange(0, i + 1) =~= a + c);
    lemma_encode_concat(a, c);
    assert(c.drop_first() =~= Seq::<char>::empty());
    assert(encode_utf8(c.drop_first()) =~= Seq::<u8>::empty());
    assert(encode_utf8(c) =~= encode_scalar(s[i] as u32));
}

proof fn lemma_byte_monotone(s: Seq<char>, i: int, j: int)
    requires
        0 <= i <= j <= s.len(),
    ensures
        byte_at(s, i) <= byte_at(s, j),
        i < j ==> byte_at(s, i) < byte_at(s, j),
        byte_at(s, j) <= encode_utf8(s).len(),
    decreases j - i,
{
    if i < j {
        lemma_byte_monotone(s, i, j - 1);
        lemma_byte_step(s, j - 1);
    }
    if j == s.len() {
        assert(s.subrange(0, j) =~= s);
    } else {
        let a = s.subrange(0, j);
        let b = s.subrange(j, s.len() as int);
        assert(s =~= a + b);
        lemma_encode_concat(a, b);
    }
}

/// The number of bytes of `c` in UTF-8.
fn char_width(c: char) -> (w: usize)
    ensures
        w == encode_scalar(c as u32).len(),
{
    let v = c as u32;
    if v <= 0x7F {
        1
    } else if 0x80 <= v && v <= 0x7FF {
        2
    } else if 0x800 <= v && v <= 0xFFFF && !(0xD800 <= v && v <= 0xDFFF) {
        3
    } else {
        4
    }
}

/// Tokenizes with the default options.
pub fn tokenize<N: Num>(input: &str) -> (r: Result<Vec<Token<N>>, TokenizeError>)
    ensures
        match r {
            Ok(ts) => scan::<N>(input@, 0, false) == Ok::<_, TokenizeErrorView>(tokens_view(ts@))
                && spans_ordered(tokens_view(ts@)),
            Err(e) => scan::<N>(input@, 0, false) == Err::<Seq<TokenView<N>>, _>(e@),
        },
{
    tokenize_with_options(input, TokenizeOptions::default())
}

/// Scans `input` left to right into tokens, failing at the first numeral that
/// the numeric type cannot parse or the first character that starts no token.
pub fn tokenize_with_options<N: Num>(input: &str, options: TokenizeOptions) -> (r: Result<
    Vec<Token<N>>,
    TokenizeError,
>)
    ensures
        match r {
            Ok(ts) => scan::<N>(input@, 0, options.identifiers_contain_numbers) == Ok::<
                _,
                TokenizeErrorView,
            >(tokens_view(ts@)) && spans_ordered(tokens_view(ts@)),
            Err(e) => scan::<N>(input@, 0, options.identifiers_contain_numbers) == Err::<
                Seq<TokenView<N>>,
                _,
            >(e@),
        },
{
    proof {
        reveal(scan);
    }
    let ghost s = input@;
    let digits = options.identifiers_contain_numbers;
    let n = input.unicode_len();
    let total = input.as_bytes().len();
    proof {
        assert(s.subrange(0, s.len() as int) =~= s);
        lemma_byte_monotone(s, 0, n as int);
        lemma_scan_spans::<N>(s, 0, digits);
    }
    let mut tokens: Vec<Token<N>> = Vec::new();
    let mut i: usize = 0;
    let mut b: usize = 0;
    proof {
        assert(s.subrange(0, 0) =~= Seq::<char>::empty());
    }
    while i < n
        invariant
            s == input@,
            n == s.len(),
            i <= n,
            b == byte_at(s, i as int),
            byte_at(s, n as int) == total,
            digits == options.identifiers_contain_numbers,
            prepend(tokens_view(tokens@), scan::<N>(s, i as int, digits)) == scan::<N>(s, 0, digits),
        decreases n - i,
    {
        let c = input.get_char(i);
        let w = char_width(c);
        proof {
            reveal(scan);
            lemma_byte_step(s, i as int);
            lemma_byte_monotone(s, i + 1, n as int);
        }
        let single: Option<TokenValue<N>> = if c == '+' {
            Some(TokenValue::Op(OpVal::Add))
        } else if c == '-' {
            Some(TokenValue::Op(OpVal::Sub))
        } else if c == '*' {
            Some(TokenValue::Op(OpVal::Mul))
        } else if c == '/' {
            Some(TokenValue::Op(OpVal::Div))
        } else if c == '%' {
            Some(TokenValue::Op(OpVal::Mod))
        } else if c == '^' {
            Some(TokenValue::Op(OpVal::Pow))
        } else if c == '=' {
            Some(TokenValue::Op(OpVal::Eq))
        } else if c == '!' {
            Some(TokenValue::Op(OpVal::Exclaim))
        } else if c == '(' {
            Some(TokenValue::Symbol(SymbolVal::LP))
        } else if c == ')' {
            Some(TokenValue::Symbol(SymbolVal::RP))
        } else if c == ',' {
            Some(TokenValue::Symbol(SymbolVal::Comma))
        } else if c == '|' {
            Some(TokenValue::Symbol(SymbolVal::Pipe))
        } else {
            None
        };
        let ghost before = tokens_view(tokens@);
        match single {
            Some(v) => {
                let tok = Token { value: v, span: Range { start: b, end: b + w } };
                proof {
                    assert(single_char_token::<N>(c) == Some(tok@.value));
                    assert(tokens_view(tokens@.push(tok)) =~= before + seq![tok@]);
                    lemma_prepend_assoc(before, seq![tok@], scan::<N>(s, i + 1, digits));
                }
                tokens.push(tok);
                i = i + 1;
                b = b + w;
            },
            None => {
                assert(single_char_token::<N>(c) is None);
                if ('0' <= c && c <= '9') || c == '.' {
                    let start = i;
                    let mut end = i + 1;
                    let mut eb = b + w;
                    proof {
                        lemma_numeral_end(s, i + 1);
                    }
                    while end < n
                        invariant
                            s == input@,
                            n == s.len(),
                            start < end <= n,
                            end <= numeral_end(s, start + 1),
                            numeral_end(s, end as int) == numeral_end(s, start + 1),
                            eb == byte_at(s, end as int),
                            byte_at(s, n as int) == total,
                        ensures
                            numeral_end(s, end as int) == end,
                            eb == byte_at(s, end as int),
                        decreases n - end,
                    {
                        let nc = input.get_char(end);
                        if ('0' <= nc && nc <= '9') || nc == '.' {
                            proof {
                                assert(numeral_end(s, end as int) == numeral_end(s, end + 1));
                                lemma_numeral_end(s, end + 1);
                                lemma_byte_step(s, end as int);
                                lemma_byte_monotone(s, end + 1, n as int);
                            }
                            eb = eb + char_width(nc);
                            end = end + 1;
                        } else {
                            break;
                        }
                    }
                    let text = input.substring_char(start, end);
                    match N::parse(text) {
                        Some(num) => {
                            let tok = Token {
                                value: TokenValue::Num(num),
                                span: Range { start: b, end: eb },
                            };
                            proof {
                                assert(tokens_view(tokens@.push(tok)) =~= before + seq![tok@]);
                                lemma_prepend_assoc(before, seq![tok@], scan::<N>(s, end as int, digits));
                            }
                            tokens.push(tok);
                            i = end;
                            b = eb;
                        },
                        None => {
                            return Err(
                                TokenizeError {
                                    code: TokenizeErrorCode::InvalidNumber(text.to_owned()),
                                    span: Range { start: b, end: eb },
                                },
                            );
                        },
                    }
                } else if c == '_' || char_is_alphabetic(c) {
                    let start = i;
                    let mut end = i + 1;
                    let mut eb = b + w;
                    proof {
                        lemma_ident_end(s, i + 1, digits);
                    }
                    while end < n
                        invariant
                            s == input@,
                            n == s.len(),
                            start < end <= n,
                            end <= ident_end(s, start + 1, digits),
                            ident_end(s, end as int, digits) == ident_end(s, start + 1, digits),
                            eb == byte_at(s, end as int),
                            byte_at(s, n as int) == total,
                        ensures
                            ident_end(s, end as int, digits) == end,
                            eb == byte_at(s, end as int),
                        decreases n - end,
                    {
                        let nc = input.get_char(end);
                        if nc == '_' || char_is_alphanumeric(nc) || (digits && '0' <= nc && nc
                            <= '9') {
                            proof {
                                assert(ident_end(s, end as int, digits) == ident_end(s, end + 1, digits));
                                lemma_ident_end(s, end + 1, digits);
                                lemma_byte_step(s, end as int);
                                lemma_byte_monotone(s, end + 1, n as int);
                            }
                            eb = eb + char_width(nc);
                            end = end + 1;
                        } else {
                            break;
                        }
                    }
                    let text = input.substring_char(start, end);
                    let tok = Token {
                        value: TokenValue::Id(text.to_owned()),
                        span: Range { start: b, end: eb },
                    };
                    proof {
                        assert(tokens_view(tokens@.push(tok)) =~= before + seq![tok@]);
                        lemma_prepend_assoc(before, seq![tok@], scan::<N>(s, end as int, digits));
                    }
                    tokens.push(tok);
                    i = end;
                    b = eb;
                } else if char_is_whitespace(c) {
                    i = i + 1;
                    b = b + w;
                } else {
                    proof {
                        let err = TokenizeErrorView {
                            code: TokenizeErrorCodeView::UnrecognizedChar(c),
                            span: char_span(s, i as int, i + 1),
                        };
                        assert(scan::<N>(s, i as int, digits) == Err::<Seq<TokenView<N>>, _>(err));
                    }
                    return Err(
                        TokenizeError {
                            code: TokenizeErrorCode::UnrecognizedChar(c),
                            span: Range { start: b, end: b + w },
                        },
                    );
                }
            },
        }
    }
    proof {
        assert(tokens_view(tokens@) + Seq::<TokenView<N>>::empty() =~= tokens_view(tokens@));
    }
    Ok(tokens)
}

proof fn lemma_prepend_assoc<N>(
    a: Seq<TokenView<N>>,
    b: Seq<TokenView<N>>,
    r: Result<Seq<TokenView<N>>, TokenizeErrorView>,
)
    ensures
        prepend(a, prepend(b, r)) == prepend(a + b, r),
{
    match r {
        Ok(rest) => {
            assert(a + (b + rest) =~= a + b + rest);
        },
        Err(_) => {},
    }
}

/// A string that is one numeral, which the numeric type parses to `v`,
/// tokenizes to exactly one number token with the value `v`, covering it all.
pub proof fn lemma_numeral_is_one_token<N: Num>(s: Seq<char>, digits: bool)
    requires
        s.len() > 0,
        forall|i: int| 0 <= i < s.len() ==> is_numeral_char(#[trigger] s[i]),
        N::spec_parse(s) is Some,
    ensures
        scan::<N>(s, 0, digits) == Ok::<_, TokenizeErrorView>(
            seq![TokenView { value: TokenValueView::Num(N::spec_parse(s).unwrap()), span: char_span(s, 0, s.len() as int) }],
        ),
{
    reveal(scan);
    lemma_numeral_run(s, 1);
    assert(s.subrange(0, s.len() as int) =~= s);
    let tok = TokenView { value: TokenValueView::Num(N::spec_parse(s).unwrap()), span: char_span(s, 0, s.len() as int) };
    assert(is_numeral_char(s[0]));
    assert(single_char_token::<N>(s[0]) is None);
    assert(scan::<N>(s, s.len() as int, digits) == Ok::<_, TokenizeErrorView>(Seq::<TokenView<N>>::empty()));
    assert(seq![tok] + Seq::<TokenView<N>>::empty() =~= seq![tok]);
}

proof fn lemma_numeral_run(s: Seq<char>, i: int)
    requires
        0 <= i <= s.len(),
        forall|k: int| 0 <= k < s.len() ==> is_numeral_char(#[trigger] s[k]),
    ensures
        numeral_end(s, i) == s.len(),
    decreases s.len() - i,
{
    if i < s.len() {
        lemma_numeral_run(s, i + 1);
    }
}

/// Each span is non-empty, and each token ends at or before the next one starts.
pub open spec fn spans_ordered<N>(ts: Seq<TokenView<N>>) -> bool {
    &&& forall|k: int| 0 <= k < ts.len() ==> #[trigger] ts[k].span.start < ts[k].span.end
    &&& forall|k: int, l: int| 0 <= k < l < ts.len() ==> #[trigger] ts[k].span.end <= #[trigger] ts[l].span.start
}

/// The tokens that a scan from character `i` makes lie within the bytes from
/// `i` to the end, in order and without overlap.
pub proof fn lemma_scan_spans<N: Num>(s: Seq<char>, i: int, digits: bool)
    requires
        0 <= i <= s.len(),
        encode_utf8(s).len() <= usize::MAX,
    ensures
        scan::<N>(s, i, digits) is Ok ==> {
            let ts = scan::<N>(s, i, digits)->Ok_0;
            &&& spans_ordered(ts)
            &&& forall|k: int|
                0 <= k < ts.len() ==> byte_at(s, i) <= #[trigger] ts[k].span.start
                    && ts[k].span.end <= encode_utf8(s).len()
        },
    decreases s.len() - i,
{
    reveal(scan);
    if i < s.len() {
        let c = s[i];
        lemma_numeral_end(s, i + 1);
        lemma_ident_end(s, i + 1, digits);
        let makes_token = single_char_token::<N>(c) is Some || is_numeral_char(c)
            || is_ident_start(c);
        let next = if single_char_token::<N>(c) is Some {
            i + 1
        } else if is_numeral_char(c) {
            numeral_end(s, i + 1)
        } else if is_ident_start(c) {
            ident_end(s, i + 1, digits)
        } else {
            i + 1
        };
        lemma_scan_spans::<N>(s, next, digits);
        lemma_byte_monotone(s, i, next);
        lemma_byte_monotone(s, next, s.len() as int);
        if !makes_token && whitespace(c) {
            assert(scan::<N>(s, i, digits) == scan::<N>(s, i + 1, digits));
        }
        if scan::<N>(s, i, digits) is Ok && makes_token {
            let ts = scan::<N>(s, i, digits)->Ok_0;
            let rest = scan::<N>(s, next, digits)->Ok_0;
            assert(ts =~= seq![ts[0]] + rest);
            assert(ts[0].span == char_span(s, i, next));
            assert(0 <= byte_at(s, i) < byte_at(s, next) <= encode_utf8(s).len());
            assert forall|k: int| 0 <= k < ts.len() implies byte_at(s, i) <= #[trigger] ts[k].span.start
                && ts[k].span.end <= encode_utf8(s).len() by {
                if k > 0 {
                    assert(ts[k] == rest[k - 1]);
                    assert(byte_at(s, next) <= rest[k - 1].span.start);
                }
            }
            assert forall|k: int, l: int| 0 <= k < l < ts.len() implies #[trigger] ts[k].span.end
                <= #[trigger] ts[l].span.start by {
                assert(ts[l] == rest[l - 1]);
                if k > 0 {
                    assert(ts[k] == rest[k - 1]);
                }
            }
            assert forall|k: int| 0 <= k < ts.len() implies #[trigger] ts[k].span.start
                < ts[k].span.end by {
                if k > 0 {
                    assert(ts[k] == rest[k - 1]);
                }
            }
        }
    }
}

} // verus!
