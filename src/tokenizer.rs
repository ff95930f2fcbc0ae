//! The tokenizer: a single forward pass over ASCII source text that yields
//! one token per maximal non-whitespace unit.
use vstd::prelude::*;
use crate::numeral::{all_digits, i32_of, is_digit, parse_i32};
use vstd::utf8::is_ascii_chars;
use vstd::string::StringSliceAdditionalSpecFns;
use vstd::string::StrSliceExecFns;

verus! {

/// A lexical unit of the language.
#[derive(Debug, Clone, PartialEq)]
pub enum Token {
    Mut,
    TypeSpecifier(String),
    NumberLiteral(String),
    Equals,
    Semicolon,
    Symbol(String),
    LParen,
    RParen,
    Minus,
    Plus,
    Star,
    FSlash,
}

/// A token with its text payload seen as a sequence of characters.
pub enum TokenView {
    Mut,
    TypeSpecifier(Seq<char>),
    NumberLiteral(Seq<char>),
    Equals,
    Semicolon,
    Symbol(Seq<char>),
    LParen,
    RParen,
    Minus,
    Plus,
    Star,
    FSlash,
}

impl View for Token {
    type V = TokenView;

    open spec fn view(&self) -> TokenView {
        match self {
            Token::Mut => TokenView::Mut,
            Token::TypeSpecifier(s) => TokenView::TypeSpecifier(s@),
            Token::NumberLiteral(s) => TokenView::NumberLiteral(s@),
            Token::Equals => TokenView::Equals,
            Token::Semicolon => TokenView::Semicolon,
            Token::Symbol(s) => TokenView::Symbol(s@),
            Token::LParen => TokenView::LParen,
            Token::RParen => TokenView::RParen,
            Token::Minus => TokenView::Minus,
            Token::Plus => TokenView::Plus,
            Token::Star => TokenView::Star,
            Token::FSlash => TokenView::FSlash,
        }
    }
}

/// The error type of `Token`'s `FromStr`; classification never fails.
#[derive(Debug)]
pub struct InvalidTokenError;

/// The token that the text `s` stands for: a keyword, a type name or an
/// operator when it is exactly one, else a number when it reads as an `i32`,
/// else a symbol.
pub open spec fn token_of(s: Seq<char>) -> TokenView {
    if s == seq!['m', 'u', 't'] {
        TokenView::Mut
    } else if s == seq!['='] {
        TokenView::Equals
    } else if s == seq![';'] {
        TokenView::Semicolon
    } else if s == seq!['i', '3', '2'] {
        TokenView::TypeSpecifier(s)
    } else if s == seq!['('] {
        TokenView::LParen
    } else if s == seq![')'] {
        TokenView::RParen
    } else if s == seq!['+'] {
        TokenView::Plus
    } else if s == seq!['-'] {
        TokenView::Minus
    } else if s == seq!['*'] {
        TokenView::Star
    } else if s == seq!['/'] {
        TokenView::FSlash
    } else if i32_of(s) is Some {
        TokenView::NumberLiteral(s)
    } else {
        TokenView::Symbol(s)
    }
}

/// Whether the string `s` holds exactly the characters `lit`.
fn text_is(s: &str, lit: &str) -> (r: bool)
    ensures
        r == (s@ == lit@),
{
    let a: String = s.to_owned();
    let b: String = lit.to_owned();
    a == b
}

impl Token {
    /// Classifies a piece of source text as a token.
    pub fn classify(s: &str) -> (r: Token)
        ensures
            r@ == token_of(s@),
    {
        proof {
            reveal_strlit("mut");
            assert("mut"@ =~= seq!['m', 'u', 't']);
            reveal_strlit("=");
            assert("="@ =~= seq!['=']);
            reveal_strlit(";");
            assert(";"@ =~= seq![';']);
            reveal_strlit("i32");
            assert("i32"@ =~= seq!['i', '3', '2']);
            reveal_strlit("(");
            assert("("@ =~= seq!['(']);
            reveal_strlit(")");
            assert(")"@ =~= seq![')']);
            reveal_strlit("+");
            assert("+"@ =~= seq!['+']);
            reveal_strlit("-");
            assert("-"@ =~= seq!['-']);
            reveal_strlit("*");
            assert("*"@ =~= seq!['*']);
            reveal_strlit("/");
            assert("/"@ =~= seq!['/']);
        }
        if text_is(s, "mut") {
            assert(s@ =~= seq!['m', 'u', 't']);
            Token::Mut
        } else if text_is(s, "=") {
            assert(s@ =~= seq!['=']);
            Token::Equals
        } else if text_is(s, ";") {
            assert(s@ =~= seq![';']);
            Token::Semicolon
        } else if text_is(s, "i32") {
            assert(s@ =~= seq!['i', '3', '2']);
            Token::TypeSpecifier(s.to_owned())
        } else if text_is(s, "(") {
            assert(s@ =~= seq!['(']);
            Token::LParen
        } else if text_is(s, ")") {
            assert(s@ =~= seq![')']);
            Token::RParen
        } else if text_is(s, "+") {
            assert(s@ =~= seq!['+']);
            Token::Plus
        } else if text_is(s, "-") {
            assert(s@ =~= seq!['-']);
            Token::Minus
        } else if text_is(s, "*") {
            assert(s@ =~= seq!['*']);
            Token::Star
        } else if text_is(s, "/") {
            assert(s@ =~= seq!['/']);
            Token::FSlash
        } else if parse_i32(s).is_some() {
            Token::NumberLiteral(s.to_owned())
        } else {
            Token::Symbol(s.to_owned())
        }
    }
}

impl std::str::FromStr for Token {
    type Err = InvalidTokenError;

    /// Classifies `s` as `Token::classify` does; this never fails.
    fn from_str(s: &str) -> (r: Result<Token, InvalidTokenError>)
        ensures
            r is Ok,
            r->Ok_0@ == token_of(s@),
    {
        Ok(Token::classify(s))
    }
}

/// ASCII whitespace: space, tab, line feed, vertical tab, form feed, return.
pub open spec fn is_space(c: char) -> bool {
    c == ' ' || c == '\t' || c == '\n' || c == '\x0B' || c == '\x0C' || c == '\r'
}

/// The characters that always stand alone as a one-character token.
pub open spec fn is_single(c: char) -> bool {
    c == '+' || c == '-' || c == '=' || c == ';' || c == '(' || c == ')' || c == '*' || c == '/'
}

/// The characters that end a word: whitespace and `;`.
pub open spec fn ends_word(c: char) -> bool {
    is_space(c) || c == ';'
}

/// How many characters in a row, from position `i` of `s` on, satisfy `p`.
pub open spec fn run_len(s: Seq<char>, i: nat, p: spec_fn(char) -> bool) -> nat
    decreases s.len() - i,
{
    if i < s.len() && p(s[i as int]) {
        1 + run_len(s, i + 1, p)
    } else {
        0
    }
}

/// The whitespace run at position `i` of `s`.
pub open spec fn space_run(s: Seq<char>, i: nat) -> nat {
    run_len(s, i, |c: char| is_space(c))
}

/// The digit run at position `i` of `s`.
pub open spec fn digit_run(s: Seq<char>, i: nat) -> nat {
    run_len(s, i, |c: char| is_digit(c))
}

/// The run at position `i` of `s` that stops before whitespace or `;`.
pub open spec fn word_run(s: Seq<char>, i: nat) -> nat {
    run_len(s, i, |c: char| !ends_word(c))
}

/// The first token of `s` at or after position `i`, with the position just
/// past it; `None` when only whitespace is left.
pub open spec fn next_token(s: Seq<char>, i: nat) -> Option<(TokenView, nat)> {
    let j = i + space_run(s, i);
    if j >= s.len() {
        None
    } else if is_digit(s[j as int]) {
        let k = j + digit_run(s, j);
        Some((TokenView::NumberLiteral(s.subrange(j as int, k as int)), k))
    } else if is_single(s[j as int]) {
        Some((token_of(s.subrange(j as int, j + 1 as int)), (j + 1) as nat))
    } else {
        let k = j + word_run(s, j);
        Some((token_of(s.subrange(j as int, k as int)), k))
    }
}

/// The tokens of `s` from position `i` on, in order. A token always ends
/// past `i` and within `s`; the test on `k` only makes the recursion's end
/// evident.
pub open spec fn lex(s: Seq<char>, i: nat) -> Seq<TokenView>
    decreases s.len() - i,
{
    match next_token(s, i) {
        None => Seq::empty(),
        Some((t, k)) => if i < k <= s.len() {
            seq![t] + lex(s, k)
        } else {
            Seq::empty()
        },
    }
}

/// A run over characters that all satisfy `p` reaches the end of `s`.
proof fn lemma_run_to_end(s: Seq<char>, i: nat, p: spec_fn(char) -> bool)
    requires
        i <= s.len(),
        forall|k: int| i <= k < s.len() ==> p(#[trigger] s[k]),
    ensures
        run_len(s, i, p) == s.len() - i,
    decreases s.len() - i,
{
    if i < s.len() {
        lemma_run_to_end(s, i + 1, p);
    }
}

/// Tokenizing a nonempty run of decimal digits whose value fits in 32 bits
/// gives exactly one number token, whose text is the whole run.
pub proof fn lemma_digits_make_one_number(s: Seq<char>)
    requires
        s.len() > 0,
        all_digits(s),
        i32_of(s) is Some,
    ensures
        lex(s, 0) == seq![TokenView::NumberLiteral(s)],
{
    lemma_run_to_end(s, 0, |c: char| is_digit(c));
    assert(space_run(s, 0) == 0);
    assert(s.subrange(0, s.len() as int) =~= s);
    assert(next_token(s, s.len()) is None);
    assert(lex(s, s.len()) == Seq::<TokenView>::empty());
    assert(lex(s, 0) =~= seq![TokenView::NumberLiteral(s)]);
}

/// Tokenizing text made of whitespace alone gives no token.
pub proof fn lemma_whitespace_makes_nothing(s: Seq<char>)
    requires
        forall|i: int| 0 <= i < s.len() ==> is_space(#[trigger] s[i]),
    ensures
        lex(s, 0) == Seq::<TokenView>::empty(),
{
    lemma_run_to_end(s, 0, |c: char| is_space(c));
}

/// Whether `c` is ASCII whitespace.
fn space_char(c: char) -> (r: bool)
    ensures
        r == is_space(c),
{
    c == ' ' || c == '\t' || c == '\n' || c == '\x0B' || c == '\x0C' || c == '\r'
}

/// Whether `c` is an ASCII decimal digit.
fn digit_char(c: char) -> (r: bool)
    ensures
        r == is_digit(c),
{
    '0' <= c && c <= '9'
}

/// A cursor over ASCII source text that hands out its tokens one at a time.
#[derive(Debug)]
pub struct Tokenizer {
    source: String,
    pos: usize,
    current_char: Option<char>,
}

impl View for Tokenizer {
    type V = Seq<TokenView>;

    /// The tokens that are still to come.
    closed spec fn view(&self) -> Seq<TokenView> {
        lex(self.source@, self.pos as nat)
    }
}

impl Tokenizer {
    /// The source text.
    pub closed spec fn text(&self) -> Seq<char> {
        self.source@
    }

    /// The position of the cursor in the source text.
    pub closed spec fn position(&self) -> nat {
        self.pos as nat
    }

    /// The source is ASCII, the cursor lies within it, and the current
    /// character is the one under the cursor.
    pub closed spec fn wf(&self) -> bool {
        &&& is_ascii_chars(self.source@)
        &&& self.source@.len() <= usize::MAX
        &&& self.pos <= self.source@.len()
        &&& self.current_char == if self.pos < self.source@.len() {
            Some(self.source@[self.pos as int])
        } else {
            None
        }
    }

    /// The character at `i`, where `i` lies within the source.
    fn char_at(&self, i: usize) -> (c: Option<char>)
        requires
            is_ascii_chars(self.source@),
            self.source@.len() <= usize::MAX,
        ensures
            c == if i < self.source@.len() {
                Some(self.source@[i as int])
            } else {
                None
            },
    {
        broadcast use vstd::string::is_ascii_spec_bytes;
        let text: &str = self.source.as_str();
        assert(vstd::string::is_ascii(text));
        assert(text.spec_bytes().len() == self.source@.len());
        if i < text.len() {
            let b: u8 = text.get_ascii(i);
            let c: char = b as char;
            assert(c == self.source@[i as int]) by {
                let d = self.source@[i as int];
                assert('\0' <= d <= '\u{7f}');
            }
            Some(c)
        } else {
            None
        }
    }

    /// A tokenizer positioned at the start of `source`.
    pub fn new(source: String) -> (r: Tokenizer)
        requires
            is_ascii_chars(source@),
        ensures
            r.wf(),
            r.text() == source@,
            r.position() == 0,
            r@ == lex(source@, 0),
    {
        // counting the characters shows that their number fits in a usize
        let _n: usize = source.as_str().unicode_len();
        let mut tokenizer = Tokenizer { source, pos: 0, current_char: None };
        tokenizer.current_char = tokenizer.char_at(0);
        tokenizer
    }

    /// Moves the cursor one character on.
    fn advance(&mut self)
        requires
            old(self).wf(),
            old(self).pos < old(self).source@.len(),
        ensures
            final(self).wf(),
            final(self).source == old(self).source,
            final(self).pos == old(self).pos + 1,
    {
        self.pos += 1;
        self.current_char = self.char_at(self.pos);
    }

    /// Moves the cursor past the whitespace under it.
    fn skip_whitespace(&mut self)
        requires
            old(self).wf(),
        ensures
            final(self).wf(),
            final(self).source == old(self).source,
            final(self).pos == old(self).pos + space_run(old(self).source@, old(self).pos as nat),
            final(self).pos < final(self).source@.len() ==> !is_space(
                final(self).source@[final(self).pos as int],
            ),
    {
        let ghost s = self.source@;
        let ghost start = self.pos as nat;
        loop
            invariant
                self.wf(),
                self.source == old(self).source,
                self.source@ == s,
                start <= self.pos,
                (self.pos - start) + space_run(s, self.pos as nat) == space_run(s, start),
            ensures
                self.wf(),
                self.source == old(self).source,
                self.source@ == s,
                start <= self.pos,
                (self.pos - start) + space_run(s, self.pos as nat) == space_run(s, start),
                space_run(s, self.pos as nat) == 0,
                self.pos < s.len() ==> !is_space(s[self.pos as int]),
            decreases s.len() - self.pos,
        {
            match self.current_char {
                Some(c) => {
                    if space_char(c) {
                        self.advance();
                    } else {
                        break;
                    }
                },
                None => {
                    break;
                },
            }
        }
    }

    /// Reads the run of decimal digits under the cursor.
    fn number_literal(&mut self) -> (r: String)
        requires
            old(self).wf(),
        ensures
            final(self).wf(),
            final(self).source == old(self).source,
            final(self).pos == old(self).pos + digit_run(old(self).source@, old(self).pos as nat),
            r@ == old(self).source@.subrange(old(self).pos as int, final(self).pos as int),
    {
        let ghost s = self.source@;
        let start: usize = self.pos;
        loop
            invariant
                self.wf(),
                self.source == old(self).source,
                self.source@ == s,
                start <= self.pos,
                (self.pos - start) + digit_run(s, self.pos as nat) == digit_run(s, start as nat),
            ensures
                self.wf(),
                self.source == old(self).source,
                self.source@ == s,
                start <= self.pos,
                (self.pos - start) + digit_run(s, self.pos as nat) == digit_run(s, start as nat),
                digit_run(s, self.pos as nat) == 0,
                self.pos < s.len() ==> !is_digit(s[self.pos as int]),
            decreases s.len() - self.pos,
        {
            match self.current_char {
                Some(c) => {
                    if digit_char(c) {
                        self.advance();
                    } else {
                        break;
                    }
                },
                None => {
                    break;
                },
            }
        }
        self.source.as_str().substring_ascii(start, self.pos).to_owned()
    }

    /// Reads the text of one token that does not start with a digit: a lone
    /// operator or punctuation character, else the run up to whitespace or `;`.
    fn symbol(&mut self) -> (r: String)
        requires
            old(self).wf(),
            old(self).pos < old(self).source@.len(),
            !is_space(old(self).source@[old(self).pos as int]),
        ensures
            final(self).wf(),
            final(self).source == old(self).source,
            final(self).pos == if is_single(old(self).source@[old(self).pos as int]) {
                old(self).pos + 1
            } else {
                old(self).pos + word_run(old(self).source@, old(self).pos as nat)
            },
            r@ == old(self).source@.subrange(old(self).pos as int, final(self).pos as int),
    {
        let ghost s = self.source@;
        let start: usize = self.pos;
        match self.current_char {
            Some('+') | Some('-') | Some('=') | Some(';') | Some('(') | Some(')') | Some('*') | Some(
                '/',
            ) => {
                self.advance();
            },
            _ => {
                loop
                    invariant
                        self.wf(),
                        self.source == old(self).source,
                        self.source@ == s,
                        start <= self.pos,
                        (self.pos - start) + word_run(s, self.pos as nat) == word_run(s, start as nat),
                    ensures
                        self.wf(),
                        self.source == old(self).source,
                        self.source@ == s,
                        start <= self.pos,
                        (self.pos - start) + word_run(s, self.pos as nat) == word_run(s, start as nat),
                        word_run(s, self.pos as nat) == 0,
                    decreases s.len() - self.pos,
                {
                    match self.current_char {
                        Some(c) => {
                            if space_char(c) || c == ';' {
                                break;
                            }
                            self.advance();
                        },
                        None => {
                            break;
                        },
                    }
                }
            },
        }
        self.source.as_str().substring_ascii(start, self.pos).to_owned()
    }

    /// Hands out the next token, or `None` once only whitespace is left.
    pub fn next(&mut self) -> (r: Option<Token>)
        requires
            old(self).wf(),
        ensures
            final(self).wf(),
            match r {
                None => old(self)@.len() == 0 && final(self)@.len() == 0,
                Some(t) => {
                    &&& old(self)@.len() > 0
                    &&& t@ == old(self)@[0]
                    &&& final(self)@ == old(self)@.drop_first()
                },
            },
    {
        let ghost s = self.source@;
        let ghost p0 = self.pos as nat;
        self.skip_whitespace();
        let ghost j = self.pos as nat;
        match self.current_char {
            None => {
                assert(next_token(s, j) is None);
                None
            },
            Some(c) => {
                let t = if digit_char(c) {
                    Token::NumberLiteral(self.number_literal())
                } else {
                    let text = self.symbol();
                    Token::classify(text.as_str())
                };
                let ghost k = self.pos as nat;
                assert(next_token(s, p0) == Some((t@, k)));
                assert(old(self)@ =~= seq![t@] + self@);
                Some(t)
            },
        }
    }
}

} // verus!
