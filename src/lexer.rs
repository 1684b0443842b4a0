//! Tokenizer: splits a character buffer into numeric runs, words and single
//! symbols, skipping whitespace. Tokens borrow the buffer they come from.
//!
//! Characters are classified by their ASCII meaning only: whitespace is the
//! six ASCII space characters, digits are `0`..`9`, letters are `a`..`z` and
//! `A`..`Z`. Every other character, non-ASCII ones included, is a symbol.

use vstd::prelude::*;
use vstd::slice::slice_subrange;

verus! {

/// ASCII whitespace: space, tab, line feed, vertical tab, form feed, carriage return.
pub open spec fn is_space(c: char) -> bool {
    c == ' ' || c == '\t' || c == '\n' || c == '\x0B' || c == '\x0C' || c == '\r'
}

pub open spec fn is_digit(c: char) -> bool {
    '0' <= c && c <= '9'
}

pub open spec fn is_letter(c: char) -> bool {
    ('a' <= c && c <= 'z') || ('A' <= c && c <= 'Z')
}

pub open spec fn is_alnum(c: char) -> bool {
    is_digit(c) || is_letter(c)
}

/// The class of characters a run is made of.
#[derive(Clone, Copy, Debug, PartialEq, Eq, Structural)]
pub enum CharClass {
    Space,
    Digit,
    Alnum,
}

pub open spec fn in_class(c: char, class: CharClass) -> bool {
    match class {
        CharClass::Space => is_space(c),
        CharClass::Digit => is_digit(c),
        CharClass::Alnum => is_alnum(c),
    }
}

/// Whether `c` belongs to `class`.
pub fn char_in_class(c: char, class: CharClass) -> (r: bool)
    ensures
        r == in_class(c, class),
{
    match class {
        CharClass::Space => c == ' ' || c == '\t' || c == '\n' || c == '\x0B' || c == '\x0C'
            || c == '\r',
        CharClass::Digit => '0' <= c && c <= '9',
        CharClass::Alnum => ('0' <= c && c <= '9') || ('a' <= c && c <= 'z') || ('A' <= c && c
            <= 'Z'),
    }
}

/// Length of the longest prefix of `s` made of characters of `class`.
pub open spec fn run_len(s: Seq<char>, class: CharClass) -> nat
    decreases s.len(),
{
    if s.len() > 0 && in_class(s[0], class) {
        1 + run_len(s.drop_first(), class)
    } else {
        0
    }
}

pub proof fn lemma_run_len(s: Seq<char>, class: CharClass)
    ensures
        run_len(s, class) <= s.len(),
        forall|i: int| 0 <= i < run_len(s, class) ==> in_class(#[trigger] s[i], class),
        run_len(s, class) < s.len() ==> !in_class(s[run_len(s, class) as int], class),
    decreases s.len(),
{
    if s.len() > 0 && in_class(s[0], class) {
        lemma_run_len(s.drop_first(), class);
        assert forall|i: int| 0 <= i < run_len(s, class) implies in_class(#[trigger] s[i], class) by {
            if i > 0 {
                assert(s[i] == s.drop_first()[i - 1]);
            }
        }
    }
}

/// The kind a token is given when it is produced.
#[derive(Clone, Copy, Debug, PartialEq, Eq, Structural)]
pub enum TokenKind {
    /// A maximal run of decimal digits.
    Numeric,
    /// A letter followed by the maximal run of letters and digits after it.
    Word,
    /// A single character that is neither whitespace, digit nor letter.
    Symbol,
}

pub open spec fn kind_of(c: char) -> TokenKind {
    if is_digit(c) {
        TokenKind::Numeric
    } else if is_letter(c) {
        TokenKind::Word
    } else {
        TokenKind::Symbol
    }
}

/// Length of the token at the front of `s`, whose first character is not whitespace.
pub open spec fn token_len(s: Seq<char>) -> nat {
    if is_digit(s[0]) {
        run_len(s, CharClass::Digit)
    } else if is_letter(s[0]) {
        run_len(s, CharClass::Alnum)
    } else {
        1
    }
}

pub proof fn lemma_token_len(s: Seq<char>)
    requires
        s.len() > 0,
    ensures
        1 <= token_len(s) <= s.len(),
{
    lemma_run_len(s, CharClass::Digit);
    lemma_run_len(s, CharClass::Alnum);
    assert(s.drop_first().len() < s.len());
}

/// The tokens of `s`, each as its kind and its characters: whitespace is
/// skipped, and each token is as long as `token_len` says.
pub open spec fn lex(s: Seq<char>) -> Seq<(TokenKind, Seq<char>)>
    decreases s.len(),
{
    if s.len() == 0 {
        seq![]
    } else if is_space(s[0]) {
        lex(s.drop_first())
    } else {
        proof {
            lemma_token_len(s);
        }
        let n = token_len(s);
        seq![(kind_of(s[0]), s.take(n as int))] + lex(s.skip(n as int))
    }
}

/// Skipping the leading whitespace of `s` leaves its tokens as they are.
pub proof fn lemma_lex_skip_space(s: Seq<char>)
    ensures
        lex(s.skip(run_len(s, CharClass::Space) as int)) == lex(s),
    decreases s.len(),
{
    if s.len() > 0 && is_space(s[0]) {
        lemma_lex_skip_space(s.drop_first());
        lemma_run_len(s.drop_first(), CharClass::Space);
        assert(s.skip(run_len(s, CharClass::Space) as int) =~= s.drop_first().skip(
            run_len(s.drop_first(), CharClass::Space) as int,
        ));
    } else {
        assert(s.skip(0) =~= s);
    }
}

/// A token: its kind and the characters of the buffer it covers.
#[derive(Clone, Copy, Debug)]
pub struct Token<'a> {
    pub kind: TokenKind,
    pub text: &'a [char],
}

impl<'a> View for Token<'a> {
    type V = (TokenKind, Seq<char>);

    open spec fn view(&self) -> (TokenKind, Seq<char>) {
        (self.kind, self.text@)
    }
}

/// A cursor over a character buffer that hands out its tokens one by one.
#[derive(Debug)]
pub struct Lexer<'a> {
    content: &'a [char],
}

impl<'a> View for Lexer<'a> {
    type V = Seq<char>;

    /// The characters not consumed yet.
    closed spec fn view(&self) -> Seq<char> {
        self.content@
    }
}

impl<'a> Lexer<'a> {
    pub fn new(content: &'a [char]) -> (r: Self)
        ensures
            r@ == content@,
    {
        Lexer { content }
    }

    /// Drops the leading whitespace.
    pub fn trim_left(&mut self)
        ensures
            final(self)@ == old(self)@.skip(run_len(old(self)@, CharClass::Space) as int),
    {
        self.chop_while(CharClass::Space);
    }

    /// Takes the first `n` characters off the front.
    pub fn chop(&mut self, n: usize) -> (r: &'a [char])
        requires
            n <= old(self)@.len(),
        ensures
            r@ == old(self)@.take(n as int),
            final(self)@ == old(self)@.skip(n as int),
    {
        let len = self.content.len();
        let token = slice_subrange(self.content, 0, n);
        self.content = slice_subrange(self.content, n, len);
        token
    }

    /// Takes the longest prefix made of characters of `class` off the front.
    pub fn chop_while(&mut self, class: CharClass) -> (r: &'a [char])
        ensures
            r@ == old(self)@.take(run_len(old(self)@, class) as int),
            final(self)@ == old(self)@.skip(run_len(old(self)@, class) as int),
    {
        proof {
            lemma_run_len(self@, class);
        }
        let mut n: usize = 0;
        while n < self.content.len() && char_in_class(self.content[n], class)
            invariant
                n <= self.content@.len(),
                n <= run_len(self@, class),
                run_len(self@, class) <= self.content@.len(),
                forall|i: int| 0 <= i < run_len(self@, class) ==> in_class(#[trigger] self@[i], class),
                run_len(self@, class) < self@.len() ==> !in_class(self@[run_len(self@, class) as int], class),
            decreases self.content@.len() - n,
        {
            n = n + 1;
        }
        self.chop(n)
    }

    /// The next token, or `None` once only whitespace is left.
    pub fn next_token(&mut self) -> (r: Option<Token<'a>>)
        ensures
            ({
                let w = run_len(old(self)@, CharClass::Space) as int;
                &&& forall|i: int| 0 <= i < w ==> is_space(#[trigger] old(self)@[i])
                &&& match r {
                    None => {
                        &&& w == old(self)@.len()
                        &&& final(self)@.len() == 0
                        &&& lex(old(self)@) == Seq::<(TokenKind, Seq<char>)>::empty()
                    },
                    Some(t) => {
                        &&& w + t.text@.len() <= old(self)@.len()
                        &&& t.text@ == old(self)@.subrange(w, w + t.text@.len())
                        &&& final(self)@ == old(self)@.skip(w + t.text@.len())
                        &&& t.kind == kind_of(old(self)@[w])
                        &&& match t.kind {
                            TokenKind::Numeric => (forall|i: int|
                                0 <= i < t.text@.len() ==> is_digit(#[trigger] t.text@[i]))
                                && (final(self)@.len() > 0 ==> !is_digit(final(self)@[0])),
                            TokenKind::Word => (forall|i: int|
                                0 <= i < t.text@.len() ==> is_alnum(#[trigger] t.text@[i]))
                                && (final(self)@.len() > 0 ==> !is_alnum(final(self)@[0])),
                            TokenKind::Symbol => t.text@.len() == 1,
                        }
                        &&& lex(old(self)@) == seq![t@] + lex(final(self)@)
                        &&& final(self)@.len() < old(self)@.len()
                    },
                }
            }),
    {
        let ghost start = self@;
        let ghost w = run_len(start, CharClass::Space) as int;
        proof {
            lemma_lex_skip_space(start);
            lemma_run_len(start, CharClass::Space);
        }
        self.trim_left();
        if self.content.len() == 0 {
            return None;
        }
        let c = self.content[0];
        let ghost trimmed = self@;
        proof {
            lemma_token_len(trimmed);
            lemma_run_len(trimmed, CharClass::Digit);
            lemma_run_len(trimmed, CharClass::Alnum);
            assert(!is_space(trimmed[0]));
            assert(trimmed[0] == start[w]);
        }
        if char_in_class(c, CharClass::Digit) {
            let text = self.chop_while(CharClass::Digit);
            proof {
                let n = run_len(trimmed, CharClass::Digit) as int;
                assert(trimmed.skip(n) =~= start.skip(w + n));
                assert(trimmed.take(n) =~= start.subrange(w, w + n));
                assert forall|i: int| 0 <= i < text@.len() implies is_digit(#[trigger] text@[i]) by {
                    assert(in_class(trimmed[i], CharClass::Digit));
                }
                if self@.len() > 0 {
                    assert(self@[0] == trimmed[n]);
                }
            }
            return Some(Token { kind: TokenKind::Numeric, text });
        }
        if ('a' <= c && c <= 'z') || ('A' <= c && c <= 'Z') {
            let text = self.chop_while(CharClass::Alnum);
            proof {
                let n = run_len(trimmed, CharClass::Alnum) as int;
                assert(trimmed.skip(n) =~= start.skip(w + n));
                assert(trimmed.take(n) =~= start.subrange(w, w + n));
                assert forall|i: int| 0 <= i < text@.len() implies is_alnum(#[trigger] text@[i]) by {
                    assert(in_class(trimmed[i], CharClass::Alnum));
                }
                if self@.len() > 0 {
                    assert(self@[0] == trimmed[n]);
                }
            }
            return Some(Token { kind: TokenKind::Word, text });
        }
        let text = self.chop(1);
        proof {
            assert(trimmed.skip(1) =~= start.skip(w + 1));
            assert(trimmed.take(1) =~= start.subrange(w, w + 1));
        }
        Some(Token { kind: TokenKind::Symbol, text })
    }
}

/// All tokens of `content`, in order.
pub fn tokenize<'a>(content: &'a [char]) -> (r: Vec<Token<'a>>)
    ensures
        r@.map_values(|t: Token<'a>| t@) == lex(content@),
{
    let mut lexer = Lexer::new(content);
    let mut tokens: Vec<Token<'a>> = Vec::new();
    loop
        invariant
            tokens@.map_values(|t: Token<'a>| t@) + lex(lexer@) == lex(content@),
        decreases lexer@.len(),
    {
        let ghost rest = lexer@;
        match lexer.next_token() {
            None => {
                assert(tokens@.map_values(|t: Token<'a>| t@) + lex(rest) =~= tokens@.map_values(|t: Token<'a>| t@));
                return tokens;
            },
            Some(t) => {
                let ghost before = tokens@.map_values(|t: Token<'a>| t@);
                tokens.push(t);
                assert(tokens@.map_values(|t: Token<'a>| t@) =~= before.push(t@));
                assert(before.push(t@) + lex(lexer@) =~= before + (seq![t@] + lex(lexer@)));
                assert(lex(rest) == seq![t@] + lex(lexer@));
            },
        }
    }
}

/// `t` is a token as its kind says: never empty, a numeric token all digits,
/// a word a letter then letters and digits, a symbol one character that is
/// neither whitespace, digit nor letter.
pub open spec fn token_shape(t: (TokenKind, Seq<char>)) -> bool {
    &&& t.1.len() > 0
    &&& match t.0 {
        TokenKind::Numeric => forall|i: int| 0 <= i < t.1.len() ==> is_digit(#[trigger] t.1[i]),
        TokenKind::Word => is_letter(t.1[0]) && forall|i: int|
            0 <= i < t.1.len() ==> is_alnum(#[trigger] t.1[i]),
        TokenKind::Symbol => t.1.len() == 1 && !is_space(t.1[0]) && !is_alnum(t.1[0]),
    }
}

/// The characters of `s` that are not whitespace, in order.
pub open spec fn strip_space(s: Seq<char>) -> Seq<char>
    decreases s.len(),
{
    if s.len() == 0 {
        seq![]
    } else if is_space(s[0]) {
        strip_space(s.drop_first())
    } else {
        seq![s[0]] + strip_space(s.drop_first())
    }
}

/// The characters of all tokens, one after another.
pub open spec fn joined(ts: Seq<(TokenKind, Seq<char>)>) -> Seq<char>
    decreases ts.len(),
{
    if ts.len() == 0 {
        seq![]
    } else {
        ts[0].1 + joined(ts.drop_first())
    }
}

pub proof fn lemma_strip_space_append(a: Seq<char>, b: Seq<char>)
    ensures
        strip_space(a + b) == strip_space(a) + strip_space(b),
    decreases a.len(),
{
    if a.len() == 0 {
        assert(a + b =~= b);
        assert(strip_space(a) + strip_space(b) =~= strip_space(b));
    } else {
        lemma_strip_space_append(a.drop_first(), b);
        assert((a + b).drop_first() =~= a.drop_first() + b);
        assert((a + b)[0] == a[0]);
        if !is_space(a[0]) {
            assert(seq![a[0]] + (strip_space(a.drop_first()) + strip_space(b)) =~= (seq![a[0]]
                + strip_space(a.drop_first())) + strip_space(b));
        }
    }
}

pub proof fn lemma_strip_space_none(a: Seq<char>)
    requires
        forall|i: int| 0 <= i < a.len() ==> !is_space(#[trigger] a[i]),
    ensures
        strip_space(a) == a,
    decreases a.len(),
{
    if a.len() > 0 {
        assert forall|i: int| 0 <= i < a.drop_first().len() implies !is_space(
            #[trigger] a.drop_first()[i],
        ) by {
            assert(a.drop_first()[i] == a[i + 1]);
        }
        lemma_strip_space_none(a.drop_first());
        assert(seq![a[0]] + a.drop_first() =~= a);
    }
}

/// Every token is non-empty and of the shape its kind says, and the tokens
/// put back together are the input without its whitespace.
pub proof fn lemma_lex_tokens(s: Seq<char>)
    ensures
        forall|i: int| 0 <= i < lex(s).len() ==> token_shape(#[trigger] lex(s)[i]),
        joined(lex(s)) == strip_space(s),
    decreases s.len(),
{
    if s.len() == 0 {
    } else if is_space(s[0]) {
        lemma_lex_tokens(s.drop_first());
    } else {
        lemma_token_len(s);
        let n = token_len(s);
        let head = (kind_of(s[0]), s.take(n as int));
        let rest = lex(s.skip(n as int));
        lemma_lex_tokens(s.skip(n as int));
        lemma_run_len(s, CharClass::Digit);
        lemma_run_len(s, CharClass::Alnum);
        assert(token_shape(head)) by {
            if is_digit(s[0]) {
                assert forall|i: int| 0 <= i < head.1.len() implies is_digit(#[trigger] head.1[i]) by {
                    assert(in_class(s[i], CharClass::Digit));
                }
            } else if is_letter(s[0]) {
                assert forall|i: int| 0 <= i < head.1.len() implies is_alnum(#[trigger] head.1[i]) by {
                    assert(in_class(s[i], CharClass::Alnum));
                }
            }
        }
        assert(lex(s) == seq![head] + rest);
        assert forall|i: int| 0 <= i < lex(s).len() implies token_shape(#[trigger] lex(s)[i]) by {
            if i > 0 {
                assert(lex(s)[i] == rest[i - 1]);
            }
        }
        assert((seq![head] + rest).drop_first() =~= rest);
        assert(joined(lex(s)) == head.1 + joined(rest));
        assert forall|i: int| 0 <= i < head.1.len() implies !is_space(#[trigger] head.1[i]) by {
            if is_digit(s[0]) {
                assert(in_class(s[i], CharClass::Digit));
            } else if is_letter(s[0]) {
                assert(in_class(s[i], CharClass::Alnum));
            }
        }
        lemma_strip_space_none(head.1);
        lemma_strip_space_append(head.1, s.skip(n as int));
        assert(head.1 + s.skip(n as int) =~= s);
    }
}

/// The first token starts at the first character that is not whitespace and
/// is as long as its kind allows: a numeric token stops just before the first
/// character that is not a digit, a word just before the first character that
/// is neither letter nor digit.
pub proof fn lemma_first_token_maximal(s: Seq<char>)
    requires
        lex(s).len() > 0,
    ensures
        ({
            let w = run_len(s, CharClass::Space) as int;
            let t = lex(s)[0];
            &&& w + t.1.len() <= s.len()
            &&& s.subrange(w, w + t.1.len()) == t.1
            &&& t.0 == kind_of(s[w])
            &&& w + t.1.len() < s.len() ==> match t.0 {
                TokenKind::Numeric => !is_digit(s[w + t.1.len()]),
                TokenKind::Word => !is_alnum(s[w + t.1.len()]),
                TokenKind::Symbol => true,
            }
        }),
    decreases s.len(),
{
    if s.len() > 0 && is_space(s[0]) {
        let d = s.drop_first();
        lemma_first_token_maximal(d);
        lemma_lex_tokens(d);
        assert(token_shape(lex(d)[0]));
        let w = run_len(d, CharClass::Space) as int;
        let n = lex(d)[0].1.len();
        assert(s.subrange(w + 1, w + 1 + n) =~= d.subrange(w, w + n));
        assert(s[w + 1] == d[w]);
        if w + 1 + n < s.len() {
            assert(s[w + 1 + n] == d[w + n]);
        }
    } else if s.len() > 0 {
        lemma_token_len(s);
        lemma_run_len(s, CharClass::Digit);
        lemma_run_len(s, CharClass::Alnum);
        assert(s.subrange(0, token_len(s) as int) =~= s.take(token_len(s) as int));
    }
}

} // verus!
