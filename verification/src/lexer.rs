use vstd::prelude::*;

use vstd::slice::{slice_subrange, slice_to_vec};

use crate::common::{tokens_model, SpecLiteral, SpecToken, Token, TokenLiteral, TokenType};

verus! {

/// `b` is an ASCII decimal digit.
pub open spec fn is_digit(b: u8) -> bool {
    48u8 <= b && b <= 57u8
}

/// The token kind of a byte that forms a token by itself, if it is one.
pub open spec fn single_byte_kind(b: u8) -> Option<TokenType> {
    if b == 43u8 {
        Some(TokenType::Add)
    } else if b == 45u8 {
        Some(TokenType::Sub)
    } else if b == 42u8 {
        Some(TokenType::Mul)
    } else if b == 47u8 {
        Some(TokenType::Div)
    } else if b == 40u8 {
        Some(TokenType::Lparen)
    } else if b == 41u8 {
        Some(TokenType::Rparen)
    } else {
        None
    }
}

/// The end of the run of digits of `s` that starts at `i`.
pub open spec fn digits_end(s: Seq<u8>, i: nat) -> nat
    decreases s.len() - i,
{
    if i < s.len() && is_digit(s[i as int]) {
        digits_end(s, i + 1)
    } else {
        i
    }
}

/// The end of a number whose first byte lies just before `i`: a run of digits,
/// then, where a '.' follows, the '.' and a second run of digits.
pub open spec fn number_end(s: Seq<u8>, i: nat) -> nat {
    let d = digits_end(s, i);
    if d < s.len() && s[d as int] == 46u8 {
        digits_end(s, d + 1)
    } else {
        d
    }
}

pub proof fn lemma_digits_end_bounds(s: Seq<u8>, i: nat)
    ensures
        i <= digits_end(s, i),
        i <= s.len() ==> digits_end(s, i) <= s.len(),
        forall|k: int| i <= k < digits_end(s, i) ==> is_digit(#[trigger] s[k]),
        digits_end(s, i) < s.len() ==> !is_digit(s[digits_end(s, i) as int]),
    decreases s.len() - i,
{
    if i < s.len() && is_digit(s[i as int]) {
        lemma_digits_end_bounds(s, i + 1);
    }
}

pub proof fn lemma_number_end_bounds(s: Seq<u8>, i: nat)
    requires
        i <= s.len(),
    ensures
        i <= number_end(s, i) <= s.len(),
{
    lemma_digits_end_bounds(s, i);
    let d = digits_end(s, i);
    if d < s.len() && s[d as int] == 46u8 {
        lemma_digits_end_bounds(s, d + 1);
    }
}

/// The tokens of `s` from position `i` on: each operator or parenthesis byte is a
/// token of its own; any other byte starts a number token that extends over the
/// digits that follow it and, after a '.', over a second run of digits.
pub open spec fn lex_from(s: Seq<u8>, i: nat) -> Seq<SpecToken>
    decreases s.len() - i,
{
    if i >= s.len() {
        Seq::empty()
    } else {
        match single_byte_kind(s[i as int]) {
            Some(kind) => seq![SpecToken { kind, literal: SpecLiteral::NoValue }] + lex_from(
                s,
                i + 1,
            ),
            None => {
                let j = number_end(s, i + 1);
                proof {
                    lemma_number_end_bounds(s, i + 1);
                }
                seq![
                    SpecToken {
                        kind: TokenType::Number,
                        literal: SpecLiteral::Number(s.subrange(i as int, j as int)),
                    },
                ] + lex_from(s, j)
            },
        }
    }
}

/// The tokens of `s`.
pub open spec fn lex(s: Seq<u8>) -> Seq<SpecToken> {
    lex_from(s, 0)
}


/// The source text of a token: the byte of an operator or parenthesis, the
/// lexeme of a number.
pub open spec fn token_text(t: SpecToken) -> Seq<u8> {
    match t.kind {
        TokenType::Add => seq![43u8],
        TokenType::Sub => seq![45u8],
        TokenType::Mul => seq![42u8],
        TokenType::Div => seq![47u8],
        TokenType::Lparen => seq![40u8],
        TokenType::Rparen => seq![41u8],
        TokenType::Number => match t.literal {
            SpecLiteral::Number(text) => text,
            SpecLiteral::NoValue => Seq::empty(),
        },
        TokenType::Eof => Seq::empty(),
    }
}

/// The source texts of a sequence of tokens, one after the other.
pub open spec fn joined_text(ts: Seq<SpecToken>) -> Seq<u8>
    decreases ts.len(),
{
    if ts.len() == 0 {
        Seq::empty()
    } else {
        token_text(ts[0]) + joined_text(ts.drop_first())
    }
}

proof fn lemma_lex_from_text(s: Seq<u8>, i: nat)
    requires
        i <= s.len(),
    ensures
        joined_text(lex_from(s, i)) == s.subrange(i as int, s.len() as int),
    decreases s.len() - i,
{
    if i < s.len() {
        let ts = lex_from(s, i);
        match single_byte_kind(s[i as int]) {
            Some(kind) => {
                lemma_lex_from_text(s, i + 1);
                assert(ts.drop_first() =~= lex_from(s, i + 1));
            },
            None => {
                let j = number_end(s, i + 1);
                lemma_number_end_bounds(s, i + 1);
                lemma_lex_from_text(s, j);
                assert(ts.drop_first() =~= lex_from(s, j));
            },
        }
        assert(s.subrange(i as int, s.len() as int) =~= token_text(ts[0]) + s.subrange(
            (i + token_text(ts[0]).len()) as int,
            s.len() as int,
        ));
    } else {
        assert(s.subrange(i as int, s.len() as int) =~= Seq::<u8>::empty());
    }
}

/// Tokenizing loses nothing: the source texts of the tokens of `s`, one after
/// the other, are `s` itself.
pub proof fn law_lex_is_lossless(s: Seq<u8>)
    ensures
        joined_text(lex(s)) == s,
{
    lemma_lex_from_text(s, 0);
    assert(s.subrange(0, s.len() as int) =~= s);
}

/// A number whose text ends just before `end` could not have been longer: the
/// input ends there, or the byte there is not a digit and, when the number has
/// no '.', not a '.' either.
pub open spec fn ends_maximally(s: Seq<u8>, end: int, text: Seq<u8>) -> bool {
    end >= s.len() || (!is_digit(s[end]) && (!text.contains(46u8) ==> s[end] != 46u8))
}

/// Where the `k`-th token of `ts` starts, counted from the start of their text.
pub open spec fn token_start(ts: Seq<SpecToken>, k: int) -> int {
    joined_text(ts.take(k)).len() as int
}

proof fn lemma_numbers_maximal_from(s: Seq<u8>, i: nat)
    requires
        i <= s.len(),
    ensures
        forall|k: int|
            0 <= k < lex_from(s, i).len() && (#[trigger] lex_from(s, i)[k]).kind == TokenType::Number
                ==> {
                let start = i + token_start(lex_from(s, i), k);
                let text = token_text(lex_from(s, i)[k]);
                &&& start + text.len() <= s.len()
                &&& s.subrange(start, start + text.len()) == text
                &&& ends_maximally(s, start + text.len(), text)
            },
    decreases s.len() - i,
{
    if i < s.len() {
        let ts = lex_from(s, i);
        let t0 = ts[0];
        let next: nat = match single_byte_kind(s[i as int]) {
            Some(kind) => i + 1,
            None => number_end(s, i + 1),
        };
        lemma_number_end_bounds(s, i + 1);
        let rest = lex_from(s, next);
        assert(ts =~= seq![t0] + rest);
        assert(token_text(t0).len() == next - i);
        lemma_numbers_maximal_from(s, next);
        assert forall|k: int|
            0 <= k < ts.len() && (#[trigger] ts[k]).kind == TokenType::Number implies {
            let start = i + token_start(ts, k);
            let text = token_text(ts[k]);
            &&& start + text.len() <= s.len()
            &&& s.subrange(start, start + text.len()) == text
            &&& ends_maximally(s, start + text.len(), text)
        } by {
            if k == 0 {
                assert(ts.take(0) =~= Seq::<SpecToken>::empty());
                let j = number_end(s, i + 1);
                let d = digits_end(s, i + 1);
                lemma_digits_end_bounds(s, i + 1);
                let text = s.subrange(i as int, j as int);
                if d < s.len() && s[d as int] == 46u8 {
                    lemma_digits_end_bounds(s, d + 1);
                    assert(text[d - i] == 46u8);
                    assert(text.contains(46u8));
                }
            } else {
                assert(ts.take(k) =~= seq![t0] + rest.take(k - 1));
                assert((seq![t0] + rest.take(k - 1)).drop_first() =~= rest.take(k - 1));
                assert(ts[k] == rest[k - 1]);
            }
        }
    }
}

/// Numbers are read as far as they go: for each number token, its text is
/// the input at its place, and it ends at the end of the input or before a
/// byte that is not a digit and, when the number has no '.', not a '.'. So a
/// run of digits is never split into two numbers.
pub proof fn law_numbers_are_maximal(s: Seq<u8>)
    ensures
        forall|k: int|
            0 <= k < lex(s).len() && (#[trigger] lex(s)[k]).kind == TokenType::Number ==> {
                let start = token_start(lex(s), k);
                let text = token_text(lex(s)[k]);
                &&& start + text.len() <= s.len()
                &&& s.subrange(start, start + text.len()) == text
                &&& ends_maximally(s, start + text.len(), text)
            },
{
    lemma_numbers_maximal_from(s, 0);
}

/// `b` is an operator or a parenthesis: '+', '-', '*', '/', '(' or ')'.
pub open spec fn is_operator_byte(b: u8) -> bool {
    b == 43u8 || b == 45u8 || b == 42u8 || b == 47u8 || b == 40u8 || b == 41u8
}

proof fn lemma_number_texts_from(s: Seq<u8>, i: nat)
    ensures
        forall|k: int|
            0 <= k < lex_from(s, i).len() ==> match (#[trigger] lex_from(s, i)[k]).literal {
                SpecLiteral::Number(t) => !is_operator_byte(t[0]) && forall|m: int|
                    1 <= m < t.len() ==> is_digit(#[trigger] t[m]) || t[m] == 46u8,
                SpecLiteral::NoValue => true,
            },
    decreases s.len() - i,
{
    if i < s.len() {
        match single_byte_kind(s[i as int]) {
            Some(kind) => {
                lemma_number_texts_from(s, i + 1);
            },
            None => {
                let j = number_end(s, i + 1);
                let d = digits_end(s, i + 1);
                lemma_number_end_bounds(s, i + 1);
                lemma_digits_end_bounds(s, i + 1);
                if d < s.len() && s[d as int] == 46u8 {
                    lemma_digits_end_bounds(s, d + 1);
                }
                let t = s.subrange(i as int, j as int);
                assert forall|m: int| 1 <= m < t.len() implies is_digit(#[trigger] t[m]) || t[m]
                    == 46u8 by {
                    assert(t[m] == s[i + m]);
                }
                lemma_number_texts_from(s, j);
            },
        }
    }
}

/// Every operator and parenthesis is a token of its own: a number's text never
/// holds one. Its first byte is any other byte, and the bytes after it are
/// digits or '.'.
pub proof fn law_number_texts(s: Seq<u8>)
    ensures
        forall|k: int|
            0 <= k < lex(s).len() ==> match (#[trigger] lex(s)[k]).literal {
                SpecLiteral::Number(t) => !is_operator_byte(t[0]) && forall|m: int|
                    1 <= m < t.len() ==> is_digit(#[trigger] t[m]) || t[m] == 46u8,
                SpecLiteral::NoValue => true,
            },
{
    lemma_number_texts_from(s, 0);
}

proof fn lemma_lex_from_kinds(s: Seq<u8>, i: nat)
    ensures
        forall|k: int|
            0 <= k < lex_from(s, i).len() ==> {
                let t = #[trigger] lex_from(s, i)[k];
                &&& t.kind != TokenType::Eof
                &&& t.kind == TokenType::Number <==> t.literal is Number
                &&& t.literal matches SpecLiteral::Number(text) ==> text.len() > 0
            },
    decreases s.len() - i,
{
    if i < s.len() {
        match single_byte_kind(s[i as int]) {
            Some(kind) => {
                lemma_lex_from_kinds(s, i + 1);
            },
            None => {
                lemma_number_end_bounds(s, i + 1);
                lemma_lex_from_kinds(s, number_end(s, i + 1));
            },
        }
    }
}

/// The lexer never produces an end-of-input token, a number token always carries
/// a nonempty lexeme, and no other token carries a value.
pub proof fn law_lex_token_shapes(s: Seq<u8>)
    ensures
        forall|k: int|
            0 <= k < lex(s).len() ==> {
                let t = #[trigger] lex(s)[k];
                &&& t.kind != TokenType::Eof
                &&& t.kind == TokenType::Number <==> t.literal is Number
                &&& t.literal matches SpecLiteral::Number(text) ==> text.len() > 0
            },
{
    lemma_lex_from_kinds(s, 0);
}

/// `t` is a decimal numeral: a run of digits, then optionally a '.' and a
/// second run of digits, with at least one digit in all.
pub open spec fn is_decimal_numeral(t: Seq<u8>) -> bool {
    let d = digits_end(t, 0);
    if d == t.len() {
        d > 0
    } else {
        t[d as int] == 46u8 && digits_end(t, d + 1) == t.len() && t.len() > 1
    }
}

/// A token that carries a number carries a decimal numeral.
pub open spec fn numeral_if_number(t: SpecToken) -> bool {
    match t.literal {
        SpecLiteral::Number(text) => is_decimal_numeral(text),
        SpecLiteral::NoValue => true,
    }
}

/// Every byte of `t` is a digit.
pub open spec fn all_digits(t: Seq<u8>) -> bool {
    forall|m: int| 0 <= m < t.len() ==> is_digit(#[trigger] t[m])
}

proof fn lemma_digits_end_exact(t: Seq<u8>, i: nat, k: nat)
    requires
        i <= k <= t.len(),
        forall|m: int| i <= m < k ==> is_digit(#[trigger] t[m]),
        k == t.len() || !is_digit(t[k as int]),
    ensures
        digits_end(t, i) == k,
    decreases k - i,
{
    if i < k {
        lemma_digits_end_exact(t, i + 1, k);
    }
}

/// The decimal numerals are exactly the nonempty runs of digits, and the texts
/// made of a run of digits, a '.' and a run of digits, with at least one digit in
/// all, whatever the length of each run.
pub proof fn law_decimal_numerals(t: Seq<u8>)
    ensures
        is_decimal_numeral(t) <==> {
            ||| t.len() > 0 && all_digits(t)
            ||| exists|k: int|
                0 <= k < t.len() && #[trigger] t[k] == 46u8 && all_digits(t.take(k)) && all_digits(
                    t.skip(k + 1),
                ) && t.len() > 1
        },
{
    let d = digits_end(t, 0);
    lemma_digits_end_bounds(t, 0);
    if d < t.len() {
        lemma_digits_end_bounds(t, d + 1);
    }
    if is_decimal_numeral(t) {
        if d == t.len() {
            assert(all_digits(t));
        } else {
            assert(all_digits(t.take(d as int)));
            assert(all_digits(t.skip(d + 1 as int)));
            assert(t[d as int] == 46u8);
        }
    }
    if t.len() > 0 && all_digits(t) {
        lemma_digits_end_exact(t, 0, t.len());
    }
    if exists|k: int|
        0 <= k < t.len() && #[trigger] t[k] == 46u8 && all_digits(t.take(k)) && all_digits(
            t.skip(k + 1),
        ) && t.len() > 1 {
        let k = choose|k: int|
            0 <= k < t.len() && #[trigger] t[k] == 46u8 && all_digits(t.take(k)) && all_digits(
                t.skip(k + 1),
            ) && t.len() > 1;
        assert forall|m: int| 0 <= m < k implies is_digit(#[trigger] t[m]) by {
            assert(t.take(k)[m] == t[m]);
        }
        lemma_digits_end_exact(t, 0, k as nat);
        assert forall|m: int| k + 1 <= m < t.len() implies is_digit(#[trigger] t[m]) by {
            assert(t.skip(k + 1)[m - (k + 1)] == t[m]);
        }
        lemma_digits_end_exact(t, (k + 1) as nat, t.len());
    }
}

/// Every number token of `s` is a decimal numeral.
pub open spec fn numbers_well_formed(s: Seq<u8>) -> bool {
    forall|k: int| 0 <= k < lex(s).len() ==> numeral_if_number(#[trigger] lex(s)[k])
}

/// Whether `text` is a decimal numeral.
pub fn is_numeral(text: &Vec<u8>) -> (r: bool)
    ensures
        r == is_decimal_numeral(text@),
{
    let ghost t = text@;
    proof {
        lemma_digits_end_bounds(t, 0);
    }
    let mut i: usize = 0;
    while i < text.len() && is_ascii_digit(text[i])
        invariant
            t == text@,
            i <= text.len(),
            digits_end(t, i as nat) == digits_end(t, 0),
        decreases text.len() - i,
    {
        i += 1;
    }
    if i == text.len() {
        return i > 0;
    }
    if text[i] != 46u8 {  // '.'
        return false;
    }
    let d = i;
    i += 1;
    proof {
        lemma_digits_end_bounds(t, i as nat);
    }
    while i < text.len() && is_ascii_digit(text[i])
        invariant
            t == text@,
            d < i <= text.len(),
            digits_end(t, i as nat) == digits_end(t, (d + 1) as nat),
        decreases text.len() - i,
    {
        i += 1;
    }
    i == text.len() && text.len() > 1
}

/// Whether every number in the first `len` bytes of `source` is a decimal
/// numeral, as `Lexer::run` asks.
pub fn numbers_are_numerals(source: &[u8], len: usize) -> (r: bool)
    requires
        len <= source@.len(),
    ensures
        r == numbers_well_formed(source@.take(len as int)),
{
    let tokens = Lexer::tokens_of(source, len);
    let ghost ts = lex(source@.take(len as int));
    let mut k: usize = 0;
    while k < tokens.len()
        invariant
            tokens_model(tokens@) == ts,
            ts == lex(source@.take(len as int)),
            k <= tokens.len(),
            forall|j: int| 0 <= j < k ==> numeral_if_number(#[trigger] ts[j]),
        decreases tokens.len() - k,
    {
        assert(ts[k as int] == tokens@[k as int]@);
        match &tokens[k].literal {
            TokenLiteral::Number(text) => {
                if !is_numeral(text) {
                    assert(!numeral_if_number(ts[k as int]));
                    return false;
                }
            },
            TokenLiteral::NoValue => {},
        }
        k += 1;
    }
    true
}

/// A scanner over the first `len` bytes of `source` that collects their tokens.
pub struct Lexer<'a> {
    source: &'a [u8],
    len: usize,
    start: usize,
    current: usize,
    tokens: Vec<Token>,
}

impl<'a> Lexer<'a> {
    /// The bytes the lexer was given.
    pub closed spec fn source_bytes(&self) -> Seq<u8> {
        self.source@
    }

    /// How many bytes of the source the lexer reads.
    pub closed spec fn limit(&self) -> nat {
        self.len as nat
    }

    /// The text the lexer tokenizes: the first `limit()` bytes of the source.
    pub open spec fn input(&self) -> Seq<u8> {
        self.source_bytes().take(self.limit() as int)
    }

    /// The lexer reads within its source, stands between two tokens, and the
    /// tokens collected so far followed by those of the rest of the input are
    /// the tokens of the whole input.
    pub closed spec fn wf(&self) -> bool {
        &&& self.len <= self.source@.len()
        &&& self.start == self.current
        &&& self.current <= self.len
        &&& tokens_model(self.tokens@) + lex_from(self.input(), self.current as nat) == lex(
            self.input(),
        )
    }

    pub fn new(source: &'a [u8], len: usize) -> (r: Self)
        ensures
            r.source_bytes() == source@,
            r.limit() == len,
            len <= source@.len() ==> r.wf(),
    {
        let r = Self { source, len, current: 0, start: 0, tokens: Vec::new() };
        assert(tokens_model(r.tokens@) =~= Seq::<SpecToken>::empty());
        assert(Seq::<SpecToken>::empty() + lex_from(r.input(), 0) =~= lex(r.input()));
        r
    }

    /// The tokens of the first `len` bytes of `source`.
    /// Each number of the input must be a decimal numeral.
    pub fn run(source: &'a [u8], len: usize) -> (r: Vec<Token>)
        requires
            len <= source@.len(),
            numbers_well_formed(source@.take(len as int)),
        ensures
            tokens_model(r@) == lex(source@.take(len as int)),
    {
        let lexer = Self::new(source, len);
        lexer.scan_tokens()
    }

    /// The tokens of the first `len` bytes of `source`, whatever their numbers.
    fn tokens_of(source: &'a [u8], len: usize) -> (r: Vec<Token>)
        requires
            len <= source@.len(),
        ensures
            tokens_model(r@) == lex(source@.take(len as int)),
    {
        let mut lexer = Self::new(source, len);
        lexer.scan_all();
        lexer.tokens
    }

    fn peek(&self) -> (b: u8)
        requires
            self.current <= self.len <= self.source@.len(),
        ensures
            b == (if self.current < self.len {
                self.source@[self.current as int]
            } else {
                0u8
            }),
    {
        if self.is_at_end() {
            return 0;
        }
        self.source[self.current]
    }

    fn next(&mut self) -> (b: u8)
        requires
            old(self).current < old(self).len <= old(self).source@.len(),
        ensures
            b == old(self).source@[old(self).current as int],
            final(self).current == old(self).current + 1,
            final(self).source == old(self).source,
            final(self).len == old(self).len,
            final(self).start == old(self).start,
            final(self).tokens == old(self).tokens,
    {
        self.current += 1;
        self.source[self.current - 1]
    }

    fn is_at_end(&self) -> (r: bool)
        ensures
            r == (self.current >= self.len),
    {
        self.current >= self.len
    }

    /// All tokens of the input.
    /// Each number of the input must be a decimal numeral.
    pub fn scan_tokens(self) -> (r: Vec<Token>)
        requires
            self.wf(),
            numbers_well_formed(self.input()),
        ensures
            tokens_model(r@) == lex(self.input()),
    {
        let mut lexer = self;
        lexer.scan_all();
        lexer.tokens
    }

    fn scan_all(&mut self)
        requires
            old(self).wf(),
        ensures
            final(self).input() == old(self).input(),
            tokens_model(final(self).tokens@) == lex(old(self).input()),
    {
        let ghost s = self.input();
        while !self.is_at_end()
            invariant
                self.wf(),
                self.input() == s,
            decreases self.len - self.current,
        {
            self.scan_token();
            self.start = self.current;
        }
        assert(tokens_model(self.tokens@) + lex_from(s, self.current as nat) =~= tokens_model(
            self.tokens@,
        ));
    }

    fn scan_token(&mut self)
        requires
            old(self).len <= old(self).source@.len(),
            old(self).start == old(self).current,
            old(self).current < old(self).len,
        ensures
            final(self).source == old(self).source,
            final(self).len == old(self).len,
            final(self).start == old(self).start,
            old(self).current < final(self).current <= final(self).len,
            tokens_model(final(self).tokens@) + lex_from(final(self).input(), final(self).current as nat)
                == tokens_model(old(self).tokens@) + lex_from(old(self).input(), old(self).current as nat),
    {
        let ghost s = self.input();
        let ghost c = self.current as nat;
        let ghost old_tokens = tokens_model(self.tokens@);
        let byte = self.next();
        assert(s[c as int] == byte);
        proof {
            lemma_number_end_bounds(s, c + 1);
        }
        match byte {
            43u8 => self.add_token(TokenType::Add),  // '+'
            45u8 => self.add_token(TokenType::Sub),  // '-'
            42u8 => self.add_token(TokenType::Mul),  // '*'
            47u8 => self.add_token(TokenType::Div),  // '/'
            40u8 => self.add_token(TokenType::Lparen),  // '('
            41u8 => self.add_token(TokenType::Rparen),  // ')'
            _ => self.add_token_number(),
        }
        assert(self.input() == s);
        assert(tokens_model(self.tokens@) + lex_from(s, self.current as nat) =~= old_tokens
            + lex_from(s, c));
    }

    fn add_token(&mut self, token_type: TokenType)
        ensures
            final(self).source == old(self).source,
            final(self).len == old(self).len,
            final(self).start == old(self).start,
            final(self).current == old(self).current,
            tokens_model(final(self).tokens@) == tokens_model(old(self).tokens@).push(
                SpecToken { kind: token_type, literal: SpecLiteral::NoValue },
            ),
    {
        self.tokens.push(Token::new(token_type, TokenLiteral::NoValue));
        assert(tokens_model(self.tokens@) =~= tokens_model(old(self).tokens@).push(
            SpecToken { kind: token_type, literal: SpecLiteral::NoValue },
        ));
    }

    fn add_token_number(&mut self)
        requires
            old(self).len <= old(self).source@.len(),
            old(self).start + 1 == old(self).current,
            old(self).current <= old(self).len,
        ensures
            final(self).source == old(self).source,
            final(self).len == old(self).len,
            final(self).start == old(self).start,
            final(self).current == number_end(old(self).input(), old(self).current as nat),
            tokens_model(final(self).tokens@) == tokens_model(old(self).tokens@).push(
                SpecToken {
                    kind: TokenType::Number,
                    literal: SpecLiteral::Number(
                        old(self).input().subrange(old(self).start as int, final(self).current as int),
                    ),
                },
            ),
    {
        let ghost s = self.input();
        let ghost first = self.current as nat;
        proof {
            lemma_digits_end_bounds(s, first);
        }
        while is_ascii_digit(self.peek())
            invariant
                self.len <= self.source@.len(),
                self.input() == s,
                self.source == old(self).source,
                self.len == old(self).len,
                self.start == old(self).start,
                self.tokens == old(self).tokens,
                first <= self.current <= self.len,
                digits_end(s, self.current as nat) == digits_end(s, first),
            decreases self.len - self.current,
        {
            self.next();
        }
        let ghost d = self.current as nat;
        proof {
            lemma_digits_end_bounds(s, d + 1);
        }
        if self.peek() == 46u8 {  // '.'
            self.next();
            while is_ascii_digit(self.peek())
                invariant
                    self.len <= self.source@.len(),
                    self.input() == s,
                    self.source == old(self).source,
                    self.len == old(self).len,
                    self.start == old(self).start,
                    self.tokens == old(self).tokens,
                    d + 1 <= self.current <= self.len,
                    digits_end(s, self.current as nat) == digits_end(s, d + 1),
                decreases self.len - self.current,
            {
                self.next();
            }
        }
        let text = slice_to_vec(slice_subrange(self.source, self.start, self.current));
        assert(text@ =~= s.subrange(self.start as int, self.current as int));
        self.tokens.push(Token::new(TokenType::Number, TokenLiteral::Number(text)));
        assert(tokens_model(self.tokens@) =~= tokens_model(old(self).tokens@).push(
            SpecToken {
                kind: TokenType::Number,
                literal: SpecLiteral::Number(s.subrange(self.start as int, self.current as int)),
            },
        ));
    }
}

/// `b` is an ASCII decimal digit.
fn is_ascii_digit(b: u8) -> (r: bool)
    ensures
        r == is_digit(b),
{
    48u8 <= b && b <= 57u8  // '0' ..= '9'
}

} // verus!
