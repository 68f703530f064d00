//! Lexical scanning: turns source text into a stream of tokens, pulled one at
//! a time. The scanner tracks a single character cursor into the text; each
//! call to `next_token` skips whitespace, consumes one lexeme and returns its
//! token. Once the text is exhausted it returns `EndOfFile` forever.

use vstd::assert_seqs_equal;
use vstd::prelude::*;

verus! {

/// One lexical unit of the language: a keyword, an operator, a grouping
/// symbol, an integer literal, an identifier, end of input, or an invalid
/// lexeme (an unrecognized character, or an integer literal too large for
/// `i64`). The scanner never fails: bad input is reported as `Invalid` data
/// for the parser to reject.
#[derive(Debug, Clone, PartialEq, Eq)]
pub enum Token {
    Assume,
    Eq,
    Plus,
    Minus,
    Into,
    By,
    LParen,
    RParen,
    Number(i64),
    Identifier(String),
    EndOfFile,
    Invalid,
}

/// The mathematical model of a token: the same tags, with an identifier seen
/// as its character sequence.
pub enum TokenModel {
    Assume,
    Eq,
    Plus,
    Minus,
    Into,
    By,
    LParen,
    RParen,
    Number(i64),
    Identifier(Seq<char>),
    EndOfFile,
    Invalid,
}

impl View for Token {
    type V = TokenModel;

    open spec fn view(&self) -> TokenModel {
        match self {
            Token::Assume => TokenModel::Assume,
            Token::Eq => TokenModel::Eq,
            Token::Plus => TokenModel::Plus,
            Token::Minus => TokenModel::Minus,
            Token::Into => TokenModel::Into,
            Token::By => TokenModel::By,
            Token::LParen => TokenModel::LParen,
            Token::RParen => TokenModel::RParen,
            Token::Number(v) => TokenModel::Number(*v),
            Token::Identifier(s) => TokenModel::Identifier(s@),
            Token::EndOfFile => TokenModel::EndOfFile,
            Token::Invalid => TokenModel::Invalid,
        }
    }
}

/// Whitespace skipped between lexemes: space, tab, carriage return, newline.
pub open spec fn is_space_char(c: char) -> bool {
    c == ' ' || c == '\t' || c == '\n' || c == '\r'
}

/// A decimal digit.
pub open spec fn is_digit_char(c: char) -> bool {
    '0' <= c && c <= '9'
}

/// An ASCII letter.
pub open spec fn is_letter_char(c: char) -> bool {
    ('a' <= c && c <= 'z') || ('A' <= c && c <= 'Z')
}

/// A character that may continue a word (keyword or identifier).
pub open spec fn is_word_char(c: char) -> bool {
    is_letter_char(c) || is_digit_char(c) || c == '_'
}

/// The value of one decimal digit.
pub open spec fn digit_val(c: char) -> nat
    recommends
        is_digit_char(c),
{
    (c as u32 - '0' as u32) as nat
}

/// The decimal value of a run of digits.
pub open spec fn digits_val(s: Seq<char>) -> nat
    decreases s.len(),
{
    if s.len() == 0 {
        0
    } else {
        digits_val(s.drop_last()) * 10 + digit_val(s.last())
    }
}

/// The characters of the binding keyword.
pub open spec fn kw_bind() -> Seq<char> {
    seq!['a', 's', 's', 'u', 'm', 'e']
}

/// The characters of the equality keyword.
pub open spec fn kw_eq() -> Seq<char> {
    seq!['e', 'q']
}

/// The first position at or after `pos` that does not hold whitespace.
pub open spec fn skip_spaces(s: Seq<char>, pos: nat) -> nat
    decreases s.len() - pos,
{
    if pos >= s.len() {
        pos
    } else if is_space_char(s[pos as int]) {
        skip_spaces(s, pos + 1)
    } else {
        pos
    }
}

/// The end of the maximal run of digits starting at `pos`.
pub open spec fn digits_end(s: Seq<char>, pos: nat) -> nat
    decreases s.len() - pos,
{
    if pos >= s.len() {
        pos
    } else if is_digit_char(s[pos as int]) {
        digits_end(s, pos + 1)
    } else {
        pos
    }
}

/// The end of the maximal run of word characters starting at `pos`.
pub open spec fn word_end(s: Seq<char>, pos: nat) -> nat
    decreases s.len() - pos,
{
    if pos >= s.len() {
        pos
    } else if is_word_char(s[pos as int]) {
        word_end(s, pos + 1)
    } else {
        pos
    }
}

/// One scanning step: the token found at cursor position `pos` of text `s`,
/// and the cursor position after it. Rules, in priority order: skip
/// whitespace; at the end of the text, `EndOfFile`; single-character symbols;
/// a maximal digit run as a `Number` (or `Invalid` if its value exceeds
/// `i64::MAX`); a maximal word run as a keyword when it equals one exactly,
/// else as an `Identifier`; any other character as `Invalid`.
pub open spec fn scan_at(s: Seq<char>, pos: nat) -> (TokenModel, nat) {
    let p = skip_spaces(s, pos);
    if p >= s.len() {
        (TokenModel::EndOfFile, p)
    } else {
        let c = s[p as int];
        if c == '+' {
            (TokenModel::Plus, (p + 1) as nat)
        } else if c == '-' {
            (TokenModel::Minus, (p + 1) as nat)
        } else if c == '*' {
            (TokenModel::Into, (p + 1) as nat)
        } else if c == '/' {
            (TokenModel::By, (p + 1) as nat)
        } else if c == '(' {
            (TokenModel::LParen, (p + 1) as nat)
        } else if c == ')' {
            (TokenModel::RParen, (p + 1) as nat)
        } else if is_digit_char(c) {
            let e = digits_end(s, p);
            let v = digits_val(s.subrange(p as int, e as int));
            if v <= i64::MAX {
                (TokenModel::Number(v as i64), e)
            } else {
                (TokenModel::Invalid, e)
            }
        } else if is_letter_char(c) || c == '_' {
            let e = word_end(s, p);
            let w = s.subrange(p as int, e as int);
            if w == kw_bind() {
                (TokenModel::Assume, e)
            } else if w == kw_eq() {
                (TokenModel::Eq, e)
            } else {
                (TokenModel::Identifier(w), e)
            }
        } else {
            (TokenModel::Invalid, (p + 1) as nat)
        }
    }
}

/// The whole token stream of `s` from position `pos`, ending before the
/// `EndOfFile` token.
pub open spec fn tokens_from(s: Seq<char>, pos: nat) -> Seq<TokenModel>
    decreases s.len() - pos,
{
    let (t, p) = scan_at(s, pos);
    if t == TokenModel::EndOfFile || p <= pos || p > s.len() {
        Seq::empty()
    } else {
        seq![t] + tokens_from(s, p)
    }
}

pub proof fn lemma_skip_spaces_bounds(s: Seq<char>, pos: nat)
    requires
        pos <= s.len(),
    ensures
        pos <= skip_spaces(s, pos) <= s.len(),
        skip_spaces(s, pos) < s.len() ==> !is_space_char(s[skip_spaces(s, pos) as int]),
    decreases s.len() - pos,
{
    if pos < s.len() && is_space_char(s[pos as int]) {
        lemma_skip_spaces_bounds(s, pos + 1);
    }
}

pub proof fn lemma_digits_end_bounds(s: Seq<char>, pos: nat)
    requires
        pos <= s.len(),
    ensures
        pos <= digits_end(s, pos) <= s.len(),
        pos < s.len() && is_digit_char(s[pos as int]) ==> pos < digits_end(s, pos),
    decreases s.len() - pos,
{
    if pos < s.len() && is_digit_char(s[pos as int]) {
        lemma_digits_end_bounds(s, pos + 1);
    }
}

pub proof fn lemma_word_end_bounds(s: Seq<char>, pos: nat)
    requires
        pos <= s.len(),
    ensures
        pos <= word_end(s, pos) <= s.len(),
        pos < s.len() && is_word_char(s[pos as int]) ==> pos < word_end(s, pos),
    decreases s.len() - pos,
{
    if pos < s.len() && is_word_char(s[pos as int]) {
        lemma_word_end_bounds(s, pos + 1);
    }
}

/// Scanning never moves the cursor backwards nor past the end, and any token
/// other than `EndOfFile` consumes at least one character.
pub proof fn lemma_scan_at_bounds(s: Seq<char>, pos: nat)
    requires
        pos <= s.len(),
    ensures
        pos <= scan_at(s, pos).1 <= s.len(),
        scan_at(s, pos).0 != TokenModel::EndOfFile ==> pos < scan_at(s, pos).1,
{
    lemma_skip_spaces_bounds(s, pos);
    let p = skip_spaces(s, pos);
    if p < s.len() {
        lemma_digits_end_bounds(s, p);
        lemma_word_end_bounds(s, p);
    }
}

/// Unfolding of the token stream: it is empty exactly when the next token is
/// `EndOfFile`, and otherwise starts with that token.
pub proof fn lemma_tokens_from_unfold(s: Seq<char>, pos: nat)
    requires
        pos <= s.len(),
    ensures
        scan_at(s, pos).0 == TokenModel::EndOfFile ==> tokens_from(s, pos) == Seq::<
            TokenModel,
        >::empty(),
        scan_at(s, pos).0 != TokenModel::EndOfFile ==> tokens_from(s, pos) == seq![
            scan_at(s, pos).0,
        ] + tokens_from(s, scan_at(s, pos).1),
{
    lemma_scan_at_bounds(s, pos);
}

/// The cursor position after scanning `n` tokens, starting from position
/// `p0`.
pub open spec fn stream_pos(s: Seq<char>, p0: nat, n: nat) -> nat
    decreases n,
{
    if n == 0 {
        p0
    } else {
        scan_at(s, stream_pos(s, p0, (n - 1) as nat)).1
    }
}

/// The `n`-th token scanned from position `p0`.
pub open spec fn stream_tok(s: Seq<char>, p0: nat, n: nat) -> TokenModel {
    scan_at(s, stream_pos(s, p0, n)).0
}

/// Token `k` of a token sequence, reading `EndOfFile` past its end.
pub open spec fn tok(ts: Seq<TokenModel>, k: nat) -> TokenModel {
    if k < ts.len() {
        ts[k as int]
    } else {
        TokenModel::EndOfFile
    }
}

proof fn lemma_stream_stuck_at_end(s: Seq<char>, p0: nat, k: nat)
    requires
        p0 <= s.len(),
        scan_at(s, p0).0 == TokenModel::EndOfFile,
    ensures
        stream_tok(s, p0, k) == TokenModel::EndOfFile,
        stream_pos(s, p0, k) <= s.len(),
    decreases k,
{
    lemma_scan_at_bounds(s, p0);
    lemma_skip_spaces_bounds(s, p0);
    if k > 0 {
        lemma_stream_stuck_at_end(s, p0, (k - 1) as nat);
        let q = stream_pos(s, p0, (k - 1) as nat);
        lemma_scan_at_bounds(s, q);
        lemma_skip_spaces_bounds(s, q);
    }
}

proof fn lemma_stream_pos_shift(s: Seq<char>, p0: nat, k: nat)
    requires
        k >= 1,
    ensures
        stream_pos(s, p0, k) == stream_pos(s, scan_at(s, p0).1, (k - 1) as nat),
    decreases k,
{
    let p1 = scan_at(s, p0).1;
    if k == 1 {
        assert(stream_pos(s, p0, 1) == scan_at(s, stream_pos(s, p0, 0)).1);
        assert(stream_pos(s, p1, 0) == p1);
    } else {
        lemma_stream_pos_shift(s, p0, (k - 1) as nat);
        assert(stream_pos(s, p0, k) == scan_at(s, stream_pos(s, p0, (k - 1) as nat)).1);
        assert(stream_pos(s, p1, (k - 1) as nat) == scan_at(
            s,
            stream_pos(s, p1, (k - 2) as nat),
        ).1);
    }
}

/// The `k`-th scanned token is token `k` of the token stream; past the
/// stream's end, every scan yields `EndOfFile`.
pub proof fn lemma_stream_tok_is_token(s: Seq<char>, p0: nat, k: nat)
    requires
        p0 <= s.len(),
    ensures
        stream_tok(s, p0, k) == tok(tokens_from(s, p0), k),
    decreases k,
{
    let (t0, p1) = scan_at(s, p0);
    lemma_scan_at_bounds(s, p0);
    lemma_tokens_from_unfold(s, p0);
    if t0 == TokenModel::EndOfFile {
        lemma_stream_stuck_at_end(s, p0, k);
    } else {
        if k == 0 {
        } else {
            lemma_stream_pos_shift(s, p0, k);
            lemma_stream_tok_is_token(s, p1, (k - 1) as nat);
        }
    }
}

proof fn lemma_digits_end_full(s: Seq<char>, pos: nat)
    requires
        pos <= s.len(),
        forall|i: int| pos <= i < s.len() ==> is_digit_char(s[i]),
    ensures
        digits_end(s, pos) == s.len(),
    decreases s.len() - pos,
{
    if pos < s.len() {
        lemma_digits_end_full(s, pos + 1);
    }
}

proof fn lemma_word_end_full(s: Seq<char>, pos: nat)
    requires
        pos <= s.len(),
        forall|i: int| pos <= i < s.len() ==> is_word_char(s[i]),
    ensures
        word_end(s, pos) == s.len(),
    decreases s.len() - pos,
{
    if pos < s.len() {
        lemma_word_end_full(s, pos + 1);
    }
}

/// Law: a text that is one nonempty run of decimal digits scans to a single
/// `Number` token holding exactly its decimal value, provided that value fits
/// in `i64`.
pub proof fn lemma_digit_run_scans_to_number(d: Seq<char>)
    requires
        d.len() > 0,
        forall|i: int| 0 <= i < d.len() ==> is_digit_char(d[i]),
        digits_val(d) <= i64::MAX,
    ensures
        tokens_from(d, 0) == seq![TokenModel::Number(digits_val(d) as i64)],
{
    assert(is_digit_char(d[0]));
    lemma_digits_end_full(d, 0);
    assert(d.subrange(0, d.len() as int) =~= d);
    lemma_tokens_from_unfold(d, 0);
    assert(scan_at(d, 0).0 == TokenModel::Number(digits_val(d) as i64));
    assert(scan_at(d, 0).1 == d.len());
    assert(scan_at(d, d.len()).0 == TokenModel::EndOfFile);
    lemma_tokens_from_unfold(d, d.len());
    assert(tokens_from(d, 0) =~= seq![TokenModel::Number(digits_val(d) as i64)]);
}

/// Law: a text that is one nonempty word (letters, digits, underscores, not
/// starting with a digit) scans to a single `Identifier` token holding the
/// whole word, unless the word equals a keyword exactly. In particular a word
/// that merely begins with a keyword is one identifier, never a keyword token
/// followed by a stray remainder.
pub proof fn lemma_word_scans_to_identifier(d: Seq<char>)
    requires
        d.len() > 0,
        forall|i: int| 0 <= i < d.len() ==> is_word_char(d[i]),
        !is_digit_char(d[0]),
        d != kw_bind(),
        d != kw_eq(),
    ensures
        tokens_from(d, 0) == seq![TokenModel::Identifier(d)],
{
    assert(is_word_char(d[0]));
    lemma_word_end_full(d, 0);
    assert(d.subrange(0, d.len() as int) =~= d);
    lemma_tokens_from_unfold(d, 0);
    assert(scan_at(d, 0).0 == TokenModel::Identifier(d));
    assert(scan_at(d, 0).1 == d.len());
    assert(scan_at(d, d.len()).0 == TokenModel::EndOfFile);
    lemma_tokens_from_unfold(d, d.len());
    assert(tokens_from(d, 0) =~= seq![TokenModel::Identifier(d)]);
}

/// The scanner: a text buffer and a single forward-only cursor, counted in
/// characters.
pub struct Lexer {
    input: String,
    pos: usize,
}

impl Lexer {
    /// The scanned text, as a character sequence.
    pub closed spec fn text(&self) -> Seq<char> {
        self.input@
    }

    /// The current cursor position, in characters.
    pub closed spec fn cursor(&self) -> nat {
        self.pos as nat
    }

    /// The cursor never passes the end of the text.
    pub open spec fn wf(&self) -> bool {
        self.cursor() <= self.text().len()
    }

    /// A fresh scanner over `input`, with the cursor at the start.
    pub fn new(input: &str) -> (r: Lexer)
        ensures
            r.wf(),
            r.text() == input@,
            r.cursor() == 0,
    {
        Lexer { input: input.to_owned(), pos: 0 }
    }

    /// The number of characters of the text.
    fn len(&self) -> (n: usize)
        ensures
            n == self.text().len(),
    {
        self.input.as_str().unicode_len()
    }

    /// The character under the cursor.
    fn current_char(&self) -> (c: char)
        requires
            self.wf(),
            self.cursor() < self.text().len(),
        ensures
            c == self.text()[self.cursor() as int],
    {
        self.input.as_str().get_char(self.pos)
    }

    /// Move the cursor to the first non-whitespace position.
    fn skip_whitespace(&mut self)
        requires
            old(self).wf(),
        ensures
            final(self).wf(),
            final(self).text() == old(self).text(),
            final(self).cursor() == skip_spaces(old(self).text(), old(self).cursor()),
    {
        let ghost t = self.text();
        let ghost p0 = self.cursor();
        loop
            invariant
                self.wf(),
                self.text() == t,
                skip_spaces(t, self.cursor()) == skip_spaces(t, p0),
            ensures
                self.cursor() >= t.len() || !is_space_char(t[self.cursor() as int]),
            decreases t.len() - self.cursor(),
        {
            if self.pos >= self.len() {
                break ;
            }
            let c = self.current_char();
            if c == ' ' || c == '\t' || c == '\n' || c == '\r' {
                self.pos = self.pos + 1;
            } else {
                break ;
            }
        }
    }

    /// Scan the maximal digit run under the cursor: its value as a `Number`
    /// token if it fits in `i64`, else `Invalid`. Either way the cursor ends
    /// after the run.
    fn number(&mut self) -> (t: Token)
        requires
            old(self).wf(),
            old(self).cursor() < old(self).text().len(),
            is_digit_char(old(self).text()[old(self).cursor() as int]),
        ensures
            final(self).wf(),
            final(self).text() == old(self).text(),
            final(self).cursor() == digits_end(old(self).text(), old(self).cursor()),
            ({
                let v = digits_val(
                    old(self).text().subrange(
                        old(self).cursor() as int,
                        digits_end(old(self).text(), old(self).cursor()) as int,
                    ),
                );
                t@ == if v <= i64::MAX {
                    TokenModel::Number(v as i64)
                } else {
                    TokenModel::Invalid
                }
            }),
    {
        let ghost t = self.text();
        let ghost p0 = self.cursor();
        let start = self.pos;
        let mut acc: u64 = 0;
        let mut too_big: bool = false;
        loop
            invariant
                self.wf(),
                self.text() == t,
                p0 <= self.cursor() <= t.len(),
                start == p0,
                forall|i: int| p0 <= i < self.cursor() ==> is_digit_char(t[i]),
                digits_end(t, self.cursor()) == digits_end(t, p0),
                !too_big ==> acc as nat == digits_val(t.subrange(p0 as int, self.cursor() as int))
                    && acc <= i64::MAX as u64,
                too_big ==> digits_val(t.subrange(p0 as int, self.cursor() as int)) > i64::MAX,
            ensures
                self.cursor() >= t.len() || !is_digit_char(t[self.cursor() as int]),
            decreases t.len() - self.cursor(),
        {
            if self.pos >= self.len() {
                break ;
            }
            let c = self.current_char();
            if !(c >= '0' && c <= '9') {
                break ;
            }
            let d: u64 = (c as u32 - 48) as u64;
            proof {
                assert(t.subrange(p0 as int, self.cursor() as int + 1).drop_last() =~= t.subrange(
                    p0 as int,
                    self.cursor() as int,
                ));
                assert(t.subrange(p0 as int, self.cursor() as int + 1).last() == c);
            }
            if too_big || acc > 922337203685477580 || (acc == 922337203685477580 && d > 7) {
                too_big = true;
            } else {
                acc = acc * 10 + d;
            }
            self.pos = self.pos + 1;
        }
        proof {
            assert(digits_end(t, self.cursor()) == self.cursor());
        }
        if too_big {
            Token::Invalid
        } else {
            Token::Number(acc as i64)
        }
    }

    /// Scan the maximal word run under the cursor: a keyword token when the
    /// whole word equals a keyword, else an `Identifier` holding the word.
    fn identifier(&mut self) -> (t: Token)
        requires
            old(self).wf(),
            old(self).cursor() < old(self).text().len(),
            is_word_char(old(self).text()[old(self).cursor() as int]),
        ensures
            final(self).wf(),
            final(self).text() == old(self).text(),
            final(self).cursor() == word_end(old(self).text(), old(self).cursor()),
            ({
                let w = old(self).text().subrange(
                    old(self).cursor() as int,
                    word_end(old(self).text(), old(self).cursor()) as int,
                );
                t@ == if w == kw_bind() {
                    TokenModel::Assume
                } else if w == kw_eq() {
                    TokenModel::Eq
                } else {
                    TokenModel::Identifier(w)
                }
            }),
    {
        let ghost t = self.text();
        let ghost p0 = self.cursor();
        let start = self.pos;
        loop
            invariant
                self.wf(),
                self.text() == t,
                p0 <= self.cursor() <= t.len(),
                start == p0,
                word_end(t, self.cursor()) == word_end(t, p0),
            ensures
                self.cursor() >= t.len() || !is_word_char(t[self.cursor() as int]),
            decreases t.len() - self.cursor(),
        {
            if self.pos >= self.len() {
                break ;
            }
            let c = self.current_char();
            if (c >= 'a' && c <= 'z') || (c >= 'A' && c <= 'Z') || (c >= '0' && c <= '9') || c
                == '_' {
                self.pos = self.pos + 1;
            } else {
                break ;
            }
        }
        proof {
            assert(word_end(t, self.cursor()) == self.cursor());
        }
        let ghost w = t.subrange(p0 as int, self.cursor() as int);
        let word = self.input.as_str().substring_char(start, self.pos);
        let n = self.pos - start;
        if n == 6 {
            let c0 = word.get_char(0);
            let c1 = word.get_char(1);
            let c2 = word.get_char(2);
            let c3 = word.get_char(3);
            let c4 = word.get_char(4);
            let c5 = word.get_char(5);
            if c0 == 'a' && c1 == 's' && c2 == 's' && c3 == 'u' && c4 == 'm' && c5 == 'e' {
                proof {
                    assert_seqs_equal!(w == kw_bind());
                }
                Token::Assume
            } else {
                proof {
                    assert(w != kw_bind());
                    assert(w != kw_eq());
                }
                Token::Identifier(word.to_owned())
            }
        } else if n == 2 {
            let c0 = word.get_char(0);
            let c1 = word.get_char(1);
            if c0 == 'e' && c1 == 'q' {
                proof {
                    assert_seqs_equal!(w == kw_eq());
                }
                Token::Eq
            } else {
                proof {
                    assert(w != kw_bind());
                    assert(w != kw_eq());
                }
                Token::Identifier(word.to_owned())
            }
        } else {
            proof {
                assert(w != kw_bind());
                assert(w != kw_eq());
            }
            Token::Identifier(word.to_owned())
        }
    }

    /// Scan and return the next token, advancing the cursor past it. At the
    /// end of the text this returns `EndOfFile`, and keeps doing so on every
    /// later call.
    pub fn next_token(&mut self) -> (t: Token)
        requires
            old(self).wf(),
        ensures
            final(self).wf(),
            final(self).text() == old(self).text(),
            t@ == scan_at(old(self).text(), old(self).cursor()).0,
            final(self).cursor() == scan_at(old(self).text(), old(self).cursor()).1,
            old(self).cursor() <= final(self).cursor(),
            t@ != TokenModel::EndOfFile ==> old(self).cursor() < final(self).cursor(),
    {
        proof {
            lemma_scan_at_bounds(old(self).text(), old(self).cursor());
        }
        self.skip_whitespace();
        if self.pos >= self.len() {
            return Token::EndOfFile;
        }
        let c = self.current_char();
        if c == '+' {
            self.pos = self.pos + 1;
            Token::Plus
        } else if c == '-' {
            self.pos = self.pos + 1;
            Token::Minus
        } else if c == '*' {
            self.pos = self.pos + 1;
            Token::Into
        } else if c == '/' {
            self.pos = self.pos + 1;
            Token::By
        } else if c == '(' {
            self.pos = self.pos + 1;
            Token::LParen
        } else if c == ')' {
            self.pos = self.pos + 1;
            Token::RParen
        } else if c >= '0' && c <= '9' {
            self.number()
        } else if (c >= 'a' && c <= 'z') || (c >= 'A' && c <= 'Z') || c == '_' {
            self.identifier()
        } else {
            self.pos = self.pos + 1;
            Token::Invalid
        }
    }
}

} // verus!
