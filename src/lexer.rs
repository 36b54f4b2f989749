use vstd::prelude::*;
use vstd::string::*;
use vstd::utf8::*;

use crate::text::{push_char, push_text};

verus! {

// The bytes that the byte lexer gives a meaning to.
pub const SPACE: u8 = 32;
pub const AMPERSAND: u8 = 38;
pub const BAR: u8 = 124;
pub const LESS: u8 = 60;
pub const GREATER: u8 = 62;
pub const SEMICOLON: u8 = 59;
pub const LEFT_PAREN: u8 = 40;
pub const RIGHT_PAREN: u8 = 41;
pub const DOUBLE_QUOTE: u8 = 34;
pub const SINGLE_QUOTE: u8 = 39;

/// What can go wrong while tokenizing a line.
#[derive(Debug, Clone, Copy, PartialEq, Eq, Structural)]
pub enum LexError {
    /// A quote was opened and the line ended before it was closed.
    UnclosedQuotes,
    /// A word of the line is not valid UTF-8.
    InvalidUtf8,
}

/// A token of the byte lexer, with each word given as the byte range it spans.
#[derive(Debug, Clone, Copy, PartialEq, Eq, Structural)]
pub enum Lexeme {
    Word(usize, usize),
    Pipe,
    Ampersand,
    Less,
    Great,
    LessLess,
    GreatGreat,
    Semicolon,
    Or,
    And,
    LeftParen,
    RightParen,
}

/// Bytes that end a word when they stand outside quotes.
pub open spec fn is_delimiter(b: u8) -> bool {
    b == AMPERSAND || b == BAR || b == LESS || b == GREATER || b == SEMICOLON || b == LEFT_PAREN
        || b == RIGHT_PAREN || b == SPACE
}

pub open spec fn is_quote(b: u8) -> bool {
    b == DOUBLE_QUOTE || b == SINGLE_QUOTE
}

/// Where the word that runs through position `i` ends, given the quote that is
/// open there (if any); `None` when the line ends inside a quote.
pub open spec fn word_end(s: Seq<u8>, i: int, quote: Option<u8>) -> Option<int>
    decreases s.len() - i,
{
    if i < 0 || i >= s.len() {
        if quote is None { Some(i) } else { None }
    } else {
        match quote {
            Some(q) => if s[i] == q {
                word_end(s, i + 1, None)
            } else {
                word_end(s, i + 1, quote)
            },
            None => if is_delimiter(s[i]) {
                Some(i)
            } else if is_quote(s[i]) {
                word_end(s, i + 1, Some(s[i]))
            } else {
                word_end(s, i + 1, None)
            },
        }
    }
}

proof fn lemma_word_end_bound(s: Seq<u8>, i: int, quote: Option<u8>)
    requires
        0 <= i,
    ensures
        word_end(s, i, quote) matches Some(e) ==> i <= e <= s.len() || (i >= s.len() && e == i),
    decreases s.len() - i,
{
    if i < s.len() {
        match quote {
            Some(q) => if s[i] == q {
                lemma_word_end_bound(s, i + 1, None);
            } else {
                lemma_word_end_bound(s, i + 1, quote);
            },
            None => if is_delimiter(s[i]) {
            } else if is_quote(s[i]) {
                lemma_word_end_bound(s, i + 1, Some(s[i]));
            } else {
                lemma_word_end_bound(s, i + 1, None);
            },
        }
    }
}

/// `t` with `l` in front, or the error unchanged.
pub open spec fn cons(l: Lexeme, t: Result<Seq<Lexeme>, LexError>) -> Result<Seq<Lexeme>, LexError> {
    match t {
        Ok(ls) => Ok(seq![l] + ls),
        Err(e) => Err(e),
    }
}

/// The lexemes of `s` from position `i` on: spaces separate, the operator bytes
/// stand for themselves (two `&`, `|`, `<` or `>` in a row make one token), and
/// every other run of bytes is a word, in which quoted text may hold any byte.
pub open spec fn scan(s: Seq<u8>, i: int) -> Result<Seq<Lexeme>, LexError>
    decreases s.len() - i,
    via scan_decreases
{
    if i < 0 || i >= s.len() {
        Ok(seq![])
    } else {
        let b = s[i];
        let doubled = i + 1 < s.len() && s[i + 1] == b;
        if b == SPACE {
            scan(s, i + 1)
        } else if b == AMPERSAND {
            if doubled { cons(Lexeme::And, scan(s, i + 2)) } else { cons(Lexeme::Ampersand, scan(s, i + 1)) }
        } else if b == BAR {
            if doubled { cons(Lexeme::Or, scan(s, i + 2)) } else { cons(Lexeme::Pipe, scan(s, i + 1)) }
        } else if b == LESS {
            if doubled { cons(Lexeme::LessLess, scan(s, i + 2)) } else { cons(Lexeme::Less, scan(s, i + 1)) }
        } else if b == GREATER {
            if doubled { cons(Lexeme::GreatGreat, scan(s, i + 2)) } else { cons(Lexeme::Great, scan(s, i + 1)) }
        } else if b == SEMICOLON {
            cons(Lexeme::Semicolon, scan(s, i + 1))
        } else if b == LEFT_PAREN {
            cons(Lexeme::LeftParen, scan(s, i + 1))
        } else if b == RIGHT_PAREN {
            cons(Lexeme::RightParen, scan(s, i + 1))
        } else {
            match word_end(s, i, None) {
                None => Err(LexError::UnclosedQuotes),
                Some(e) => cons(Lexeme::Word(i as usize, e as usize), scan(s, e)),
            }
        }
    }
}

#[via_fn]
proof fn scan_decreases(s: Seq<u8>, i: int) {
    if 0 <= i < s.len() && !is_delimiter(s[i]) {
        assert(word_end(s, i, None) == if is_quote(s[i]) {
            word_end(s, i + 1, Some(s[i]))
        } else {
            word_end(s, i + 1, None)
        });
        if is_quote(s[i]) {
            lemma_word_end_bound(s, i + 1, Some(s[i]));
        } else {
            lemma_word_end_bound(s, i + 1, None);
        }
    }
}


/// `p` followed by the lexemes of `t`, or the error of `t`.
pub open spec fn join(p: Seq<Lexeme>, t: Result<Seq<Lexeme>, LexError>) -> Result<Seq<Lexeme>, LexError> {
    match t {
        Ok(ls) => Ok(p + ls),
        Err(e) => Err(e),
    }
}

proof fn lemma_join_cons(p: Seq<Lexeme>, l: Lexeme, t: Result<Seq<Lexeme>, LexError>)
    ensures
        join(p, cons(l, t)) == join(p.push(l), t),
{
    if let Ok(ls) = t {
        assert(p + (seq![l] + ls) =~= p.push(l) + ls);
    }
}

fn delimiter(b: u8) -> (r: bool)
    ensures
        r == is_delimiter(b),
{
    b == AMPERSAND || b == BAR || b == LESS || b == GREATER || b == SEMICOLON || b == LEFT_PAREN
        || b == RIGHT_PAREN || b == SPACE
}

/// The end of the word that starts at `start`, or `None` when a quote in it is
/// never closed.
fn find_word_end(line: &[u8], start: usize) -> (r: Option<usize>)
    requires
        start < line@.len(),
    ensures
        match r {
            Some(e) => word_end(line@, start as int, None) == Some(e as int),
            None => word_end(line@, start as int, None) is None,
        },
{
    let n = line.len();
    let mut j: usize = start;
    let mut quote: Option<u8> = None;
    while j < n
        invariant
            n == line@.len(),
            start <= j <= n,
            word_end(line@, start as int, None) == word_end(line@, j as int, quote),
        decreases n - j,
    {
        let b = line[j];
        match quote {
            Some(q) => {
                if b == q {
                    quote = None;
                }
            },
            None => {
                if delimiter(b) {
                    return Some(j);
                } else if b == DOUBLE_QUOTE || b == SINGLE_QUOTE {
                    quote = Some(b);
                }
            },
        }
        j = j + 1;
    }
    if quote.is_none() {
        Some(j)
    } else {
        None
    }
}

/// Splits a line into lexemes, each word given as the byte range it covers.
pub fn lexemes(line: &[u8]) -> (r: Result<Vec<Lexeme>, LexError>)
    ensures
        match r {
            Ok(v) => scan(line@, 0) == Ok::<Seq<Lexeme>, LexError>(v@),
            Err(e) => scan(line@, 0) == Err::<Seq<Lexeme>, LexError>(e),
        },
{
    let n = line.len();
    let mut out: Vec<Lexeme> = Vec::new();
    let mut i: usize = 0;
    proof {
        assert(out@ =~= seq![]);
        assert(join(out@, scan(line@, 0)) == scan(line@, 0)) by {
            if let Ok(ls) = scan(line@, 0) {
                assert(out@ + ls =~= ls);
            }
        }
    }
    while i < n
        invariant
            n == line@.len(),
            i <= n,
            scan(line@, 0) == join(out@, scan(line@, i as int)),
        decreases n - i,
    {
        let b = line[i];
        let doubled = i + 1 < n && line[i + 1] == b;
        let single = if b == AMPERSAND {
            Some(Lexeme::Ampersand)
        } else if b == BAR {
            Some(Lexeme::Pipe)
        } else if b == LESS {
            Some(Lexeme::Less)
        } else if b == GREATER {
            Some(Lexeme::Great)
        } else if b == SEMICOLON {
            Some(Lexeme::Semicolon)
        } else if b == LEFT_PAREN {
            Some(Lexeme::LeftParen)
        } else if b == RIGHT_PAREN {
            Some(Lexeme::RightParen)
        } else {
            None
        };
        let pair = if !doubled {
            None
        } else if b == AMPERSAND {
            Some(Lexeme::And)
        } else if b == BAR {
            Some(Lexeme::Or)
        } else if b == LESS {
            Some(Lexeme::LessLess)
        } else if b == GREATER {
            Some(Lexeme::GreatGreat)
        } else {
            None
        };
        if b == SPACE {
            i = i + 1;
        } else if let Some(l) = pair {
            proof {
                lemma_join_cons(out@, l, scan(line@, i + 2));
            }
            out.push(l);
            i = i + 2;
        } else if let Some(l) = single {
            proof {
                lemma_join_cons(out@, l, scan(line@, i + 1));
            }
            out.push(l);
            i = i + 1;
        } else {
            match find_word_end(line, i) {
                None => {
                    return Err(LexError::UnclosedQuotes);
                },
                Some(e) => {
                    proof {
                        if b == DOUBLE_QUOTE || b == SINGLE_QUOTE {
                            lemma_word_end_bound(line@, i + 1, Some(b));
                        } else {
                            lemma_word_end_bound(line@, i + 1, None);
                        }
                        lemma_join_cons(out@, Lexeme::Word(i, e), scan(line@, e as int));
                    }
                    out.push(Lexeme::Word(i, e));
                    i = e;
                },
            }
        }
    }
    proof {
        assert(out@ + seq![] =~= out@);
    }
    Ok(out)
}


proof fn lemma_scan_spans(s: Seq<u8>, i: int)
    requires
        0 <= i,
        s.len() <= usize::MAX,
    ensures
        scan(s, i) matches Ok(ls) ==> forall|k: int|
            0 <= k < ls.len() ==> (#[trigger] ls[k] matches Lexeme::Word(a, b) ==> a <= b <= s.len()),
    decreases s.len() - i,
{
    if i < s.len() {
        let b = s[i];
        let doubled = i + 1 < s.len() && s[i + 1] == b;
        if b == SPACE {
            lemma_scan_spans(s, i + 1);
        } else if doubled && (b == AMPERSAND || b == BAR || b == LESS || b == GREATER) {
            lemma_scan_spans(s, i + 2);
            if let Ok(ls) = scan(s, i + 2) {
                assert forall|k: int| 0 <= k < ls.len() + 1 implies
                    (#[trigger] (seq![scan_head(s, i)] + ls)[k] matches Lexeme::Word(a, b) ==> a <= b <= s.len()) by {
                    if k > 0 { assert((seq![scan_head(s, i)] + ls)[k] == ls[k - 1]); }
                }
            }
        } else if is_delimiter(b) {
            lemma_scan_spans(s, i + 1);
            if let Ok(ls) = scan(s, i + 1) {
                assert forall|k: int| 0 <= k < ls.len() + 1 implies
                    (#[trigger] (seq![scan_head(s, i)] + ls)[k] matches Lexeme::Word(a, b) ==> a <= b <= s.len()) by {
                    if k > 0 { assert((seq![scan_head(s, i)] + ls)[k] == ls[k - 1]); }
                }
            }
        } else {
            if is_quote(b) {
                lemma_word_end_bound(s, i + 1, Some(b));
            } else {
                lemma_word_end_bound(s, i + 1, None);
            }
            if let Some(e) = word_end(s, i, None) {
                lemma_scan_spans(s, e);
                if let Ok(ls) = scan(s, e) {
                    let w = Lexeme::Word(i as usize, e as usize);
                    assert forall|k: int| 0 <= k < ls.len() + 1 implies
                        (#[trigger] (seq![w] + ls)[k] matches Lexeme::Word(a, b) ==> a <= b <= s.len()) by {
                        if k > 0 { assert((seq![w] + ls)[k] == ls[k - 1]); }
                    }
                }
            }
        }
    }
}

/// The operator lexeme that starts at position `i` (meaningful only where one does).
spec fn scan_head(s: Seq<u8>, i: int) -> Lexeme {
    let b = s[i];
    let doubled = i + 1 < s.len() && s[i + 1] == b;
    if b == AMPERSAND {
        if doubled { Lexeme::And } else { Lexeme::Ampersand }
    } else if b == BAR {
        if doubled { Lexeme::Or } else { Lexeme::Pipe }
    } else if b == LESS {
        if doubled { Lexeme::LessLess } else { Lexeme::Less }
    } else if b == GREATER {
        if doubled { Lexeme::GreatGreat } else { Lexeme::Great }
    } else if b == SEMICOLON {
        Lexeme::Semicolon
    } else if b == LEFT_PAREN {
        Lexeme::LeftParen
    } else {
        Lexeme::RightParen
    }
}

/// A token of a line, a word borrowing its text from the line.
#[derive(Debug)]
pub enum TokenV2<'a> {
    Word(&'a str),
    Pipe,
    Ampersand,
    Less,
    Great,
    LessLess,
    GreatGreat,
    Semicolon,
    Or,
    And,
    LeftParen,
    RightParen,
}

/// Token `t` is lexeme `l` of line `s`: the same operator, or a word whose text
/// is encoded by exactly the bytes that `l` spans.
pub open spec fn denotes(t: TokenV2, l: Lexeme, s: Seq<u8>) -> bool {
    match l {
        Lexeme::Word(a, b) => t matches TokenV2::Word(w) && w.spec_bytes() == s.subrange(a as int, b as int),
        Lexeme::Pipe => t is Pipe,
        Lexeme::Ampersand => t is Ampersand,
        Lexeme::Less => t is Less,
        Lexeme::Great => t is Great,
        Lexeme::LessLess => t is LessLess,
        Lexeme::GreatGreat => t is GreatGreat,
        Lexeme::Semicolon => t is Semicolon,
        Lexeme::Or => t is Or,
        Lexeme::And => t is And,
        Lexeme::LeftParen => t is LeftParen,
        Lexeme::RightParen => t is RightParen,
    }
}

/// Every word among `ls` spans valid UTF-8 in `s`.
pub open spec fn words_are_text(s: Seq<u8>, ls: Seq<Lexeme>) -> bool {
    forall|k: int|
        0 <= k < ls.len() ==> (#[trigger] ls[k] matches Lexeme::Word(a, b) ==> valid_utf8(
            s.subrange(a as int, b as int),
        ))
}

/// Relies on std::str::from_utf8: it succeeds exactly on valid UTF-8, and the
/// text it gives back is made of the same bytes.
#[verifier::external_body]
fn utf8_text<'a>(bytes: &'a [u8]) -> (r: Option<&'a str>)
    ensures
        match r {
            Some(t) => valid_utf8(bytes@) && t.spec_bytes() == bytes@,
            None => !valid_utf8(bytes@),
        },
{
    std::str::from_utf8(bytes).ok()
}

/// Tokenizes a line: fails on a quote that is never closed, and on a word that
/// is not valid UTF-8; otherwise gives one token per lexeme of `scan`.
pub fn lex_v2<'a>(line: &'a [u8]) -> (r: Result<Vec<TokenV2<'a>>, LexError>)
    ensures
        match scan(line@, 0) {
            Err(e) => r == Err::<Vec<TokenV2<'a>>, LexError>(e),
            Ok(ls) => if words_are_text(line@, ls) {
                r matches Ok(ts) && ts@.len() == ls.len() && forall|k: int|
                    0 <= k < ls.len() ==> denotes(#[trigger] ts@[k], ls[k], line@)
            } else {
                r == Err::<Vec<TokenV2<'a>>, LexError>(LexError::InvalidUtf8)
            },
        },
{
    let ls = match lexemes(line) {
        Ok(ls) => ls,
        Err(e) => {
            return Err(e);
        },
    };
    let n = line.len();
    proof {
        lemma_scan_spans(line@, 0);
    }
    let mut tokens: Vec<TokenV2<'a>> = Vec::new();
    let mut i: usize = 0;
    while i < ls.len()
        invariant
            n == line@.len(),
            scan(line@, 0) == Ok::<Seq<Lexeme>, LexError>(ls@),
            i <= ls@.len(),
            tokens@.len() == i,
            forall|k: int| 0 <= k < ls@.len() ==> (#[trigger] ls@[k] matches Lexeme::Word(a, b) ==> a <= b <= line@.len()),
            forall|k: int| 0 <= k < i ==> denotes(#[trigger] tokens@[k], ls@[k], line@),
            forall|k: int| 0 <= k < i ==> (#[trigger] ls@[k] matches Lexeme::Word(a, b) ==> valid_utf8(
                line@.subrange(a as int, b as int))),
        decreases ls@.len() - i,
    {
        let t = match ls[i] {
            Lexeme::Word(a, b) => match utf8_text(&line[a..b]) {
                Some(w) => TokenV2::Word(w),
                None => {
                    return Err(LexError::InvalidUtf8);
                },
            },
            Lexeme::Pipe => TokenV2::Pipe,
            Lexeme::Ampersand => TokenV2::Ampersand,
            Lexeme::Less => TokenV2::Less,
            Lexeme::Great => TokenV2::Great,
            Lexeme::LessLess => TokenV2::LessLess,
            Lexeme::GreatGreat => TokenV2::GreatGreat,
            Lexeme::Semicolon => TokenV2::Semicolon,
            Lexeme::Or => TokenV2::Or,
            Lexeme::And => TokenV2::And,
            Lexeme::LeftParen => TokenV2::LeftParen,
            Lexeme::RightParen => TokenV2::RightParen,
        };
        tokens.push(t);
        i = i + 1;
    }
    Ok(tokens)
}


/// A byte that is part of a word wherever it stands: no operator, space or quote.
pub open spec fn is_plain(b: u8) -> bool {
    !is_delimiter(b) && !is_quote(b)
}

/// Words joined by single spaces.
pub open spec fn spaced(words: Seq<Seq<u8>>) -> Seq<u8>
    decreases words.len(),
{
    if words.len() <= 1 {
        if words.len() == 0 { seq![] } else { words[0] }
    } else {
        words[0] + seq![SPACE] + spaced(words.drop_first())
    }
}

/// Non-empty words of plain bytes.
pub open spec fn plain_words(words: Seq<Seq<u8>>) -> bool {
    forall|k: int|
        0 <= k < words.len() ==> #[trigger] words[k].len() > 0 && forall|j: int|
            0 <= j < words[k].len() ==> is_plain(#[trigger] words[k][j])
}

proof fn lemma_plain_run_end(s: Seq<u8>, j: int, e: int)
    requires
        0 <= j <= e <= s.len(),
        forall|x: int| j <= x < e ==> is_plain(#[trigger] s[x]),
        e == s.len() || s[e] == SPACE,
    ensures
        word_end(s, j, None) == Some(e),
    decreases e - j,
{
    if j < e {
        lemma_plain_run_end(s, j + 1, e);
    }
}

proof fn lemma_plain_words_from(s: Seq<u8>, i: int, words: Seq<Seq<u8>>)
    requires
        0 <= i <= s.len() <= usize::MAX,
        s.subrange(i, s.len() as int) == spaced(words),
        plain_words(words),
    ensures
        scan(s, i) matches Ok(ls) && ls.len() == words.len() && forall|k: int|
            0 <= k < ls.len() ==> (#[trigger] ls[k] matches Lexeme::Word(a, b) && s.subrange(
                a as int,
                b as int,
            ) == words[k]),
    decreases words.len(),
{
    if words.len() == 0 {
        assert(s.subrange(i, s.len() as int).len() == 0);
    } else {
        let w = words[0];
        let e = i + w.len();
        let rest = words.drop_first();
        assert(plain_words(rest)) by {
            assert forall|k: int| 0 <= k < rest.len() implies #[trigger] rest[k].len() > 0 && forall|j: int|
                0 <= j < rest[k].len() ==> is_plain(#[trigger] rest[k][j]) by {
                assert(rest[k] == words[k + 1]);
            }
        }
        if words.len() == 1 {
            assert(spaced(words) == w);
        } else {
            assert(spaced(words) == w + seq![SPACE] + spaced(rest));
        }
        assert(e <= s.len());
        assert forall|x: int| i <= x < e implies is_plain(#[trigger] s[x]) by {
            assert(s[x] == s.subrange(i, s.len() as int)[x - i]);
            assert(s.subrange(i, s.len() as int)[x - i] == w[x - i]);
        }
        assert(s.subrange(i, e) =~= w) by {
            assert forall|x: int| 0 <= x < w.len() implies s.subrange(i, e)[x] == w[x] by {
                assert(s.subrange(i, s.len() as int)[x] == w[x]);
            }
        }
        if words.len() > 1 {
            assert(s[e] == s.subrange(i, s.len() as int)[w.len() as int]);
            assert(s[e] == SPACE);
        } else {
            assert(e == s.len());
        }
        lemma_plain_run_end(s, i, e);
        assert(is_plain(s[i]));
        assert(word_end(s, i, None) == Some(e));
        let head = Lexeme::Word(i as usize, e as usize);
        if words.len() == 1 {
            assert(scan(s, e) == Ok::<Seq<Lexeme>, LexError>(seq![]));
            assert(scan(s, i) == Ok::<Seq<Lexeme>, LexError>(seq![head] + seq![]));
            assert(seq![head] + seq![] =~= seq![head]);
        } else {
            assert(s.subrange(e + 1, s.len() as int) =~= spaced(rest)) by {
                let t = s.subrange(i, s.len() as int);
                assert(t =~= w + seq![SPACE] + spaced(rest));
                assert forall|x: int| 0 <= x < spaced(rest).len() implies s.subrange(e + 1, s.len() as int)[x]
                    == spaced(rest)[x] by {
                    assert(t[w.len() + 1 + x] == spaced(rest)[x]);
                }
            }
            lemma_plain_words_from(s, e + 1, rest);
            assert(scan(s, e) == scan(s, e + 1));
            let ls = scan(s, e + 1)->Ok_0;
            assert(scan(s, i) == Ok::<Seq<Lexeme>, LexError>(seq![head] + ls));
            assert forall|k: int| 0 <= k < ls.len() + 1 implies (#[trigger] (seq![head] + ls)[k] matches Lexeme::Word(
                a,
                b,
            ) && s.subrange(a as int, b as int) == words[k]) by {
                if k > 0 {
                    assert((seq![head] + ls)[k] == ls[k - 1]);
                    assert(words[k] == rest[k - 1]);
                }
            }
        }
    }
}

/// A line of non-empty plain words separated by single spaces lexes to one word
/// per word of the line, in order, each spanning exactly that word's bytes.
pub proof fn lemma_plain_words(words: Seq<Seq<u8>>)
    requires
        plain_words(words),
        spaced(words).len() <= usize::MAX,
    ensures
        scan(spaced(words), 0) matches Ok(ls) && ls.len() == words.len() && forall|k: int|
            0 <= k < ls.len() ==> (#[trigger] ls[k] matches Lexeme::Word(a, b) && spaced(
                words,
            ).subrange(a as int, b as int) == words[k]),
{
    let s = spaced(words);
    assert(s.subrange(0, s.len() as int) =~= s);
    lemma_plain_words_from(s, 0, words);
}

/// `s` holds exactly one quote byte, at position `q`.
pub open spec fn lone_quote(s: Seq<u8>, q: int) -> bool {
    &&& 0 <= q < s.len()
    &&& is_quote(s[q])
    &&& forall|j: int| 0 <= j < s.len() && j != q ==> !is_quote(#[trigger] s[j])
}

proof fn lemma_lone_quote_never_closes(s: Seq<u8>, q: int, j: int)
    requires
        lone_quote(s, q),
        q < j,
    ensures
        word_end(s, j, Some(s[q])) is None,
    decreases s.len() - j,
{
    if j < s.len() {
        lemma_lone_quote_never_closes(s, q, j + 1);
    }
}

proof fn lemma_lone_quote_word(s: Seq<u8>, q: int, j: int)
    requires
        lone_quote(s, q),
        0 <= j <= q,
    ensures
        word_end(s, j, None) matches Some(e) ==> j <= e < q,
    decreases q - j,
{
    if j == q {
        lemma_lone_quote_never_closes(s, q, q + 1);
    } else if !is_delimiter(s[j]) {
        lemma_lone_quote_word(s, q, j + 1);
    }
}

proof fn lemma_lone_quote_from(s: Seq<u8>, q: int, i: int)
    requires
        lone_quote(s, q),
        0 <= i <= q,
    ensures
        scan(s, i) == Err::<Seq<Lexeme>, LexError>(LexError::UnclosedQuotes),
    decreases q - i,
{
    let b = s[i];
    let doubled = i + 1 < s.len() && s[i + 1] == b;
    if is_delimiter(b) {
        assert(i != q);
        if doubled && (b == AMPERSAND || b == BAR || b == LESS || b == GREATER) {
            assert(i + 1 != q);
            lemma_lone_quote_from(s, q, i + 2);
        } else {
            lemma_lone_quote_from(s, q, i + 1);
        }
    } else {
        lemma_lone_quote_word(s, q, i);
        if i < q {
            assert(!is_quote(s[i]));
            lemma_lone_quote_word(s, q, i + 1);
            assert(word_end(s, i, None) == word_end(s, i + 1, None));
        }
        if let Some(e) = word_end(s, i, None) {
            lemma_lone_quote_from(s, q, e);
        }
    }
}

/// A line with a single quote character in it is always rejected, and always
/// for that quote: it can never be closed.
pub proof fn lemma_lone_quote_fails(s: Seq<u8>, q: int)
    requires
        lone_quote(s, q),
    ensures
        scan(s, 0) == Err::<Seq<Lexeme>, LexError>(LexError::UnclosedQuotes),
{
    lemma_lone_quote_from(s, q, 0);
}

/// The kind of a token of `lex`.
#[derive(Debug, Clone, Copy, PartialEq, Eq, Structural)]
pub enum TokenType {
    Word,
    Pipe,
    Ampersand,
    Less,
    Great,
    LessLess,
    GreatGreat,
    Semicolon,
    Or,
    And,
    LeftParen,
    RightParen,
}

/// A token with its own text: a word's content, or an operator as written.
#[derive(Debug)]
pub struct Token {
    pub literal: String,
    pub ttype: TokenType,
}

impl View for Token {
    type V = (Seq<char>, TokenType);

    open spec fn view(&self) -> (Seq<char>, TokenType) {
        (self.literal@, self.ttype)
    }
}

impl Token {
    pub fn new(literal: &str, ttype: TokenType) -> (t: Token)
        ensures
            t@ == (literal@, ttype),
    {
        Token { literal: literal.to_owned(), ttype }
    }
}

/// The tokens of a vector, as values.
pub open spec fn token_values(v: Seq<Token>) -> Seq<(Seq<char>, TokenType)> {
    v.map_values(|t: Token| t@)
}

/// Why `lex` rejects a line.
#[derive(Debug)]
pub enum SyntaxError {
    /// An operator stands where a word is needed; this is the token before it
    /// (or the last token of the line).
    UnexpectedToken(String),
    /// A quote was opened and the line ended before it was closed.
    UnclosedQuotes,
}

impl SyntaxError {
    /// The diagnostic to show for the error.
    pub fn message(&self) -> (m: String)
        ensures
            m@ == match self@ {
                Fault::Unexpected(v) => "syntax error near unexpected token `"@ + v + "`"@,
                Fault::Unclosed => "unclosed quotes"@,
            },
    {
        match self {
            SyntaxError::UnexpectedToken(v) => {
                let mut m = String::new();
                push_text(&mut m, "syntax error near unexpected token `");
                push_text(&mut m, v.as_str());
                push_text(&mut m, "`");
                m
            },
            SyntaxError::UnclosedQuotes => "unclosed quotes".to_owned(),
        }
    }
}

/// `SyntaxError` as a value.
pub enum Fault {
    Unexpected(Seq<char>),
    Unclosed,
}

impl View for SyntaxError {
    type V = Fault;

    open spec fn view(&self) -> Fault {
        match self {
            SyntaxError::UnexpectedToken(v) => Fault::Unexpected(v@),
            SyntaxError::UnclosedQuotes => Fault::Unclosed,
        }
    }
}

/// The state of `lex` between two characters.
pub struct Scanner {
    pub tokens: Seq<(Seq<char>, TokenType)>,
    /// The word read so far.
    pub value: Seq<char>,
    /// The character read last.
    pub prev: Option<char>,
    /// The quote that is open, if any.
    pub quote: Option<char>,
}

pub open spec fn start() -> Scanner {
    Scanner { tokens: seq![], value: seq![], prev: None, quote: None }
}

/// Ends the pending word: a non-empty one becomes a word token.
pub open spec fn flush(st: Scanner) -> Scanner {
    Scanner {
        tokens: if st.value.len() > 0 { st.tokens.push((st.value, TokenType::Word)) } else { st.tokens },
        value: seq![],
        ..st
    }
}

/// The token kinds of an operator character, alone and doubled.
pub open spec fn kinds(c: char) -> (TokenType, TokenType) {
    if c == '|' {
        (TokenType::Pipe, TokenType::Or)
    } else if c == '<' {
        (TokenType::Less, TokenType::LessLess)
    } else {
        (TokenType::Great, TokenType::GreatGreat)
    }
}

/// Whether an operator `c` may follow a token of kind `k`.
pub open spec fn may_follow(c: char, k: TokenType) -> bool {
    if c == '|' {
        k == TokenType::Word
    } else {
        k == TokenType::Word || k == TokenType::Pipe || k == TokenType::Or
    }
}

/// The tokens after operator `c` (`|`, `<` or `>`) is read: a repeated character
/// merges with the single token before it into a double one; otherwise the
/// operator must be the first token or follow a token that it may follow.
pub open spec fn operator_tokens(ts: Seq<(Seq<char>, TokenType)>, c: char, repeated: bool) -> Result<
    Seq<(Seq<char>, TokenType)>,
    Fault,
> {
    let (single, double) = kinds(c);
    if repeated && ts.len() > 0 && ts.last().1 == single {
        Ok(ts.drop_last().push((seq![c, c], double)))
    } else if ts.len() > 0 && !may_follow(c, ts.last().1) {
        Err(Fault::Unexpected(ts.last().0))
    } else {
        Ok(ts.push((seq![c], single)))
    }
}

/// Reads operator `c` once the pending word is flushed; `repeated` tells whether
/// the character before it was the same one.
pub open spec fn operator(st: Scanner, c: char, repeated: bool) -> Result<Scanner, Fault> {
    match operator_tokens(st.tokens, c, repeated) {
        Ok(ts) => Ok(Scanner { tokens: ts, ..st }),
        Err(f) => Err(f),
    }
}

pub open spec fn is_operator_char(c: char) -> bool {
    c == '|' || c == '<' || c == '>'
}

/// Reads one character.
pub open spec fn step(st: Scanner, c: char) -> Result<Scanner, Fault> {
    let next = Scanner { prev: Some(c), ..st };
    match st.quote {
        Some(q) => if c == q {
            Ok(Scanner { quote: None, ..next })
        } else {
            Ok(Scanner { value: st.value.push(c), ..next })
        },
        None => if c == '"' || c == '\'' {
            Ok(Scanner { quote: Some(c), ..next })
        } else if c == ' ' {
            Ok(flush(next))
        } else if is_operator_char(c) {
            operator(flush(next), c, st.prev == Some(c))
        } else {
            Ok(Scanner { value: st.value.push(c), ..next })
        },
    }
}

/// The state after reading all of `s`, or the first fault.
pub open spec fn run(s: Seq<char>) -> Result<Scanner, Fault>
    decreases s.len(),
{
    if s.len() == 0 {
        Ok(start())
    } else {
        match run(s.drop_last()) {
            Ok(st) => step(st, s.last()),
            Err(f) => Err(f),
        }
    }
}

/// Ends a line: no quote may be open, and the line may not end on an operator.
pub open spec fn finish(st: Scanner) -> Result<Seq<(Seq<char>, TokenType)>, Fault> {
    if st.quote is Some {
        Err(Fault::Unclosed)
    } else {
        let ts = flush(st).tokens;
        if ts.len() > 0 && ts.last().1 != TokenType::Word {
            Err(Fault::Unexpected(ts.last().0))
        } else {
            Ok(ts)
        }
    }
}

/// The tokens of a line, or why it is rejected.
pub open spec fn lex_spec(s: Seq<char>) -> Result<Seq<(Seq<char>, TokenType)>, Fault> {
    match run(s) {
        Ok(st) => finish(st),
        Err(f) => Err(f),
    }
}


proof fn lemma_values_push(v: Seq<Token>, t: Token)
    ensures
        token_values(v.push(t)) == token_values(v).push(t@),
{
    assert(token_values(v.push(t)) =~= token_values(v).push(t@));
}

proof fn lemma_values_drop_last(v: Seq<Token>)
    requires
        v.len() > 0,
    ensures
        token_values(v.drop_last()) == token_values(v).drop_last(),
        token_values(v).last() == v.last()@,
{
    assert(token_values(v.drop_last()) =~= token_values(v).drop_last());
}

/// Ends the pending word, as `flush` does.
fn push_word(value: &mut String, tokens: &mut Vec<Token>)
    ensures
        final(value)@ == Seq::<char>::empty(),
        token_values(final(tokens)@) == (if old(value)@.len() > 0 {
            token_values(old(tokens)@).push((old(value)@, TokenType::Word))
        } else {
            token_values(old(tokens)@)
        }),
{
    if !value.as_str().is_empty() {
        let t = Token { literal: value.clone(), ttype: TokenType::Word };
        proof {
            lemma_values_push(tokens@, t);
        }
        tokens.push(t);
    }
    *value = String::new();
}

fn operator_kinds(c: char) -> (r: (TokenType, TokenType))
    ensures
        r == kinds(c),
{
    if c == '|' {
        (TokenType::Pipe, TokenType::Or)
    } else if c == '<' {
        (TokenType::Less, TokenType::LessLess)
    } else {
        (TokenType::Great, TokenType::GreatGreat)
    }
}

fn follows(c: char, k: TokenType) -> (r: bool)
    ensures
        r == may_follow(c, k),
{
    if c == '|' {
        k == TokenType::Word
    } else {
        k == TokenType::Word || k == TokenType::Pipe || k == TokenType::Or
    }
}

/// Reads operator `c`, as `operator_tokens` says.
fn push_operator(tokens: &mut Vec<Token>, c: char, repeated: bool) -> (r: Result<(), SyntaxError>)
    ensures
        match operator_tokens(token_values(old(tokens)@), c, repeated) {
            Ok(ts) => r is Ok && token_values(final(tokens)@) == ts,
            Err(f) => r matches Err(e) && e@ == f,
        },
{
    let n = tokens.len();
    let (single, double) = operator_kinds(c);
    if repeated && n > 0 && tokens[n - 1].ttype == single {
        proof {
            lemma_values_drop_last(tokens@);
        }
        tokens.pop();
        let mut literal = String::new();
        push_char(&mut literal, c);
        push_char(&mut literal, c);
        let t = Token { literal, ttype: double };
        proof {
            assert(t@.0 =~= seq![c, c]);
            lemma_values_push(tokens@, t);
        }
        tokens.push(t);
        Ok(())
    } else if n > 0 && !follows(c, tokens[n - 1].ttype) {
        proof {
            lemma_values_drop_last(tokens@);
        }
        Err(SyntaxError::UnexpectedToken(tokens[n - 1].literal.clone()))
    } else {
        if n > 0 {
            proof {
                lemma_values_drop_last(tokens@);
            }
        }
        let mut literal = String::new();
        push_char(&mut literal, c);
        let t = Token { literal, ttype: single };
        proof {
            assert(t@.0 =~= seq![c]);
            lemma_values_push(tokens@, t);
        }
        tokens.push(t);
        Ok(())
    }
}

/// The characters of `line`, in order.
fn chars_of(line: &str) -> (r: Vec<char>)
    ensures
        r@ == line@,
{
    let mut v: Vec<char> = Vec::new();
    for c in it: line.chars()
        invariant
            v@ == it.seq().take(it.index() as int),
    {
        v.push(c);
    }
    v
}


/// Once a prefix of a line is rejected, so is the whole line, for the same reason.
proof fn lemma_run_fault(s: Seq<char>, k: int)
    requires
        0 <= k <= s.len(),
        run(s.take(k)) is Err,
    ensures
        run(s) == run(s.take(k)),
    decreases s.len(),
{
    if k == s.len() {
        assert(s.take(k) =~= s);
    } else {
        assert(s.drop_last().take(k) =~= s.take(k));
        lemma_run_fault(s.drop_last(), k);
    }
}

/// Tokenizes a line: words, `|`, `||`, `<`, `<<`, `>` and `>>`, with quoted text
/// kept in its word without the quotes. Rejects a line whose quote is never
/// closed, and one where an operator stands where a word is needed.
pub fn lex(line: &str) -> (r: Result<Vec<Token>, SyntaxError>)
    ensures
        match r {
            Ok(v) => lex_spec(line@) == Ok::<Seq<(Seq<char>, TokenType)>, Fault>(token_values(v@)),
            Err(e) => lex_spec(line@) == Err::<Seq<(Seq<char>, TokenType)>, Fault>(e@),
        },
{
    let cs = chars_of(line);
    let mut tokens: Vec<Token> = Vec::new();
    let mut value = String::new();
    let mut prev: Option<char> = None;
    let mut quote: Option<char> = None;
    let mut i: usize = 0;
    proof {
        assert(cs@.take(0) =~= Seq::<char>::empty());
        assert(token_values(tokens@) =~= seq![]);
    }
    while i < cs.len()
        invariant
            cs@ == line@,
            i <= cs@.len(),
            run(cs@.take(i as int)) == Ok::<Scanner, Fault>(
                Scanner { tokens: token_values(tokens@), value: value@, prev, quote },
            ),
        decreases cs@.len() - i,
    {
        let c = cs[i];
        proof {
            assert(cs@.take(i + 1).drop_last() =~= cs@.take(i as int));
        }
        let repeated = match prev {
            Some(p) => p == c,
            None => false,
        };
        match quote {
            Some(q) => {
                if c == q {
                    quote = None;
                } else {
                    push_char(&mut value, c);
                }
            },
            None => {
                if c == '"' || c == '\'' {
                    quote = Some(c);
                } else if c == ' ' {
                    push_word(&mut value, &mut tokens);
                } else if c == '|' || c == '<' || c == '>' {
                    push_word(&mut value, &mut tokens);
                    if let Err(e) = push_operator(&mut tokens, c, repeated) {
                        proof {
                            lemma_run_fault(line@, i + 1);
                        }
                        return Err(e);
                    }
                } else {
                    push_char(&mut value, c);
                }
            },
        }
        prev = Some(c);
        i = i + 1;
    }
    proof {
        assert(cs@.take(i as int) =~= line@);
    }
    if quote.is_some() {
        return Err(SyntaxError::UnclosedQuotes);
    }
    push_word(&mut value, &mut tokens);
    let n = tokens.len();
    if n > 0 && tokens[n - 1].ttype != TokenType::Word {
        proof {
            lemma_values_drop_last(tokens@);
        }
        return Err(SyntaxError::UnexpectedToken(tokens[n - 1].literal.clone()));
    }
    if n > 0 {
        proof {
            lemma_values_drop_last(tokens@);
        }
    }
    Ok(tokens)
}


/// A character that is part of a word wherever it stands for `lex`.
pub open spec fn is_plain_char(c: char) -> bool {
    c != ' ' && c != '"' && c != '\'' && !is_operator_char(c)
}

/// Words joined by single spaces.
pub open spec fn spaced_text(words: Seq<Seq<char>>) -> Seq<char>
    decreases words.len(),
{
    if words.len() <= 1 {
        if words.len() == 0 { seq![] } else { words[0] }
    } else {
        spaced_text(words.drop_last()) + seq![' '] + words.last()
    }
}

/// Non-empty words of plain characters.
pub open spec fn plain_texts(words: Seq<Seq<char>>) -> bool {
    forall|k: int|
        0 <= k < words.len() ==> #[trigger] words[k].len() > 0 && forall|j: int|
            0 <= j < words[k].len() ==> is_plain_char(#[trigger] words[k][j])
}

/// One word token per word.
pub open spec fn word_tokens(words: Seq<Seq<char>>) -> Seq<(Seq<char>, TokenType)> {
    Seq::new(words.len(), |k: int| (words[k], TokenType::Word))
}

proof fn lemma_run_plain(s: Seq<char>, w: Seq<char>, st: Scanner)
    requires
        run(s) == Ok::<Scanner, Fault>(st),
        st.quote is None,
        w.len() > 0,
        forall|j: int| 0 <= j < w.len() ==> is_plain_char(#[trigger] w[j]),
    ensures
        run(s + w) == Ok::<Scanner, Fault>(
            Scanner { value: st.value + w, prev: Some(w.last()), ..st },
        ),
    decreases w.len(),
{
    let c = w.last();
    assert((s + w).drop_last() =~= s + w.drop_last());
    assert((s + w).last() == c);
    if w.len() == 1 {
        assert(s + w.drop_last() =~= s);
        assert(st.value + w =~= st.value.push(c));
    } else {
        lemma_run_plain(s, w.drop_last(), st);
        assert(st.value + w.drop_last() + seq![c] =~= st.value + w);
        assert((st.value + w.drop_last()).push(c) =~= st.value + w);
    }
}

proof fn lemma_run_spaced(words: Seq<Seq<char>>)
    requires
        words.len() > 0,
        plain_texts(words),
    ensures
        run(spaced_text(words)) == Ok::<Scanner, Fault>(
            Scanner {
                tokens: word_tokens(words.drop_last()),
                value: words.last(),
                prev: Some(words.last().last()),
                quote: None,
            },
        ),
    decreases words.len(),
{
    let w = words.last();
    assert(w.len() > 0);
    assert forall|j: int| 0 <= j < w.len() implies is_plain_char(#[trigger] w[j]) by {
        assert(words[words.len() - 1] == w);
    }
    if words.len() == 1 {
        assert(spaced_text(words) == w);
        assert(run(Seq::<char>::empty()) == Ok::<Scanner, Fault>(start()));
        assert(Seq::<char>::empty() + w =~= w);
        lemma_run_plain(Seq::<char>::empty(), w, start());
        assert(word_tokens(words.drop_last()) =~= seq![]);
        assert(Seq::<char>::empty() + w =~= w);
    } else {
        let init = words.drop_last();
        assert(plain_texts(init)) by {
            assert forall|k: int| 0 <= k < init.len() implies #[trigger] init[k].len() > 0 && forall|j: int|
                0 <= j < init[k].len() ==> is_plain_char(#[trigger] init[k][j]) by {
                assert(init[k] == words[k]);
            }
        }
        lemma_run_spaced(init);
        let prefix = spaced_text(init);
        let st = Scanner {
            tokens: word_tokens(init.drop_last()),
            value: init.last(),
            prev: Some(init.last().last()),
            quote: None,
        };
        assert(init.last().len() > 0) by {
            assert(init.last() == words[init.len() - 1]);
        }
        let spaced = prefix + seq![' '];
        assert(spaced.drop_last() =~= prefix);
        let st2 = Scanner { tokens: word_tokens(init), value: seq![], prev: Some(' '), quote: None };
        assert(word_tokens(init.drop_last()).push((init.last(), TokenType::Word)) =~= word_tokens(init));
        assert(run(spaced) == Ok::<Scanner, Fault>(st2));
        lemma_run_plain(spaced, w, st2);
        assert(spaced_text(words) == spaced + w);
        assert(Seq::<char>::empty() + w =~= w);
    }
}

/// A line of non-empty plain words separated by single spaces lexes to one
/// word token per word, in order, with its text as written.
pub proof fn lemma_plain_texts(words: Seq<Seq<char>>)
    requires
        plain_texts(words),
    ensures
        lex_spec(spaced_text(words)) == Ok::<Seq<(Seq<char>, TokenType)>, Fault>(word_tokens(words)),
{
    if words.len() == 0 {
        assert(word_tokens(words) =~= seq![]);
    } else {
        lemma_run_spaced(words);
        assert(words.last().len() > 0) by {
            assert(words.last() == words[words.len() - 1]);
        }
        assert(word_tokens(words.drop_last()).push((words.last(), TokenType::Word)) =~= word_tokens(words));
    }
}

/// `s` holds exactly one quote character, at position `q`.
pub open spec fn lone_quote_char(s: Seq<char>, q: int) -> bool {
    &&& 0 <= q < s.len()
    &&& (s[q] == '"' || s[q] == '\'')
    &&& forall|j: int| 0 <= j < s.len() && j != q ==> #[trigger] s[j] != '"' && s[j] != '\''
}

proof fn lemma_no_quote_before(s: Seq<char>, q: int, j: int)
    requires
        lone_quote_char(s, q),
        0 <= j <= q,
    ensures
        run(s.take(j)) matches Ok(st) ==> st.quote is None,
    decreases j,
{
    if j > 0 {
        lemma_no_quote_before(s, q, j - 1);
        assert(s.take(j).drop_last() =~= s.take(j - 1));
        assert(s.take(j).last() == s[j - 1]);
    }
}

proof fn lemma_quote_stays_open(s: Seq<char>, q: int, j: int)
    requires
        lone_quote_char(s, q),
        q < j <= s.len(),
    ensures
        run(s.take(j)) matches Ok(st) ==> st.quote == Some(s[q]),
    decreases j,
{
    assert(s.take(j).drop_last() =~= s.take(j - 1));
    assert(s.take(j).last() == s[j - 1]);
    if j == q + 1 {
        lemma_no_quote_before(s, q, q);
    } else {
        lemma_quote_stays_open(s, q, j - 1);
    }
}

/// A line with a single quote character in it is always rejected by `lex`.
pub proof fn lemma_lone_quote_char_fails(s: Seq<char>, q: int)
    requires
        lone_quote_char(s, q),
    ensures
        lex_spec(s) is Err,
{
    lemma_quote_stays_open(s, q, s.len() as int);
    assert(s.take(s.len() as int) =~= s);
}

} // verus!
