//! Preprocessing tokens of C++ text, read from its bytes.
//!
//! There is no evaluation, substitution or concatenation here. Line splices are
//! removed first; quoted literals are indivisible; anything outside the supported
//! subset makes the whole text unknown.

use crate::text::{byte_views, copy_bytes, lemma_push_bytes, same_bytes};
use vstd::prelude::*;
use vstd::string::StringSliceAdditionalSpecFns;

verus! {

/// The largest fragment that is read, in bytes.
pub const MAX_FRAGMENT_BYTES: usize = 65536;

/// The largest number of tokens that a fragment may have.
pub const MAX_TOKENS: usize = 8192;

pub const NEWLINE: u8 = 0x0A;

pub const RETURN: u8 = 0x0D;

pub const SPACE: u8 = 0x20;

pub const BANG: u8 = 0x21;

pub const QUOTE: u8 = 0x22;

pub const HASH: u8 = 0x23;

pub const PERCENT: u8 = 0x25;

pub const AMPERSAND: u8 = 0x26;

pub const APOSTROPHE: u8 = 0x27;

pub const OPEN: u8 = 0x28;

pub const CLOSE: u8 = 0x29;

pub const STAR: u8 = 0x2A;

pub const PLUS: u8 = 0x2B;

pub const COMMA: u8 = 0x2C;

pub const MINUS: u8 = 0x2D;

pub const DOT: u8 = 0x2E;

pub const SLASH: u8 = 0x2F;

pub const EIGHT: u8 = 0x38;

pub const COLON: u8 = 0x3A;

pub const SEMICOLON: u8 = 0x3B;

pub const LESS: u8 = 0x3C;

pub const EQUALS: u8 = 0x3D;

pub const GREATER: u8 = 0x3E;

pub const QUESTION: u8 = 0x3F;

pub const UPPER_L: u8 = 0x4C;

pub const UPPER_U: u8 = 0x55;

pub const OPEN_BRACKET: u8 = 0x5B;

pub const BACKSLASH: u8 = 0x5C;

pub const CLOSE_BRACKET: u8 = 0x5D;

pub const CARET: u8 = 0x5E;

pub const UNDERSCORE: u8 = 0x5F;

pub const LOWER_U: u8 = 0x75;

pub const OPEN_BRACE: u8 = 0x7B;

pub const BAR: u8 = 0x7C;

pub const CLOSE_BRACE: u8 = 0x7D;

pub const TILDE: u8 = 0x7E;

/// Space, tab, line feed, form feed or carriage return.
pub open spec fn is_blank(b: u8) -> bool {
    b == SPACE || b == 0x09 || b == NEWLINE || b == 0x0C || b == RETURN
}

/// A decimal digit.
pub open spec fn is_digit(b: u8) -> bool {
    0x30 <= b <= 0x39
}

/// A letter or an underscore.
pub open spec fn is_word_start(b: u8) -> bool {
    0x41 <= b <= 0x5A || 0x61 <= b <= 0x7A || b == UNDERSCORE
}

/// A letter, a digit or an underscore.
pub open spec fn is_word_byte(b: u8) -> bool {
    is_word_start(b) || is_digit(b)
}

/// A byte that can stand in a number.
pub open spec fn is_number_byte(b: u8) -> bool {
    is_word_byte(b) || b == DOT
}

/// Whether a byte is space, tab, line feed, form feed or carriage return.
pub fn blank(b: u8) -> (r: bool)
    ensures
        r == is_blank(b),
{
    b == SPACE || b == 0x09 || b == NEWLINE || b == 0x0C || b == RETURN
}

/// Whether a byte is a letter or an underscore.
pub fn starts_word(b: u8) -> (r: bool)
    ensures
        r == is_word_start(b),
{
    (0x41 <= b && b <= 0x5A) || (0x61 <= b && b <= 0x7A) || b == UNDERSCORE
}

/// Whether a byte is a letter, a digit or an underscore.
pub fn in_word(b: u8) -> (r: bool)
    ensures
        r == is_word_byte(b),
{
    starts_word(b) || (0x30 <= b && b <= 0x39)
}

/// The byte at a position.
pub open spec fn byte_at(bytes: Seq<u8>, at: int) -> Option<u8> {
    if 0 <= at < bytes.len() {
        Some(bytes[at])
    } else {
        None
    }
}

/// The byte at a position.
pub fn get_byte(bytes: &[u8], at: usize) -> (r: Option<u8>)
    ensures
        r == byte_at(bytes@, at as int),
{
    if at < bytes.len() {
        Some(bytes[at])
    } else {
        None
    }
}

/// Whether two bytes stand at a position.
pub open spec fn pair_at(bytes: Seq<u8>, at: int, a: u8, b: u8) -> bool {
    byte_at(bytes, at) == Some(a) && byte_at(bytes, at + 1) == Some(b)
}

/// Whether two bytes stand at a position.
pub fn has_pair_at(bytes: &[u8], at: usize, a: u8, b: u8) -> (r: bool)
    ensures
        r == pair_at(bytes@, at as int, a, b),
{
    let count: usize = bytes.len();
    at < count && at + 1 < count && bytes[at] == a && bytes[at + 1] == b
}

/// Where a run of bytes ends.
pub open spec fn run_end(bytes: Seq<u8>, at: int, within: spec_fn(u8) -> bool) -> int
    decreases bytes.len() - at,
{
    if 0 <= at < bytes.len() && within(bytes[at]) {
        run_end(bytes, at + 1, within)
    } else {
        at
    }
}

/// A run ends behind its start, and not behind the text.
pub proof fn lemma_run_end(bytes: Seq<u8>, at: int, within: spec_fn(u8) -> bool)
    requires
        0 <= at <= bytes.len(),
    ensures
        at <= run_end(bytes, at, within) <= bytes.len(),
        forall|k: int| at <= k < run_end(bytes, at, within) ==> within(#[trigger] bytes[k]),
        run_end(bytes, at, within) < bytes.len() ==> !within(
            bytes[run_end(bytes, at, within)],
        ),
    decreases bytes.len() - at,
{
    if at < bytes.len() && within(bytes[at]) {
        lemma_run_end(bytes, at + 1, within);
    }
}

/// Where a word ends.
pub open spec fn word_run(bytes: Seq<u8>, at: int) -> int {
    run_end(bytes, at, |b: u8| is_word_byte(b))
}

/// Where a word ends.
pub fn word_run_end(bytes: &[u8], at: usize) -> (r: usize)
    requires
        at <= bytes@.len(),
    ensures
        r == word_run(bytes@, at as int),
        at <= r <= bytes@.len(),
{
    let ghost within = |b: u8| is_word_byte(b);
    let mut end: usize = at;
    while end < bytes.len() && in_word(bytes[end])
        invariant
            at <= end <= bytes@.len(),
            within == (|b: u8| is_word_byte(b)),
            run_end(bytes@, at as int, within) == run_end(bytes@, end as int, within),
        decreases bytes@.len() - end,
    {
        end += 1;
    }
    end
}

/// Where a number ends.
pub open spec fn number_run(bytes: Seq<u8>, at: int) -> int {
    run_end(bytes, at, |b: u8| is_number_byte(b))
}

fn number_run_end(bytes: &[u8], at: usize) -> (r: usize)
    requires
        at <= bytes@.len(),
    ensures
        r == number_run(bytes@, at as int),
        at <= r <= bytes@.len(),
{
    let ghost within = |b: u8| is_number_byte(b);
    let mut end: usize = at;
    while end < bytes.len() && (in_word(bytes[end]) || bytes[end] == DOT)
        invariant
            at <= end <= bytes@.len(),
            within == (|b: u8| is_number_byte(b)),
            run_end(bytes@, at as int, within) == run_end(bytes@, end as int, within),
        decreases bytes@.len() - end,
    {
        end += 1;
    }
    end
}

/// Where blank bytes end.
pub open spec fn blank_run(bytes: Seq<u8>, at: int) -> int {
    run_end(bytes, at, |b: u8| is_blank(b))
}

/// Where blank bytes end.
pub fn blank_run_end(bytes: &[u8], at: usize) -> (r: usize)
    requires
        at <= bytes@.len(),
    ensures
        r == blank_run(bytes@, at as int),
        at <= r <= bytes@.len(),
{
    let ghost within = |b: u8| is_blank(b);
    let mut end: usize = at;
    while end < bytes.len() && blank(bytes[end])
        invariant
            at <= end <= bytes@.len(),
            within == (|b: u8| is_blank(b)),
            run_end(bytes@, at as int, within) == run_end(bytes@, end as int, within),
        decreases bytes@.len() - end,
    {
        end += 1;
    }
    end
}

/// Where a line ends: at its line feed, or at the end of the text.
pub open spec fn line_run(bytes: Seq<u8>, at: int) -> int {
    run_end(bytes, at, |b: u8| b != NEWLINE)
}

/// Where a line ends: at its line feed, or at the end of the text.
pub fn line_run_end(bytes: &[u8], at: usize) -> (r: usize)
    requires
        at <= bytes@.len(),
    ensures
        r == line_run(bytes@, at as int),
        at <= r <= bytes@.len(),
{
    let ghost within = |b: u8| b != NEWLINE;
    let mut end: usize = at;
    while end < bytes.len() && bytes[end] != NEWLINE
        invariant
            at <= end <= bytes@.len(),
            within == (|b: u8| b != NEWLINE),
            run_end(bytes@, at as int, within) == run_end(bytes@, end as int, within),
        decreases bytes@.len() - end,
    {
        end += 1;
    }
    end
}

/// Where two bytes first stand next to each other.
pub open spec fn find_pair(bytes: Seq<u8>, at: int, a: u8, b: u8) -> Option<usize>
    decreases bytes.len() - at,
{
    if at < 0 || at + 1 >= bytes.len() {
        None
    } else if bytes[at] == a && bytes[at + 1] == b {
        Some(at as usize)
    } else {
        find_pair(bytes, at + 1, a, b)
    }
}

/// Where two bytes first stand next to each other.
pub fn find_pair_from(bytes: &[u8], at: usize, a: u8, b: u8) -> (r: Option<usize>)
    ensures
        r == find_pair(bytes@, at as int, a, b),
        r is Some ==> at <= r->0 && r->0 + 1 < bytes@.len(),
{
    let count: usize = bytes.len();
    let mut i: usize = at;
    while i < count && i + 1 < count
        invariant
            at <= i,
            count == bytes@.len(),
            find_pair(bytes@, at as int, a, b) == find_pair(bytes@, i as int, a, b),
        decreases count - i,
    {
        if bytes[i] == a && bytes[i + 1] == b {
            return Some(i);
        }
        i += 1;
    }
    None
}

/// Where a literal ends, behind its closing quote. A literal does not go over a line
/// end; a backslash takes the next byte with it.
pub open spec fn literal_end(bytes: Seq<u8>, at: int, quote: u8) -> Option<usize>
    decreases bytes.len() - at,
{
    if at < 0 || at >= bytes.len() {
        None
    } else if bytes[at] == quote {
        Some((at + 1) as usize)
    } else if bytes[at] == NEWLINE || bytes[at] == RETURN {
        None
    } else if bytes[at] == BACKSLASH {
        if at + 1 < bytes.len() {
            literal_end(bytes, at + 2, quote)
        } else {
            None
        }
    } else {
        literal_end(bytes, at + 1, quote)
    }
}

fn find_literal_end(bytes: &[u8], at: usize, quote: u8) -> (r: Option<usize>)
    requires
        at <= bytes@.len(),
    ensures
        r == literal_end(bytes@, at as int, quote),
        r is Some ==> at < r->0 <= bytes@.len(),
{
    let count: usize = bytes.len();
    let mut i: usize = at;
    while i < count
        invariant
            at <= i,
            count == bytes@.len(),
            literal_end(bytes@, at as int, quote) == literal_end(bytes@, i as int, quote),
        decreases count - i,
    {
        let b = bytes[i];
        if b == quote {
            return Some(i + 1);
        }
        if b == NEWLINE || b == RETURN {
            return None;
        }
        if b == BACKSLASH {
            if i + 1 >= count {
                return None;
            }
            i += 2;
        } else {
            i += 1;
        }
    }
    None
}

/// What stands at a position of a text: something that separates tokens, a token, or
/// what is not supported. The number is where it ends.
#[derive(Clone, Copy, PartialEq, Eq, Structural, Debug)]
pub enum Lexeme {
    Gap(usize),
    Token(usize),
    Unknown,
}

/// The length of the quote that opens a literal, with its encoding prefix.
pub open spec fn quote_len(bytes: Seq<u8>, at: int) -> int {
    let quoted = |p: int| byte_at(bytes, p) == Some(QUOTE) || byte_at(bytes, p) == Some(APOSTROPHE);
    if quoted(at) {
        1
    } else if (byte_at(bytes, at) == Some(LOWER_U) || byte_at(bytes, at) == Some(UPPER_U)
        || byte_at(bytes, at) == Some(UPPER_L)) && quoted(at + 1) {
        2
    } else if pair_at(bytes, at, LOWER_U, EIGHT) && quoted(at + 2) {
        3
    } else {
        0
    }
}

fn quote_byte(bytes: &[u8], at: usize) -> (r: bool)
    ensures
        r == (byte_at(bytes@, at as int) == Some(QUOTE) || byte_at(bytes@, at as int) == Some(
            APOSTROPHE,
        )),
{
    at < bytes.len() && (bytes[at] == QUOTE || bytes[at] == APOSTROPHE)
}

fn find_quote_len(bytes: &[u8], at: usize) -> (r: usize)
    requires
        at < bytes@.len(),
    ensures
        r == quote_len(bytes@, at as int),
        at + r <= bytes@.len(),
        r <= 3,
{
    let count: usize = bytes.len();
    if quote_byte(bytes, at) {
        return 1;
    }
    let b = bytes[at];
    if (b == LOWER_U || b == UPPER_U || b == UPPER_L) && at + 1 < count && quote_byte(
        bytes,
        at + 1,
    ) {
        return 2;
    }
    if has_pair_at(bytes, at, LOWER_U, EIGHT) && at + 2 < count && quote_byte(bytes, at + 2) {
        return 3;
    }
    0
}

/// Whether a digraph stands at a position. `<::` that neither `:` nor `>` follows is
/// a `<` before `::`, with or without a space between them.
pub open spec fn digraph_at(bytes: Seq<u8>, at: int) -> bool {
    let qualified = pair_at(bytes, at, LESS, COLON) && byte_at(bytes, at + 2) == Some(COLON)
        && byte_at(bytes, at + 3) != Some(COLON) && byte_at(bytes, at + 3) != Some(GREATER);
    ||| pair_at(bytes, at, LESS, COLON) && !qualified
    ||| pair_at(bytes, at, COLON, GREATER)
    ||| pair_at(bytes, at, LESS, PERCENT)
    ||| pair_at(bytes, at, PERCENT, GREATER)
    ||| pair_at(bytes, at, PERCENT, COLON)
}

fn is_digraph(bytes: &[u8], at: usize) -> (r: bool)
    requires
        at < bytes@.len(),
    ensures
        r == digraph_at(bytes@, at as int),
{
    let count: usize = bytes.len();
    if has_pair_at(bytes, at, LESS, COLON) {
        if count - at > 2 && bytes[at + 2] == COLON {
            return count - at > 3 && (bytes[at + 3] == COLON || bytes[at + 3] == GREATER);
        }
        return true;
    }
    has_pair_at(bytes, at, COLON, GREATER) || has_pair_at(bytes, at, LESS, PERCENT)
        || has_pair_at(bytes, at, PERCENT, GREATER) || has_pair_at(bytes, at, PERCENT, COLON)
}

/// Whether two bytes are an operator.
pub open spec fn is_operator_pair(a: u8, b: u8) -> bool {
    ||| a == b && (a == HASH || a == COLON || a == AMPERSAND || a == BAR || a == LESS || a
        == GREATER || a == EQUALS || a == PLUS || a == MINUS)
    ||| b == EQUALS && (a == BANG || a == LESS || a == GREATER || a == PLUS || a == MINUS || a
        == STAR || a == SLASH || a == PERCENT || a == AMPERSAND || a == BAR || a == CARET)
    ||| a == MINUS && b == GREATER
    ||| a == DOT && b == STAR
}

/// The length of an operator of several bytes.
pub open spec fn operator_len(bytes: Seq<u8>, at: int) -> int {
    if pair_at(bytes, at, MINUS, GREATER) && byte_at(bytes, at + 2) == Some(STAR) {
        3
    } else if pair_at(bytes, at, DOT, DOT) && byte_at(bytes, at + 2) == Some(DOT) {
        3
    } else if 0 <= at && at + 1 < bytes.len() && is_operator_pair(bytes[at], bytes[at + 1]) {
        2
    } else {
        0
    }
}

fn operator_pair(a: u8, b: u8) -> (r: bool)
    ensures
        r == is_operator_pair(a, b),
{
    if a == b && (a == HASH || a == COLON || a == AMPERSAND || a == BAR || a == LESS || a == GREATER
        || a == EQUALS || a == PLUS || a == MINUS) {
        return true;
    }
    if b == EQUALS && (a == BANG || a == LESS || a == GREATER || a == PLUS || a == MINUS || a
        == STAR || a == SLASH || a == PERCENT || a == AMPERSAND || a == BAR || a == CARET) {
        return true;
    }
    (a == MINUS && b == GREATER) || (a == DOT && b == STAR)
}

fn find_operator_len(bytes: &[u8], at: usize) -> (r: usize)
    requires
        at < bytes@.len(),
    ensures
        r == operator_len(bytes@, at as int),
        at + r <= bytes@.len(),
        r <= 3,
{
    let count: usize = bytes.len();
    if count - at > 2 && ((has_pair_at(bytes, at, MINUS, GREATER) && bytes[at + 2] == STAR) || (
    has_pair_at(bytes, at, DOT, DOT) && bytes[at + 2] == DOT)) {
        return 3;
    }
    if count - at > 1 && operator_pair(bytes[at], bytes[at + 1]) {
        return 2;
    }
    0
}

/// Whether a byte is a token of its own.
pub open spec fn is_punctuation(b: u8) -> bool {
    ||| b == OPEN || b == CLOSE || b == OPEN_BRACE || b == CLOSE_BRACE || b == OPEN_BRACKET
    ||| b == CLOSE_BRACKET || b == SEMICOLON || b == COMMA || b == COLON || b == STAR
    ||| b == EQUALS || b == AMPERSAND || b == LESS || b == GREATER || b == PLUS || b == MINUS
    ||| b == SLASH || b == BANG || b == TILDE || b == QUESTION || b == DOT || b == BAR
    ||| b == CARET || b == HASH
}

fn punctuation(b: u8) -> (r: bool)
    ensures
        r == is_punctuation(b),
{
    b == OPEN || b == CLOSE || b == OPEN_BRACE || b == CLOSE_BRACE || b == OPEN_BRACKET || b
        == CLOSE_BRACKET || b == SEMICOLON || b == COMMA || b == COLON || b == STAR || b == EQUALS
        || b == AMPERSAND || b == LESS || b == GREATER || b == PLUS || b == MINUS || b == SLASH || b
        == BANG || b == TILDE || b == QUESTION || b == DOT || b == BAR || b == CARET || b == HASH
}

/// What stands at a position of a text without line splices.
#[verifier::opaque]
pub open spec fn lexeme_at(bytes: Seq<u8>, at: int) -> Lexeme {
    let b = bytes[at];
    if is_blank(b) {
        Lexeme::Gap((at + 1) as usize)
    } else if pair_at(bytes, at, SLASH, SLASH) {
        Lexeme::Gap(line_run(bytes, at) as usize)
    } else if pair_at(bytes, at, SLASH, STAR) {
        match find_pair(bytes, at + 2, STAR, SLASH) {
            None => Lexeme::Unknown,
            Some(end) => Lexeme::Gap((end + 2) as usize),
        }
    } else if digraph_at(bytes, at) {
        Lexeme::Unknown
    } else if quote_len(bytes, at) > 0 {
        // A suffix would make it a literal of a user's own.
        match literal_end(
            bytes,
            at + quote_len(bytes, at),
            bytes[at + quote_len(bytes, at) - 1],
        ) {
            Some(end) if !(end < bytes.len() && is_word_byte(bytes[end as int])) => Lexeme::Token(
                end,
            ),
            _ => Lexeme::Unknown,
        }
    } else if is_word_start(b) {
        // A quote behind the word would open a raw literal.
        if byte_at(bytes, word_run(bytes, at)) == Some(QUOTE) {
            Lexeme::Unknown
        } else {
            Lexeme::Token(word_run(bytes, at) as usize)
        }
    } else if is_digit(b) {
        Lexeme::Token(number_run(bytes, at) as usize)
    } else if operator_len(bytes, at) > 0 {
        Lexeme::Token((at + operator_len(bytes, at)) as usize)
    } else if is_punctuation(b) {
        Lexeme::Token((at + 1) as usize)
    } else {
        Lexeme::Unknown
    }
}

fn lexeme(bytes: &[u8], at: usize) -> (r: Lexeme)
    requires
        at < bytes@.len(),
    ensures
        r == lexeme_at(bytes@, at as int),
        match r {
            Lexeme::Gap(end) => at < end <= bytes@.len(),
            Lexeme::Token(end) => at < end <= bytes@.len(),
            Lexeme::Unknown => true,
        },
{
    proof {
        reveal(lexeme_at);
        lemma_run_end(bytes@, at as int, |b: u8| b != NEWLINE);
        lemma_run_end(bytes@, at as int, |b: u8| is_word_byte(b));
        lemma_run_end(bytes@, at as int, |b: u8| is_number_byte(b));
    }
    let count: usize = bytes.len();
    let b = bytes[at];
    if blank(b) {
        return Lexeme::Gap(at + 1);
    }
    if has_pair_at(bytes, at, SLASH, SLASH) {
        let end = line_run_end(bytes, at);
        return Lexeme::Gap(end);
    }
    if has_pair_at(bytes, at, SLASH, STAR) {
        return match find_pair_from(bytes, at + 2, STAR, SLASH) {
            None => Lexeme::Unknown,
            Some(end) => Lexeme::Gap(end + 2),
        };
    }
    if is_digraph(bytes, at) {
        return Lexeme::Unknown;
    }
    let quote: usize = find_quote_len(bytes, at);
    if quote > 0 {
        return match find_literal_end(bytes, at + quote, bytes[at + quote - 1]) {
            None => Lexeme::Unknown,
            Some(end) => if end < count && in_word(bytes[end]) {
                Lexeme::Unknown
            } else {
                Lexeme::Token(end)
            },
        };
    }
    if starts_word(b) {
        let end = word_run_end(bytes, at);
        if end < count && bytes[end] == QUOTE {
            return Lexeme::Unknown;
        }
        return Lexeme::Token(end);
    }
    if 0x30 <= b && b <= 0x39 {
        return Lexeme::Token(number_run_end(bytes, at));
    }
    let operator: usize = find_operator_len(bytes, at);
    if operator > 0 {
        return Lexeme::Token(at + operator);
    }
    if punctuation(b) {
        Lexeme::Token(at + 1)
    } else {
        Lexeme::Unknown
    }
}

/// The tokens from a position on; nothing where one is not supported.
pub open spec fn tokens_from(bytes: Seq<u8>, at: int) -> Option<Seq<Seq<u8>>>
    decreases bytes.len() - at,
{
    if at < 0 || at >= bytes.len() {
        Some(Seq::empty())
    } else {
        match lexeme_at(bytes, at) {
            Lexeme::Unknown => None,
            Lexeme::Gap(end) => if at < end <= bytes.len() {
                tokens_from(bytes, end as int)
            } else {
                None
            },
            Lexeme::Token(end) => if at < end <= bytes.len() {
                match tokens_from(bytes, end as int) {
                    None => None,
                    Some(rest) => Some(seq![bytes.subrange(at, end as int)] + rest),
                }
            } else {
                None
            },
        }
    }
}

/// A text without its line splices that end in `\r\n`, or in a line feed alone.
pub open spec fn without_splices(bytes: Seq<u8>, with_return: bool) -> Seq<u8>
    decreases bytes.len(),
{
    if bytes.len() == 0 {
        bytes
    } else if with_return && byte_at(bytes, 0) == Some(BACKSLASH) && pair_at(
        bytes,
        1,
        RETURN,
        NEWLINE,
    ) {
        without_splices(bytes.skip(3), with_return)
    } else if !with_return && pair_at(bytes, 0, BACKSLASH, NEWLINE) {
        without_splices(bytes.skip(2), with_return)
    } else {
        seq![bytes[0]] + without_splices(bytes.skip(1), with_return)
    }
}

fn drop_splices(bytes: &[u8], with_return: bool) -> (r: Vec<u8>)
    ensures
        r@ == without_splices(bytes@, with_return),
        r@.len() <= bytes@.len(),
{
    let count: usize = bytes.len();
    let mut kept: Vec<u8> = Vec::new();
    let mut i: usize = 0;
    assert(bytes@.skip(0) =~= bytes@);
    assert(kept@ + without_splices(bytes@, with_return) =~= without_splices(bytes@, with_return));
    while i < count
        invariant
            i <= count,
            count == bytes@.len(),
            kept@.len() <= i,
            without_splices(bytes@, with_return) == kept@ + without_splices(
                bytes@.skip(i as int),
                with_return,
            ),
        decreases count - i,
    {
        let ghost rest = bytes@.skip(i as int);
        if with_return && count - i > 2 && bytes[i] == BACKSLASH && bytes[i + 1] == RETURN
            && bytes[i + 2] == NEWLINE {
            assert(rest.skip(3) =~= bytes@.skip(i + 3));
            i += 3;
        } else if !with_return && count - i > 1 && bytes[i] == BACKSLASH && bytes[i + 1]
            == NEWLINE {
            assert(rest.skip(2) =~= bytes@.skip(i + 2));
            i += 2;
        } else {
            assert(rest.skip(1) =~= bytes@.skip(i + 1));
            let ghost before = kept@;
            kept.push(bytes[i]);
            assert(kept@ + without_splices(bytes@.skip(i + 1), with_return) =~= before + (
            seq![bytes@[i as int]] + without_splices(bytes@.skip(i + 1), with_return)));
            i += 1;
        }
    }
    assert(bytes@.skip(i as int) =~= Seq::empty());
    assert(kept@ + Seq::<u8>::empty() =~= kept@);
    kept
}

/// A text without its line splices.
pub open spec fn spliced(bytes: Seq<u8>) -> Seq<u8> {
    without_splices(without_splices(bytes, true), false)
}

/// The preprocessing tokens of a fragment; nothing where the fragment is too large or
/// something in it is not supported.
pub open spec fn tokens_of(source: Seq<u8>) -> Option<Seq<Seq<u8>>> {
    if source.len() > MAX_FRAGMENT_BYTES {
        None
    } else {
        match tokens_from(spliced(source), 0) {
            Some(list) if list.len() <= MAX_TOKENS => Some(list),
            _ => None,
        }
    }
}

/// Whether a computed list of byte strings is the one that is meant.
pub open spec fn lists(r: Option<Vec<Vec<u8>>>, want: Option<Seq<Seq<u8>>>) -> bool {
    match r {
        None => want is None,
        Some(items) => want == Some(byte_views(items@)),
    }
}

/// The preprocessing tokens of a fragment; nothing where the fragment is too large or
/// something in it is not supported.
pub fn tokens(source: &[u8]) -> (r: Option<Vec<Vec<u8>>>)
    ensures
        lists(r, tokens_of(source@)),
{
    if source.len() > MAX_FRAGMENT_BYTES {
        return None;
    }
    let once = drop_splices(source, true);
    let text = drop_splices(once.as_slice(), false);
    let bytes = text.as_slice();
    let ghost all = tokens_from(bytes@, 0);
    let mut list: Vec<Vec<u8>> = Vec::new();
    let mut at: usize = 0;
    assert(byte_views(list@) =~= Seq::empty());
    proof {
        if let Some(rest) = all {
            assert(Seq::<Seq<u8>>::empty() + rest =~= rest);
        }
    }
    while at < bytes.len()
        invariant
            at <= bytes@.len(),
            source@.len() <= MAX_FRAGMENT_BYTES,
            bytes@ == spliced(source@),
            all == tokens_from(bytes@, 0),
            list@.len() <= MAX_TOKENS,
            match tokens_from(bytes@, at as int) {
                None => all is None,
                Some(rest) => all == Some(byte_views(list@) + rest),
            },
        decreases bytes@.len() - at,
    {
        match lexeme(bytes, at) {
            Lexeme::Unknown => {
                return None;
            },
            Lexeme::Gap(end) => {
                at = end;
            },
            Lexeme::Token(end) => {
                let ghost before = list@;
                let token = copy_bytes(&bytes[at..end]);
                list.push(token);
                proof {
                    lemma_push_bytes(before, token);
                    if let Some(rest) = tokens_from(bytes@, end as int) {
                        assert(byte_views(before) + (seq![token@] + rest) =~= byte_views(list@)
                            + rest);
                    }
                }
                at = end;
                if list.len() > MAX_TOKENS {
                    return None;
                }
            },
        }
    }
    proof {
        assert(byte_views(list@) + Seq::<Seq<u8>>::empty() =~= byte_views(list@));
    }
    Some(list)
}

/// Whether a byte string is an identifier.
pub open spec fn is_identifier(name: Seq<u8>) -> bool {
    name.len() > 0 && is_word_start(name[0]) && forall|k: int|
        0 <= k < name.len() ==> is_word_byte(#[trigger] name[k])
}

/// Whether a byte string is an identifier.
pub fn identifier(name: &[u8]) -> (r: bool)
    ensures
        r == is_identifier(name@),
{
    if name.len() == 0 || !starts_word(name[0]) {
        return false;
    }
    let mut i: usize = 0;
    while i < name.len()
        invariant
            i <= name@.len(),
            forall|k: int| 0 <= k < i ==> is_word_byte(#[trigger] name@[k]),
        decreases name@.len() - i,
    {
        if !in_word(name[i]) {
            return false;
        }
        i += 1;
    }
    true
}

/// The position of the first of some byte strings that equals another.
pub open spec fn place_of(items: Seq<Seq<u8>>, item: Seq<u8>) -> Option<usize>
    decreases items.len(),
{
    if items.len() == 0 {
        None
    } else {
        match place_of(items.drop_last(), item) {
            Some(i) => Some(i),
            None => if items.last() == item {
                Some((items.len() - 1) as usize)
            } else {
                None
            },
        }
    }
}

/// Whether a token is a word.
pub open spec fn token_is(token: Seq<u8>, word: &str) -> bool {
    token == word.spec_bytes()
}

/// Whether a token is a word.
pub fn is_token(token: &[u8], word: &str) -> (r: bool)
    ensures
        r == token_is(token@, word),
{
    same_bytes(token, word.as_bytes())
}

/// The first position is found in every longer list too.
pub proof fn lemma_place_stays(items: Seq<Seq<u8>>, item: Seq<u8>, count: int)
    requires
        0 <= count <= items.len(),
        place_of(items.take(count), item) is Some,
    ensures
        place_of(items, item) == place_of(items.take(count), item),
    decreases items.len(),
{
    if count == items.len() {
        assert(items.take(count) =~= items);
    } else {
        assert(items.drop_last().take(count) =~= items.take(count));
        lemma_place_stays(items.drop_last(), item, count);
    }
}

/// Where the last `::` stands among the first bytes of a name.
pub open spec fn last_separator(name: Seq<u8>, before: int) -> Option<usize>
    decreases before,
{
    if before <= 0 {
        None
    } else if pair_at(name, before - 1, COLON, COLON) {
        Some((before - 1) as usize)
    } else {
        last_separator(name, before - 1)
    }
}

/// What stands behind the last `::` of a name; the whole name where there is none.
pub open spec fn last_segment(name: Seq<u8>) -> Seq<u8> {
    match last_separator(name, name.len() as int) {
        None => name,
        Some(at) => name.skip(at + 2),
    }
}

/// What stands before the last `::` of a name; nothing where there is none.
pub open spec fn owner_of(name: Seq<u8>) -> Seq<u8> {
    match last_separator(name, name.len() as int) {
        None => Seq::empty(),
        Some(at) => name.take(at as int),
    }
}

/// Where the last `::` of a name stands.
pub fn find_last_separator(name: &[u8]) -> (r: Option<usize>)
    ensures
        r == last_separator(name@, name@.len() as int),
        r is Some ==> r->0 + 1 < name@.len(),
{
    let mut i: usize = name.len();
    while i > 0
        invariant
            i <= name@.len(),
            last_separator(name@, name@.len() as int) == last_separator(name@, i as int),
        decreases i,
    {
        if has_pair_at(name, i - 1, COLON, COLON) {
            return Some(i - 1);
        }
        i -= 1;
    }
    None
}

/// What stands behind the last `::` of a name.
pub fn segment(name: &[u8]) -> (r: &[u8])
    ensures
        r@ == last_segment(name@),
{
    let end: usize = name.len();
    match find_last_separator(name) {
        None => name,
        Some(at) => {
            let part = &name[at + 2..end];
            assert(part@ =~= name@.skip(at + 2));
            part
        },
    }
}

/// What stands before the last `::` of a name.
pub fn owner(name: &[u8]) -> (r: &[u8])
    ensures
        r@ == owner_of(name@),
{
    match find_last_separator(name) {
        None => {
            let part = &name[0..0];
            assert(part@ =~= Seq::empty());
            part
        },
        Some(at) => {
            let part = &name[0..at];
            assert(part@ =~= name@.take(at as int));
            part
        },
    }
}

} // verus!
