//! What holds of the tokens of every fragment: a space between two of them changes
//! nothing.

use crate::cpp_tokens::{
    is_number_byte, is_word_byte, lexeme_at, literal_end, quote_len, run_end, spliced, tokens_from,
    tokens_of, without_splices, Lexeme, BACKSLASH, MAX_FRAGMENT_BYTES, MAX_TOKENS, SPACE,
};
use vstd::prelude::*;

verus! {

/// Tokens with one space between each two of them.
pub open spec fn spaced(tokens: Seq<Seq<u8>>) -> Seq<u8>
    decreases tokens.len(),
{
    if tokens.len() == 0 {
        Seq::empty()
    } else if tokens.len() == 1 {
        tokens[0]
    } else {
        tokens[0] + seq![SPACE] + spaced(tokens.drop_first())
    }
}

/// Whether the bytes of one text between two positions stand in another from a
/// position on, and a space or nothing follows them there.
spec fn stands_alone(
    bytes: Seq<u8>,
    at: int,
    end: int,
    other: Seq<u8>,
    there: int,
) -> bool {
    &&& 0 <= at < end <= bytes.len()
    &&& 0 <= there
    &&& there + (end - at) <= other.len()
    &&& forall|k: int|
        at <= k < end ==> #[trigger] bytes[k] == other[k - at + there]
    &&& there + (end - at) < other.len() ==> other[there + (end - at)] == SPACE
}

proof fn lemma_same_run(
    bytes: Seq<u8>,
    at: int,
    from: int,
    end: int,
    other: Seq<u8>,
    there: int,
    within: spec_fn(u8) -> bool,
)
    requires
        stands_alone(bytes, at, end, other, there),
        at <= from <= end,
        run_end(bytes, from, within) == end,
        !within(SPACE),
    ensures
        run_end(other, from - at + there, within) == there + (end - at),
    decreases end - from,
{
    if from < end {
        assert(bytes[from] == other[from - at + there]);
        lemma_same_run(bytes, at, from + 1, end, other, there, within);
    }
}

proof fn lemma_same_literal(
    bytes: Seq<u8>,
    at: int,
    from: int,
    end: int,
    other: Seq<u8>,
    there: int,
    quote: u8,
)
    requires
        stands_alone(bytes, at, end, other, there),
        at <= from,
        bytes.len() <= MAX_FRAGMENT_BYTES,
        other.len() <= MAX_FRAGMENT_BYTES,
        literal_end(bytes, from, quote) == Some(end as usize),
    ensures
        literal_end(other, from - at + there, quote) == Some((there + (end - at)) as usize),
    decreases bytes.len() - from,
{
    lemma_literal_goes_on(bytes, from, quote);
    assert(bytes[from] == other[from - at + there]);
    if bytes[from] != quote {
        if bytes[from] == BACKSLASH {
            lemma_literal_goes_on(bytes, from + 2, quote);
            lemma_same_literal(bytes, at, from + 2, end, other, there, quote);
        } else {
            lemma_same_literal(bytes, at, from + 1, end, other, there, quote);
        }
    }
}

proof fn lemma_literal_goes_on(bytes: Seq<u8>, from: int, quote: u8)
    requires
        bytes.len() <= MAX_FRAGMENT_BYTES,
    ensures
        match literal_end(bytes, from, quote) {
            None => true,
            Some(end) => 0 <= from < end <= bytes.len(),
        },
    decreases bytes.len() - from,
{
    if 0 <= from < bytes.len() && bytes[from] != quote {
        lemma_literal_goes_on(bytes, from + 1, quote);
        if from + 1 < bytes.len() {
            lemma_literal_goes_on(bytes, from + 2, quote);
        }
    }
}

proof fn lemma_same_quote(bytes: Seq<u8>, at: int, end: int, other: Seq<u8>, there: int)
    requires
        stands_alone(bytes, at, end, other, there),
        at + quote_len(bytes, at) <= end,
    ensures
        quote_len(other, there) == quote_len(bytes, at),
{
    assert(bytes[at] == other[there]);
    if at + 1 < end {
        assert(bytes[at + 1] == other[there + 1]);
    }
    if at + 2 < end {
        assert(bytes[at + 2] == other[there + 2]);
    }
}

/// A token that a space or nothing follows is read as it was.
proof fn lemma_same_token(bytes: Seq<u8>, at: int, end: int, other: Seq<u8>, there: int)
    requires
        stands_alone(bytes, at, end, other, there),
        bytes.len() <= MAX_FRAGMENT_BYTES,
        other.len() <= MAX_FRAGMENT_BYTES,
        lexeme_at(bytes, at) == Lexeme::Token(end as usize),
    ensures
        lexeme_at(other, there) == Lexeme::Token((there + (end - at)) as usize),
{
    reveal(lexeme_at);
    let b = bytes[at];
    let len = end - at;
    assert(b == other[there]);
    if len > 1 {
        assert(bytes[at + 1] == other[there + 1]);
    }
    if len > 2 {
        assert(bytes[at + 2] == other[there + 2]);
    }
    let word = |b: u8| is_word_byte(b);
    let number = |b: u8| is_number_byte(b);
    crate::cpp_tokens::lemma_run_end(bytes, at, word);
    crate::cpp_tokens::lemma_run_end(bytes, at, number);
    let quote = quote_len(bytes, at);
    if quote > 0 {
        lemma_literal_goes_on(bytes, at + quote, bytes[at + quote - 1]);
        lemma_same_quote(bytes, at, end, other, there);
        assert(bytes[at + quote - 1] == other[there + quote - 1]);
        lemma_same_literal(
            bytes,
            at,
            at + quote,
            end,
            other,
            there,
            bytes[at + quote - 1],
        );
    } else {
        lemma_same_quote(bytes, at, end, other, there);
        if crate::cpp_tokens::is_word_start(b) {
            lemma_same_run(bytes, at, at, end, other, there, word);
        } else if crate::cpp_tokens::is_digit(b) {
            lemma_same_run(bytes, at, at, end, other, there, number);
        }
    }
}

proof fn lemma_spaced_reading(bytes: Seq<u8>, at: int, other: Seq<u8>, there: int)
    requires
        bytes.len() <= MAX_FRAGMENT_BYTES,
        other.len() <= MAX_FRAGMENT_BYTES,
        0 <= at,
        0 <= there <= other.len(),
        tokens_from(bytes, at) is Some,
        other.skip(there) == spaced(tokens_from(bytes, at)->0),
    ensures
        tokens_from(other, there) == tokens_from(bytes, at),
    decreases bytes.len() - at,
{
    let all = tokens_from(bytes, at)->0;
    if at >= bytes.len() {
        assert(other.skip(there).len() == 0);
    } else {
        match lexeme_at(bytes, at) {
            Lexeme::Unknown => {},
            Lexeme::Gap(end) => {
                lemma_spaced_reading(bytes, end as int, other, there);
            },
            Lexeme::Token(end) => {
                let token = bytes.subrange(at, end as int);
                let rest = tokens_from(bytes, end as int)->0;
                let behind = there + token.len();
                assert(all == seq![token] + rest);
                assert(all.drop_first() =~= rest);
                assert(all[0] == token);
                let text = other.skip(there);
                assert(text.len() >= token.len());
                assert forall|k: int| at <= k < end implies #[trigger] bytes[k] == other[k - at
                    + there] by {
                    assert(token[k - at] == bytes[k]);
                    assert(text[k - at] == other[k - at + there]);
                    assert(text[k - at] == token[k - at]);
                }
                if rest.len() > 0 {
                    assert(text[token.len() as int] == SPACE);
                    assert(other[behind as int] == SPACE);
                    assert(text == token + seq![SPACE] + spaced(rest));
                    assert(text.skip(token.len() as int + 1) =~= spaced(rest));
                    assert(other.skip(behind + 1) =~= text.skip(token.len() as int + 1));
                    lemma_same_token(bytes, at, end as int, other, there);
                    lemma_spaced_reading(bytes, end as int, other, behind + 1);
                    assert(lexeme_at(other, behind as int) == Lexeme::Gap((behind + 1) as usize))
                        by {
                        reveal(lexeme_at);
                    }
                    assert(tokens_from(other, behind as int) == tokens_from(other, behind + 1));
                } else {
                    assert(all.len() == 1);
                    assert(behind == other.len());
                    lemma_same_token(bytes, at, end as int, other, there);
                    assert(rest =~= Seq::<Seq<u8>>::empty());
                    assert(tokens_from(other, behind as int) == Some(Seq::<Seq<u8>>::empty()));
                }
                assert(other.subrange(there, behind as int) =~= token);
            },
        }
    }
}

proof fn lemma_splices_shorten(bytes: Seq<u8>, with_return: bool)
    ensures
        without_splices(bytes, with_return).len() <= bytes.len(),
        (forall|k: int| 0 <= k < bytes.len() ==> #[trigger] bytes[k] != BACKSLASH)
            ==> without_splices(bytes, with_return) == bytes,
    decreases bytes.len(),
{
    if bytes.len() > 0 {
        lemma_splices_shorten(bytes.skip(1), with_return);
        if bytes.len() > 1 {
            lemma_splices_shorten(bytes.skip(2), with_return);
        }
        if bytes.len() > 2 {
            lemma_splices_shorten(bytes.skip(3), with_return);
        }
        if forall|k: int| 0 <= k < bytes.len() ==> #[trigger] bytes[k] != BACKSLASH {
            let rest = bytes.skip(1);
            assert(bytes[0] != BACKSLASH);
            assert forall|k: int| 0 <= k < rest.len() implies #[trigger] rest[k] != BACKSLASH by {
                assert(rest[k] == bytes[k + 1]);
            }
            assert(seq![bytes[0]] + rest =~= bytes);
        }
    }
}

proof fn lemma_tokens_are_parts(bytes: Seq<u8>, at: int)
    requires
        0 <= at,
        tokens_from(bytes, at) is Some,
        forall|k: int| 0 <= k < bytes.len() ==> #[trigger] bytes[k] != BACKSLASH,
    ensures
        forall|i: int, k: int|
            0 <= i < (tokens_from(bytes, at)->0).len() && 0 <= k < (tokens_from(
                bytes,
                at,
            )->0)[i].len() ==> #[trigger] (tokens_from(bytes, at)->0)[i][k] != BACKSLASH,
    decreases bytes.len() - at,
{
    if at < bytes.len() {
        match lexeme_at(bytes, at) {
            Lexeme::Unknown => {},
            Lexeme::Gap(end) => {
                lemma_tokens_are_parts(bytes, end as int);
            },
            Lexeme::Token(end) => {
                lemma_tokens_are_parts(bytes, end as int);
                let all = tokens_from(bytes, at)->0;
                let rest = tokens_from(bytes, end as int)->0;
                assert forall|i: int, k: int|
                    0 <= i < all.len() && 0 <= k < all[i].len() implies #[trigger] all[i][k]
                    != BACKSLASH by {
                    if i == 0 {
                        assert(all[0] == bytes.subrange(at, end as int));
                    } else {
                        assert(all[i] == rest[i - 1]);
                    }
                }
            },
        }
    }
}

proof fn lemma_spaced_parts(tokens: Seq<Seq<u8>>)
    requires
        forall|i: int, k: int|
            0 <= i < tokens.len() && 0 <= k < tokens[i].len() ==> #[trigger] tokens[i][k]
                != BACKSLASH,
    ensures
        forall|k: int| 0 <= k < spaced(tokens).len() ==> #[trigger] spaced(tokens)[k] != BACKSLASH,
    decreases tokens.len(),
{
    if tokens.len() > 1 {
        let rest = tokens.drop_first();
        assert forall|i: int, k: int|
            0 <= i < rest.len() && 0 <= k < rest[i].len() implies #[trigger] rest[i][k]
            != BACKSLASH by {
            assert(rest[i] == tokens[i + 1]);
        }
        lemma_spaced_parts(rest);
        let text = spaced(tokens);
        let first = tokens[0].len() as int;
        assert forall|k: int| 0 <= k < text.len() implies #[trigger] text[k] != BACKSLASH by {
            if k < first {
                assert(text[k] == tokens[0][k]);
            } else if k > first {
                assert(text[k] == spaced(rest)[k - first - 1]);
            }
        }
    } else if tokens.len() == 1 {
        assert(spaced(tokens) == tokens[0]);
    }
}

proof fn lemma_no_token_is_empty(bytes: Seq<u8>, at: int)
    requires
        0 <= at,
        tokens_from(bytes, at) is Some,
    ensures
        forall|i: int|
            0 <= i < (tokens_from(bytes, at)->0).len() ==> (#[trigger] (tokens_from(
                bytes,
                at,
            )->0)[i]).len() > 0,
    decreases bytes.len() - at,
{
    if at < bytes.len() {
        match lexeme_at(bytes, at) {
            Lexeme::Unknown => {},
            Lexeme::Gap(end) => {
                lemma_no_token_is_empty(bytes, end as int);
            },
            Lexeme::Token(end) => {
                lemma_no_token_is_empty(bytes, end as int);
                let all = tokens_from(bytes, at)->0;
                let rest = tokens_from(bytes, end as int)->0;
                assert forall|i: int| 0 <= i < all.len() implies (#[trigger] all[i]).len() > 0 by {
                    if i > 0 {
                        assert(all[i] == rest[i - 1]);
                    }
                }
            },
        }
    }
}

/// A fragment has no more tokens than may be read, and none of them is empty.
pub proof fn tokens_are_few_and_not_empty(source: Seq<u8>, tokens: Seq<Seq<u8>>)
    requires
        tokens_of(source) == Some(tokens),
    ensures
        tokens.len() <= MAX_TOKENS,
        forall|i: int| 0 <= i < tokens.len() ==> (#[trigger] tokens[i]).len() > 0,
{
    lemma_no_token_is_empty(spliced(source), 0);
}

/// The tokens of a fragment with one space between each two of them are read again as
/// the same tokens, where that text is not too large and has no line splice: only a
/// token with a backslash before a line end in it could make one.
pub proof fn spaced_tokens_are_read_again(source: Seq<u8>, tokens: Seq<Seq<u8>>)
    requires
        tokens_of(source) == Some(tokens),
        spaced(tokens).len() <= MAX_FRAGMENT_BYTES,
        spliced(spaced(tokens)) == spaced(tokens),
    ensures
        tokens_of(spaced(tokens)) == Some(tokens),
{
    lemma_splices_shorten(source, true);
    lemma_splices_shorten(without_splices(source, true), false);
    let text = spaced(tokens);
    assert(text.skip(0) =~= text);
    lemma_spaced_reading(spliced(source), 0, text, 0);
}

/// The tokens of a fragment without a backslash, with one space between each two of
/// them, are read again as the same tokens, where that text is not too large.
pub proof fn spaced_tokens_of_a_plain_fragment(source: Seq<u8>, tokens: Seq<Seq<u8>>)
    requires
        tokens_of(source) == Some(tokens),
        !source.contains(BACKSLASH),
        spaced(tokens).len() <= MAX_FRAGMENT_BYTES,
    ensures
        tokens_of(spaced(tokens)) == Some(tokens),
{
    assert forall|k: int| 0 <= k < source.len() implies #[trigger] source[k] != BACKSLASH by {
        assert(source.contains(source[k]));
    }
    lemma_splices_shorten(source, true);
    lemma_splices_shorten(source, false);
    lemma_tokens_are_parts(source, 0);
    lemma_spaced_parts(tokens);
    lemma_splices_shorten(spaced(tokens), true);
    lemma_splices_shorten(spaced(tokens), false);
    spaced_tokens_are_read_again(source, tokens);
}

} // verus!
