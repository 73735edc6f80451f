//! Declaration annotations that are recognized from actual macro definitions.
//!
//! This recognizes empty, visibility, import and export attributes and some that
//! only serve thread analysis, where every supplied definition has that shape. It is
//! no preprocessor: callers supply the definitions visible at the use.

use crate::cpp_facts::{
    alternatives_of, find_alternatives, is_defined, text_views, CppAnnotationPosition,
    CppMacroAlternatives, CppMacroDefinition,
};
use crate::cpp_tokens::{
    blank_run, blank_run_end, find_pair, find_pair_from, identifier, is_identifier, is_token,
    is_word_byte, is_word_start, lists, pair_at, starts_word, token_is, word_run, word_run_end,
    BACKSLASH, CLOSE, MAX_TOKENS, NEWLINE, OPEN, QUOTE, APOSTROPHE, SLASH, STAR,
};
use crate::text::{byte_views, copy_bytes, lemma_push_bytes, same_bytes};
use vstd::prelude::*;
use vstd::string::StringSliceAdditionalSpecFns;

verus! {

/// The furthest that an invocation is followed, in bytes.
pub const MAX_INVOCATION_BYTES: usize = 65536;

/// The first identifier behind blank bytes, as its start and end.
pub open spec fn identifier_after(bytes: Seq<u8>, after: int) -> Option<(usize, usize)> {
    let start = blank_run(bytes, after);
    if 0 <= start < bytes.len() && is_word_start(bytes[start]) {
        Some((start as usize, word_run(bytes, start) as usize))
    } else {
        None
    }
}

/// The first identifier behind blank bytes, as its start and end.
pub fn following_identifier(bytes: &[u8], after: usize) -> (r: Option<(usize, usize)>)
    ensures
        r == identifier_after(bytes@, after as int),
        r is Some ==> after <= (r->0).0 < (r->0).1 <= bytes@.len(),
{
    if after > bytes.len() {
        return None;
    }
    let start = blank_run_end(bytes, after);
    if start < bytes.len() && starts_word(bytes[start]) {
        proof {
            assert(word_run(bytes@, start as int) == word_run(bytes@, start + 1));
            crate::cpp_tokens::lemma_run_end(bytes@, start + 1, |b: u8| is_word_byte(b));
        }
        let end = word_run_end(bytes, start);
        Some((start, end))
    } else {
        None
    }
}

/// Where a quoted literal ends, at its closing quote. A backslash takes the next
/// byte with it.
pub open spec fn closing_quote(bytes: Seq<u8>, at: int, quote: u8) -> Option<usize>
    decreases bytes.len() - at,
{
    if at < 0 || at >= bytes.len() {
        None
    } else if bytes[at] == quote {
        Some(at as usize)
    } else if bytes[at] == BACKSLASH {
        if at + 1 < bytes.len() {
            closing_quote(bytes, at + 2, quote)
        } else {
            None
        }
    } else {
        closing_quote(bytes, at + 1, quote)
    }
}

/// Where a quoted text closes.
pub fn find_closing_quote(bytes: &[u8], at: usize, quote: u8) -> (r: Option<usize>)
    requires
        at <= bytes@.len(),
    ensures
        r == closing_quote(bytes@, at as int, quote),
        r is Some ==> at <= r->0 < bytes@.len(),
{
    let count: usize = bytes.len();
    let mut i: usize = at;
    while i < count
        invariant
            at <= i,
            count == bytes@.len(),
            closing_quote(bytes@, at as int, quote) == closing_quote(bytes@, i as int, quote),
        decreases count - i,
    {
        if bytes[i] == quote {
            return Some(i);
        }
        if bytes[i] == BACKSLASH {
            if i + 1 >= count {
                return None;
            }
            i += 2;
        } else {
            i += 1;
        }
    }
    None
}

/// Where the parentheses that are open close, behind the last of them. Quoted
/// literals and comments do not count.
pub open spec fn close_from(bytes: Seq<u8>, at: int, depth: nat) -> Option<usize>
    decreases bytes.len() - at,
{
    if at < 0 || at >= bytes.len() {
        None
    } else if bytes[at] == OPEN {
        close_from(bytes, at + 1, depth + 1)
    } else if bytes[at] == CLOSE {
        if depth == 0 {
            None
        } else if depth == 1 {
            Some((at + 1) as usize)
        } else {
            close_from(bytes, at + 1, (depth - 1) as nat)
        }
    } else if bytes[at] == QUOTE || bytes[at] == APOSTROPHE {
        match closing_quote(bytes, at + 1, bytes[at]) {
            Some(end) if at < end < bytes.len() => close_from(bytes, end + 1, depth),
            _ => None,
        }
    } else if pair_at(bytes, at, SLASH, STAR) {
        match find_pair(bytes, at + 2, STAR, SLASH) {
            Some(end) if at < end && end + 1 < bytes.len() => close_from(bytes, end + 2, depth),
            _ => None,
        }
    } else if pair_at(bytes, at, SLASH, SLASH) {
        let end = crate::cpp_tokens::line_run(bytes, at);
        if at < end <= bytes.len() {
            close_from(bytes, end, depth)
        } else {
            None
        }
    } else {
        close_from(bytes, at + 1, depth)
    }
}

/// The part of a text in which an invocation that starts at a position must end.
pub open spec fn invocation_reach(source: Seq<u8>, start: int) -> Seq<u8> {
    if start + MAX_INVOCATION_BYTES < source.len() {
        source.take(start + MAX_INVOCATION_BYTES)
    } else {
        source
    }
}

/// Where a parenthesized invocation ends. Its contents are not interpreted; quoted
/// literals and comments cannot close it.
pub fn invocation_end(source: &[u8], start: usize) -> (r: Option<usize>)
    ensures
        r == close_from(invocation_reach(source@, start as int), start as int, 0),
        r is Some ==> start < r->0 <= source@.len(),
{
    let total: usize = source.len();
    let bytes = if start < total && total - start > MAX_INVOCATION_BYTES {
        &source[0..start + MAX_INVOCATION_BYTES]
    } else {
        source
    };
    assert(bytes@ =~= invocation_reach(source@, start as int));
    let count: usize = bytes.len();
    let mut at: usize = start;
    let mut depth: usize = 0;
    while at < count
        invariant
            start <= at,
            count == bytes@.len(),
            count <= source@.len(),
            bytes@ == invocation_reach(source@, start as int),
            depth <= at - start,
            close_from(bytes@, start as int, 0) == close_from(bytes@, at as int, depth as nat),
        decreases count - at,
    {
        let b = bytes[at];
        if b == OPEN {
            depth += 1;
            at += 1;
        } else if b == CLOSE {
            if depth == 0 {
                return None;
            }
            if depth == 1 {
                return Some(at + 1);
            }
            depth -= 1;
            at += 1;
        } else if b == QUOTE || b == APOSTROPHE {
            match find_closing_quote(bytes, at + 1, b) {
                None => {
                    return None;
                },
                Some(end) => {
                    at = end + 1;
                },
            }
        } else if crate::cpp_tokens::has_pair_at(bytes, at, SLASH, STAR) {
            match find_pair_from(bytes, at + 2, STAR, SLASH) {
                None => {
                    return None;
                },
                Some(end) => {
                    at = end + 2;
                },
            }
        } else if crate::cpp_tokens::has_pair_at(bytes, at, SLASH, SLASH) {
            let end = crate::cpp_tokens::line_run_end(bytes, at);
            proof {
                let within = |b: u8| b != NEWLINE;
                assert(crate::cpp_tokens::run_end(bytes@, at as int, within)
                    == crate::cpp_tokens::run_end(bytes@, at + 1, within));
                crate::cpp_tokens::lemma_run_end(bytes@, at + 1, within);
            }
            at = end;
        } else {
            at += 1;
        }
    }
    None
}

/// Where the first parenthesized group that opens at a token closes, behind its last
/// token.
pub open spec fn group_end(tokens: Seq<Seq<u8>>, at: int, depth: nat) -> Option<usize>
    decreases tokens.len() - at,
{
    if at < 0 || at >= tokens.len() {
        None
    } else if token_is(tokens[at], "(") {
        group_end(tokens, at + 1, depth + 1)
    } else if token_is(tokens[at], ")") {
        if depth == 0 {
            None
        } else if depth == 1 {
            Some((at + 1) as usize)
        } else {
            group_end(tokens, at + 1, (depth - 1) as nat)
        }
    } else {
        group_end(tokens, at + 1, depth)
    }
}

/// Where the first whole invocation, a name with its argument list, ends; not at the
/// last parenthesis of a sequence of them.
pub open spec fn invocation_tokens(tokens: Seq<Seq<u8>>) -> Option<usize> {
    if tokens.len() > 1 && token_is(tokens[1], "(") {
        group_end(tokens, 1, 0)
    } else {
        None
    }
}

/// Where the first whole invocation, a name with its argument list, ends; not at the
/// last parenthesis of a sequence of them.
pub fn invocation_tokens_end(tokens: &[Vec<u8>]) -> (r: Option<usize>)
    ensures
        r == invocation_tokens(byte_views(tokens@)),
        r is Some ==> 1 < r->0 <= tokens@.len(),
{
    let ghost views = byte_views(tokens@);
    if tokens.len() < 2 || !is_token(tokens[1].as_slice(), "(") {
        return None;
    }
    let mut depth: usize = 0;
    let mut at: usize = 1;
    while at < tokens.len()
        invariant
            1 <= at <= tokens@.len(),
            views == byte_views(tokens@),
            depth <= at,
            invocation_tokens(views) == group_end(views, at as int, depth as nat),
        decreases tokens@.len() - at,
    {
        assert(views[at as int] == tokens@[at as int]@);
        let token = tokens[at].as_slice();
        if is_token(token, "(") {
            depth += 1;
        } else if is_token(token, ")") {
            if depth == 0 {
                return None;
            }
            if depth == 1 {
                return Some(at + 1);
            }
            depth -= 1;
        }
        at += 1;
    }
    None
}

/// Arguments under construction: the closed ones and the last one, and how many
/// parentheses are open; nothing where too many were closed.
pub open spec fn arguments_of(tokens: Seq<Seq<u8>>) -> Option<(Seq<Seq<Seq<u8>>>, nat)>
    decreases tokens.len(),
{
    if tokens.len() == 0 {
        Some((seq![Seq::empty()], 0))
    } else {
        let token = tokens.last();
        match arguments_of(tokens.drop_last()) {
            None => None,
            Some((list, depth)) => if token_is(token, "(") {
                Some((grown(list, token), depth + 1))
            } else if token_is(token, ")") {
                if depth == 0 {
                    None
                } else {
                    Some((grown(list, token), (depth - 1) as nat))
                }
            } else if token_is(token, ",") && depth == 0 {
                Some((list.push(Seq::empty()), depth))
            } else {
                Some((grown(list, token), depth))
            },
        }
    }
}

/// Lists of which the last has one more token.
pub open spec fn grown(list: Seq<Seq<Seq<u8>>>, token: Seq<u8>) -> Seq<Seq<Seq<u8>>> {
    list.drop_last().push(list.last().push(token))
}

/// The token lists, by value.
pub open spec fn list_views(lists: Seq<Vec<Vec<u8>>>) -> Seq<Seq<Seq<u8>>> {
    lists.map_values(|list: Vec<Vec<u8>>| byte_views(list@))
}

/// The arguments of a parenthesized list: the tokens between its parentheses, parted
/// at the commas outside further parentheses.
pub open spec fn parenthesized_arguments(tokens: Seq<Seq<u8>>) -> Option<Seq<Seq<Seq<u8>>>> {
    if tokens.len() > 0 && token_is(tokens[0], "(") && token_is(tokens.last(), ")")
        && tokens.len() > 1 {
        match arguments_of(tokens.subrange(1, tokens.len() - 1)) {
            Some((list, depth)) if depth == 0 => Some(list),
            _ => None,
        }
    } else {
        None
    }
}

/// Add a token to the last list.
pub fn grow(list: &mut Vec<Vec<Vec<u8>>>, token: &[u8])
    requires
        old(list)@.len() > 0,
    ensures
        list_views(final(list)@) == grown(list_views(old(list)@), token@),
        final(list)@.len() == old(list)@.len(),
{
    let ghost before = list@;
    let at: usize = list.len() - 1;
    let mut last: Vec<Vec<u8>> = Vec::new();
    std::mem::swap(&mut last, &mut list[at]);
    let ghost tokens = last@;
    let item = copy_bytes(token);
    last.push(item);
    proof {
        lemma_push_bytes(tokens, item);
    }
    list[at] = last;
    assert(list_views(list@) =~= grown(list_views(before), token@));
}

/// Begin another list.
pub fn begin(list: &mut Vec<Vec<Vec<u8>>>)
    ensures
        list_views(final(list)@) == list_views(old(list)@).push(Seq::empty()),
        final(list)@.len() == old(list)@.len() + 1,
{
    let ghost before = list@;
    let empty: Vec<Vec<u8>> = Vec::new();
    assert(byte_views(empty@) =~= Seq::empty());
    list.push(empty);
    assert(list_views(list@) =~= list_views(before).push(Seq::empty()));
}

/// The arguments of a parenthesized list.
pub fn invocation_arguments(tokens: &[Vec<u8>]) -> (r: Option<Vec<Vec<Vec<u8>>>>)
    ensures
        match r {
            None => parenthesized_arguments(byte_views(tokens@)) is None,
            Some(list) => parenthesized_arguments(byte_views(tokens@)) == Some(list_views(list@)),
        },
{
    let ghost views = byte_views(tokens@);
    let count: usize = tokens.len();
    if count < 2 || !is_token(tokens[0].as_slice(), "(") || !is_token(
        tokens[count - 1].as_slice(),
        ")",
    ) {
        return None;
    }
    let ghost inner = views.subrange(1, count - 1);
    let mut depth: usize = 0;
    let mut list: Vec<Vec<Vec<u8>>> = Vec::new();
    begin(&mut list);
    assert(list_views(list@) =~= seq![Seq::<Seq<u8>>::empty()]);
    let mut at: usize = 1;
    while at < count - 1
        invariant
            1 <= at < count,
            count == tokens@.len(),
            views == byte_views(tokens@),
            inner == views.subrange(1, count - 1),
            list@.len() > 0,
            depth < at,
            arguments_of(inner.take(at - 1)) == Some((list_views(list@), depth as nat)),
            parenthesized_arguments(views) == (match arguments_of(inner) {
                Some((list, depth)) if depth == 0 => Some(list),
                _ => None,
            }),
        decreases count - at,
    {
        let token = tokens[at].as_slice();
        let ghost part = inner.take(at as int);
        proof {
            assert(part.drop_last() =~= inner.take(at - 1));
            assert(part.last() == token@);
        }
        if is_token(token, "(") {
            depth += 1;
        } else if is_token(token, ")") {
            if depth == 0 {
                proof {
                    lemma_arguments_stay(inner, at as int);
                }
                return None;
            }
            depth -= 1;
        } else if is_token(token, ",") && depth == 0 {
            begin(&mut list);
            at += 1;
            continue ;
        }
        grow(&mut list, token);
        at += 1;
    }
    assert(inner.take(at - 1) =~= inner);
    if depth == 0 {
        Some(list)
    } else {
        None
    }
}

proof fn lemma_arguments_stay(tokens: Seq<Seq<u8>>, count: int)
    requires
        0 <= count <= tokens.len(),
        arguments_of(tokens.take(count)) is None,
    ensures
        arguments_of(tokens) is None,
    decreases tokens.len(),
{
    if count == tokens.len() {
        assert(tokens.take(count) =~= tokens);
    } else {
        assert(tokens.drop_last().take(count) =~= tokens.take(count));
        lemma_arguments_stay(tokens.drop_last(), count);
    }
}

/// The parts of a token list between its commas.
pub open spec fn comma_parts(tokens: Seq<Seq<u8>>) -> Seq<Seq<Seq<u8>>>
    decreases tokens.len(),
{
    if tokens.len() == 0 {
        seq![Seq::empty()]
    } else {
        let before = comma_parts(tokens.drop_last());
        if token_is(tokens.last(), ",") {
            before.push(Seq::empty())
        } else {
            grown(before, tokens.last())
        }
    }
}

/// The parts of a token list between its commas.
pub fn split_commas(tokens: &[Vec<u8>]) -> (r: Vec<Vec<Vec<u8>>>)
    ensures
        list_views(r@) == comma_parts(byte_views(tokens@)),
{
    let ghost views = byte_views(tokens@);
    let mut list: Vec<Vec<Vec<u8>>> = Vec::new();
    begin(&mut list);
    assert(list_views(list@) =~= seq![Seq::<Seq<u8>>::empty()]);
    let mut i: usize = 0;
    assert(views.take(0) =~= Seq::empty());
    while i < tokens.len()
        invariant
            i <= tokens@.len(),
            views == byte_views(tokens@),
            list@.len() > 0,
            list_views(list@) == comma_parts(views.take(i as int)),
        decreases tokens@.len() - i,
    {
        assert(views.take(i + 1).drop_last() =~= views.take(i as int));
        assert(views.take(i + 1).last() == tokens@[i as int]@);
        if is_token(tokens[i].as_slice(), ",") {
            begin(&mut list);
        } else {
            grow(&mut list, tokens[i].as_slice());
        }
        i += 1;
    }
    assert(views.take(i as int) =~= views);
    list
}

/// Whether tokens are names that `::`, `->` or `.` join.
pub open spec fn is_member_path(tokens: Seq<Seq<u8>>) -> bool {
    &&& tokens.len() % 2 == 1
    &&& forall|k: int|
        0 <= k < tokens.len() ==> if k % 2 == 0 {
            is_identifier(#[trigger] tokens[k])
        } else {
            token_is(tokens[k], "::") || token_is(tokens[k], "->") || token_is(tokens[k], ".")
        }
}

/// A list without its first item, where that is one of two words.
pub open spec fn without_sign(tokens: Seq<Seq<u8>>, a: &str, b: &str) -> Seq<Seq<u8>> {
    if tokens.len() > 0 && (token_is(tokens[0], a) || token_is(tokens[0], b)) {
        tokens.drop_first()
    } else {
        tokens
    }
}

/// Whether tokens designate a capability: a string, or a name of an object, perhaps
/// its address or target.
pub open spec fn is_capability(tokens: Seq<Seq<u8>>) -> bool {
    (tokens.len() == 1 && tokens[0].len() > 0 && tokens[0][0] == QUOTE && tokens[0].last() == QUOTE)
        || is_member_path(without_sign(without_sign(tokens, "&", "*"), "::", "::"))
}

/// Whether tokens are a parenthesized list of capability designators; no other
/// expressions.
pub open spec fn are_capability_arguments(tokens: Seq<Seq<u8>>) -> bool {
    &&& tokens.len() > 2
    &&& token_is(tokens[0], "(")
    &&& token_is(tokens.last(), ")")
    &&& forall|k: int|
        0 <= k < comma_parts(tokens.subrange(1, tokens.len() - 1)).len() ==> is_capability(
            #[trigger] comma_parts(tokens.subrange(1, tokens.len() - 1))[k],
        )
}

fn member_path(tokens: &[Vec<u8>], start: usize) -> (r: bool)
    requires
        start <= tokens@.len(),
    ensures
        r == is_member_path(byte_views(tokens@).skip(start as int)),
{
    let ghost path = byte_views(tokens@).skip(start as int);
    let count: usize = tokens.len();
    if (count - start) % 2 != 1 {
        return false;
    }
    let mut k: usize = start;
    let mut name = true;
    while k < count
        invariant
            start <= k <= count,
            count == tokens@.len(),
            path == byte_views(tokens@).skip(start as int),
            path.len() % 2 == 1,
            name == ((k - start) % 2 == 0),
            forall|j: int|
                0 <= j < k - start ==> if j % 2 == 0 {
                    is_identifier(#[trigger] path[j])
                } else {
                    token_is(path[j], "::") || token_is(path[j], "->") || token_is(path[j], ".")
                },
        decreases count - k,
    {
        let token = tokens[k].as_slice();
        assert(path[k - start] == token@);
        if name {
            if !identifier(token) {
                return false;
            }
        } else if !is_token(token, "::") && !is_token(token, "->") && !is_token(token, ".") {
            return false;
        }
        name = !name;
        k += 1;
    }
    true
}

fn capability(tokens: &[Vec<u8>]) -> (r: bool)
    ensures
        r == is_capability(byte_views(tokens@)),
{
    let ghost views = byte_views(tokens@);
    if tokens.len() == 1 {
        let token = tokens[0].as_slice();
        assert(views[0] == token@);
        if token.len() > 0 && token[0] == QUOTE && token[token.len() - 1] == QUOTE {
            return true;
        }
    }
    let mut start: usize = 0;
    if start < tokens.len() && (is_token(tokens[start].as_slice(), "&") || is_token(
        tokens[start].as_slice(),
        "*",
    )) {
        start += 1;
    }
    assert(views.skip(start as int) =~= without_sign(views, "&", "*"));
    let ghost signless = views.skip(start as int);
    let ghost first = start;
    if start < tokens.len() && is_token(tokens[start].as_slice(), "::") {
        start += 1;
    }
    assert(views.skip(start as int) =~= without_sign(signless, "::", "::"));
    member_path(tokens, start)
}

/// Whether tokens are a parenthesized list of capability designators.
pub fn simple_capability_arguments(tokens: &[Vec<u8>]) -> (r: bool)
    ensures
        r == are_capability_arguments(byte_views(tokens@)),
{
    let ghost views = byte_views(tokens@);
    let count: usize = tokens.len();
    if count <= 2 || !is_token(tokens[0].as_slice(), "(") || !is_token(
        tokens[count - 1].as_slice(),
        ")",
    ) {
        return false;
    }
    let inner = &tokens[1..count - 1];
    assert(byte_views(inner@) =~= views.subrange(1, count - 1));
    let parts = split_commas(inner);
    let ghost want = comma_parts(views.subrange(1, count - 1));
    let mut i: usize = 0;
    while i < parts.len()
        invariant
            i <= parts@.len(),
            list_views(parts@) == want,
            want == comma_parts(byte_views(tokens@).subrange(1, tokens@.len() - 1)),
            forall|k: int| 0 <= k < i ==> is_capability(#[trigger] want[k]),
        decreases parts@.len() - i,
    {
        assert(want[i as int] == byte_views(parts@[i as int]@));
        if !capability(parts[i].as_slice()) {
            return false;
        }
        i += 1;
    }
    assert(want.len() == parts@.len());
    true
}

/// Whether a token is the keyword of an attribute list.
pub open spec fn is_attribute_keyword(token: Seq<u8>) -> bool {
    token_is(token, "__attribute__") || token_is(token, "__attribute")
}

/// Whether tokens start as an attribute list.
pub open spec fn opens_attribute(tokens: Seq<Seq<u8>>) -> bool {
    tokens.len() > 3 && is_attribute_keyword(tokens[0]) && token_is(tokens[1], "(") && token_is(
        tokens[2],
        "(",
    )
}

/// Whether tokens end with two closing parentheses.
pub open spec fn closes_twice(tokens: Seq<Seq<u8>>) -> bool {
    tokens.len() > 1 && token_is(tokens[tokens.len() - 2], ")") && token_is(tokens.last(), ")")
}

/// Whether tokens are a visibility attribute, apart from its value.
pub open spec fn has_visibility(tokens: Seq<Seq<u8>>) -> bool {
    &&& tokens.len() == 9
    &&& opens_attribute(tokens)
    &&& token_is(tokens[3], "visibility") || token_is(tokens[3], "__visibility__")
    &&& token_is(tokens[4], "(")
    &&& token_is(tokens[6], ")")
    &&& closes_twice(tokens)
}

/// Whether a visibility is known.
pub open spec fn is_visibility(value: Seq<u8>) -> bool {
    token_is(value, "\"default\"") || token_is(value, "\"hidden\"") || token_is(
        value,
        "\"protected\"",
    ) || token_is(value, "\"internal\"")
}

/// Whether tokens are an import or export attribute.
pub open spec fn is_linkage_attribute(tokens: Seq<Seq<u8>>) -> bool {
    &&& tokens.len() == 6
    &&& opens_attribute(tokens)
    &&& token_is(tokens[3], "dllexport") || token_is(tokens[3], "dllimport") || token_is(
        tokens[3],
        "__dllexport__",
    ) || token_is(tokens[3], "__dllimport__")
    &&& closes_twice(tokens)
}

/// Whether tokens are an import or export specifier.
pub open spec fn is_linkage_specifier(tokens: Seq<Seq<u8>>) -> bool {
    &&& tokens.len() == 4
    &&& token_is(tokens[0], "__declspec")
    &&& token_is(tokens[1], "(")
    &&& token_is(tokens[2], "dllexport") || token_is(tokens[2], "dllimport")
    &&& token_is(tokens[3], ")")
}

/// Whether a name is that of a capability attribute of callables.
pub open spec fn is_callable_capability(name: Seq<u8>) -> bool {
    ||| token_is(name, "requires_capability")
    ||| token_is(name, "requires_shared_capability")
    ||| token_is(name, "exclusive_locks_required")
    ||| token_is(name, "shared_locks_required")
    ||| token_is(name, "locks_excluded")
    ||| token_is(name, "acquire_capability")
    ||| token_is(name, "release_capability")
}

/// Whether tokens are a supported attribute at a position.
pub open spec fn is_attribute(tokens: Seq<Seq<u8>>, position: CppAnnotationPosition) -> bool {
    if has_visibility(tokens) {
        position != CppAnnotationPosition::LambdaSuffix && is_visibility(tokens[5])
    } else if is_linkage_attribute(tokens) {
        position != CppAnnotationPosition::LambdaSuffix
    } else if is_linkage_specifier(tokens) {
        position == CppAnnotationPosition::ClassPrefix || position
            == CppAnnotationPosition::DeclarationPrefix
    } else if opens_attribute(tokens) && closes_twice(tokens.skip(4)) {
        let name = tokens[3];
        let arguments = tokens.subrange(4, tokens.len() - 2);
        match position {
            CppAnnotationPosition::CallableSuffix | CppAnnotationPosition::LambdaSuffix => if token_is(
                name,
                "no_thread_safety_analysis",
            ) {
                arguments.len() == 0
            } else {
                is_callable_capability(name) && are_capability_arguments(arguments)
            },
            CppAnnotationPosition::DataSuffix => (token_is(name, "guarded_by") || token_is(
                name,
                "pt_guarded_by",
            )) && are_capability_arguments(arguments),
            _ => false,
        }
    } else {
        false
    }
}

fn closing_twice(tokens: &[Vec<u8>]) -> (r: bool)
    ensures
        r == closes_twice(byte_views(tokens@)),
{
    let count: usize = tokens.len();
    count > 1 && is_token(tokens[count - 2].as_slice(), ")") && is_token(
        tokens[count - 1].as_slice(),
        ")",
    )
}

fn opening_attribute(tokens: &[Vec<u8>]) -> (r: bool)
    ensures
        r == opens_attribute(byte_views(tokens@)),
{
    tokens.len() > 3 && (is_token(tokens[0].as_slice(), "__attribute__") || is_token(
        tokens[0].as_slice(),
        "__attribute",
    )) && is_token(tokens[1].as_slice(), "(") && is_token(tokens[2].as_slice(), "(")
}

fn known_visibility(value: &[u8]) -> (r: bool)
    ensures
        r == is_visibility(value@),
{
    is_token(value, "\"default\"") || is_token(value, "\"hidden\"") || is_token(
        value,
        "\"protected\"",
    ) || is_token(value, "\"internal\"")
}

fn callable_capability(name: &[u8]) -> (r: bool)
    ensures
        r == is_callable_capability(name@),
{
    is_token(name, "requires_capability") || is_token(name, "requires_shared_capability")
        || is_token(name, "exclusive_locks_required") || is_token(name, "shared_locks_required")
        || is_token(name, "locks_excluded") || is_token(name, "acquire_capability") || is_token(
        name,
        "release_capability",
    )
}

fn visibility_attribute(tokens: &[Vec<u8>]) -> (r: bool)
    ensures
        r == has_visibility(byte_views(tokens@)),
{
    tokens.len() == 9 && opening_attribute(tokens) && (is_token(tokens[3].as_slice(), "visibility")
        || is_token(tokens[3].as_slice(), "__visibility__")) && is_token(tokens[4].as_slice(), "(")
        && is_token(tokens[6].as_slice(), ")") && closing_twice(tokens)
}

fn linkage_attribute(tokens: &[Vec<u8>]) -> (r: bool)
    ensures
        r == is_linkage_attribute(byte_views(tokens@)),
{
    tokens.len() == 6 && opening_attribute(tokens) && (is_token(tokens[3].as_slice(), "dllexport")
        || is_token(tokens[3].as_slice(), "dllimport") || is_token(
        tokens[3].as_slice(),
        "__dllexport__",
    ) || is_token(tokens[3].as_slice(), "__dllimport__")) && closing_twice(tokens)
}

fn linkage_specifier(tokens: &[Vec<u8>]) -> (r: bool)
    ensures
        r == is_linkage_specifier(byte_views(tokens@)),
{
    tokens.len() == 4 && is_token(tokens[0].as_slice(), "__declspec") && is_token(
        tokens[1].as_slice(),
        "(",
    ) && (is_token(tokens[2].as_slice(), "dllexport") || is_token(
        tokens[2].as_slice(),
        "dllimport",
    )) && is_token(tokens[3].as_slice(), ")")
}

/// Whether tokens are a supported attribute at a position.
pub fn attribute(tokens: &[Vec<u8>], position: CppAnnotationPosition) -> (r: bool)
    ensures
        r == is_attribute(byte_views(tokens@), position),
{
    let ghost views = byte_views(tokens@);
    let lambda = matches!(position, CppAnnotationPosition::LambdaSuffix);
    if visibility_attribute(tokens) {
        return !lambda && known_visibility(tokens[5].as_slice());
    }
    if linkage_attribute(tokens) {
        return !lambda;
    }
    if linkage_specifier(tokens) {
        return matches!(
            position,
            CppAnnotationPosition::ClassPrefix | CppAnnotationPosition::DeclarationPrefix
        );
    }
    let count: usize = tokens.len();
    if !opening_attribute(tokens) {
        return false;
    }
    let rest = &tokens[4..count];
    assert(byte_views(rest@) =~= views.skip(4));
    if !closing_twice(rest) {
        return false;
    }
    let name = tokens[3].as_slice();
    let arguments = &tokens[4..count - 2];
    assert(byte_views(arguments@) =~= views.subrange(4, count - 2));
    match position {
        CppAnnotationPosition::CallableSuffix | CppAnnotationPosition::LambdaSuffix => if is_token(
            name,
            "no_thread_safety_analysis",
        ) {
            arguments.len() == 0
        } else {
            callable_capability(name) && simple_capability_arguments(arguments)
        },
        CppAnnotationPosition::DataSuffix => (is_token(name, "guarded_by") || is_token(
            name,
            "pt_guarded_by",
        )) && simple_capability_arguments(arguments),
        _ => false,
    }
}

/// The number of bytes of tokens.
pub open spec fn total_bytes(tokens: Seq<Seq<u8>>) -> nat
    decreases tokens.len(),
{
    if tokens.len() == 0 {
        0
    } else {
        total_bytes(tokens.drop_last()) + tokens.last().len()
    }
}

proof fn lemma_total_grows(tokens: Seq<Seq<u8>>, count: int)
    requires
        0 <= count <= tokens.len(),
    ensures
        total_bytes(tokens.take(count)) <= total_bytes(tokens),
    decreases tokens.len(),
{
    if count == tokens.len() {
        assert(tokens.take(count) =~= tokens);
    } else {
        assert(tokens.drop_last().take(count) =~= tokens.take(count));
        lemma_total_grows(tokens.drop_last(), count);
    }
}

/// The number of bytes of tokens, up to a limit.
pub fn bytes_within(tokens: &[Vec<u8>], limit: usize) -> (r: Option<usize>)
    ensures
        match r {
            None => total_bytes(byte_views(tokens@)) > limit,
            Some(total) => total == total_bytes(byte_views(tokens@)) && total <= limit,
        },
{
    let ghost views = byte_views(tokens@);
    let mut total: usize = 0;
    let mut i: usize = 0;
    assert(views.take(0) =~= Seq::empty());
    while i < tokens.len()
        invariant
            i <= tokens@.len(),
            views == byte_views(tokens@),
            total == total_bytes(views.take(i as int)),
            total <= limit,
        decreases tokens@.len() - i,
    {
        proof {
            assert(views.take(i + 1).drop_last() =~= views.take(i as int));
            assert(views.take(i + 1).last() == tokens@[i as int]@);
            lemma_total_grows(views, i + 1);
        }
        if tokens[i].len() > limit - total {
            return None;
        }
        total += tokens[i].len();
        i += 1;
    }
    assert(views.take(i as int) =~= views);
    Some(total)
}

/// Whether some of the definitions of a macro has no parameters.
pub open spec fn has_object_like(list: Seq<CppMacroDefinition>) -> bool {
    exists|k: int| 0 <= k < list.len() && (#[trigger] list[k]).parameters is None
}

/// Whether a token of an argument would be expanded before it is substituted. The
/// name of a macro with parameters is not, unless a parenthesis follows it.
pub open spec fn is_expanded_first(
    definitions: Seq<CppMacroAlternatives>,
    argument: Seq<Seq<u8>>,
    index: int,
) -> bool {
    match alternatives_of(definitions, argument[index]) {
        None => false,
        Some(list) => has_object_like(list) || (index + 1 < argument.len() && token_is(
            argument[index + 1],
            "(",
        )),
    }
}

/// Whether a token of some argument would be expanded before it is substituted.
pub open spec fn needs_expansion(
    definitions: Seq<CppMacroAlternatives>,
    arguments: Seq<Seq<Seq<u8>>>,
) -> bool {
    exists|i: int, k: int|
        0 <= i < arguments.len() && 0 <= k < arguments[i].len() && #[trigger] is_expanded_first(
            definitions,
            arguments[i],
            k,
        )
}

/// Arguments with the commas between them.
pub open spec fn with_commas(arguments: Seq<Seq<Seq<u8>>>) -> Seq<Seq<u8>>
    decreases arguments.len(),
{
    if arguments.len() == 0 {
        Seq::empty()
    } else if arguments.len() == 1 {
        arguments[0]
    } else {
        with_commas(arguments.drop_last()).push(",".spec_bytes()) + arguments.last()
    }
}

/// What stands for a token of a replacement: the argument of a parameter, the
/// remaining arguments, or the token.
pub open spec fn stands_for(
    parameters: Seq<Seq<u8>>,
    variadic: bool,
    arguments: Seq<Seq<Seq<u8>>>,
    token: Seq<u8>,
) -> Seq<Seq<u8>> {
    match crate::cpp_tokens::place_of(parameters, token) {
        Some(index) => arguments[index as int],
        None => if variadic && token_is(token, "__VA_ARGS__") {
            with_commas(arguments.skip(parameters.len() as int))
        } else {
            seq![token]
        },
    }
}

/// A replacement with the arguments put in.
pub open spec fn substituted(
    parameters: Seq<Seq<u8>>,
    variadic: bool,
    arguments: Seq<Seq<Seq<u8>>>,
    replacement: Seq<Seq<u8>>,
) -> Seq<Seq<u8>>
    decreases replacement.len(),
{
    if replacement.len() == 0 {
        Seq::empty()
    } else {
        substituted(parameters, variadic, arguments, replacement.drop_last()) + stands_for(
            parameters,
            variadic,
            arguments,
            replacement.last(),
        )
    }
}

/// The arguments that a definition takes: no argument at all stands for none where
/// there are no parameters.
pub open spec fn matching_arguments(
    parameters: Seq<Seq<u8>>,
    arguments: Seq<Seq<Seq<u8>>>,
) -> Seq<Seq<Seq<u8>>> {
    if arguments.len() == 1 && arguments[0].len() == 0 && parameters.len() == 0 {
        Seq::empty()
    } else {
        arguments
    }
}

/// What a definition makes of an invocation whose arguments stand in parentheses:
/// nothing where the arguments do not fit it, where they would have to be expanded
/// first, or where there is too much of it.
pub open spec fn expansion(
    definitions: Seq<CppMacroAlternatives>,
    definition: CppMacroDefinition,
    invocation: Seq<Seq<u8>>,
    limit: nat,
) -> Option<Seq<Seq<u8>>> {
    match definition.replacement {
        None => None,
        Some(text) => match crate::cpp_tokens::tokens_of(text@) {
            None => None,
            Some(replacement) => match definition.parameters {
                None => Some(replacement),
                Some(names) => match parenthesized_arguments(invocation) {
                    None => None,
                    Some(written) => {
                        let parameters = text_views(names@);
                        let arguments = matching_arguments(parameters, written);
                        let expanded = substituted(
                            parameters,
                            definition.variadic,
                            arguments,
                            replacement,
                        );
                        if arguments.len() < parameters.len() || (!definition.variadic
                            && arguments.len() != parameters.len()) || needs_expansion(
                            definitions,
                            arguments,
                        ) || total_bytes(expanded) > limit || expanded.len() > MAX_TOKENS {
                            None
                        } else {
                            Some(expanded)
                        }
                    },
                },
            },
        },
    }
}

fn object_like(list: &[CppMacroDefinition]) -> (r: bool)
    ensures
        r == has_object_like(list@),
{
    let mut i: usize = 0;
    while i < list.len()
        invariant
            i <= list@.len(),
            forall|k: int| 0 <= k < i ==> (#[trigger] list@[k]).parameters is Some,
        decreases list@.len() - i,
    {
        if list[i].parameters.is_none() {
            return true;
        }
        i += 1;
    }
    false
}

fn expanding_first(
    definitions: &[CppMacroAlternatives],
    arguments: &[Vec<Vec<u8>>],
) -> (r: bool)
    ensures
        r == needs_expansion(definitions@, list_views(arguments@)),
{
    let ghost views = list_views(arguments@);
    let mut i: usize = 0;
    while i < arguments.len()
        invariant
            i <= arguments@.len(),
            views == list_views(arguments@),
            forall|j: int, k: int|
                0 <= j < i && 0 <= k < views[j].len() ==> !#[trigger] is_expanded_first(
                    definitions@,
                    views[j],
                    k,
                ),
        decreases arguments@.len() - i,
    {
        let argument = &arguments[i];
        let ghost tokens = views[i as int];
        assert(tokens == byte_views(argument@));
        let count: usize = argument.len();
        let mut k: usize = 0;
        while k < count
            invariant
                k <= count,
                i < arguments@.len(),
                count == argument@.len(),
                views == list_views(arguments@),
                tokens == views[i as int],
                tokens == byte_views(argument@),
                forall|k2: int|
                    0 <= k2 < k ==> !#[trigger] is_expanded_first(definitions@, tokens, k2),
            decreases count - k,
        {
            let token = argument[k].as_slice();
            assert(tokens[k as int] == token@);
            if let Some(list) = find_alternatives(definitions, token) {
                if object_like(list) {
                    assert(is_expanded_first(definitions@, views[i as int], k as int));
                    return true;
                }
                if k + 1 < count && is_token(argument[k + 1].as_slice(), "(") {
                    assert(tokens[k + 1] == argument@[k + 1]@);
                    assert(is_expanded_first(definitions@, views[i as int], k as int));
                    return true;
                }
                assert(k + 1 < count ==> tokens[k + 1] == argument@[k + 1]@);
            }
            k += 1;
        }
        i += 1;
    }
    false
}

/// Add copies of tokens.
pub fn append_tokens(list: &mut Vec<Vec<u8>>, tokens: &[Vec<u8>])
    ensures
        byte_views(final(list)@) == byte_views(old(list)@) + byte_views(tokens@),
        final(list)@.len() == old(list)@.len() + tokens@.len(),
{
    let ghost start = byte_views(list@);
    let ghost views = byte_views(tokens@);
    let mut i: usize = 0;
    assert(start + views.take(0) =~= start);
    while i < tokens.len()
        invariant
            i <= tokens@.len(),
            views == byte_views(tokens@),
            list@.len() == old(list)@.len() + i,
            byte_views(list@) == start + views.take(i as int),
        decreases tokens@.len() - i,
    {
        let ghost before = list@;
        let item = copy_bytes(tokens[i].as_slice());
        list.push(item);
        proof {
            lemma_push_bytes(before, item);
            assert(start + views.take(i + 1) =~= (start + views.take(i as int)).push(
                views[i as int],
            ));
        }
        i += 1;
    }
    assert(views.take(i as int) =~= views);
}

fn join_commas(arguments: &[Vec<Vec<u8>>], from: usize) -> (r: Vec<Vec<u8>>)
    requires
        from <= arguments@.len(),
    ensures
        byte_views(r@) == with_commas(list_views(arguments@).skip(from as int)),
{
    let ghost rest = list_views(arguments@).skip(from as int);
    let mut joined: Vec<Vec<u8>> = Vec::new();
    assert(byte_views(joined@) =~= Seq::empty());
    assert(rest.take(0) =~= Seq::empty());
    let mut i: usize = from;
    while i < arguments.len()
        invariant
            from <= i <= arguments@.len(),
            rest == list_views(arguments@).skip(from as int),
            byte_views(joined@) == with_commas(rest.take(i - from)),
        decreases arguments@.len() - i,
    {
        let ghost part = rest.take(i + 1 - from);
        proof {
            assert(part.drop_last() =~= rest.take(i - from));
            assert(part.last() == byte_views(arguments@[i as int]@));
        }
        if i > from {
            let ghost before = joined@;
            let comma = copy_bytes(",".as_bytes());
            joined.push(comma);
            proof {
                lemma_push_bytes(before, comma);
            }
        } else {
            assert(byte_views(joined@) =~= Seq::empty());
            assert(Seq::<Seq<u8>>::empty() + part.last() =~= part.last());
        }
        append_tokens(&mut joined, arguments[i].as_slice());
        i += 1;
    }
    assert(rest.take(i - from) =~= rest);
    joined
}

fn find_parameter(parameters: &[crate::text::Text], token: &[u8]) -> (r: Option<usize>)
    ensures
        r == crate::cpp_tokens::place_of(text_views(parameters@), token@),
        r is Some ==> r->0 < parameters@.len(),
{
    let ghost views = text_views(parameters@);
    let mut i: usize = 0;
    assert(views.take(0) =~= Seq::empty());
    while i < parameters.len()
        invariant
            i <= parameters@.len(),
            views == text_views(parameters@),
            crate::cpp_tokens::place_of(views.take(i as int), token@) is None,
        decreases parameters@.len() - i,
    {
        assert(views.take(i + 1).drop_last() =~= views.take(i as int));
        assert(views.take(i + 1).last() == parameters@[i as int]@);
        if same_bytes(parameters[i].as_bytes(), token) {
            proof {
                crate::cpp_tokens::lemma_place_stays(views, token@, i + 1);
            }
            return Some(i);
        }
        i += 1;
    }
    assert(views.take(i as int) =~= views);
    None
}

proof fn lemma_substituted_prefix(
    parameters: Seq<Seq<u8>>,
    variadic: bool,
    arguments: Seq<Seq<Seq<u8>>>,
    replacement: Seq<Seq<u8>>,
    count: int,
)
    requires
        0 <= count <= replacement.len(),
    ensures
        substituted(parameters, variadic, arguments, replacement.take(count)).len()
            <= substituted(parameters, variadic, arguments, replacement).len(),
        total_bytes(substituted(parameters, variadic, arguments, replacement.take(count)))
            <= total_bytes(substituted(parameters, variadic, arguments, replacement)),
    decreases replacement.len(),
{
    if count == replacement.len() {
        assert(replacement.take(count) =~= replacement);
    } else {
        let shorter = replacement.drop_last();
        assert(shorter.take(count) =~= replacement.take(count));
        lemma_substituted_prefix(parameters, variadic, arguments, shorter, count);
        let whole = substituted(parameters, variadic, arguments, replacement);
        let part = substituted(parameters, variadic, arguments, shorter);
        assert(whole.take(part.len() as int) =~= part);
        lemma_total_grows(whole, part.len() as int);
    }
}

proof fn lemma_total_sum(a: Seq<Seq<u8>>, b: Seq<Seq<u8>>)
    ensures
        total_bytes(a + b) == total_bytes(a) + total_bytes(b),
    decreases b.len(),
{
    if b.len() == 0 {
        assert(a + b =~= a);
    } else {
        assert((a + b).drop_last() =~= a + b.drop_last());
        lemma_total_sum(a, b.drop_last());
    }
}

/// Put the arguments into a replacement, as far as the limits go.
fn substitute(
    parameters: &[crate::text::Text],
    variadic: bool,
    arguments: &[Vec<Vec<u8>>],
    replacement: &[Vec<u8>],
    limit: usize,
) -> (r: Option<Vec<Vec<u8>>>)
    requires
        parameters@.len() <= arguments@.len(),
    ensures
        ({
            let expanded = substituted(
                text_views(parameters@),
                variadic,
                list_views(arguments@),
                byte_views(replacement@),
            );
            match r {
                None => total_bytes(expanded) > limit || expanded.len() > MAX_TOKENS,
                Some(tokens) => byte_views(tokens@) == expanded && total_bytes(expanded) <= limit
                    && expanded.len() <= MAX_TOKENS,
            }
        }),
{
    let ghost names = text_views(parameters@);
    let ghost given = list_views(arguments@);
    let ghost views = byte_views(replacement@);
    let others = join_commas(arguments, parameters.len());
    let mut expanded: Vec<Vec<u8>> = Vec::new();
    let mut used: usize = 0;
    let mut i: usize = 0;
    assert(views.take(0) =~= Seq::empty());
    assert(byte_views(expanded@) =~= Seq::empty());
    while i < replacement.len()
        invariant
            i <= replacement@.len(),
            parameters@.len() <= arguments@.len(),
            names == text_views(parameters@),
            given == list_views(arguments@),
            views == byte_views(replacement@),
            byte_views(others@) == with_commas(given.skip(names.len() as int)),
            expanded@.len() <= MAX_TOKENS,
            used <= limit,
            used == total_bytes(byte_views(expanded@)),
            byte_views(expanded@) == substituted(names, variadic, given, views.take(i as int)),
        decreases replacement@.len() - i,
    {
        let token = replacement[i].as_slice();
        let ghost so_far = byte_views(expanded@);
        let ghost addition = stands_for(names, variadic, given, token@);
        proof {
            assert(views.take(i + 1).drop_last() =~= views.take(i as int));
            assert(views.take(i + 1).last() == token@);
            lemma_substituted_prefix(names, variadic, given, views, i + 1);
            lemma_total_sum(so_far, addition);
        }
        let mut single: Vec<Vec<u8>> = Vec::new();
        let additions: &[Vec<u8>] = match find_parameter(parameters, token) {
            Some(index) => arguments[index].as_slice(),
            None => if variadic && is_token(token, "__VA_ARGS__") {
                others.as_slice()
            } else {
                single.push(copy_bytes(token));
                assert(byte_views(single@) =~= seq![token@]);
                single.as_slice()
            },
        };
        assert(byte_views(additions@) == addition);
        match bytes_within(additions, limit - used) {
            None => {
                return None;
            },
            Some(more) => {
                used += more;
            },
        }
        if additions.len() > MAX_TOKENS - expanded.len() {
            return None;
        }
        append_tokens(&mut expanded, additions);
        i += 1;
    }
    assert(views.take(i as int) =~= views);
    Some(expanded)
}

/// What a definition makes of an invocation whose arguments stand in parentheses.
fn expand(
    definitions: &[CppMacroAlternatives],
    definition: &CppMacroDefinition,
    invocation: &[Vec<u8>],
    limit: usize,
) -> (r: Option<Vec<Vec<u8>>>)
    ensures
        lists(r, expansion(definitions@, *definition, byte_views(invocation@), limit as nat)),
{
    let text = match &definition.replacement {
        None => {
            return None;
        },
        Some(text) => text,
    };
    let replacement = match crate::cpp_tokens::tokens(text.as_bytes()) {
        None => {
            return None;
        },
        Some(tokens) => tokens,
    };
    let parameters = match &definition.parameters {
        None => {
            return Some(replacement);
        },
        Some(parameters) => parameters,
    };
    let mut arguments = match invocation_arguments(invocation) {
        None => {
            return None;
        },
        Some(arguments) => arguments,
    };
    let ghost written = list_views(arguments@);
    if arguments.len() == 1 && arguments[0].len() == 0 && parameters.len() == 0 {
        assert(written[0].len() == 0);
        arguments = Vec::new();
        assert(list_views(arguments@) =~= Seq::empty());
    } else {
        assert(arguments@.len() == 1 ==> written[0].len() == arguments@[0]@.len());
    }
    assert(list_views(arguments@) == matching_arguments(text_views(parameters@), written));
    if arguments.len() < parameters.len() || (!definition.variadic && arguments.len()
        != parameters.len()) {
        return None;
    }
    if expanding_first(definitions, arguments.as_slice()) {
        return None;
    }
    substitute(
        parameters.as_slice(),
        definition.variadic,
        arguments.as_slice(),
        replacement.as_slice(),
        limit,
    )
}

/// Where the first part of some tokens ends: a whole invocation, or one token.
pub open spec fn head_end(input: Seq<Seq<u8>>) -> int {
    match invocation_tokens(input) {
        Some(end) => end as int,
        None => 1,
    }
}

/// Whether some token names a macro.
pub open spec fn has_macro(definitions: Seq<CppMacroAlternatives>, tokens: Seq<Seq<u8>>) -> bool {
    exists|k: int| 0 <= k < tokens.len() && is_defined(definitions, #[trigger] tokens[k])
}

/// Whether tokens are nothing but supported annotations at a position, and if so how
/// many bytes may still be looked at. A supported attribute in which no macro occurs
/// is passed over. A macro is replaced by every one of its definitions, and each
/// replacement must be nothing but annotations; a macro is not replaced within its
/// own replacement.
pub open spec fn read_annotations(
    definitions: Seq<CppMacroAlternatives>,
    input: Seq<Seq<u8>>,
    path: Seq<Seq<u8>>,
    remaining: nat,
    position: CppAnnotationPosition,
    depth: nat,
) -> Option<nat>
    decreases 33 - depth, 1int, 0int,
{
    if depth >= 32 || total_bytes(input) > remaining {
        None
    } else {
        let left = (remaining - total_bytes(input)) as nat;
        if input.len() == 0 {
            Some(left)
        } else {
            let end = head_end(input);
            let head = input.take(end);
            if is_attribute(head, position) && !has_macro(definitions, head) {
                read_annotations(definitions, input.skip(end), path, left, position, depth + 1)
            } else if !is_identifier(input[0]) || path.len() >= 32 || path.contains(input[0]) {
                None
            } else {
                match alternatives_of(definitions, input[0]) {
                    Some(list) if list.len() > 0 => read_alternatives(
                        definitions,
                        list,
                        input,
                        path,
                        left,
                        position,
                        depth,
                    ),
                    _ => None,
                }
            }
        }
    }
}

/// Whether every one of some definitions makes supported annotations of the tokens
/// that its macro begins. What follows an invocation is read on its own, unless the
/// replacement is a name and parentheses follow: such an alias takes them.
pub open spec fn read_alternatives(
    definitions: Seq<CppMacroAlternatives>,
    list: Seq<CppMacroDefinition>,
    input: Seq<Seq<u8>>,
    path: Seq<Seq<u8>>,
    remaining: nat,
    position: CppAnnotationPosition,
    depth: nat,
) -> Option<nat>
    decreases 33 - depth, 0int, list.len(),
{
    if list.len() == 0 || depth >= 32 || input.len() == 0 {
        Some(remaining)
    } else {
        let inside = path.push(input[0]);
        let end = head_end(input);
        match expansion(definitions, list[0], input.subrange(1, end), remaining) {
            None => None,
            Some(expanded) => {
                let tail = if list[0].parameters is Some {
                    input.skip(end)
                } else {
                    input.skip(1)
                };
                let left = if tail.len() > 0 && token_is(tail[0], "(") {
                    if expanded.len() == 1 && is_identifier(expanded[0]) && 1 + tail.len()
                        <= MAX_TOKENS {
                        read_annotations(
                            definitions,
                            expanded + tail,
                            inside,
                            remaining,
                            position,
                            depth + 1,
                        )
                    } else {
                        None
                    }
                } else {
                    match read_annotations(
                        definitions,
                        expanded,
                        inside,
                        remaining,
                        position,
                        depth + 1,
                    ) {
                        None => None,
                        Some(less) => read_annotations(
                            definitions,
                            tail,
                            path,
                            less,
                            position,
                            depth + 1,
                        ),
                    }
                };
                match left {
                    None => None,
                    Some(left) => read_alternatives(
                        definitions,
                        list.drop_first(),
                        input,
                        path,
                        left,
                        position,
                        depth,
                    ),
                }
            },
        }
    }
}

fn find_macro(definitions: &[CppMacroAlternatives], tokens: &[Vec<u8>]) -> (r: bool)
    ensures
        r == has_macro(definitions@, byte_views(tokens@)),
{
    let ghost views = byte_views(tokens@);
    let mut i: usize = 0;
    while i < tokens.len()
        invariant
            i <= tokens@.len(),
            views == byte_views(tokens@),
            forall|k: int| 0 <= k < i ==> !is_defined(definitions@, #[trigger] views[k]),
        decreases tokens@.len() - i,
    {
        assert(views[i as int] == tokens@[i as int]@);
        if find_alternatives(definitions, tokens[i].as_slice()).is_some() {
            return true;
        }
        i += 1;
    }
    false
}

/// Whether byte strings hold one.
pub fn holds_bytes(items: &[Vec<u8>], item: &[u8]) -> (r: bool)
    ensures
        r == byte_views(items@).contains(item@),
{
    let ghost views = byte_views(items@);
    let mut i: usize = 0;
    while i < items.len()
        invariant
            i <= items@.len(),
            views == byte_views(items@),
            forall|k: int| 0 <= k < i ==> views[k] != item@,
        decreases items@.len() - i,
    {
        assert(views[i as int] == items@[i as int]@);
        if same_bytes(items[i].as_slice(), item) {
            assert(views[i as int] == item@);
            return true;
        }
        i += 1;
    }
    false
}

/// Read tokens as annotations. The path is as before afterwards.
fn visit(
    input: &[Vec<u8>],
    definitions: &[CppMacroAlternatives],
    path: &mut Vec<Vec<u8>>,
    remaining: usize,
    position: CppAnnotationPosition,
    depth: usize,
) -> (r: Option<usize>)
    requires
        depth <= 32,
    ensures
        match r {
            None => read_annotations(
                definitions@,
                byte_views(input@),
                byte_views(old(path)@),
                remaining as nat,
                position,
                depth as nat,
            ) is None,
            Some(left) => read_annotations(
                definitions@,
                byte_views(input@),
                byte_views(old(path)@),
                remaining as nat,
                position,
                depth as nat,
            ) == Some(left as nat),
        },
        byte_views(final(path)@) == byte_views(old(path)@),
    decreases 33 - depth, 1int,
{
    let ghost views = byte_views(input@);
    if depth >= 32 {
        return None;
    }
    let left: usize = match bytes_within(input, remaining) {
        None => {
            return None;
        },
        Some(bytes) => remaining - bytes,
    };
    if input.len() == 0 {
        return Some(left);
    }
    let end: usize = match invocation_tokens_end(input) {
        Some(end) => end,
        None => 1,
    };
    let head = &input[0..end];
    assert(byte_views(head@) =~= views.take(end as int));
    if attribute(head, position) && !find_macro(definitions, head) {
        let rest = &input[end..input.len()];
        assert(byte_views(rest@) =~= views.skip(end as int));
        return visit(rest, definitions, path, left, position, depth + 1);
    }
    let name = input[0].as_slice();
    assert(views[0] == name@);
    if !identifier(name) || path.len() >= 32 || holds_bytes(path.as_slice(), name) {
        return None;
    }
    let list = match find_alternatives(definitions, name) {
        None => {
            return None;
        },
        Some(list) => list,
    };
    if list.len() == 0 {
        return None;
    }
    visit_alternatives(list, input, end, definitions, path, left, position, depth)
}

/// Read every replacement of the macro that begins some tokens. The path is as
/// before afterwards.
fn visit_alternatives(
    list: &[CppMacroDefinition],
    input: &[Vec<u8>],
    end: usize,
    definitions: &[CppMacroAlternatives],
    path: &mut Vec<Vec<u8>>,
    remaining: usize,
    position: CppAnnotationPosition,
    depth: usize,
) -> (r: Option<usize>)
    requires
        depth < 32,
        input@.len() > 0,
        1 <= end <= input@.len(),
        end == head_end(byte_views(input@)),
    ensures
        match r {
            None => read_alternatives(
                definitions@,
                list@,
                byte_views(input@),
                byte_views(old(path)@),
                remaining as nat,
                position,
                depth as nat,
            ) is None,
            Some(left) => read_alternatives(
                definitions@,
                list@,
                byte_views(input@),
                byte_views(old(path)@),
                remaining as nat,
                position,
                depth as nat,
            ) == Some(left as nat),
        },
        byte_views(final(path)@) == byte_views(old(path)@),
    decreases 33 - depth, 0int,
{
    let ghost views = byte_views(input@);
    let ghost outside = byte_views(path@);
    let invocation = &input[1..end];
    assert(byte_views(invocation@) =~= views.subrange(1, end as int));
    let mut left: usize = remaining;
    let mut i: usize = 0;
    assert(list@.skip(0) =~= list@);
    let ghost whole = read_alternatives(
        definitions@,
        list@,
        views,
        outside,
        remaining as nat,
        position,
        depth as nat,
    );
    while i < list.len()
        invariant
            i <= list@.len(),
            depth < 32,
            input@.len() > 0,
            1 <= end <= input@.len(),
            views == byte_views(input@),
            end == head_end(views),
            byte_views(invocation@) == views.subrange(1, end as int),
            outside == byte_views(old(path)@),
            byte_views(path@) == outside,
            whole == read_alternatives(
                definitions@,
                list@.skip(i as int),
                views,
                outside,
                left as nat,
                position,
                depth as nat,
            ),
            whole == read_alternatives(
                definitions@,
                list@,
                views,
                outside,
                remaining as nat,
                position,
                depth as nat,
            ),
        decreases list@.len() - i,
    {
        let definition = &list[i];
        assert(list@.skip(i as int).drop_first() =~= list@.skip(i + 1));
        let expanded = match expand(definitions, definition, invocation, left) {
            None => {
                return None;
            },
            Some(expanded) => expanded,
        };
        let start: usize = if definition.parameters.is_some() {
            end
        } else {
            1
        };
        let tail = &input[start..input.len()];
        assert(byte_views(tail@) =~= views.skip(start as int));
        let ghost before = path@;
        let name = copy_bytes(input[0].as_slice());
        if tail.len() > 0 && is_token(tail[0].as_slice(), "(") {
            if expanded.len() != 1 || !identifier(expanded[0].as_slice()) || tail.len()
                > MAX_TOKENS - 1 {
                return None;
            }
            let mut invoked = expanded;
            append_tokens(&mut invoked, tail);
            path.push(name);
            proof {
                lemma_push_bytes(before, name);
            }
            let found = visit(
                invoked.as_slice(),
                definitions,
                path,
                left,
                position,
                depth + 1,
            );
            let ghost inner = path@;
            path.pop();
            proof {
                lemma_pop_bytes(inner);
                assert(outside.push(name@).drop_last() =~= outside);
            }
            match found {
                None => {
                    return None;
                },
                Some(less) => {
                    left = less;
                },
            }
        } else {
            path.push(name);
            proof {
                lemma_push_bytes(before, name);
            }
            let found = visit(
                expanded.as_slice(),
                definitions,
                path,
                left,
                position,
                depth + 1,
            );
            let ghost inner = path@;
            path.pop();
            proof {
                lemma_pop_bytes(inner);
                assert(outside.push(name@).drop_last() =~= outside);
            }
            match found {
                None => {
                    return None;
                },
                Some(less) => {
                    left = less;
                },
            }
            // An annotation that follows may use the same macro again.
            match visit(tail, definitions, path, left, position, depth + 1) {
                None => {
                    return None;
                },
                Some(less) => {
                    left = less;
                },
            }
        }
        i += 1;
    }
    Some(left)
}

proof fn lemma_pop_bytes(items: Seq<Vec<u8>>)
    requires
        items.len() > 0,
    ensures
        byte_views(items.drop_last()) == byte_views(items).drop_last(),
{
    assert(byte_views(items.drop_last()) =~= byte_views(items).drop_last());
}

/// Whether a text is an annotation at a position.
pub open spec fn is_annotation_text(
    text: Seq<u8>,
    definitions: Seq<CppMacroAlternatives>,
    position: CppAnnotationPosition,
) -> bool {
    match crate::cpp_tokens::tokens_of(text) {
        None => false,
        Some(input) => read_annotations(
            definitions,
            input,
            Seq::empty(),
            65536,
            position,
            0,
        ) is Some,
    }
}

/// Whether a text is nothing but supported annotations under every visible
/// definition of the macros in it.
///
/// Expansion is bounded to whole annotation wrappers, sequences and aliases. A
/// selector may give the name of a macro with parameters that its invocation
/// follows. Arguments that would be expanded first, token pasting and stringizing
/// stay unknown.
pub fn is_annotation(
    text: &str,
    definitions: &[CppMacroAlternatives],
    position: &CppAnnotationPosition,
) -> (r: bool)
    ensures
        r == is_annotation_text(text.spec_bytes(), definitions@, *position),
{
    let input = match crate::cpp_tokens::tokens(text.as_bytes()) {
        None => {
            return false;
        },
        Some(input) => input,
    };
    let mut path: Vec<Vec<u8>> = Vec::new();
    assert(byte_views(path@) =~= Seq::empty());
    visit(input.as_slice(), definitions, &mut path, 65536, *position, 0).is_some()
}

proof fn lemma_reading_spends(
    definitions: Seq<CppMacroAlternatives>,
    input: Seq<Seq<u8>>,
    path: Seq<Seq<u8>>,
    remaining: nat,
    position: CppAnnotationPosition,
    depth: nat,
)
    ensures
        match read_annotations(definitions, input, path, remaining, position, depth) {
            None => true,
            Some(left) => left + total_bytes(input) <= remaining,
        },
    decreases 33 - depth, 1int, 0int,
{
    if depth < 32 && total_bytes(input) <= remaining && input.len() > 0 {
        let left = (remaining - total_bytes(input)) as nat;
        lemma_reading_spends(
            definitions,
            input.skip(head_end(input)),
            path,
            left,
            position,
            depth + 1,
        );
        match alternatives_of(definitions, input[0]) {
            Some(list) => {
                lemma_alternatives_spend(
                    definitions,
                    list,
                    input,
                    path,
                    left,
                    position,
                    depth,
                );
            },
            None => {},
        }
    }
}

proof fn lemma_alternatives_spend(
    definitions: Seq<CppMacroAlternatives>,
    list: Seq<CppMacroDefinition>,
    input: Seq<Seq<u8>>,
    path: Seq<Seq<u8>>,
    remaining: nat,
    position: CppAnnotationPosition,
    depth: nat,
)
    ensures
        match read_alternatives(definitions, list, input, path, remaining, position, depth) {
            None => true,
            Some(left) => left <= remaining,
        },
    decreases 33 - depth, 0int, list.len(),
{
    if list.len() > 0 && depth < 32 && input.len() > 0 {
        let end = head_end(input);
        match expansion(definitions, list[0], input.subrange(1, end), remaining) {
            None => {},
            Some(expanded) => {
                let tail = if list[0].parameters is Some {
                    input.skip(end)
                } else {
                    input.skip(1)
                };
                let inside = path.push(input[0]);
                lemma_spending_of_one(
                    definitions,
                    expanded,
                    tail,
                    inside,
                    path,
                    remaining,
                    position,
                    depth,
                );
                let left = if tail.len() > 0 && token_is(tail[0], "(") {
                    read_annotations(
                        definitions,
                        expanded + tail,
                        inside,
                        remaining,
                        position,
                        depth + 1,
                    )
                } else {
                    match read_annotations(
                        definitions,
                        expanded,
                        inside,
                        remaining,
                        position,
                        depth + 1,
                    ) {
                        None => None,
                        Some(less) => read_annotations(
                            definitions,
                            tail,
                            path,
                            less,
                            position,
                            depth + 1,
                        ),
                    }
                };
                match left {
                    None => {},
                    Some(left) => {
                        lemma_alternatives_spend(
                            definitions,
                            list.drop_first(),
                            input,
                            path,
                            left,
                            position,
                            depth,
                        );
                    },
                }
            },
        }
    }
}

proof fn lemma_spending_of_one(
    definitions: Seq<CppMacroAlternatives>,
    expanded: Seq<Seq<u8>>,
    tail: Seq<Seq<u8>>,
    inside: Seq<Seq<u8>>,
    path: Seq<Seq<u8>>,
    remaining: nat,
    position: CppAnnotationPosition,
    depth: nat,
)
    requires
        depth < 32,
    ensures
        match read_annotations(
            definitions,
            expanded + tail,
            inside,
            remaining,
            position,
            depth + 1,
        ) {
            None => true,
            Some(left) => left <= remaining,
        },
        match read_annotations(definitions, expanded, inside, remaining, position, depth + 1) {
            None => true,
            Some(less) => less <= remaining && match read_annotations(
                definitions,
                tail,
                path,
                less,
                position,
                depth + 1,
            ) {
                None => true,
                Some(left) => left <= less,
            },
        },
    decreases 32 - depth, 2int, 0int,
{
    lemma_reading_spends(definitions, expanded + tail, inside, remaining, position, depth + 1);
    lemma_reading_spends(definitions, expanded, inside, remaining, position, depth + 1);
    match read_annotations(definitions, expanded, inside, remaining, position, depth + 1) {
        None => {},
        Some(less) => {
            lemma_reading_spends(definitions, tail, path, less, position, depth + 1);
        },
    }
}

/// Reading annotations pays for every byte of its tokens: what may still be looked
/// at afterwards is less by at least their length, however many definitions their
/// macros have.
pub proof fn reading_pays_for_its_tokens(
    definitions: Seq<CppMacroAlternatives>,
    input: Seq<Seq<u8>>,
    path: Seq<Seq<u8>>,
    remaining: nat,
    position: CppAnnotationPosition,
    depth: nat,
)
    ensures
        match read_annotations(definitions, input, path, remaining, position, depth) {
            None => true,
            Some(left) => left + total_bytes(input) <= remaining,
        },
{
    lemma_reading_spends(definitions, input, path, remaining, position, depth);
}

proof fn lemma_broken_alternative(
    definitions: Seq<CppMacroAlternatives>,
    list: Seq<CppMacroDefinition>,
    input: Seq<Seq<u8>>,
    path: Seq<Seq<u8>>,
    remaining: nat,
    limit: nat,
    position: CppAnnotationPosition,
    depth: nat,
    broken: int,
)
    requires
        0 <= broken < list.len(),
        input.len() > 0,
        depth < 32,
        remaining <= limit,
        expansion(definitions, list[broken], input.subrange(1, head_end(input)), limit) is None,
    ensures
        read_alternatives(definitions, list, input, path, remaining, position, depth) is None,
    decreases list.len(),
{
    if broken > 0 {
        let end = head_end(input);
        match expansion(definitions, list[0], input.subrange(1, end), remaining) {
            None => {},
            Some(expanded) => {
                let tail = if list[0].parameters is Some {
                    input.skip(end)
                } else {
                    input.skip(1)
                };
                let inside = path.push(input[0]);
                lemma_spending_of_one(
                    definitions,
                    expanded,
                    tail,
                    inside,
                    path,
                    remaining,
                    position,
                    depth,
                );
                let left = if tail.len() > 0 && token_is(tail[0], "(") {
                    read_annotations(
                        definitions,
                        expanded + tail,
                        inside,
                        remaining,
                        position,
                        depth + 1,
                    )
                } else {
                    match read_annotations(
                        definitions,
                        expanded,
                        inside,
                        remaining,
                        position,
                        depth + 1,
                    ) {
                        None => None,
                        Some(less) => read_annotations(
                            definitions,
                            tail,
                            path,
                            less,
                            position,
                            depth + 1,
                        ),
                    }
                };
                match left {
                    None => {},
                    Some(left) => {
                        assert(list.drop_first()[broken - 1] == list[broken]);
                        lemma_broken_alternative(
                            definitions,
                            list.drop_first(),
                            input,
                            path,
                            left,
                            limit,
                            position,
                            depth,
                            broken - 1,
                        );
                    },
                }
            },
        }
    }
}

proof fn lemma_group_end(tokens: Seq<Seq<u8>>, at: int, depth: nat)
    requires
        0 <= at,
        tokens.len() <= MAX_TOKENS,
    ensures
        match group_end(tokens, at, depth) {
            None => true,
            Some(end) => at < end <= tokens.len(),
        },
    decreases tokens.len() - at,
{
    if at < tokens.len() {
        if token_is(tokens[at], "(") {
            lemma_group_end(tokens, at + 1, depth + 1);
        } else if token_is(tokens[at], ")") {
            if depth > 1 {
                lemma_group_end(tokens, at + 1, (depth - 1) as nat);
            }
        } else {
            lemma_group_end(tokens, at + 1, depth);
        }
    }
}

/// A text that a macro begins is an annotation only where each of the definitions
/// of that macro can be applied: one definition that cannot be, or an entry without
/// any definition, makes the whole text unknown.
pub proof fn every_definition_must_apply(
    text: Seq<u8>,
    definitions: Seq<CppMacroAlternatives>,
    position: CppAnnotationPosition,
    input: Seq<Seq<u8>>,
    list: Seq<CppMacroDefinition>,
)
    requires
        crate::cpp_tokens::tokens_of(text) == Some(input),
        input.len() > 0,
        alternatives_of(definitions, input[0]) == Some(list),
        list.len() == 0 || exists|k: int|
            0 <= k < list.len() && expansion(
                definitions,
                #[trigger] list[k],
                input.subrange(1, head_end(input)),
                65536,
            ) is None,
    ensures
        !is_annotation_text(text, definitions, position),
{
    let head = input.take(head_end(input));
    lemma_group_end(input, 1, 0);
    assert(head[0] == input[0]);
    assert(has_macro(definitions, head));
    if list.len() > 0 && total_bytes(input) <= 65536 {
        let broken = choose|k: int|
            0 <= k < list.len() && expansion(
                definitions,
                #[trigger] list[k],
                input.subrange(1, head_end(input)),
                65536,
            ) is None;
        lemma_broken_alternative(
            definitions,
            list,
            input,
            Seq::empty(),
            (65536 - total_bytes(input)) as nat,
            65536,
            position,
            0,
            broken,
        );
    }
}

/// A text that begins with an unknown name which is no supported attribute is no
/// annotation.
pub proof fn an_unknown_name_is_no_annotation(
    text: Seq<u8>,
    definitions: Seq<CppMacroAlternatives>,
    position: CppAnnotationPosition,
    input: Seq<Seq<u8>>,
)
    requires
        crate::cpp_tokens::tokens_of(text) == Some(input),
        input.len() > 0,
        alternatives_of(definitions, input[0]) is None,
        !is_attribute(input.take(head_end(input)), position),
    ensures
        !is_annotation_text(text, definitions, position),
{
}

/// An undefined macro, or one whose replacement is not known, makes the text that it
/// begins unknown, whatever else it may stand for.
pub proof fn an_undefined_macro_is_no_annotation(
    text: Seq<u8>,
    definitions: Seq<CppMacroAlternatives>,
    position: CppAnnotationPosition,
    input: Seq<Seq<u8>>,
    list: Seq<CppMacroDefinition>,
    unknown: int,
)
    requires
        crate::cpp_tokens::tokens_of(text) == Some(input),
        input.len() > 0,
        alternatives_of(definitions, input[0]) == Some(list),
        0 <= unknown < list.len(),
        list[unknown].replacement is None,
    ensures
        !is_annotation_text(text, definitions, position),
{
    assert(expansion(
        definitions,
        list[unknown],
        input.subrange(1, head_end(input)),
        65536,
    ) is None);
    every_definition_must_apply(text, definitions, position, input, list);
}

/// Whether definitions are some of others, in their order.
pub open spec fn are_among(
    kept: Seq<CppMacroDefinition>,
    list: Seq<CppMacroDefinition>,
) -> bool
    decreases list.len(),
{
    if list.len() == 0 {
        kept.len() == 0
    } else {
        are_among(kept, list.drop_first()) || (kept.len() > 0 && kept[0]@ == list[0]@
            && are_among(kept.drop_first(), list.drop_first()))
    }
}

/// Whether an entry has some of the definitions of another, and has one where the
/// other has one.
pub open spec fn is_narrower(kept: CppMacroAlternatives, whole: CppMacroAlternatives) -> bool {
    &&& kept.name@ == whole.name@
    &&& are_among(kept.alternatives@, whole.alternatives@)
    &&& whole.alternatives@.len() > 0 ==> kept.alternatives@.len() > 0
}

/// Whether the same macros are defined, each by some of its definitions.
pub open spec fn are_narrower(
    kept: Seq<CppMacroAlternatives>,
    definitions: Seq<CppMacroAlternatives>,
) -> bool {
    kept.len() == definitions.len() && forall|i: int|
        0 <= i < kept.len() ==> is_narrower(#[trigger] kept[i], definitions[i])
}

proof fn lemma_narrower_list(
    kept: Seq<CppMacroAlternatives>,
    definitions: Seq<CppMacroAlternatives>,
    name: Seq<u8>,
)
    requires
        are_narrower(kept, definitions),
    ensures
        match alternatives_of(definitions, name) {
            None => alternatives_of(kept, name) is None,
            Some(list) => match alternatives_of(kept, name) {
                None => false,
                Some(fewer) => are_among(fewer, list) && (list.len() > 0 ==> fewer.len() > 0),
            },
        },
    decreases definitions.len(),
{
    if definitions.len() > 0 {
        assert(is_narrower(kept[0], definitions[0]));
        assert forall|i: int| 0 <= i < kept.drop_first().len() implies is_narrower(
            #[trigger] kept.drop_first()[i],
            definitions.drop_first()[i],
        ) by {
            assert(is_narrower(kept[i + 1], definitions[i + 1]));
        }
        lemma_narrower_list(kept.drop_first(), definitions.drop_first(), name);
    }
}

proof fn lemma_object_like_among(kept: Seq<CppMacroDefinition>, list: Seq<CppMacroDefinition>)
    requires
        are_among(kept, list),
        has_object_like(kept),
    ensures
        has_object_like(list),
    decreases list.len(),
{
    let k = choose|k: int| 0 <= k < kept.len() && (#[trigger] kept[k]).parameters is None;
    let rest = list.drop_first();
    if are_among(kept, rest) {
        lemma_object_like_among(kept, rest);
        let j = choose|j: int| 0 <= j < rest.len() && (#[trigger] rest[j]).parameters is None;
        assert(list[j + 1] == rest[j]);
    } else if k == 0 {
        assert(kept[0]@.parameters is None);
        assert(list[0]@.parameters is None);
        assert(list[0].parameters is None);
    } else {
        assert(kept.drop_first()[k - 1] == kept[k]);
        lemma_object_like_among(kept.drop_first(), rest);
        let j = choose|j: int| 0 <= j < rest.len() && (#[trigger] rest[j]).parameters is None;
        assert(list[j + 1] == rest[j]);
    }
}

proof fn lemma_narrower_expansion(
    kept: Seq<CppMacroAlternatives>,
    definitions: Seq<CppMacroAlternatives>,
    same: CppMacroDefinition,
    definition: CppMacroDefinition,
    invocation: Seq<Seq<u8>>,
    limit: nat,
    higher: nat,
)
    requires
        are_narrower(kept, definitions),
        same@ == definition@,
        limit <= higher,
        expansion(definitions, definition, invocation, limit) is Some,
    ensures
        expansion(kept, same, invocation, higher) == expansion(
            definitions,
            definition,
            invocation,
            limit,
        ),
{
    match parenthesized_arguments(invocation) {
        None => {},
        Some(written) => {
            if definition.parameters is Some {
                let arguments = matching_arguments(
                    text_views(definition.parameters->0@),
                    written,
                );
                if needs_expansion(kept, arguments) {
                    let (i, k) = choose|i: int, k: int|
                        0 <= i < arguments.len() && 0 <= k < arguments[i].len()
                            && #[trigger] is_expanded_first(kept, arguments[i], k);
                    lemma_narrower_list(kept, definitions, arguments[i][k]);
                    let fewer = alternatives_of(kept, arguments[i][k])->0;
                    let list = alternatives_of(definitions, arguments[i][k])->0;
                    if has_object_like(fewer) {
                        lemma_object_like_among(fewer, list);
                    }
                    assert(is_expanded_first(definitions, arguments[i], k));
                }
            }
        },
    }
}

proof fn lemma_narrower_macros(
    kept: Seq<CppMacroAlternatives>,
    definitions: Seq<CppMacroAlternatives>,
    tokens: Seq<Seq<u8>>,
)
    requires
        are_narrower(kept, definitions),
    ensures
        has_macro(kept, tokens) == has_macro(definitions, tokens),
{
    assert forall|name: Seq<u8>| #[trigger] is_defined(kept, name) == is_defined(
        definitions,
        name,
    ) by {
        lemma_narrower_list(kept, definitions, name);
    }
    if has_macro(definitions, tokens) {
        let k = choose|k: int| 0 <= k < tokens.len() && is_defined(definitions, #[trigger] tokens[k]);
        assert(is_defined(kept, tokens[k]));
    }
}

proof fn lemma_narrower_reading(
    kept: Seq<CppMacroAlternatives>,
    definitions: Seq<CppMacroAlternatives>,
    input: Seq<Seq<u8>>,
    path: Seq<Seq<u8>>,
    remaining: nat,
    higher: nat,
    position: CppAnnotationPosition,
    depth: nat,
)
    requires
        are_narrower(kept, definitions),
        remaining <= higher,
    ensures
        match read_annotations(definitions, input, path, remaining, position, depth) {
            None => true,
            Some(left) => match read_annotations(kept, input, path, higher, position, depth) {
                None => false,
                Some(more) => left <= more,
            },
        },
    decreases 33 - depth, 1int, 0int,
{
    if depth < 32 && total_bytes(input) <= remaining && input.len() > 0 {
        let left = (remaining - total_bytes(input)) as nat;
        let more = (higher - total_bytes(input)) as nat;
        let end = head_end(input);
        lemma_narrower_macros(kept, definitions, input.take(end));
        lemma_narrower_list(kept, definitions, input[0]);
        if is_attribute(input.take(end), position) && !has_macro(definitions, input.take(end)) {
            lemma_narrower_reading(
                kept,
                definitions,
                input.skip(end),
                path,
                left,
                more,
                position,
                depth + 1,
            );
        } else {
            match alternatives_of(definitions, input[0]) {
                Some(list) => {
                    lemma_narrower_alternatives(
                        kept,
                        definitions,
                        alternatives_of(kept, input[0])->0,
                        list,
                        input,
                        path,
                        left,
                        more,
                        position,
                        depth,
                    );
                },
                None => {},
            }
        }
    }
}

/// What may still be looked at when one definition of the macro that begins some tokens
/// was applied to them.
spec fn read_one(
    definitions: Seq<CppMacroAlternatives>,
    definition: CppMacroDefinition,
    input: Seq<Seq<u8>>,
    path: Seq<Seq<u8>>,
    remaining: nat,
    position: CppAnnotationPosition,
    depth: nat,
) -> Option<nat> {
    let inside = path.push(input[0]);
    let end = head_end(input);
    match expansion(definitions, definition, input.subrange(1, end), remaining) {
        None => None,
        Some(expanded) => {
            let tail = if definition.parameters is Some {
                input.skip(end)
            } else {
                input.skip(1)
            };
            if tail.len() > 0 && token_is(tail[0], "(") {
                if expanded.len() == 1 && is_identifier(expanded[0]) && 1 + tail.len()
                    <= MAX_TOKENS {
                    read_annotations(
                        definitions,
                        expanded + tail,
                        inside,
                        remaining,
                        position,
                        depth + 1,
                    )
                } else {
                    None
                }
            } else {
                match read_annotations(
                    definitions,
                    expanded,
                    inside,
                    remaining,
                    position,
                    depth + 1,
                ) {
                    None => None,
                    Some(less) => read_annotations(
                        definitions,
                        tail,
                        path,
                        less,
                        position,
                        depth + 1,
                    ),
                }
            }
        },
    }
}

proof fn lemma_narrower_one(
    kept: Seq<CppMacroAlternatives>,
    definitions: Seq<CppMacroAlternatives>,
    same: CppMacroDefinition,
    definition: CppMacroDefinition,
    input: Seq<Seq<u8>>,
    path: Seq<Seq<u8>>,
    remaining: nat,
    higher: nat,
    position: CppAnnotationPosition,
    depth: nat,
)
    requires
        are_narrower(kept, definitions),
        same@ == definition@,
        remaining <= higher,
        depth < 32,
        read_one(definitions, definition, input, path, remaining, position, depth) is Some,
    ensures
        match read_one(kept, same, input, path, higher, position, depth) {
            None => false,
            Some(more) => read_one(definitions, definition, input, path, remaining, position, depth)->0
                <= more,
        },
    decreases 32 - depth, 2int, 0int,
{
    let inside = path.push(input[0]);
    let end = head_end(input);
    let invocation = input.subrange(1, end);
    lemma_narrower_expansion(kept, definitions, same, definition, invocation, remaining, higher);
    assert(same@.parameters is Some == definition@.parameters is Some);
    let expanded = expansion(definitions, definition, invocation, remaining)->0;
    let tail = if definition.parameters is Some {
        input.skip(end)
    } else {
        input.skip(1)
    };
    if tail.len() > 0 && token_is(tail[0], "(") {
        lemma_narrower_reading(
            kept,
            definitions,
            expanded + tail,
            inside,
            remaining,
            higher,
            position,
            depth + 1,
        );
    } else {
        lemma_narrower_reading(
            kept,
            definitions,
            expanded,
            inside,
            remaining,
            higher,
            position,
            depth + 1,
        );
        lemma_narrower_reading(
            kept,
            definitions,
            tail,
            path,
            read_annotations(definitions, expanded, inside, remaining, position, depth + 1)->0,
            read_annotations(kept, expanded, inside, higher, position, depth + 1)->0,
            position,
            depth + 1,
        );
    }
}

proof fn lemma_narrower_alternatives(
    kept: Seq<CppMacroAlternatives>,
    definitions: Seq<CppMacroAlternatives>,
    fewer: Seq<CppMacroDefinition>,
    list: Seq<CppMacroDefinition>,
    input: Seq<Seq<u8>>,
    path: Seq<Seq<u8>>,
    remaining: nat,
    higher: nat,
    position: CppAnnotationPosition,
    depth: nat,
)
    requires
        are_narrower(kept, definitions),
        are_among(fewer, list),
        remaining <= higher,
    ensures
        match read_alternatives(definitions, list, input, path, remaining, position, depth) {
            None => true,
            Some(left) => match read_alternatives(
                kept,
                fewer,
                input,
                path,
                higher,
                position,
                depth,
            ) {
                None => false,
                Some(more) => left <= more,
            },
        },
    decreases 33 - depth, 0int, list.len(),
{
    if list.len() > 0 && depth < 32 && input.len() > 0 {
        let one = read_one(definitions, list[0], input, path, remaining, position, depth);
        assert(read_alternatives(definitions, list, input, path, remaining, position, depth) == (
        match one {
            None => None,
            Some(left) => read_alternatives(
                definitions,
                list.drop_first(),
                input,
                path,
                left,
                position,
                depth,
            ),
        }));
        if one is Some {
            if are_among(fewer, list.drop_first()) {
                let end = head_end(input);
                let expanded = expansion(
                    definitions,
                    list[0],
                    input.subrange(1, end),
                    remaining,
                )->0;
                let tail = if list[0].parameters is Some {
                    input.skip(end)
                } else {
                    input.skip(1)
                };
                lemma_spending_of_one(
                    definitions,
                    expanded,
                    tail,
                    path.push(input[0]),
                    path,
                    remaining,
                    position,
                    depth,
                );
                lemma_narrower_alternatives(
                    kept,
                    definitions,
                    fewer,
                    list.drop_first(),
                    input,
                    path,
                    one->0,
                    higher,
                    position,
                    depth,
                );
            } else {
                let same = read_one(kept, fewer[0], input, path, higher, position, depth);
                lemma_narrower_one(
                    kept,
                    definitions,
                    fewer[0],
                    list[0],
                    input,
                    path,
                    remaining,
                    higher,
                    position,
                    depth,
                );
                assert(read_alternatives(kept, fewer, input, path, higher, position, depth)
                    == read_alternatives(
                    kept,
                    fewer.drop_first(),
                    input,
                    path,
                    same->0,
                    position,
                    depth,
                ));
                lemma_narrower_alternatives(
                    kept,
                    definitions,
                    fewer.drop_first(),
                    list.drop_first(),
                    input,
                    path,
                    one->0,
                    same->0,
                    position,
                    depth,
                );
            }
        }
    }
}

/// Leaving out some of the definitions of macros, but not all of one macro, keeps an
/// annotation an annotation: it was one under every definition, so it is one under
/// those that stay.
pub proof fn fewer_definitions_keep_an_annotation(
    text: Seq<u8>,
    definitions: Seq<CppMacroAlternatives>,
    kept: Seq<CppMacroAlternatives>,
    position: CppAnnotationPosition,
)
    requires
        are_narrower(kept, definitions),
        is_annotation_text(text, definitions, position),
    ensures
        is_annotation_text(text, kept, position),
{
    let input = crate::cpp_tokens::tokens_of(text)->0;
    lemma_narrower_reading(kept, definitions, input, Seq::empty(), 65536, 65536, position, 0);
}

} // verus!
