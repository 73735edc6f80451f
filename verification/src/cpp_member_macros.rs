//! Bounded name inventories of actual class-member macro definitions.
//!
//! This publishes no expanded symbols or callable bodies. It can narrow a
//! restriction on unknown names to the names that every supplied replacement
//! introduces. Preprocessing or declarations that are not supported stay unknown.

use crate::cpp_annotations::{
    append_tokens, close_from, comma_parts, group_end, holds_bytes, invocation_arguments,
    invocation_end, invocation_reach, invocation_tokens, invocation_tokens_end, list_views,
    parenthesized_arguments, split_commas,
};
use crate::cpp_facts::{
    alternatives_of, find_alternatives, is_defined, lemma_push_text, text_views,
    CppMacroAlternatives, CppMacroDefinition, CppMemberMacro,
};
use crate::cpp_tokens::{
    blank_run, blank_run_end, byte_at, find_pair, find_pair_from, has_pair_at, identifier,
    is_identifier, is_token, lemma_run_end, line_run, line_run_end, lists, pair_at, place_of,
    run_end, token_is, tokens, tokens_of, word_run, word_run_end, BACKSLASH, MAX_FRAGMENT_BYTES,
    NEWLINE, OPEN, QUOTE, SEMICOLON, SLASH, STAR, UNDERSCORE,
};
use crate::facts::TextRange;
use crate::syntax::{Field, Kind, SyntaxTree};
use crate::text::{
    append_bytes, byte_views, copy_bytes, join, joined, lemma_push_bytes, same_bytes, Text,
};
use vstd::prelude::*;
use vstd::string::StringSliceAdditionalSpecFns;

verus! {

broadcast use {SyntaxTree::parent_comes_first, SyntaxTree::children_come_later};

/// Whether a part of a parameter list is the one name of a parameter that is not
/// among others.
pub open spec fn is_parameter_name(part: Seq<Seq<u8>>, names: Seq<Seq<u8>>) -> bool {
    &&& part.len() == 1
    &&& is_identifier(part[0])
    &&& !token_is(part[0], "__VA_ARGS__")
    &&& !names.contains(part[0])
}

/// The names of parameters, each part of the list being a different name.
pub open spec fn parameter_names(parts: Seq<Seq<Seq<u8>>>) -> Option<Seq<Seq<u8>>>
    decreases parts.len(),
{
    if parts.len() == 0 {
        Some(Seq::empty())
    } else {
        match parameter_names(parts.drop_last()) {
            Some(names) if is_parameter_name(parts.last(), names) => Some(
                names.push(parts.last()[0]),
            ),
            _ => None,
        }
    }
}

/// The names of the parameters that a macro definition lists in parentheses, and
/// whether more arguments may follow.
pub open spec fn parameters_of(source: Seq<u8>) -> Option<(Seq<Seq<u8>>, bool)> {
    match tokens_of(source) {
        None => None,
        Some(list) => if list.len() < 2 || !token_is(list[0], "(") || !token_is(list.last(), ")") {
            None
        } else {
            let inner = list.subrange(1, list.len() - 1);
            let parts = comma_parts(inner);
            if inner.len() == 0 {
                Some((Seq::empty(), false))
            } else if parts.last().len() == 1 && token_is(parts.last()[0], "...") {
                match parameter_names(parts.drop_last()) {
                    None => None,
                    Some(names) => Some((names, true)),
                }
            } else {
                match parameter_names(parts) {
                    None => None,
                    Some(names) => Some((names, false)),
                }
            }
        },
    }
}

proof fn lemma_parts_not_empty(tokens: Seq<Seq<u8>>)
    ensures
        comma_parts(tokens).len() > 0,
    decreases tokens.len(),
{
    if tokens.len() > 0 {
        lemma_parts_not_empty(tokens.drop_last());
    }
}

proof fn lemma_names_stay(parts: Seq<Seq<Seq<u8>>>, count: int)
    requires
        0 <= count <= parts.len(),
        parameter_names(parts.take(count)) is None,
    ensures
        parameter_names(parts) is None,
    decreases parts.len(),
{
    if count == parts.len() {
        assert(parts.take(count) =~= parts);
    } else {
        assert(parts.drop_last().take(count) =~= parts.take(count));
        lemma_names_stay(parts.drop_last(), count);
    }
}

fn holds_text(items: &[Text], item: &[u8]) -> (r: bool)
    ensures
        r == text_views(items@).contains(item@),
{
    let ghost views = text_views(items@);
    let mut i: usize = 0;
    while i < items.len()
        invariant
            i <= items@.len(),
            views == text_views(items@),
            forall|k: int| 0 <= k < i ==> views[k] != item@,
        decreases items@.len() - i,
    {
        assert(views[i as int] == items@[i as int]@);
        if same_bytes(items[i].as_bytes(), item) {
            assert(views[i as int] == item@);
            return true;
        }
        i += 1;
    }
    false
}

fn read_names(parts: &[Vec<Vec<u8>>], count: usize) -> (r: Option<Vec<Text>>)
    requires
        count <= parts@.len(),
    ensures
        match r {
            None => parameter_names(list_views(parts@).take(count as int)) is None,
            Some(names) => parameter_names(list_views(parts@).take(count as int)) == Some(
                text_views(names@),
            ),
        },
{
    let ghost views = list_views(parts@).take(count as int);
    let mut names: Vec<Text> = Vec::new();
    let mut i: usize = 0;
    assert(text_views(names@) =~= Seq::empty());
    assert(views.take(0) =~= Seq::empty());
    while i < count
        invariant
            i <= count,
            count <= parts@.len(),
            views == list_views(parts@).take(count as int),
            parameter_names(views.take(i as int)) == Some(text_views(names@)),
        decreases count - i,
    {
        let ghost part = views.take(i + 1);
        proof {
            assert(part.drop_last() =~= views.take(i as int));
            assert(part.last() == byte_views(parts@[i as int]@));
            if parameter_names(part) is None {
                lemma_names_stay(views, i + 1);
            }
        }
        if parts[i].len() != 1 {
            return None;
        }
        let name = parts[i][0].as_slice();
        assert(part.last()[0] == name@);
        if !identifier(name) || is_token(name, "__VA_ARGS__") || holds_text(
            names.as_slice(),
            name,
        ) {
            return None;
        }
        let ghost before = names@;
        let item = Text::from_bytes(name);
        names.push(item);
        proof {
            lemma_push_text(before, item);
        }
        i += 1;
    }
    assert(views.take(i as int) =~= views);
    Some(names)
}

/// The names of the parameters that a macro definition lists in parentheses, and
/// whether more arguments may follow.
pub fn parameters(source: &[u8]) -> (r: Option<(Vec<Text>, bool)>)
    ensures
        match r {
            None => parameters_of(source@) is None,
            Some((names, variadic)) => parameters_of(source@) == Some(
                (text_views(names@), variadic),
            ),
        },
{
    let list = match tokens(source) {
        None => {
            return None;
        },
        Some(list) => list,
    };
    let ghost views = byte_views(list@);
    let count: usize = list.len();
    if count < 2 || !is_token(list[0].as_slice(), "(") || !is_token(
        list[count - 1].as_slice(),
        ")",
    ) {
        return None;
    }
    let all = list.as_slice();
    let inner = &all[1..count - 1];
    assert(byte_views(inner@) =~= views.subrange(1, count - 1));
    if inner.len() == 0 {
        let none: Vec<Text> = Vec::new();
        assert(text_views(none@) =~= Seq::empty());
        return Some((none, false));
    }
    let parts = split_commas(inner);
    let ghost pieces = list_views(parts@);
    proof {
        lemma_parts_not_empty(views.subrange(1, count - 1));
    }
    let last: usize = parts.len() - 1;
    assert(pieces.last() == byte_views(parts@[last as int]@));
    if parts[last].len() == 1 && is_token(parts[last][0].as_slice(), "...") {
        assert(pieces.take(last as int) =~= pieces.drop_last());
        return match read_names(parts.as_slice(), last) {
            None => None,
            Some(names) => Some((names, true)),
        };
    }
    assert(pieces.take(parts@.len() as int) =~= pieces);
    match read_names(parts.as_slice(), parts.len()) {
        None => None,
        Some(names) => Some((names, false)),
    }
}

/// A whole invocation: its name, its arguments, and whether a semicolon follows.
#[verifier::ext_equal]
pub struct InvocationView {
    pub name: Seq<u8>,
    pub arguments: Seq<Seq<Seq<u8>>>,
    pub semicolon: bool,
}

/// The invocation that a text is: nothing else, but for a semicolon.
pub open spec fn invocation_of(source: Seq<u8>) -> Option<InvocationView> {
    match tokens_of(source) {
        None => None,
        Some(list) => match invocation_tokens(list) {
            Some(end) if is_identifier(list[0]) && (end == list.len() || (end + 1 == list.len()
                && token_is(list[end as int], ";"))) => match parenthesized_arguments(
                list.subrange(1, end as int),
            ) {
                None => None,
                Some(arguments) => Some(
                    InvocationView { name: list[0], arguments, semicolon: end < list.len() },
                ),
            },
            _ => None,
        },
    }
}

/// A whole invocation.
pub struct Invocation {
    pub name: Vec<u8>,
    pub arguments: Vec<Vec<Vec<u8>>>,
    pub semicolon: bool,
}

impl View for Invocation {
    type V = InvocationView;

    open spec fn view(&self) -> InvocationView {
        InvocationView {
            name: self.name@,
            arguments: list_views(self.arguments@),
            semicolon: self.semicolon,
        }
    }
}

/// The invocation that a text is: nothing else, but for a semicolon.
pub fn invocation(source: &[u8]) -> (r: Option<Invocation>)
    ensures
        match r {
            None => invocation_of(source@) is None,
            Some(found) => invocation_of(source@) == Some(found@),
        },
{
    let list = match tokens(source) {
        None => {
            return None;
        },
        Some(list) => list,
    };
    let ghost views = byte_views(list@);
    let all = list.as_slice();
    let end: usize = match invocation_tokens_end(all) {
        None => {
            return None;
        },
        Some(end) => end,
    };
    if !identifier(all[0].as_slice()) {
        return None;
    }
    let count: usize = all.len();
    if end != count && !(end + 1 == count && is_token(all[end].as_slice(), ";")) {
        return None;
    }
    let group = &all[1..end];
    assert(byte_views(group@) =~= views.subrange(1, end as int));
    match invocation_arguments(group) {
        None => None,
        Some(arguments) => Some(
            Invocation { name: copy_bytes(all[0].as_slice()), arguments, semicolon: end < count },
        ),
    }
}

/// The invocations of known macros that tokens consist of, each as its name and its
/// text, from a token on. Semicolons may stand between them and belong to the
/// invocation before them.
pub open spec fn invocations_from(
    tokens: Seq<Seq<u8>>,
    definitions: Seq<CppMacroAlternatives>,
    at: int,
) -> Option<Seq<(Seq<u8>, Seq<u8>)>>
    decreases tokens.len() - at,
{
    if at < 0 || at >= tokens.len() {
        Some(Seq::empty())
    } else if token_is(tokens[at], ";") {
        invocations_from(tokens, definitions, at + 1)
    } else if !is_identifier(tokens[at]) || !is_defined(definitions, tokens[at]) || at + 1
        >= tokens.len() || !token_is(tokens[at + 1], "(") {
        None
    } else {
        match group_end(tokens, at + 1, 0) {
            None => None,
            Some(close) => {
                let end = if close < tokens.len() && token_is(tokens[close as int], ";") {
                    close + 1
                } else {
                    close as int
                };
                if at < end <= tokens.len() {
                    match invocations_from(tokens, definitions, end) {
                        None => None,
                        Some(rest) => Some(
                            seq![
                                (
                                    tokens[at],
                                    joined(tokens.subrange(at, end), " ".spec_bytes()),
                                ),
                            ] + rest,
                        ),
                    }
                } else {
                    None
                }
            },
        }
    }
}

/// The invocations of known macros that a fragment consists of; nothing where it
/// holds none, or anything else.
pub open spec fn invocations_of(
    fragment: Seq<u8>,
    definitions: Seq<CppMacroAlternatives>,
) -> Option<Seq<(Seq<u8>, Seq<u8>)>> {
    match tokens_of(fragment) {
        None => None,
        Some(list) => match invocations_from(list, definitions, 0) {
            Some(sites) if sites.len() > 0 => Some(sites),
            _ => None,
        },
    }
}

/// Pairs of byte strings, by value.
pub open spec fn pair_views(items: Seq<(Vec<u8>, Vec<u8>)>) -> Seq<(Seq<u8>, Seq<u8>)> {
    items.map_values(|item: (Vec<u8>, Vec<u8>)| (item.0@, item.1@))
}

fn find_group_end(tokens: &[Vec<u8>], at: usize) -> (r: Option<usize>)
    requires
        at < tokens@.len(),
    ensures
        r == group_end(byte_views(tokens@), at as int, 0),
        r is Some ==> at < r->0 <= tokens@.len(),
{
    let ghost views = byte_views(tokens@);
    let mut depth: usize = 0;
    let mut i: usize = at;
    while i < tokens.len()
        invariant
            at <= i <= tokens@.len(),
            views == byte_views(tokens@),
            depth <= i - at,
            group_end(views, at as int, 0) == group_end(views, i as int, depth as nat),
        decreases tokens@.len() - i,
    {
        assert(views[i as int] == tokens@[i as int]@);
        let token = tokens[i].as_slice();
        if is_token(token, "(") {
            depth += 1;
        } else if is_token(token, ")") {
            if depth == 0 {
                return None;
            }
            if depth == 1 {
                return Some(i + 1);
            }
            depth -= 1;
        }
        i += 1;
    }
    None
}

/// The invocations of known macros that a fragment consists of.
pub fn invocation_sequence(
    fragment: &[u8],
    definitions: &[CppMacroAlternatives],
) -> (r: Option<Vec<(Vec<u8>, Vec<u8>)>>)
    ensures
        match r {
            None => invocations_of(fragment@, definitions@) is None,
            Some(sites) => invocations_of(fragment@, definitions@) == Some(pair_views(sites@)),
        },
{
    let list = match tokens(fragment) {
        None => {
            return None;
        },
        Some(list) => list,
    };
    let all = list.as_slice();
    let ghost views = byte_views(all@);
    let ghost whole = invocations_from(views, definitions@, 0);
    let count: usize = all.len();
    let mut sites: Vec<(Vec<u8>, Vec<u8>)> = Vec::new();
    let mut at: usize = 0;
    proof {
        assert(pair_views(sites@) =~= Seq::empty());
        if let Some(rest) = whole {
            assert(Seq::<(Seq<u8>, Seq<u8>)>::empty() + rest =~= rest);
        }
    }
    while at < count
        invariant
            at <= count,
            count == all@.len(),
            views == byte_views(all@),
            tokens_of(fragment@) == Some(views),
            whole == invocations_from(views, definitions@, 0),
            match invocations_from(views, definitions@, at as int) {
                None => whole is None,
                Some(rest) => whole == Some(pair_views(sites@) + rest),
            },
        decreases count - at,
    {
        let token = all[at].as_slice();
        assert(views[at as int] == token@);
        if is_token(token, ";") {
            at += 1;
            continue ;
        }
        if !identifier(token) || find_alternatives(definitions, token).is_none() || at + 1 >= count
            || !is_token(all[at + 1].as_slice(), "(") {
            return None;
        }
        let close: usize = match find_group_end(all, at + 1) {
            None => {
                return None;
            },
            Some(close) => close,
        };
        let end: usize = if close < count && is_token(all[close].as_slice(), ";") {
            close + 1
        } else {
            close
        };
        let part = &all[at..end];
        assert(byte_views(part@) =~= views.subrange(at as int, end as int));
        let text = join(part, " ".as_bytes());
        let ghost before = sites@;
        let site = (copy_bytes(token), text);
        sites.push(site);
        proof {
            assert(pair_views(sites@) =~= pair_views(before).push((site.0@, site.1@)));
            if let Some(rest) = invocations_from(views, definitions@, end as int) {
                assert(pair_views(before) + (seq![(site.0@, site.1@)] + rest) =~= pair_views(
                    sites@,
                ) + rest);
            }
        }
        at = end;
    }
    assert(pair_views(sites@) + Seq::<(Seq<u8>, Seq<u8>)>::empty() =~= pair_views(sites@));
    if sites.len() == 0 {
        return None;
    }
    Some(sites)
}

/// Where blank bytes and comments end; nothing where a comment does not end.
pub open spec fn trivia_end(bytes: Seq<u8>, at: int) -> Option<usize>
    decreases bytes.len() - at,
    via trivia_end_decreases
{
    let start = blank_run(bytes, at);
    if at < 0 || at > bytes.len() {
        Some(at as usize)
    } else if pair_at(bytes, start, SLASH, STAR) {
        match find_pair(bytes, start + 2, STAR, SLASH) {
            Some(end) if start < end && end + 1 < bytes.len() => trivia_end(bytes, end + 2),
            _ => None,
        }
    } else if pair_at(bytes, start, SLASH, SLASH) {
        trivia_end(bytes, line_run(bytes, start))
    } else {
        Some(start as usize)
    }
}

#[via_fn]
proof fn trivia_end_decreases(bytes: Seq<u8>, at: int) {
    if 0 <= at <= bytes.len() {
        lemma_run_end(bytes, at, |b: u8| crate::cpp_tokens::is_blank(b));
        let start = blank_run(bytes, at);
        if pair_at(bytes, start, SLASH, SLASH) {
            let within = |b: u8| b != NEWLINE;
            assert(run_end(bytes, start, within) == run_end(bytes, start + 1, within));
            lemma_run_end(bytes, start + 1, within);
        }
    }
}

/// Where blank bytes and comments end; nothing where a comment does not end.
pub fn skip_trivia(source: &[u8], at: usize) -> (r: Option<usize>)
    requires
        at <= source@.len(),
    ensures
        r == trivia_end(source@, at as int),
        r is Some ==> at <= r->0 <= source@.len(),
{
    let count: usize = source.len();
    let mut i: usize = at;
    loop
        invariant
            count == source@.len(),
            at <= i <= source@.len(),
            trivia_end(source@, at as int) == trivia_end(source@, i as int),
        decreases source@.len() - i,
    {
        let start = blank_run_end(source, i);
        if has_pair_at(source, start, SLASH, STAR) {
            match find_pair_from(source, start + 2, STAR, SLASH) {
                None => {
                    return None;
                },
                Some(end) => {
                    i = end + 2;
                },
            }
        } else if has_pair_at(source, start, SLASH, SLASH) {
            proof {
                let within = |b: u8| b != NEWLINE;
                assert(run_end(source@, start as int, within) == run_end(
                    source@,
                    start + 1,
                    within,
                ));
                lemma_run_end(source@, start + 1, within);
            }
            i = line_run_end(source, start);
        } else {
            return Some(start);
        }
    }
}

/// The name and the range of an invocation that stands where a member is declared.
pub open spec fn candidate_of(tree: SyntaxTree, n: usize) -> Option<(Seq<u8>, TextRange)> {
    match (tree.parent_of(n), tree.text_of(n)) {
        (Some(list), Some(raw)) => if tree.kind_of(list) != Kind::FieldDeclarationList
            || !can_be_member_macro(tree.kind_of(n)) {
            None
        } else {
            match (invoked_text(raw), tree.parent_of(list)) {
                (Some((name, end)), Some(record)) => if names_record(tree, record, name)
                    || has_primitive_type(tree, n) {
                    None
                } else {
                    match prefix_range(tree.range_of(n), raw, end as int) {
                        None => None,
                        Some(range) => Some((name, range)),
                    }
                },
                _ => None,
            }
        },
        _ => None,
    }
}

/// Whether a declaration of a kind can be a macro invocation in truth.
pub open spec fn can_be_member_macro(kind: Kind) -> bool {
    kind == Kind::FieldDeclaration || kind == Kind::Declaration || kind == Kind::FunctionDefinition
        || kind == Kind::Error
}

/// Whether a class has a name.
pub open spec fn names_record(tree: SyntaxTree, record: usize, name: Seq<u8>) -> bool {
    match tree.child_in_role(record, Field::Name) {
        None => false,
        Some(own) => tree.text_of(own) == Some(name),
    }
}

/// Whether a declaration has a built-in type.
pub open spec fn has_primitive_type(tree: SyntaxTree, n: usize) -> bool {
    match tree.child_in_role(n, Field::Type) {
        None => false,
        Some(ty) => tree.kind_of(ty) == Kind::PrimitiveType,
    }
}

/// The name of the invocation that a text begins with, and where the invocation
/// ends. Balanced parentheses decide, and a semicolon behind them belongs to it.
pub open spec fn invoked_text(raw: Seq<u8>) -> Option<(Seq<u8>, usize)> {
    let name_end = word_run(raw, 0);
    if name_end >= raw.len() || !is_identifier(raw.take(name_end)) {
        None
    } else {
        match trivia_end(raw, name_end) {
            Some(open) if byte_at(raw, open as int) == Some(OPEN) => match close_from(
                invocation_reach(raw, open as int),
                open as int,
                0,
            ) {
                None => None,
                Some(close) => match trivia_end(raw, close as int) {
                    None => None,
                    Some(after) => {
                        let end = if byte_at(raw, after as int) == Some(SEMICOLON) {
                            (after + 1) as usize
                        } else {
                            close
                        };
                        if invocation_of(raw.take(end as int)) is Some {
                            Some((raw.take(name_end), end))
                        } else {
                            None
                        }
                    },
                },
            },
            _ => None,
        }
    }
}

/// The number of line feeds in a text.
pub open spec fn line_count(bytes: Seq<u8>) -> nat
    decreases bytes.len(),
{
    if bytes.len() == 0 {
        0
    } else {
        line_count(bytes.drop_last()) + if bytes.last() == NEWLINE {
            1nat
        } else {
            0nat
        }
    }
}

/// The number of bytes behind the last line feed of a text.
pub open spec fn last_line_len(bytes: Seq<u8>) -> nat
    decreases bytes.len(),
{
    if bytes.len() == 0 || bytes.last() == NEWLINE {
        0
    } else {
        last_line_len(bytes.drop_last()) + 1
    }
}

/// Both counts of a text.
pub fn count_lines(bytes: &[u8]) -> (r: (usize, usize))
    ensures
        r.0 == line_count(bytes@),
        r.1 == last_line_len(bytes@),
        r.0 <= bytes@.len(),
        r.1 <= bytes@.len(),
{
    let mut lines: usize = 0;
    let mut column: usize = 0;
    let mut i: usize = 0;
    while i < bytes.len()
        invariant
            i <= bytes@.len(),
            lines == line_count(bytes@.take(i as int)),
            column == last_line_len(bytes@.take(i as int)),
            lines <= i,
            column <= i,
        decreases bytes@.len() - i,
    {
        assert(bytes@.take(i + 1).drop_last() =~= bytes@.take(i as int));
        if bytes[i] == NEWLINE {
            lines += 1;
            column = 0;
        } else {
            column += 1;
        }
        i += 1;
    }
    assert(bytes@.take(i as int) =~= bytes@);
    (lines, column)
}

/// The range of the first bytes of a text that stands in a range; nothing where a
/// position does not fit.
pub open spec fn prefix_range(range: TextRange, text: Seq<u8>, end: int) -> Option<TextRange> {
    let part = text.take(end);
    let end_byte = range.start_byte + end;
    let end_line = range.start_line + line_count(part);
    let end_column = if line_count(part) == 0 {
        range.start_column + end
    } else {
        last_line_len(part) as int
    };
    if end_byte <= u32::MAX && end_line <= u32::MAX && end_column <= u32::MAX {
        Some(
            TextRange {
                start_byte: range.start_byte,
                end_byte: end_byte as u32,
                start_line: range.start_line,
                end_line: end_line as u32,
                start_column: range.start_column,
                end_column: end_column as u32,
            },
        )
    } else {
        None
    }
}

/// A sum that fits.
fn sum32(a: u32, b: usize) -> (r: Option<u32>)
    ensures
        match r {
            None => a + b > u32::MAX,
            Some(sum) => sum == a + b,
        },
{
    let sum: u128 = a as u128 + b as u128;
    if sum <= u32::MAX as u128 {
        Some(sum as u32)
    } else {
        None
    }
}

fn take_range(range: TextRange, text: &[u8], end: usize) -> (r: Option<TextRange>)
    requires
        end <= text@.len(),
    ensures
        r == prefix_range(range, text@, end as int),
{
    let part = &text[0..end];
    assert(part@ =~= text@.take(end as int));
    let (lines, column) = count_lines(part);
    let end_byte = match sum32(range.start_byte, end) {
        None => {
            return None;
        },
        Some(sum) => sum,
    };
    let end_line = match sum32(range.start_line, lines) {
        None => {
            return None;
        },
        Some(sum) => sum,
    };
    let last = if lines == 0 {
        sum32(range.start_column, end)
    } else {
        sum32(0, column)
    };
    match last {
        None => None,
        Some(end_column) => Some(
            TextRange {
                start_byte: range.start_byte,
                end_byte,
                start_line: range.start_line,
                end_line,
                start_column: range.start_column,
                end_column,
            },
        ),
    }
}

fn find_invoked(raw: &[u8]) -> (r: Option<(Vec<u8>, usize)>)
    ensures
        match r {
            None => invoked_text(raw@) is None,
            Some((name, end)) => invoked_text(raw@) == Some((name@, end)) && end <= raw@.len(),
        },
{
    let count: usize = raw.len();
    let name_end = word_run_end(raw, 0);
    if name_end >= count {
        return None;
    }
    let name = &raw[0..name_end];
    assert(name@ =~= raw@.take(name_end as int));
    if !identifier(name) {
        return None;
    }
    let open: usize = match skip_trivia(raw, name_end) {
        None => {
            return None;
        },
        Some(open) => open,
    };
    if open >= count || raw[open] != OPEN {
        return None;
    }
    let close: usize = match invocation_end(raw, open) {
        None => {
            return None;
        },
        Some(close) => close,
    };
    let after: usize = match skip_trivia(raw, close) {
        None => {
            return None;
        },
        Some(after) => after,
    };
    let end: usize = if after < count && raw[after] == SEMICOLON {
        after + 1
    } else {
        close
    };
    let text = &raw[0..end];
    assert(text@ =~= raw@.take(end as int));
    if invocation(text).is_none() {
        return None;
    }
    Some((copy_bytes(name), end))
}

/// Find an invocation with parentheses where a member is declared.
///
/// Its end comes from balanced tokens, whether or not the grammar took a following
/// declaration into the same node. It is a candidate: its names must be known before
/// it can be left out.
pub fn candidate(tree: &SyntaxTree, n: usize) -> (r: Option<(Vec<u8>, TextRange)>)
    ensures
        match r {
            None => candidate_of(*tree, n) is None,
            Some((name, range)) => candidate_of(*tree, n) == Some((name@, range)),
        },
{
    let list = match tree.parent(n) {
        None => {
            return None;
        },
        Some(list) => list,
    };
    let raw = match tree.node_text(n) {
        None => {
            return None;
        },
        Some(raw) => raw,
    };
    if tree.kind(list) != Kind::FieldDeclarationList || !matches!(
        tree.kind(n),
        Kind::FieldDeclaration | Kind::Declaration | Kind::FunctionDefinition | Kind::Error
    ) {
        return None;
    }
    let record = match tree.parent(list) {
        None => {
            return None;
        },
        Some(record) => record,
    };
    let (name, end) = match find_invoked(raw) {
        None => {
            return None;
        },
        Some(found) => found,
    };
    if let Some(own) = tree.child_by_field(record, Field::Name) {
        if let Some(text) = tree.node_text(own) {
            if same_bytes(text, name.as_slice()) {
                return None;
            }
        }
    }
    if let Some(ty) = tree.child_by_field(n, Field::Type) {
        if tree.kind(ty) == Kind::PrimitiveType {
            return None;
        }
    }
    match take_range(tree.range(n), raw, end) {
        None => None,
        Some(range) => Some((name, range)),
    }
}

/// Whether one byte string comes before another in the order of their bytes.
pub open spec fn comes_before(a: Seq<u8>, b: Seq<u8>) -> bool
    decreases a.len(),
{
    if b.len() == 0 {
        false
    } else if a.len() == 0 {
        true
    } else if a[0] != b[0] {
        a[0] < b[0]
    } else {
        comes_before(a.drop_first(), b.drop_first())
    }
}

/// A sorted list with one more name, once.
pub open spec fn with_name(sorted: Seq<Seq<u8>>, name: Seq<u8>) -> Seq<Seq<u8>>
    decreases sorted.len(),
{
    if sorted.len() == 0 {
        seq![name]
    } else if sorted.last() == name {
        sorted
    } else if comes_before(sorted.last(), name) {
        sorted.push(name)
    } else {
        with_name(sorted.drop_last(), name).push(sorted.last())
    }
}

/// The names in order, each once.
pub open spec fn sorted_names(names: Seq<Seq<u8>>) -> Seq<Seq<u8>>
    decreases names.len(),
{
    if names.len() == 0 {
        Seq::empty()
    } else {
        with_name(sorted_names(names.drop_last()), names.last())
    }
}

/// Whether names stand in order, each once.
pub open spec fn is_sorted(names: Seq<Seq<u8>>) -> bool {
    forall|i: int, j: int|
        0 <= i < j < names.len() ==> comes_before(#[trigger] names[i], #[trigger] names[j])
}

proof fn lemma_before_total(a: Seq<u8>, b: Seq<u8>)
    ensures
        comes_before(a, b) || a == b || comes_before(b, a),
        !comes_before(a, a),
    decreases a.len(),
{
    if a.len() > 0 {
        lemma_before_total(a.drop_first(), if b.len() > 0 {
            b.drop_first()
        } else {
            b
        });
        if b.len() > 0 && a[0] == b[0] && a.drop_first() == b.drop_first() {
            assert(a =~= seq![a[0]] + a.drop_first());
            assert(b =~= seq![b[0]] + b.drop_first());
        }
    } else if b.len() == 0 {
        assert(a =~= b);
    }
}

proof fn lemma_before_chains(a: Seq<u8>, b: Seq<u8>, c: Seq<u8>)
    requires
        comes_before(a, b),
        comes_before(b, c),
    ensures
        comes_before(a, c),
    decreases a.len(),
{
    if a.len() > 0 && b.len() > 0 && c.len() > 0 && a[0] == b[0] && b[0] == c[0] {
        lemma_before_chains(a.drop_first(), b.drop_first(), c.drop_first());
    }
}

proof fn lemma_with_name(sorted: Seq<Seq<u8>>, name: Seq<u8>)
    requires
        is_sorted(sorted),
    ensures
        is_sorted(with_name(sorted, name)),
        forall|other: Seq<u8>| #[trigger]
            with_name(sorted, name).contains(other) <==> sorted.contains(other) || other == name,
    decreases sorted.len(),
{
    let result = with_name(sorted, name);
    if sorted.len() == 0 {
        assert(result[0] == name);
    } else if sorted.last() == name {
        assert(sorted[sorted.len() - 1] == name);
    } else {
        let last = sorted.last();
        let shorter = sorted.drop_last();
        lemma_before_total(last, name);
        if comes_before(last, name) {
            assert forall|i: int, j: int| 0 <= i < j < result.len() implies comes_before(
                #[trigger] result[i],
                #[trigger] result[j],
            ) by {
                if j == sorted.len() && i < sorted.len() - 1 {
                    lemma_before_chains(sorted[i], last, name);
                }
            }
            assert forall|other: Seq<u8>| #[trigger] result.contains(other) <==> sorted.contains(
                other,
            ) || other == name by {
                if sorted.contains(other) {
                    let k = choose|k: int| 0 <= k < sorted.len() && sorted[k] == other;
                    assert(result[k] == other);
                }
                assert(result[sorted.len() as int] == name);
            }
        } else {
            assert(is_sorted(shorter)) by {
                assert forall|i: int, j: int| 0 <= i < j < shorter.len() implies comes_before(
                    #[trigger] shorter[i],
                    #[trigger] shorter[j],
                ) by {
                    assert(shorter[i] == sorted[i] && shorter[j] == sorted[j]);
                }
            }
            lemma_with_name(shorter, name);
            let inner = with_name(shorter, name);
            assert forall|i: int, j: int| 0 <= i < j < result.len() implies comes_before(
                #[trigger] result[i],
                #[trigger] result[j],
            ) by {
                if j == inner.len() {
                    assert(inner.contains(inner[i]));
                    if inner[i] != name {
                        let k = choose|k: int| 0 <= k < shorter.len() && shorter[k] == inner[i];
                        assert(comes_before(sorted[k], sorted[sorted.len() - 1]));
                    }
                }
            }
            assert forall|other: Seq<u8>| #[trigger] result.contains(other) <==> sorted.contains(
                other,
            ) || other == name by {
                if result.contains(other) {
                    let k = choose|k: int| 0 <= k < result.len() && result[k] == other;
                    if k < inner.len() {
                        assert(inner.contains(other));
                        if other != name {
                            let m = choose|m: int| 0 <= m < shorter.len() && shorter[m] == other;
                            assert(sorted[m] == other);
                        }
                    } else {
                        assert(sorted[sorted.len() - 1] == other);
                    }
                }
                if sorted.contains(other) || other == name {
                    if other == last {
                        assert(result[inner.len() as int] == other);
                    } else {
                        if sorted.contains(other) {
                            let m = choose|m: int| 0 <= m < sorted.len() && sorted[m] == other;
                            assert(shorter[m] == other);
                        }
                        assert(inner.contains(other));
                        let k = choose|k: int| 0 <= k < inner.len() && inner[k] == other;
                        assert(result[k] == other);
                    }
                }
            }
        }
    }
}

/// The sorted names are the same names, in order and each once.
pub proof fn sorting_keeps_names(names: Seq<Seq<u8>>)
    ensures
        is_sorted(sorted_names(names)),
        forall|name: Seq<u8>| #[trigger]
            sorted_names(names).contains(name) <==> names.contains(name),
    decreases names.len(),
{
    if names.len() > 0 {
        let shorter = names.drop_last();
        sorting_keeps_names(shorter);
        lemma_with_name(sorted_names(shorter), names.last());
        assert forall|name: Seq<u8>| #[trigger]
            sorted_names(names).contains(name) <==> names.contains(name) by {
            if names.contains(name) {
                let k = choose|k: int| 0 <= k < names.len() && names[k] == name;
                if k < shorter.len() {
                    assert(shorter[k] == name);
                    assert(shorter.contains(name));
                }
                assert(sorted_names(shorter).contains(name) || name == names.last());
            }
            if sorted_names(names).contains(name) && name != names.last() {
                assert(sorted_names(shorter).contains(name));
                let k = choose|k: int| 0 <= k < shorter.len() && shorter[k] == name;
                assert(names[k] == name);
            }
            if name == names.last() {
                assert(names[names.len() - 1] == name);
            }
        }
    } else {
        assert(sorted_names(names) =~= names);
    }
}

fn is_before(a: &[u8], b: &[u8]) -> (r: bool)
    ensures
        r == comes_before(a@, b@),
{
    let mut i: usize = 0;
    assert(a@.skip(0) =~= a@ && b@.skip(0) =~= b@);
    while i < a.len() && i < b.len()
        invariant
            i <= a@.len(),
            i <= b@.len(),
            comes_before(a@, b@) == comes_before(a@.skip(i as int), b@.skip(i as int)),
        decreases a@.len() - i,
    {
        assert(a@.skip(i as int).drop_first() =~= a@.skip(i + 1));
        assert(b@.skip(i as int).drop_first() =~= b@.skip(i + 1));
        if a[i] != b[i] {
            return a[i] < b[i];
        }
        i += 1;
    }
    i < b.len()
}

fn insert_name(sorted: &mut Vec<Vec<u8>>, name: Vec<u8>)
    ensures
        byte_views(final(sorted)@) == with_name(byte_views(old(sorted)@), name@),
{
    let ghost views = byte_views(sorted@);
    let mut at: usize = sorted.len();
    assert(views.take(at as int) =~= views);
    assert(with_name(views, name@) + views.skip(at as int) =~= with_name(views, name@));
    while at > 0 && !same_bytes(sorted[at - 1].as_slice(), name.as_slice()) && !is_before(
        sorted[at - 1].as_slice(),
        name.as_slice(),
    )
        invariant
            at <= sorted@.len(),
            *sorted == *old(sorted),
            views == byte_views(sorted@),
            with_name(views, name@) == with_name(views.take(at as int), name@) + views.skip(
                at as int,
            ),
        decreases at,
    {
        assert(views.take(at as int).drop_last() =~= views.take(at - 1));
        assert(with_name(views.take(at - 1), name@).push(views[at - 1]) + views.skip(at as int)
            =~= with_name(views.take(at - 1), name@) + views.skip(at - 1));
        at -= 1;
    }
    if at > 0 && same_bytes(sorted[at - 1].as_slice(), name.as_slice()) {
        assert(views.take(at as int) + views.skip(at as int) =~= views);
        return ;
    }
    let ghost before = sorted@;
    sorted.insert(at, name);
    assert(byte_views(sorted@) =~= views.take(at as int).push(name@) + views.skip(at as int));
    assert(at == 0 ==> seq![name@] =~= views.take(0).push(name@));
}

/// The names in order, each once.
pub fn sort_names(names: &[Vec<u8>]) -> (r: Vec<Vec<u8>>)
    ensures
        byte_views(r@) == sorted_names(byte_views(names@)),
{
    let ghost views = byte_views(names@);
    let mut sorted: Vec<Vec<u8>> = Vec::new();
    let mut i: usize = 0;
    assert(byte_views(sorted@) =~= Seq::empty());
    assert(views.take(0) =~= Seq::empty());
    while i < names.len()
        invariant
            i <= names@.len(),
            views == byte_views(names@),
            byte_views(sorted@) == sorted_names(views.take(i as int)),
        decreases names@.len() - i,
    {
        assert(views.take(i + 1).drop_last() =~= views.take(i as int));
        assert(views.take(i + 1).last() == names@[i as int]@);
        insert_name(&mut sorted, copy_bytes(names[i].as_slice()));
        i += 1;
    }
    assert(views.take(i as int) =~= views);
    sorted
}

/// A spelling with its quotes and backslashes escaped.
pub open spec fn escaped(spelling: Seq<u8>) -> Seq<u8>
    decreases spelling.len(),
{
    if spelling.len() == 0 {
        Seq::empty()
    } else {
        let before = escaped(spelling.drop_last());
        if spelling.last() == BACKSLASH || spelling.last() == QUOTE {
            before.push(BACKSLASH).push(spelling.last())
        } else {
            before.push(spelling.last())
        }
    }
}

/// The string literal that spells a token.
pub open spec fn stringized(spelling: Seq<u8>) -> Seq<u8> {
    seq![QUOTE] + escaped(spelling) + seq![QUOTE]
}

fn stringize(spelling: &[u8]) -> (r: Vec<u8>)
    ensures
        r@ == stringized(spelling@),
{
    let mut literal: Vec<u8> = Vec::new();
    literal.push(QUOTE);
    let mut i: usize = 0;
    assert(spelling@.take(0) =~= Seq::empty());
    assert(literal@ =~= seq![QUOTE] + escaped(spelling@.take(0)));
    while i < spelling.len()
        invariant
            i <= spelling@.len(),
            literal@ == seq![QUOTE] + escaped(spelling@.take(i as int)),
        decreases spelling@.len() - i,
    {
        assert(spelling@.take(i + 1).drop_last() =~= spelling@.take(i as int));
        let b = spelling[i];
        if b == BACKSLASH || b == QUOTE {
            literal.push(BACKSLASH);
        }
        literal.push(b);
        assert(literal@ =~= seq![QUOTE] + escaped(spelling@.take(i + 1)));
        i += 1;
    }
    assert(spelling@.take(i as int) =~= spelling@);
    literal.push(QUOTE);
    assert(literal@ =~= stringized(spelling@));
    literal
}

/// What stands for a token of a replacement.
pub open spec fn argument_for(
    parameters: Seq<Seq<u8>>,
    arguments: Seq<Seq<Seq<u8>>>,
    token: Seq<u8>,
) -> Seq<Seq<u8>> {
    match place_of(parameters, token) {
        Some(index) => arguments[index as int],
        None => seq![token],
    }
}

/// A replacement from a token on with the arguments put in, behind what is done. A
/// `#` spells the argument of the parameter behind it, which has no more than one
/// token; a `##` joins the identifiers around it. Nothing where there would be more
/// bytes, with one for each token, than the limit.
pub open spec fn member_tokens(
    parameters: Seq<Seq<u8>>,
    arguments: Seq<Seq<Seq<u8>>>,
    replacement: Seq<Seq<u8>>,
    i: int,
    done: Seq<Seq<u8>>,
    bytes: nat,
    paste: bool,
    limit: nat,
) -> Option<Seq<Seq<u8>>>
    decreases replacement.len() - i,
{
    if i < 0 || i >= replacement.len() {
        if paste {
            None
        } else {
            Some(done)
        }
    } else if token_is(replacement[i], "#") {
        if paste || i + 1 >= replacement.len() {
            None
        } else {
            match place_of(parameters, replacement[i + 1]) {
                Some(index) if arguments[index as int].len() <= 1 => {
                    let argument = arguments[index as int];
                    let literal = stringized(
                        if argument.len() == 0 {
                            Seq::empty()
                        } else {
                            argument[0]
                        },
                    );
                    if bytes + literal.len() + 1 > limit {
                        None
                    } else {
                        member_tokens(
                            parameters,
                            arguments,
                            replacement,
                            i + 2,
                            done.push(literal),
                            bytes + literal.len() + 1,
                            paste,
                            limit,
                        )
                    }
                },
                _ => None,
            }
        }
    } else if token_is(replacement[i], "##") {
        if paste || done.len() == 0 || !is_identifier(done.last()) {
            None
        } else {
            member_tokens(
                parameters,
                arguments,
                replacement,
                i + 1,
                done,
                bytes,
                true,
                limit,
            )
        }
    } else {
        let additions = argument_for(parameters, arguments, replacement[i]);
        let joins = paste || (i + 1 < replacement.len() && token_is(replacement[i + 1], "##"));
        let more = bytes + crate::cpp_annotations::total_bytes(additions) + additions.len();
        if (joins && (additions.len() != 1 || !is_identifier(additions[0]))) || more > limit {
            None
        } else {
            member_tokens(
                parameters,
                arguments,
                replacement,
                i + 1,
                if paste {
                    done.drop_last().push(done.last() + additions[0])
                } else {
                    done + additions
                },
                more,
                false,
                limit,
            )
        }
    }
}

/// Whether a token could stand for something else: it names a macro, or it is
/// reserved.
pub open spec fn is_suspect(definitions: Seq<CppMacroAlternatives>, token: Seq<u8>) -> bool {
    is_identifier(token) && (is_defined(definitions, token) || pair_at(
        token,
        0,
        UNDERSCORE,
        UNDERSCORE,
    ))
}

/// Whether some token could stand for something else.
pub open spec fn has_suspect(definitions: Seq<CppMacroAlternatives>, tokens: Seq<Seq<u8>>) -> bool {
    exists|k: int| 0 <= k < tokens.len() && is_suspect(definitions, #[trigger] tokens[k])
}

/// What a definition makes of the arguments of an invocation.
pub open spec fn member_fragment(
    definitions: Seq<CppMacroAlternatives>,
    definition: CppMacroDefinition,
    written: Seq<Seq<Seq<u8>>>,
    limit: nat,
) -> Option<Seq<u8>> {
    match (definition.parameters, definition.replacement) {
        (Some(names), Some(text)) => {
            let parameters = text_views(names@);
            let arguments = crate::cpp_annotations::matching_arguments(parameters, written);
            if definition.variadic || parameters.len() != arguments.len() || exists|k: int|
                0 <= k < arguments.len() && has_suspect(definitions, #[trigger] arguments[k]) {
                None
            } else {
                match tokens_of(text@) {
                    None => None,
                    Some(replacement) => match member_tokens(
                        parameters,
                        arguments,
                        replacement,
                        0,
                        Seq::empty(),
                        0,
                        false,
                        limit,
                    ) {
                        None => None,
                        Some(list) => Some(joined(list, " ".spec_bytes())),
                    },
                }
            }
        },
        _ => None,
    }
}

fn suspect(definitions: &[CppMacroAlternatives], token: &[u8]) -> (r: bool)
    ensures
        r == is_suspect(definitions@, token@),
{
    identifier(token) && (find_alternatives(definitions, token).is_some() || has_pair_at(
        token,
        0,
        UNDERSCORE,
        UNDERSCORE,
    ))
}

fn find_suspect(definitions: &[CppMacroAlternatives], tokens: &[Vec<u8>]) -> (r: bool)
    ensures
        r == has_suspect(definitions@, byte_views(tokens@)),
{
    let ghost views = byte_views(tokens@);
    let mut i: usize = 0;
    while i < tokens.len()
        invariant
            i <= tokens@.len(),
            views == byte_views(tokens@),
            forall|k: int| 0 <= k < i ==> !is_suspect(definitions@, #[trigger] views[k]),
        decreases tokens@.len() - i,
    {
        assert(views[i as int] == tokens@[i as int]@);
        if suspect(definitions, tokens[i].as_slice()) {
            return true;
        }
        i += 1;
    }
    false
}

fn find_name(parameters: &[Text], token: &[u8]) -> (r: Option<usize>)
    ensures
        r == place_of(text_views(parameters@), token@),
        r is Some ==> r->0 < parameters@.len(),
{
    let ghost views = text_views(parameters@);
    let mut i: usize = 0;
    assert(views.take(0) =~= Seq::empty());
    while i < parameters.len()
        invariant
            i <= parameters@.len(),
            views == text_views(parameters@),
            place_of(views.take(i as int), token@) is None,
        decreases parameters@.len() - i,
    {
        assert(views.take(i + 1).drop_last() =~= views.take(i as int));
        assert(views.take(i + 1).last() == parameters@[i as int]@);
        if same_bytes(parameters[i].as_bytes(), token) {
            proof {
                crate::cpp_tokens::lemma_place_stays(views, token@, i + 1);
            }
            return Some(i);
        }
        i += 1;
    }
    assert(views.take(i as int) =~= views);
    None
}

/// The bytes of tokens with one for each of them, up to a limit.
fn spaced_bytes_within(tokens: &[Vec<u8>], limit: usize) -> (r: Option<usize>)
    ensures
        match r {
            None => crate::cpp_annotations::total_bytes(byte_views(tokens@)) + tokens@.len()
                > limit,
            Some(total) => total == crate::cpp_annotations::total_bytes(byte_views(tokens@))
                + tokens@.len() && total <= limit,
        },
{
    match crate::cpp_annotations::bytes_within(tokens, limit) {
        None => None,
        Some(bytes) => if tokens.len() > limit - bytes {
            None
        } else {
            Some(bytes + tokens.len())
        },
    }
}

/// A replacement with the arguments put in.
fn expand_member(
    parameters: &[Text],
    arguments: &[Vec<Vec<u8>>],
    replacement: &[Vec<u8>],
    limit: usize,
) -> (r: Option<Vec<Vec<u8>>>)
    requires
        parameters@.len() == arguments@.len(),
    ensures
        lists(
            r,
            member_tokens(
                text_views(parameters@),
                list_views(arguments@),
                byte_views(replacement@),
                0,
                Seq::empty(),
                0,
                false,
                limit as nat,
            ),
        ),
{
    let ghost names = text_views(parameters@);
    let ghost given = list_views(arguments@);
    let ghost views = byte_views(replacement@);
    let ghost whole = member_tokens(
        names,
        given,
        views,
        0,
        Seq::empty(),
        0,
        false,
        limit as nat,
    );
    let count: usize = replacement.len();
    let mut done: Vec<Vec<u8>> = Vec::new();
    let mut bytes: usize = 0;
    let mut paste = false;
    let mut i: usize = 0;
    assert(byte_views(done@) =~= Seq::empty());
    while i < count
        invariant
            i <= count,
            count == replacement@.len(),
            parameters@.len() == arguments@.len(),
            names == text_views(parameters@),
            given == list_views(arguments@),
            views == byte_views(replacement@),
            bytes <= limit,
            paste ==> done@.len() > 0,
            whole == member_tokens(
                names,
                given,
                views,
                i as int,
                byte_views(done@),
                bytes as nat,
                paste,
                limit as nat,
            ),
            whole == member_tokens(
                names,
                given,
                views,
                0,
                Seq::empty(),
                0,
                false,
                limit as nat,
            ),
        decreases count - i,
    {
        let token = replacement[i].as_slice();
        assert(views[i as int] == token@);
        let ghost before = done@;
        if is_token(token, "#") {
            if paste || i + 1 >= count {
                return None;
            }
            assert(views[i + 1] == replacement@[i + 1]@);
            let index: usize = match find_name(parameters, replacement[i + 1].as_slice()) {
                None => {
                    return None;
                },
                Some(index) => index,
            };
            let argument = &arguments[index];
            assert(given[index as int] == byte_views(argument@));
            if argument.len() > 1 {
                return None;
            }
            let literal = if argument.len() == 0 {
                let none: Vec<u8> = Vec::new();
                assert(none@ =~= Seq::empty());
                stringize(none.as_slice())
            } else {
                stringize(argument[0].as_slice())
            };
            if literal.len() >= limit - bytes {
                return None;
            }
            bytes += literal.len() + 1;
            done.push(literal);
            proof {
                lemma_push_bytes(before, literal);
            }
            i += 2;
        } else if is_token(token, "##") {
            if paste || done.len() == 0 || !identifier(done[done.len() - 1].as_slice()) {
                assert(done@.len() > 0 ==> byte_views(done@).last() == done@.last()@);
                return None;
            }
            assert(byte_views(done@).last() == done@.last()@);
            paste = true;
            i += 1;
        } else {
            let mut single: Vec<Vec<u8>> = Vec::new();
            let additions: &[Vec<u8>] = match find_name(parameters, token) {
                Some(index) => arguments[index].as_slice(),
                None => {
                    single.push(copy_bytes(token));
                    assert(byte_views(single@) =~= seq![token@]);
                    single.as_slice()
                },
            };
            assert(byte_views(additions@) == argument_for(names, given, token@));
            let joins = paste || (i + 1 < count && is_token(replacement[i + 1].as_slice(), "##"));
            if joins {
                if additions.len() != 1 {
                    return None;
                }
                assert(byte_views(additions@)[0] == additions@[0]@);
                if !identifier(additions[0].as_slice()) {
                    return None;
                }
            }
            match spaced_bytes_within(additions, limit - bytes) {
                None => {
                    return None;
                },
                Some(more) => {
                    bytes += more;
                },
            }
            if paste {
                let at: usize = done.len() - 1;
                let mut left: Vec<u8> = Vec::new();
                std::mem::swap(&mut left, &mut done[at]);
                append_bytes(&mut left, additions[0].as_slice());
                done[at] = left;
                assert(byte_views(done@) =~= byte_views(before).drop_last().push(
                    byte_views(before).last() + additions@[0]@,
                ));
            } else {
                append_tokens(&mut done, additions);
            }
            paste = false;
            i += 1;
        }
    }
    if paste {
        return None;
    }
    Some(done)
}

/// What a definition makes of the arguments of an invocation.
fn make_fragment(
    definitions: &[CppMacroAlternatives],
    definition: &CppMacroDefinition,
    written: &[Vec<Vec<u8>>],
    limit: usize,
) -> (r: Option<Vec<u8>>)
    ensures
        match r {
            None => member_fragment(
                definitions@,
                *definition,
                list_views(written@),
                limit as nat,
            ) is None,
            Some(fragment) => member_fragment(
                definitions@,
                *definition,
                list_views(written@),
                limit as nat,
            ) == Some(fragment@),
        },
{
    let parameters = match &definition.parameters {
        None => {
            return None;
        },
        Some(parameters) => parameters,
    };
    let text = match &definition.replacement {
        None => {
            return None;
        },
        Some(text) => text,
    };
    if definition.variadic {
        return None;
    }
    let ghost all = list_views(written@);
    let arguments: &[Vec<Vec<u8>>] = if written.len() == 1 && written[0].len() == 0
        && parameters.len() == 0 {
        assert(all[0].len() == 0);
        let none = &written[0..0];
        assert(list_views(none@) =~= Seq::empty());
        none
    } else {
        assert(written@.len() == 1 ==> all[0].len() == written@[0]@.len());
        written
    };
    let ghost given = list_views(arguments@);
    assert(given == crate::cpp_annotations::matching_arguments(text_views(parameters@), all));
    if parameters.len() != arguments.len() {
        return None;
    }
    let mut i: usize = 0;
    while i < arguments.len()
        invariant
            i <= arguments@.len(),
            given == list_views(arguments@),
            forall|k: int| 0 <= k < i ==> !has_suspect(definitions@, #[trigger] given[k]),
            given == crate::cpp_annotations::matching_arguments(
                text_views(parameters@),
                list_views(written@),
            ),
            definition.parameters == Some(*parameters),
            definition.replacement == Some(*text),
        decreases arguments@.len() - i,
    {
        assert(given[i as int] == byte_views(arguments@[i as int]@));
        if find_suspect(definitions, arguments[i].as_slice()) {
            return None;
        }
        i += 1;
    }
    let replacement = match tokens(text.as_bytes()) {
        None => {
            return None;
        },
        Some(list) => list,
    };
    match expand_member(parameters.as_slice(), arguments, replacement.as_slice(), limit) {
        None => None,
        Some(list) => Some(join(list.as_slice(), " ".as_bytes())),
    }
}

/// A declaration among the members of a class: its text, and the names that it
/// introduces; nothing where that cannot be told.
#[verifier::ext_equal]
pub struct MemberView {
    pub text: Seq<u8>,
    pub names: Option<Seq<Seq<u8>>>,
}

/// Whether a declarator is a name.
pub open spec fn is_declared_name(kind: Kind) -> bool {
    kind == Kind::Identifier || kind == Kind::FieldIdentifier || kind == Kind::DestructorName
        || kind == Kind::OperatorName
}

/// Whether a declarator goes on to another.
pub open spec fn is_inner_declarator(kind: Kind) -> bool {
    kind == Kind::PointerDeclarator || kind == Kind::ReferenceDeclarator || kind
        == Kind::FunctionDeclarator || kind == Kind::ArrayDeclarator || kind
        == Kind::InitDeclarator
}

/// The declarator inside a declarator. That of a reference may have no role.
pub open spec fn inner_declarator(tree: SyntaxTree, n: usize) -> Option<usize> {
    match tree.child_in_role(n, Field::Declarator) {
        Some(child) => Some(child),
        None => if tree.kind_of(n) == Kind::ReferenceDeclarator && tree.named_children_of(n).len()
            == 1 {
            Some(tree.named_children_of(n)[0])
        } else {
            None
        },
    }
}

proof fn lemma_inner_declarator(tree: SyntaxTree, n: usize)
    ensures
        inner_declarator(tree, n) is Some ==> n < inner_declarator(tree, n)->0 < tree.count(),
{
    tree.child_in_role_is_child(n, Field::Declarator);
    if tree.named_children_of(n).len() == 1 {
        tree.named_children_are_children(n, 0);
    }
}

/// The name that a declarator declares.
pub open spec fn declared_leaf(tree: SyntaxTree, n: usize) -> Option<usize>
    decreases tree.count() - n,
    via declared_leaf_decreases
{
    if is_declared_name(tree.kind_of(n)) {
        Some(n)
    } else if !is_inner_declarator(tree.kind_of(n)) {
        None
    } else {
        match inner_declarator(tree, n) {
            None => None,
            Some(child) => declared_leaf(tree, child),
        }
    }
}

#[via_fn]
proof fn declared_leaf_decreases(tree: SyntaxTree, n: usize) {
    lemma_inner_declarator(tree, n);
}

/// A text without its white space.
pub open spec fn without_space(text: Seq<u8>) -> Seq<u8> {
    joined(crate::text::words_of(text), Seq::empty())
}

/// The name that a declarator of a member introduces. Only an assignment is known
/// among operators; a declaration without a type declares a constructor or the
/// destructor.
pub open spec fn declared_name(
    tree: SyntaxTree,
    declarator: usize,
    typed: bool,
    class_name: Seq<u8>,
) -> Option<Seq<u8>> {
    match declared_leaf(tree, declarator) {
        None => None,
        Some(leaf) => match tree.text_of(leaf) {
            None => None,
            Some(text) => {
                let name = without_space(text);
                if tree.kind_of(leaf) == Kind::OperatorName && name != "operator=".spec_bytes() {
                    None
                } else if !typed && name != class_name && name != "~".spec_bytes() + class_name {
                    None
                } else {
                    Some(name)
                }
            },
        },
    }
}

/// The names that declarators introduce.
pub open spec fn declared_all(
    tree: SyntaxTree,
    declarators: Seq<usize>,
    typed: bool,
    class_name: Seq<u8>,
) -> Option<Seq<Seq<u8>>>
    decreases declarators.len(),
{
    if declarators.len() == 0 {
        Some(Seq::empty())
    } else {
        match (
            declared_all(tree, declarators.drop_last(), typed, class_name),
            declared_name(tree, declarators.last(), typed, class_name),
        ) {
            (Some(names), Some(name)) => Some(names.push(name)),
            _ => None,
        }
    }
}

/// Whether a type introduces no names of its own.
pub open spec fn is_plain_type(kind: Kind) -> bool {
    kind == Kind::PrimitiveType || kind == Kind::TypeIdentifier || kind
        == Kind::QualifiedIdentifier || kind == Kind::TemplateType
}

/// The names that a member declaration introduces. An access label introduces none.
pub open spec fn member_names_in(
    tree: SyntaxTree,
    n: usize,
    class_name: Seq<u8>,
) -> Option<Seq<Seq<u8>>> {
    let kind = tree.kind_of(n);
    let ty = tree.child_in_role(n, Field::Type);
    let declarators = tree.children_in_role(n, Field::Declarator);
    if kind == Kind::AccessSpecifier {
        Some(Seq::empty())
    } else if kind != Kind::FieldDeclaration && kind != Kind::FunctionDefinition && kind
        != Kind::Declaration {
        None
    } else if ty is Some && !is_plain_type(tree.kind_of(ty->0)) {
        None
    } else if declarators.len() == 0 {
        None
    } else {
        declared_all(tree, declarators, ty is Some, class_name)
    }
}

/// The declarations of nodes.
pub open spec fn members_in(
    tree: SyntaxTree,
    nodes: Seq<usize>,
    class_name: Seq<u8>,
) -> Option<Seq<MemberView>>
    decreases nodes.len(),
{
    if nodes.len() == 0 {
        Some(Seq::empty())
    } else {
        match (members_in(tree, nodes.drop_last(), class_name), tree.text_of(nodes.last())) {
            (Some(list), Some(text)) => Some(
                list.push(
                    MemberView { text, names: member_names_in(tree, nodes.last(), class_name) },
                ),
            ),
            _ => None,
        }
    }
}

/// The declarations in the body of the one class that a text is.
pub open spec fn class_members(tree: SyntaxTree, class_name: Seq<u8>) -> Option<Seq<MemberView>> {
    let records = tree.named_children_of(0);
    if tree.node(0).has_error || records.len() != 1 || tree.kind_of(records[0])
        != Kind::StructSpecifier {
        None
    } else {
        match tree.child_in_role(records[0], Field::Body) {
            Some(body) if tree.range_of(body).end_byte + 1 == tree.text().len() => members_in(
                tree,
                tree.named_children_of(body),
                class_name,
            ),
            _ => None,
        }
    }
}

proof fn lemma_leaf_agrees(a: SyntaxTree, b: SyntaxTree, n: usize)
    requires
        a.agrees(b),
    ensures
        declared_leaf(a, n) == declared_leaf(b, n),
    decreases a.count() - n,
{
    a.agree_on_roles(b, n, Field::Declarator);
    a.agree_on_named_children(b, n);
    lemma_inner_declarator(a, n);
    match inner_declarator(a, n) {
        None => {},
        Some(child) => {
            lemma_leaf_agrees(a, b, child);
        },
    }
}

proof fn lemma_names_agree(
    a: SyntaxTree,
    b: SyntaxTree,
    declarators: Seq<usize>,
    typed: bool,
    class_name: Seq<u8>,
)
    requires
        a.agrees(b),
    ensures
        declared_all(a, declarators, typed, class_name) == declared_all(
            b,
            declarators,
            typed,
            class_name,
        ),
    decreases declarators.len(),
{
    if declarators.len() > 0 {
        lemma_names_agree(a, b, declarators.drop_last(), typed, class_name);
        lemma_leaf_agrees(a, b, declarators.last());
    }
}

proof fn lemma_members_agree(
    a: SyntaxTree,
    b: SyntaxTree,
    nodes: Seq<usize>,
    class_name: Seq<u8>,
)
    requires
        a.agrees(b),
    ensures
        members_in(a, nodes, class_name) == members_in(b, nodes, class_name),
    decreases nodes.len(),
{
    if nodes.len() > 0 {
        let n = nodes.last();
        lemma_members_agree(a, b, nodes.drop_last(), class_name);
        a.agree_on_roles(b, n, Field::Type);
        a.agree_on_roles(b, n, Field::Declarator);
        lemma_names_agree(
            a,
            b,
            a.children_in_role(n, Field::Declarator),
            a.child_in_role(n, Field::Type) is Some,
            class_name,
        );
    }
}

/// Trees that cannot be told apart have the same class members.
pub proof fn members_agree(a: SyntaxTree, b: SyntaxTree, class_name: Seq<u8>)
    requires
        a.agrees(b),
    ensures
        class_members(a, class_name) == class_members(b, class_name),
{
    a.agree_on_named_children(b, 0);
    let records = a.named_children_of(0);
    if records.len() == 1 {
        a.agree_on_roles(b, records[0], Field::Body);
        match a.child_in_role(records[0], Field::Body) {
            None => {},
            Some(body) => {
                a.agree_on_named_children(b, body);
                lemma_members_agree(a, b, a.named_children_of(body), class_name);
            },
        }
    }
}

/// A declaration among the members of a class.
pub struct Member {
    pub text: Vec<u8>,
    pub names: Option<Vec<Vec<u8>>>,
}

impl View for Member {
    type V = MemberView;

    open spec fn view(&self) -> MemberView {
        MemberView {
            text: self.text@,
            names: match self.names {
                None => None,
                Some(names) => Some(byte_views(names@)),
            },
        }
    }
}

fn find_leaf(tree: &SyntaxTree, declarator: usize) -> (r: Option<usize>)
    ensures
        r == declared_leaf(*tree, declarator),
{
    let mut n: usize = declarator;
    loop
        invariant
            declared_leaf(*tree, declarator) == declared_leaf(*tree, n),
        decreases tree.count() - n,
    {
        proof {
            lemma_inner_declarator(*tree, n);
        }
        let kind = tree.kind(n);
        if matches!(
            kind,
            Kind::Identifier | Kind::FieldIdentifier | Kind::DestructorName | Kind::OperatorName
        ) {
            return Some(n);
        }
        if !matches!(
            kind,
            Kind::PointerDeclarator | Kind::ReferenceDeclarator | Kind::FunctionDeclarator
            | Kind::ArrayDeclarator | Kind::InitDeclarator
        ) {
            return None;
        }
        let inner = match tree.child_by_field(n, Field::Declarator) {
            Some(child) => Some(child),
            None => if kind == Kind::ReferenceDeclarator {
                let named = tree.named_children(n);
                if named.len() == 1 {
                    Some(named[0])
                } else {
                    None
                }
            } else {
                None
            },
        };
        match inner {
            None => {
                return None;
            },
            Some(child) => {
                n = child;
            },
        }
    }
}

/// A text without its white space.
pub fn drop_space(text: &[u8]) -> (r: Vec<u8>)
    ensures
        r@ == without_space(text@),
{
    let words = crate::text::split_words(text);
    let none: Vec<u8> = Vec::new();
    assert(none@ =~= Seq::empty());
    join(words.as_slice(), none.as_slice())
}

fn find_declared_name(
    tree: &SyntaxTree,
    declarator: usize,
    typed: bool,
    class_name: &[u8],
) -> (r: Option<Vec<u8>>)
    ensures
        match r {
            None => declared_name(*tree, declarator, typed, class_name@) is None,
            Some(name) => declared_name(*tree, declarator, typed, class_name@) == Some(name@),
        },
{
    let leaf = match find_leaf(tree, declarator) {
        None => {
            return None;
        },
        Some(leaf) => leaf,
    };
    let text = match tree.node_text(leaf) {
        None => {
            return None;
        },
        Some(text) => text,
    };
    let name = drop_space(text);
    if tree.kind(leaf) == Kind::OperatorName && !is_token(name.as_slice(), "operator=") {
        return None;
    }
    if !typed && !same_bytes(name.as_slice(), class_name) {
        let mut destructor = copy_bytes("~".as_bytes());
        append_bytes(&mut destructor, class_name);
        if !same_bytes(name.as_slice(), destructor.as_slice()) {
            return None;
        }
    }
    Some(name)
}

fn find_member_names(tree: &SyntaxTree, n: usize, class_name: &[u8]) -> (r: Option<Vec<Vec<u8>>>)
    ensures
        lists(r, member_names_in(*tree, n, class_name@)),
{
    let kind = tree.kind(n);
    let mut names: Vec<Vec<u8>> = Vec::new();
    assert(byte_views(names@) =~= Seq::empty());
    if kind == Kind::AccessSpecifier {
        return Some(names);
    }
    if !matches!(kind, Kind::FieldDeclaration | Kind::FunctionDefinition | Kind::Declaration) {
        return None;
    }
    let ty = tree.child_by_field(n, Field::Type);
    if let Some(ty) = ty {
        if !matches!(
            tree.kind(ty),
            Kind::PrimitiveType | Kind::TypeIdentifier | Kind::QualifiedIdentifier
            | Kind::TemplateType
        ) {
            return None;
        }
    }
    let typed = ty.is_some();
    let declarators = tree.children_by_field(n, Field::Declarator);
    if declarators.len() == 0 {
        return None;
    }
    let ghost all = declarators@;
    let mut i: usize = 0;
    assert(all.take(0) =~= Seq::empty());
    while i < declarators.len()
        invariant
            i <= declarators@.len(),
            declarators@ == all,
            declared_all(*tree, all.take(i as int), typed, class_name@) == Some(
                byte_views(names@),
            ),
            member_names_in(*tree, n, class_name@) == declared_all(
                *tree,
                all,
                typed,
                class_name@,
            ),
        decreases declarators@.len() - i,
    {
        assert(all.take(i + 1).drop_last() =~= all.take(i as int));
        match find_declared_name(tree, declarators[i], typed, class_name) {
            None => {
                proof {
                    lemma_declared_stays(*tree, all, typed, class_name@, i + 1);
                }
                return None;
            },
            Some(name) => {
                let ghost before = names@;
                names.push(name);
                proof {
                    lemma_push_bytes(before, name);
                }
            },
        }
        i += 1;
    }
    assert(all.take(i as int) =~= all);
    Some(names)
}

proof fn lemma_declared_stays(
    tree: SyntaxTree,
    declarators: Seq<usize>,
    typed: bool,
    class_name: Seq<u8>,
    count: int,
)
    requires
        0 <= count <= declarators.len(),
        declared_all(tree, declarators.take(count), typed, class_name) is None,
    ensures
        declared_all(tree, declarators, typed, class_name) is None,
    decreases declarators.len(),
{
    if count == declarators.len() {
        assert(declarators.take(count) =~= declarators);
    } else {
        assert(declarators.drop_last().take(count) =~= declarators.take(count));
        lemma_declared_stays(tree, declarators.drop_last(), typed, class_name, count);
    }
}

proof fn lemma_members_stay(
    tree: SyntaxTree,
    nodes: Seq<usize>,
    class_name: Seq<u8>,
    count: int,
)
    requires
        0 <= count <= nodes.len(),
        members_in(tree, nodes.take(count), class_name) is None,
    ensures
        members_in(tree, nodes, class_name) is None,
    decreases nodes.len(),
{
    if count == nodes.len() {
        assert(nodes.take(count) =~= nodes);
    } else {
        assert(nodes.drop_last().take(count) =~= nodes.take(count));
        lemma_members_stay(tree, nodes.drop_last(), class_name, count);
    }
}

/// The declarations in the body of the one class that a text is.
pub fn find_class_members(tree: &SyntaxTree, class_name: &[u8]) -> (r: Option<Vec<Member>>)
    ensures
        match r {
            None => class_members(*tree, class_name@) is None,
            Some(members) => class_members(*tree, class_name@) == Some(
                crate::cpp_facts::views(members@),
            ),
        },
{
    if tree.data(0).has_error {
        return None;
    }
    let records = tree.named_children(0);
    if records.len() != 1 || tree.kind(records[0]) != Kind::StructSpecifier {
        return None;
    }
    let body = match tree.child_by_field(records[0], Field::Body) {
        None => {
            return None;
        },
        Some(body) => body,
    };
    let length: usize = tree.source().len();
    if tree.range(body).end_byte as u128 + 1 != length as u128 {
        return None;
    }
    let nodes = tree.named_children(body);
    let ghost all = nodes@;
    let mut members: Vec<Member> = Vec::new();
    let mut i: usize = 0;
    assert(crate::cpp_facts::views(members@) =~= Seq::<MemberView>::empty());
    assert(all.take(0) =~= Seq::empty());
    while i < nodes.len()
        invariant
            i <= nodes@.len(),
            nodes@ == all,
            members_in(*tree, all.take(i as int), class_name@) == Some(
                crate::cpp_facts::views(members@),
            ),
            class_members(*tree, class_name@) == members_in(*tree, all, class_name@),
        decreases nodes@.len() - i,
    {
        assert(all.take(i + 1).drop_last() =~= all.take(i as int));
        let text = match tree.node_text(nodes[i]) {
            None => {
                proof {
                    lemma_members_stay(*tree, all, class_name@, i + 1);
                }
                return None;
            },
            Some(text) => copy_bytes(text),
        };
        let ghost before = members@;
        let member = Member { text, names: find_member_names(tree, nodes[i], class_name) };
        members.push(member);
        proof {
            crate::cpp_facts::lemma_push_view(before, member);
            assert(member@ =~= MemberView {
                text: tree.text_of(all[i as int])->0,
                names: member_names_in(*tree, all[i as int], class_name@),
            });
        }
        i += 1;
    }
    assert(all.take(i as int) =~= all);
    Some(members)
}

/// The class that a fragment is read in.
pub open spec fn class_text(class_name: Seq<u8>, fragment: Seq<u8>) -> Seq<u8> {
    "struct ".spec_bytes() + class_name + " { ".spec_bytes() + fragment + "\n};".spec_bytes()
}

/// Names, and the bytes that may still be looked at.
pub type Names = Option<(Seq<Seq<u8>>, nat)>;

/// The names of one part with those of the parts behind it.
pub open spec fn joined_names(names: Seq<Seq<u8>>, rest: Names) -> Names {
    match rest {
        None => None,
        Some((more, left)) => Some((names + more, left)),
    }
}

/// The names that an invocation introduces under every definition of its macro.
pub open spec fn names_of_invocation(
    definitions: Seq<CppMacroAlternatives>,
    scope: Seq<u8>,
    text: Seq<u8>,
    path: Seq<Seq<u8>>,
    remaining: nat,
) -> Names
    decreases 33 - path.len(), 2int, 0int,
{
    match invocation_of(text) {
        Some(site) if path.len() < 32 && !path.contains(site.name) => match alternatives_of(
            definitions,
            site.name,
        ) {
            Some(list) if list.len() > 0 => match names_of_alternatives(
                definitions,
                scope,
                list,
                site,
                path,
                remaining,
            ) {
                None => None,
                Some((names, left)) => Some((sorted_names(names), left)),
            },
            _ => None,
        },
        _ => None,
    }
}

/// The names that an invocation introduces under each of some definitions.
pub open spec fn names_of_alternatives(
    definitions: Seq<CppMacroAlternatives>,
    scope: Seq<u8>,
    list: Seq<CppMacroDefinition>,
    site: InvocationView,
    path: Seq<Seq<u8>>,
    remaining: nat,
) -> Names
    decreases 33 - path.len(), 1int, list.len(),
{
    if list.len() == 0 || path.len() >= 32 {
        Some((Seq::empty(), remaining))
    } else {
        match member_fragment(definitions, list[0], site.arguments, remaining) {
            Some(fragment) if fragment.len() <= remaining => match names_of_fragment(
                definitions,
                scope,
                fragment,
                site.semicolon,
                path.push(site.name),
                (remaining - fragment.len()) as nat,
            ) {
                None => None,
                Some((names, left)) => joined_names(
                    names,
                    names_of_alternatives(
                        definitions,
                        scope,
                        list.drop_first(),
                        site,
                        path,
                        left,
                    ),
                ),
            },
            _ => None,
        }
    }
}

/// The names that a fragment introduces. Only a written semicolon can end its last
/// declaration. A fragment of nothing but invocations is read one by one; none of
/// them can complete another.
pub open spec fn names_of_fragment(
    definitions: Seq<CppMacroAlternatives>,
    scope: Seq<u8>,
    fragment: Seq<u8>,
    semicolon: bool,
    path: Seq<Seq<u8>>,
    remaining: nat,
) -> Names
    decreases 33 - path.len(), 4int, 0int,
{
    let class_name = crate::cpp_tokens::last_segment(scope);
    let text = if semicolon {
        fragment + ";".spec_bytes()
    } else {
        fragment
    };
    if fragment.len() > MAX_FRAGMENT_BYTES || !is_identifier(class_name) {
        None
    } else {
        match invocations_of(text, definitions) {
            Some(sites) => names_of_sites(
                definitions,
                scope,
                sites.map_values(|site: (Seq<u8>, Seq<u8>)| site.1),
                path,
                remaining,
            ),
            None => match SyntaxTree::tree_of(class_text(class_name, text)) {
                None => None,
                Some(tree) => match class_members(tree, class_name) {
                    None => None,
                    Some(members) => names_of_members(
                        definitions,
                        scope,
                        members,
                        path,
                        remaining,
                    ),
                },
            },
        }
    }
}

/// The names that invocations introduce.
pub open spec fn names_of_sites(
    definitions: Seq<CppMacroAlternatives>,
    scope: Seq<u8>,
    texts: Seq<Seq<u8>>,
    path: Seq<Seq<u8>>,
    remaining: nat,
) -> Names
    decreases 33 - path.len(), 3int, texts.len(),
{
    if texts.len() == 0 {
        Some((Seq::empty(), remaining))
    } else {
        match names_of_invocation(definitions, scope, texts[0], path, remaining) {
            None => None,
            Some((names, left)) => joined_names(
                names,
                names_of_sites(definitions, scope, texts.drop_first(), path, left),
            ),
        }
    }
}

/// The names that members introduce. A member that invokes a known macro introduces
/// what the macro does; a macro anywhere else in a member leaves it unknown.
pub open spec fn names_of_members(
    definitions: Seq<CppMacroAlternatives>,
    scope: Seq<u8>,
    members: Seq<MemberView>,
    path: Seq<Seq<u8>>,
    remaining: nat,
) -> Names
    decreases 33 - path.len(), 3int, members.len(),
{
    if members.len() == 0 {
        Some((Seq::empty(), remaining))
    } else {
        let found = if invokes_macro(definitions, members[0].text) {
            names_of_invocation(definitions, scope, members[0].text, path, remaining)
        } else {
            match (tokens_of(members[0].text), members[0].names) {
                (Some(list), Some(names)) => if has_suspect(definitions, list) {
                    None
                } else {
                    Some((names, remaining))
                },
                _ => None,
            }
        };
        match found {
            None => None,
            Some((names, left)) => joined_names(
                names,
                names_of_members(definitions, scope, members.drop_first(), path, left),
            ),
        }
    }
}

/// Whether a text is an invocation of a known macro.
pub open spec fn invokes_macro(definitions: Seq<CppMacroAlternatives>, text: Seq<u8>) -> bool {
    match invocation_of(text) {
        None => false,
        Some(site) => is_defined(definitions, site.name),
    }
}

/// Whether computed names, and the bytes left, are those that are meant.
pub open spec fn names_are(r: Option<(Vec<Vec<u8>>, usize)>, want: Names) -> bool {
    match r {
        None => want is None,
        Some((names, left)) => want == Some((byte_views(names@), left as nat)),
    }
}

proof fn lemma_joined(done: Seq<Seq<u8>>, names: Seq<Seq<u8>>, rest: Names)
    ensures
        joined_names(done, joined_names(names, rest)) == joined_names(done + names, rest),
{
    match rest {
        None => {},
        Some((more, _)) => {
            assert(done + (names + more) =~= done + names + more);
        },
    }
}

fn build_class(class_name: &[u8], fragment: &[u8]) -> (r: Vec<u8>)
    ensures
        r@ == class_text(class_name@, fragment@),
{
    let mut text = copy_bytes("struct ".as_bytes());
    append_bytes(&mut text, class_name);
    append_bytes(&mut text, " { ".as_bytes());
    append_bytes(&mut text, fragment);
    append_bytes(&mut text, "\n};".as_bytes());
    text
}

/// The names that an invocation introduces. The path is as before afterwards.
fn member_names(
    definitions: &[CppMacroAlternatives],
    scope: &[u8],
    text: &[u8],
    path: &mut Vec<Vec<u8>>,
    remaining: usize,
) -> (r: Option<(Vec<Vec<u8>>, usize)>)
    ensures
        names_are(
            r,
            names_of_invocation(
                definitions@,
                scope@,
                text@,
                byte_views(old(path)@),
                remaining as nat,
            ),
        ),
        byte_views(final(path)@) == byte_views(old(path)@),
    decreases 33 - old(path)@.len(), 2int,
{
    let ghost outside = byte_views(path@);
    let site = match invocation(text) {
        None => {
            return None;
        },
        Some(site) => site,
    };
    if path.len() >= 32 || holds_bytes(path.as_slice(), site.name.as_slice()) {
        return None;
    }
    let list = match find_alternatives(definitions, site.name.as_slice()) {
        None => {
            return None;
        },
        Some(list) => list,
    };
    if list.len() == 0 {
        return None;
    }
    let mut names: Vec<Vec<u8>> = Vec::new();
    let mut left: usize = remaining;
    let mut i: usize = 0;
    let ghost whole = names_of_alternatives(
        definitions@,
        scope@,
        list@,
        site@,
        outside,
        remaining as nat,
    );
    proof {
        assert(list@.skip(0) =~= list@);
        assert(byte_views(names@) =~= Seq::empty());
        lemma_joined_empty(whole);
    }
    while i < list.len()
        invariant
            i <= list@.len(),
            path@.len() < 32,
            outside == byte_views(old(path)@),
            outside == byte_views(path@),
            names_of_invocation(definitions@, scope@, text@, outside, remaining as nat) == (
            match whole {
                None => None,
                Some((names, left)) => Some((sorted_names(names), left)),
            }),
            whole == joined_names(
                byte_views(names@),
                names_of_alternatives(
                    definitions@,
                    scope@,
                    list@.skip(i as int),
                    site@,
                    outside,
                    left as nat,
                ),
            ),
        decreases list@.len() - i,
    {
        assert(list@.skip(i as int).drop_first() =~= list@.skip(i + 1));
        let fragment = match make_fragment(
            definitions,
            &list[i],
            site.arguments.as_slice(),
            left,
        ) {
            None => {
                return None;
            },
            Some(fragment) => fragment,
        };
        if fragment.len() > left {
            return None;
        }
        let ghost before = path@;
        let name = copy_bytes(site.name.as_slice());
        path.push(name);
        proof {
            lemma_push_bytes(before, name);
        }
        let found = declaration_names(
            definitions,
            scope,
            fragment.as_slice(),
            site.semicolon,
            path,
            left - fragment.len(),
        );
        let ghost inner = path@;
        path.pop();
        proof {
            assert(byte_views(inner.drop_last()) =~= byte_views(inner).drop_last());
            assert(outside.push(name@).drop_last() =~= outside);
        }
        match found {
            None => {
                return None;
            },
            Some((more, less)) => {
                proof {
                    lemma_joined(
                        byte_views(names@),
                        byte_views(more@),
                        names_of_alternatives(
                            definitions@,
                            scope@,
                            list@.skip(i + 1),
                            site@,
                            outside,
                            less as nat,
                        ),
                    );
                }
                append_tokens(&mut names, more.as_slice());
                left = less;
            },
        }
        i += 1;
    }
    assert(byte_views(names@) + Seq::<Seq<u8>>::empty() =~= byte_views(names@));
    Some((sort_names(names.as_slice()), left))
}

proof fn lemma_joined_empty(rest: Names)
    ensures
        joined_names(Seq::empty(), rest) == rest,
{
    match rest {
        None => {},
        Some((more, _)) => {
            assert(Seq::<Seq<u8>>::empty() + more =~= more);
        },
    }
}

/// The names that invocations introduce. The path is as before afterwards.
fn site_names(
    definitions: &[CppMacroAlternatives],
    scope: &[u8],
    sites: &[(Vec<u8>, Vec<u8>)],
    path: &mut Vec<Vec<u8>>,
    remaining: usize,
) -> (r: Option<(Vec<Vec<u8>>, usize)>)
    ensures
        names_are(
            r,
            names_of_sites(
                definitions@,
                scope@,
                pair_views(sites@).map_values(|site: (Seq<u8>, Seq<u8>)| site.1),
                byte_views(old(path)@),
                remaining as nat,
            ),
        ),
        byte_views(final(path)@) == byte_views(old(path)@),
    decreases 33 - old(path)@.len(), 3int,
{
    let ghost outside = byte_views(path@);
    let ghost texts = pair_views(sites@).map_values(|site: (Seq<u8>, Seq<u8>)| site.1);
    let ghost whole = names_of_sites(definitions@, scope@, texts, outside, remaining as nat);
    let mut names: Vec<Vec<u8>> = Vec::new();
    let mut left: usize = remaining;
    let mut i: usize = 0;
    proof {
        assert(texts.skip(0) =~= texts);
        assert(byte_views(names@) =~= Seq::empty());
        lemma_joined_empty(whole);
    }
    while i < sites.len()
        invariant
            i <= sites@.len(),
            path@.len() == old(path)@.len(),
            outside == byte_views(path@),
            outside == byte_views(old(path)@),
            texts == pair_views(sites@).map_values(|site: (Seq<u8>, Seq<u8>)| site.1),
            whole == names_of_sites(definitions@, scope@, texts, outside, remaining as nat),
            whole == joined_names(
                byte_views(names@),
                names_of_sites(
                    definitions@,
                    scope@,
                    texts.skip(i as int),
                    outside,
                    left as nat,
                ),
            ),
        decreases sites@.len() - i,
    {
        proof {
            assert(texts.skip(i as int).drop_first() =~= texts.skip(i + 1));
            assert(texts.skip(i as int)[0] == sites@[i as int].1@);
        }
        match member_names(definitions, scope, sites[i].1.as_slice(), path, left) {
            None => {
                return None;
            },
            Some((more, less)) => {
                proof {
                    lemma_joined(
                        byte_views(names@),
                        byte_views(more@),
                        names_of_sites(
                            definitions@,
                            scope@,
                            texts.skip(i + 1),
                            outside,
                            less as nat,
                        ),
                    );
                    lemma_same_len(path@, outside);
                    lemma_same_len(old(path)@, outside);
                }
                append_tokens(&mut names, more.as_slice());
                left = less;
            },
        }
        i += 1;
    }
    assert(byte_views(names@) + Seq::<Seq<u8>>::empty() =~= byte_views(names@));
    Some((names, left))
}

proof fn lemma_same_len(items: Seq<Vec<u8>>, views: Seq<Seq<u8>>)
    requires
        byte_views(items) == views,
    ensures
        items.len() == views.len(),
{
    assert(byte_views(items).len() == items.len());
}

/// The names that members introduce. The path is as before afterwards.
fn class_names(
    definitions: &[CppMacroAlternatives],
    scope: &[u8],
    members: &[Member],
    path: &mut Vec<Vec<u8>>,
    remaining: usize,
) -> (r: Option<(Vec<Vec<u8>>, usize)>)
    ensures
        names_are(
            r,
            names_of_members(
                definitions@,
                scope@,
                crate::cpp_facts::views(members@),
                byte_views(old(path)@),
                remaining as nat,
            ),
        ),
        byte_views(final(path)@) == byte_views(old(path)@),
    decreases 33 - old(path)@.len(), 3int,
{
    let ghost outside = byte_views(path@);
    let ghost all = crate::cpp_facts::views(members@);
    let ghost whole = names_of_members(definitions@, scope@, all, outside, remaining as nat);
    let mut names: Vec<Vec<u8>> = Vec::new();
    let mut left: usize = remaining;
    let mut i: usize = 0;
    proof {
        assert(all.skip(0) =~= all);
        assert(byte_views(names@) =~= Seq::empty());
        lemma_joined_empty(whole);
    }
    while i < members.len()
        invariant
            i <= members@.len(),
            path@.len() == old(path)@.len(),
            outside == byte_views(path@),
            outside == byte_views(old(path)@),
            all == crate::cpp_facts::views(members@),
            whole == names_of_members(definitions@, scope@, all, outside, remaining as nat),
            whole == joined_names(
                byte_views(names@),
                names_of_members(
                    definitions@,
                    scope@,
                    all.skip(i as int),
                    outside,
                    left as nat,
                ),
            ),
        decreases members@.len() - i,
    {
        let member = &members[i];
        proof {
            assert(all.skip(i as int).drop_first() =~= all.skip(i + 1));
            assert(all.skip(i as int)[0] == member@);
        }
        let invoked = match invocation(member.text.as_slice()) {
            None => false,
            Some(site) => find_alternatives(definitions, site.name.as_slice()).is_some(),
        };
        assert(invoked == invokes_macro(definitions@, member@.text));
        let ghost rest = all.skip(i + 1);
        if invoked {
            match member_names(definitions, scope, member.text.as_slice(), path, left) {
                None => {
                    return None;
                },
                Some((more, less)) => {
                    proof {
                        lemma_joined(
                            byte_views(names@),
                            byte_views(more@),
                            names_of_members(definitions@, scope@, rest, outside, less as nat),
                        );
                        lemma_same_len(path@, outside);
                        lemma_same_len(old(path)@, outside);
                    }
                    append_tokens(&mut names, more.as_slice());
                    left = less;
                },
            }
        } else {
            let list = match tokens(member.text.as_slice()) {
                None => {
                    return None;
                },
                Some(list) => list,
            };
            if find_suspect(definitions, list.as_slice()) {
                return None;
            }
            match &member.names {
                None => {
                    return None;
                },
                Some(more) => {
                    proof {
                        lemma_joined(
                            byte_views(names@),
                            byte_views(more@),
                            names_of_members(definitions@, scope@, rest, outside, left as nat),
                        );
                    }
                    append_tokens(&mut names, more.as_slice());
                },
            }
        }
        i += 1;
    }
    assert(byte_views(names@) + Seq::<Seq<u8>>::empty() =~= byte_views(names@));
    Some((names, left))
}

/// The names that a fragment introduces. The path is as before afterwards.
fn declaration_names(
    definitions: &[CppMacroAlternatives],
    scope: &[u8],
    fragment: &[u8],
    semicolon: bool,
    path: &mut Vec<Vec<u8>>,
    remaining: usize,
) -> (r: Option<(Vec<Vec<u8>>, usize)>)
    ensures
        names_are(
            r,
            names_of_fragment(
                definitions@,
                scope@,
                fragment@,
                semicolon,
                byte_views(old(path)@),
                remaining as nat,
            ),
        ),
        byte_views(final(path)@) == byte_views(old(path)@),
    decreases 33 - old(path)@.len(), 4int,
{
    if fragment.len() > MAX_FRAGMENT_BYTES {
        return None;
    }
    let class_name = crate::cpp_tokens::segment(scope);
    if !identifier(class_name) {
        return None;
    }
    let mut text = copy_bytes(fragment);
    if semicolon {
        append_bytes(&mut text, ";".as_bytes());
    }
    if let Some(sites) = invocation_sequence(text.as_slice(), definitions) {
        return site_names(definitions, scope, sites.as_slice(), path, remaining);
    }
    let source = build_class(class_name, text.as_slice());
    let parsed = SyntaxTree::parse(source.as_slice());
    proof {
        SyntaxTree::parsing_is_repeatable(source@, parsed);
    }
    let tree = match parsed {
        None => {
            return None;
        },
        Some(tree) => tree,
    };
    proof {
        members_agree(tree, SyntaxTree::tree_of(source@)->0, class_name@);
    }
    match find_class_members(&tree, class_name) {
        None => None,
        Some(members) => class_names(definitions, scope, members.as_slice(), path, remaining),
    }
}

/// The names that a member macro introduces: the union over every visible
/// definition, where each has a known inventory. It keeps a written member with any
/// of these names from being selected.
pub fn introduced_names(
    invocation_site: &CppMemberMacro,
    definitions: &[CppMacroAlternatives],
) -> (r: Option<Vec<Vec<u8>>>)
    ensures
        lists(
            r,
            match names_of_invocation(
                definitions@,
                invocation_site.scope@,
                invocation_site.text@,
                Seq::empty(),
                MAX_FRAGMENT_BYTES as nat,
            ) {
                None => None,
                Some((names, _)) => Some(names),
            },
        ),
{
    let mut path: Vec<Vec<u8>> = Vec::new();
    assert(byte_views(path@) =~= Seq::empty());
    match member_names(
        definitions,
        invocation_site.scope.as_bytes(),
        invocation_site.text.as_bytes(),
        &mut path,
        MAX_FRAGMENT_BYTES,
    ) {
        None => None,
        Some((names, _)) => Some(names),
    }
}

/// Whatever a member macro introduces is listed in order, each name once.
pub proof fn introduced_names_are_sorted(
    definitions: Seq<CppMacroAlternatives>,
    scope: Seq<u8>,
    text: Seq<u8>,
    path: Seq<Seq<u8>>,
    remaining: nat,
)
    ensures
        match names_of_invocation(definitions, scope, text, path, remaining) {
            None => true,
            Some((names, _)) => is_sorted(names),
        },
{
    match invocation_of(text) {
        None => {},
        Some(site) => {
            match alternatives_of(definitions, site.name) {
                None => {},
                Some(list) => {
                    match names_of_alternatives(definitions, scope, list, site, path, remaining) {
                        None => {},
                        Some((names, _)) => {
                            sorting_keeps_names(names);
                        },
                    }
                },
            }
        },
    }
}

/// A sorted list with one more item behind those that are not greater.
pub open spec fn with_text(sorted: Seq<Seq<u8>>, item: Seq<u8>) -> Seq<Seq<u8>>
    decreases sorted.len(),
{
    if sorted.len() == 0 {
        seq![item]
    } else if comes_before(item, sorted.last()) {
        with_text(sorted.drop_last(), item).push(sorted.last())
    } else {
        sorted.push(item)
    }
}

/// Byte strings in order.
pub open spec fn ordered_texts(items: Seq<Seq<u8>>) -> Seq<Seq<u8>>
    decreases items.len(),
{
    if items.len() == 0 {
        Seq::empty()
    } else {
        with_text(ordered_texts(items.drop_last()), items.last())
    }
}

/// Add an item to a sorted list.
pub fn insert_sorted(sorted: &mut Vec<Vec<u8>>, item: Vec<u8>)
    ensures
        byte_views(final(sorted)@) == with_text(byte_views(old(sorted)@), item@),
{
    let ghost views = byte_views(sorted@);
    let mut at: usize = sorted.len();
    assert(views.take(at as int) =~= views);
    assert(with_text(views, item@) + views.skip(at as int) =~= with_text(views, item@));
    while at > 0 && is_before(item.as_slice(), sorted[at - 1].as_slice())
        invariant
            at <= sorted@.len(),
            *sorted == *old(sorted),
            views == byte_views(sorted@),
            with_text(views, item@) == with_text(views.take(at as int), item@) + views.skip(
                at as int,
            ),
        decreases at,
    {
        assert(views.take(at as int).drop_last() =~= views.take(at - 1));
        assert(with_text(views.take(at - 1), item@).push(views[at - 1]) + views.skip(at as int)
            =~= with_text(views.take(at - 1), item@) + views.skip(at - 1));
        at -= 1;
    }
    let ghost before = sorted@;
    sorted.insert(at, item);
    assert(byte_views(sorted@) =~= views.take(at as int).push(item@) + views.skip(at as int));
    assert(at == 0 ==> seq![item@] =~= views.take(0).push(item@));
}

/// Byte strings in order.
pub fn order_texts(items: &[Vec<u8>]) -> (r: Vec<Vec<u8>>)
    ensures
        byte_views(r@) == ordered_texts(byte_views(items@)),
{
    let ghost views = byte_views(items@);
    let mut sorted: Vec<Vec<u8>> = Vec::new();
    let mut i: usize = 0;
    assert(byte_views(sorted@) =~= Seq::empty());
    assert(views.take(0) =~= Seq::empty());
    while i < items.len()
        invariant
            i <= items@.len(),
            views == byte_views(items@),
            byte_views(sorted@) == ordered_texts(views.take(i as int)),
        decreases items@.len() - i,
    {
        assert(views.take(i + 1).drop_last() =~= views.take(i as int));
        assert(views.take(i + 1).last() == items@[i as int]@);
        insert_sorted(&mut sorted, copy_bytes(items[i].as_slice()));
        i += 1;
    }
    assert(views.take(i as int) =~= views);
    sorted
}

/// The names that an invocation introduces under one definition of its macro.
pub open spec fn names_of_definition(
    definitions: Seq<CppMacroAlternatives>,
    scope: Seq<u8>,
    definition: CppMacroDefinition,
    site: InvocationView,
    path: Seq<Seq<u8>>,
    remaining: nat,
) -> Names {
    match member_fragment(definitions, definition, site.arguments, remaining) {
        Some(fragment) if fragment.len() <= remaining => names_of_fragment(
            definitions,
            scope,
            fragment,
            site.semicolon,
            path.push(site.name),
            (remaining - fragment.len()) as nat,
        ),
        _ => None,
    }
}

/// Whether no more bytes may be looked at afterwards than before.
pub open spec fn spends(names: Names, remaining: nat) -> bool {
    match names {
        None => true,
        Some((_, left)) => left <= remaining,
    }
}

proof fn lemma_invocation_spends(
    definitions: Seq<CppMacroAlternatives>,
    scope: Seq<u8>,
    text: Seq<u8>,
    path: Seq<Seq<u8>>,
    remaining: nat,
)
    ensures
        spends(names_of_invocation(definitions, scope, text, path, remaining), remaining),
    decreases 33 - path.len(), 2int, 0int,
{
    match invocation_of(text) {
        None => {},
        Some(site) => {
            if path.len() < 32 {
                match alternatives_of(definitions, site.name) {
                    None => {},
                    Some(list) => {
                        lemma_alternatives_spend(definitions, scope, list, site, path, remaining);
                    },
                }
            }
        },
    }
}

proof fn lemma_alternatives_spend(
    definitions: Seq<CppMacroAlternatives>,
    scope: Seq<u8>,
    list: Seq<CppMacroDefinition>,
    site: InvocationView,
    path: Seq<Seq<u8>>,
    remaining: nat,
)
    ensures
        spends(
            names_of_alternatives(definitions, scope, list, site, path, remaining),
            remaining,
        ),
    decreases 33 - path.len(), 1int, list.len(),
{
    if list.len() > 0 && path.len() < 32 {
        match member_fragment(definitions, list[0], site.arguments, remaining) {
            Some(fragment) if fragment.len() <= remaining => {
                let inside = path.push(site.name);
                let paid = (remaining - fragment.len()) as nat;
                lemma_fragment_spends(
                    definitions,
                    scope,
                    fragment,
                    site.semicolon,
                    inside,
                    paid,
                );
                match names_of_fragment(
                    definitions,
                    scope,
                    fragment,
                    site.semicolon,
                    inside,
                    paid,
                ) {
                    None => {},
                    Some((_, left)) => {
                        lemma_alternatives_spend(
                            definitions,
                            scope,
                            list.drop_first(),
                            site,
                            path,
                            left,
                        );
                    },
                }
            },
            _ => {},
        }
    }
}

proof fn lemma_fragment_spends(
    definitions: Seq<CppMacroAlternatives>,
    scope: Seq<u8>,
    fragment: Seq<u8>,
    semicolon: bool,
    path: Seq<Seq<u8>>,
    remaining: nat,
)
    ensures
        spends(
            names_of_fragment(definitions, scope, fragment, semicolon, path, remaining),
            remaining,
        ),
    decreases 33 - path.len(), 4int, 0int,
{
    let class_name = crate::cpp_tokens::last_segment(scope);
    let text = if semicolon {
        fragment + ";".spec_bytes()
    } else {
        fragment
    };
    match invocations_of(text, definitions) {
        Some(sites) => {
            lemma_sites_spend(
                definitions,
                scope,
                sites.map_values(|site: (Seq<u8>, Seq<u8>)| site.1),
                path,
                remaining,
            );
        },
        None => match SyntaxTree::tree_of(class_text(class_name, text)) {
            None => {},
            Some(tree) => match class_members(tree, class_name) {
                None => {},
                Some(members) => {
                    lemma_members_spend(definitions, scope, members, path, remaining);
                },
            },
        },
    }
}

proof fn lemma_sites_spend(
    definitions: Seq<CppMacroAlternatives>,
    scope: Seq<u8>,
    texts: Seq<Seq<u8>>,
    path: Seq<Seq<u8>>,
    remaining: nat,
)
    ensures
        spends(names_of_sites(definitions, scope, texts, path, remaining), remaining),
    decreases 33 - path.len(), 3int, texts.len(),
{
    if texts.len() > 0 {
        lemma_invocation_spends(definitions, scope, texts[0], path, remaining);
        match names_of_invocation(definitions, scope, texts[0], path, remaining) {
            None => {},
            Some((_, left)) => {
                lemma_sites_spend(definitions, scope, texts.drop_first(), path, left);
            },
        }
    }
}

proof fn lemma_members_spend(
    definitions: Seq<CppMacroAlternatives>,
    scope: Seq<u8>,
    members: Seq<MemberView>,
    path: Seq<Seq<u8>>,
    remaining: nat,
)
    ensures
        spends(names_of_members(definitions, scope, members, path, remaining), remaining),
    decreases 33 - path.len(), 3int, members.len(),
{
    if members.len() > 0 {
        let text = members[0].text;
        let rest = members.drop_first();
        lemma_invocation_spends(definitions, scope, text, path, remaining);
        lemma_members_spend(definitions, scope, rest, path, remaining);
        match names_of_invocation(definitions, scope, text, path, remaining) {
            None => {},
            Some((_, left)) => {
                lemma_members_spend(definitions, scope, rest, path, left);
            },
        }
    }
}

/// What may still be looked at never grows: each invocation leaves at most what it was
/// given, and each of its definitions, whose turn comes behind those before it, at most
/// what they left. A definition pays for every byte of the fragment that it makes.
pub proof fn what_is_left_never_grows(
    definitions: Seq<CppMacroAlternatives>,
    scope: Seq<u8>,
    text: Seq<u8>,
    path: Seq<Seq<u8>>,
    remaining: nat,
    definition: CppMacroDefinition,
    site: InvocationView,
)
    ensures
        spends(names_of_invocation(definitions, scope, text, path, remaining), remaining),
        match member_fragment(definitions, definition, site.arguments, remaining) {
            None => true,
            Some(fragment) => fragment.len() <= remaining ==> spends(
                names_of_definition(definitions, scope, definition, site, path, remaining),
                (remaining - fragment.len()) as nat,
            ),
        },
{
    lemma_invocation_spends(definitions, scope, text, path, remaining);
    match member_fragment(definitions, definition, site.arguments, remaining) {
        None => {},
        Some(fragment) => {
            if fragment.len() <= remaining {
                lemma_fragment_spends(
                    definitions,
                    scope,
                    fragment,
                    site.semicolon,
                    path.push(site.name),
                    (remaining - fragment.len()) as nat,
                );
            }
        },
    }
}

/// Whether the names that an invocation introduces under one definition are among some
/// names, for the bytes that may be looked at when its turn comes.
pub open spec fn adds_to(
    definitions: Seq<CppMacroAlternatives>,
    scope: Seq<u8>,
    definition: CppMacroDefinition,
    site: InvocationView,
    path: Seq<Seq<u8>>,
    remaining: nat,
    names: Seq<Seq<u8>>,
) -> bool {
    match names_of_definition(definitions, scope, definition, site, path, remaining) {
        None => false,
        Some((own, _)) => forall|name: Seq<u8>| #[trigger]
            own.contains(name) ==> names.contains(name),
    }
}

proof fn lemma_each_definition_adds(
    definitions: Seq<CppMacroAlternatives>,
    scope: Seq<u8>,
    list: Seq<CppMacroDefinition>,
    site: InvocationView,
    path: Seq<Seq<u8>>,
    remaining: nat,
    k: int,
) -> (budget: nat)
    requires
        0 <= k < list.len(),
        path.len() < 32,
        names_of_alternatives(definitions, scope, list, site, path, remaining) is Some,
    ensures
        budget <= remaining,
        adds_to(
            definitions,
            scope,
            list[k],
            site,
            path,
            budget,
            names_of_alternatives(definitions, scope, list, site, path, remaining).unwrap().0,
        ),
    decreases list.len(),
{
    let all = names_of_alternatives(definitions, scope, list, site, path, remaining).unwrap().0;
    let (own, left) = names_of_definition(
        definitions,
        scope,
        list[0],
        site,
        path,
        remaining,
    )->0;
    let rest = names_of_alternatives(definitions, scope, list.drop_first(), site, path, left).unwrap().0;
    assert(all == own + rest);
    what_is_left_never_grows(definitions, scope, Seq::empty(), path, remaining, list[0], site);
    if k == 0 {
        assert forall|name: Seq<u8>| #[trigger] own.contains(name) implies all.contains(name) by {
            let i = choose|i: int| 0 <= i < own.len() && own[i] == name;
            assert(all[i] == name);
        }
        remaining
    } else {
        let budget = lemma_each_definition_adds(
            definitions,
            scope,
            list.drop_first(),
            site,
            path,
            left,
            k - 1,
        );
        let (mine, _) = names_of_definition(definitions, scope, list[k], site, path, budget)->0;
        assert(list.drop_first()[k - 1] == list[k]);
        assert forall|name: Seq<u8>| #[trigger] mine.contains(name) implies all.contains(name) by {
            assert(rest.contains(name));
            let i = choose|i: int| 0 <= i < rest.len() && rest[i] == name;
            assert(all[own.len() + i] == name);
        }
        budget
    }
}

/// What a member macro introduces is known only where it is known under each of its
/// definitions, for no more bytes than the invocation may look at, and holds the names of
/// all of them.
pub proof fn every_definition_adds_its_names(
    definitions: Seq<CppMacroAlternatives>,
    scope: Seq<u8>,
    text: Seq<u8>,
    path: Seq<Seq<u8>>,
    remaining: nat,
    site: InvocationView,
    list: Seq<CppMacroDefinition>,
    k: int,
)
    requires
        invocation_of(text) == Some(site),
        alternatives_of(definitions, site.name) == Some(list),
        0 <= k < list.len(),
        names_of_invocation(definitions, scope, text, path, remaining) is Some,
    ensures
        exists|budget: nat|
            budget <= remaining && #[trigger] adds_to(
                definitions,
                scope,
                list[k],
                site,
                path,
                budget,
                names_of_invocation(definitions, scope, text, path, remaining).unwrap().0,
            ),
{
    let all = names_of_alternatives(definitions, scope, list, site, path, remaining).unwrap().0;
    let names = names_of_invocation(definitions, scope, text, path, remaining).unwrap().0;
    let budget = lemma_each_definition_adds(definitions, scope, list, site, path, remaining, k);
    sorting_keeps_names(all);
    let (own, _) = names_of_definition(definitions, scope, list[k], site, path, budget)->0;
    assert forall|name: Seq<u8>| #[trigger] own.contains(name) implies names.contains(name) by {
        assert(all.contains(name));
    }
    assert(adds_to(definitions, scope, list[k], site, path, budget, names));
}

} // verus!
