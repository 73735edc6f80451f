//! Where annotations can stand in C++ declarations, and the parser input without
//! them.

use crate::cpp_annotations::{
    close_from, following_identifier, identifier_after, invocation_end, invocation_reach,
};
use crate::cpp_facts::{
    lemma_push_view, views, AnnotationTokenView, CppAnnotationPosition, CppAnnotationToken,
    CppMacroDefinition, CppMemberMacro, MacroDefinitionView,
};
use crate::cpp_initialization::{is_refined, is_unread, refine};
use crate::cpp_member_macros::{
    count_lines, last_line_len, line_count, parameters, parameters_of,
};
use crate::cpp_tokens::{
    byte_at, find_pair, find_pair_from, get_byte, has_pair_at, identifier, is_blank, is_identifier,
    is_token, is_word_byte, is_word_start, lists, pair_at, starts_word, token_is, word_run,
    word_run_end, BACKSLASH, EQUALS, GREATER, MINUS, NEWLINE, OPEN, OPEN_BRACE, QUOTE, RETURN,
    SEMICOLON, SLASH, SPACE, STAR,
};
use crate::facts::TextRange;
use crate::syntax::{bytes_between, get_bytes, get_slice, slice_of, Field, Kind, SyntaxTree};
use crate::text::{
    byte_views, copy_bytes, lemma_push_bytes, same_bytes, skip_space, word_start, Text,
};
use vstd::prelude::*;
use vstd::string::StringSliceAdditionalSpecFns;

verus! {

broadcast use {SyntaxTree::parent_comes_first, SyntaxTree::children_come_later};

/// Whether a text stands in a range of another.
pub open spec fn stands_in(bytes: Seq<u8>, range: TextRange, text: Seq<u8>) -> bool {
    text.len() > 0 && bytes_between(bytes, range.start_byte as int, range.end_byte as int) == Some(
        text,
    )
}

/// A text in which a recorded token is blank, but for line breaks. Where the token
/// does not stand in its range any more, nothing is.
pub open spec fn blanked(bytes: Seq<u8>, range: TextRange, text: Seq<u8>) -> Seq<u8> {
    if stands_in(bytes, range, text) {
        Seq::new(
            bytes.len(),
            |i: int|
                if range.start_byte <= i < range.end_byte && bytes[i] != NEWLINE && bytes[i]
                    != RETURN {
                    SPACE
                } else {
                    bytes[i]
                },
        )
    } else {
        bytes
    }
}

/// A text in which recorded tokens are blank, one after the other.
pub open spec fn all_blanked(bytes: Seq<u8>, sites: Seq<(TextRange, Seq<u8>)>) -> Seq<u8>
    decreases sites.len(),
{
    if sites.len() == 0 {
        bytes
    } else {
        blanked(all_blanked(bytes, sites.drop_last()), sites.last().0, sites.last().1)
    }
}

/// The recorded tokens of annotations and member macros.
pub open spec fn blank_sites(
    annotations: Seq<CppAnnotationToken>,
    members: Seq<CppMemberMacro>,
) -> Seq<(TextRange, Seq<u8>)> {
    annotations.map_values(|site: CppAnnotationToken| (site.range, site.text@))
        + members.map_values(|site: CppMemberMacro| (site.range, site.text@))
}

fn blank_out(bytes: &mut Vec<u8>, range: &TextRange, text: &[u8])
    ensures
        final(bytes)@ == blanked(old(bytes)@, *range, text@),
{
    let ghost before = bytes@;
    let start: usize = range.start_byte as usize;
    let end: usize = range.end_byte as usize;
    let here = match get_bytes(bytes.as_slice(), start, end) {
        None => false,
        Some(token) => token.len() > 0 && same_bytes(token, text),
    };
    if !here {
        return ;
    }
    let mut i: usize = start;
    while i < end
        invariant
            start <= i <= end,
            end <= bytes@.len(),
            bytes@.len() == before.len(),
            forall|k: int|
                0 <= k < bytes@.len() ==> #[trigger] bytes@[k] == if start <= k < i && before[k]
                    != NEWLINE && before[k] != RETURN {
                    SPACE
                } else {
                    before[k]
                },
        decreases end - i,
    {
        let b = bytes[i];
        if b != NEWLINE && b != RETURN {
            bytes.set(i, SPACE);
        }
        i += 1;
    }
    assert(bytes@ =~= blanked(before, *range, text@));
}

/// The parser input of a file: its text, in which annotations and member macros are
/// blank.
pub struct AnnotationParser {
    pub annotations: Vec<CppAnnotationToken>,
    pub members: Vec<CppMemberMacro>,
}

impl AnnotationParser {
    /// What the parser reads in place of a text. Every position stays as it is.
    pub fn parser_source(&self, source: &[u8]) -> (r: Vec<u8>)
        ensures
            r@ == all_blanked(source@, blank_sites(self.annotations@, self.members@)),
    {
        let ghost sites = blank_sites(self.annotations@, self.members@);
        let mut normalized = copy_bytes(source);
        let first: usize = self.annotations.len();
        let mut i: usize = 0;
        assert(sites.take(0) =~= Seq::empty());
        while i < first
            invariant
                i <= first,
                first == self.annotations@.len(),
                sites == blank_sites(self.annotations@, self.members@),
                normalized@ == all_blanked(source@, sites.take(i as int)),
            decreases first - i,
        {
            let site = &self.annotations[i];
            assert(sites.take(i + 1).drop_last() =~= sites.take(i as int));
            assert(sites.take(i + 1).last() == (site.range, site.text@));
            blank_out(&mut normalized, &site.range, site.text.as_bytes());
            i += 1;
        }
        let mut k: usize = 0;
        while k < self.members.len()
            invariant
                k <= self.members@.len(),
                first == self.annotations@.len(),
                sites == blank_sites(self.annotations@, self.members@),
                normalized@ == all_blanked(source@, sites.take(first + k)),
            decreases self.members@.len() - k,
        {
            let site = &self.members[k];
            assert(sites.take(first + k + 1).drop_last() =~= sites.take(first + k));
            assert(sites.take(first + k + 1).last() == (site.range, site.text@));
            blank_out(&mut normalized, &site.range, site.text.as_bytes());
            k += 1;
        }
        assert(sites.take(first + k) =~= sites);
        normalized
    }
}

/// Whether a tree is that of a text in which annotations and member macros are blank for
/// the parser, read again where expressions were taken for parameters. Its nodes stand
/// over the text itself.
pub open spec fn is_annotated_tree(
    source: Seq<u8>,
    sites: Seq<(TextRange, Seq<u8>)>,
    tree: SyntaxTree,
) -> bool {
    let text = all_blanked(source, sites);
    exists|raw: SyntaxTree, refined: SyntaxTree|
        SyntaxTree::parsed(text, text, Seq::empty(), Some(raw)) && #[trigger] is_refined(
            raw,
            refined,
        ) && tree.restates(refined, source)
}

/// Whether the parser gives nothing for a text in which annotations and member macros are
/// blank, or for the text that it is to read again.
pub open spec fn has_no_tree(source: Seq<u8>, sites: Seq<(TextRange, Seq<u8>)>) -> bool {
    let text = all_blanked(source, sites);
    SyntaxTree::parsed(text, text, Seq::empty(), None) || exists|raw: SyntaxTree|
        SyntaxTree::parsed(text, text, Seq::empty(), Some(raw)) && #[trigger] is_unread(raw)
}

impl AnnotationParser {
    /// The tree of a text. Nothing is returned on cancellation, and where the parser gives
    /// nothing.
    pub fn parse<F: Fn() -> bool>(&self, source: &[u8], cancel: &F) -> (r: Option<SyntaxTree>)
        requires
            call_requires(*cancel, ()),
        ensures
            match r {
                None => call_ensures(*cancel, (), true) || has_no_tree(
                    source@,
                    blank_sites(self.annotations@, self.members@),
                ),
                Some(tree) => call_ensures(*cancel, (), false) && is_annotated_tree(
                    source@,
                    blank_sites(self.annotations@, self.members@),
                    tree,
                ),
            },
    {
        let text = self.parser_source(source);
        let raw = match SyntaxTree::parse(text.as_slice()) {
            None => {
                return None;
            },
            Some(raw) => raw,
        };
        let ghost first = raw;
        match refine(raw, cancel) {
            None => {
                assert(!call_ensures(*cancel, (), true) ==> is_unread(first));
                None
            },
            Some(refined) => {
                assert(is_refined(first, refined));
                Some(refined.with_source(source))
            },
        }
    }
}

/// A parser that takes recorded annotations and member macros for blank space.
pub fn frontend(annotations: Vec<CppAnnotationToken>, members: Vec<CppMemberMacro>) -> (r:
    AnnotationParser)
    ensures
        r.annotations == annotations,
        r.members == members,
{
    AnnotationParser { annotations, members }
}

/// The parser input has the length of the text, its line breaks stand where they
/// stood, and a byte that differs is blank and stands in the range of a recorded
/// token.
pub proof fn parser_source_keeps_positions(bytes: Seq<u8>, sites: Seq<(TextRange, Seq<u8>)>)
    ensures
        all_blanked(bytes, sites).len() == bytes.len(),
        forall|i: int|
            0 <= i < bytes.len() ==> {
                ||| #[trigger] all_blanked(bytes, sites)[i] == bytes[i]
                ||| {
                    &&& all_blanked(bytes, sites)[i] == SPACE
                    &&& bytes[i] != NEWLINE
                    &&& bytes[i] != RETURN
                    &&& exists|k: int|
                        0 <= k < sites.len() && (#[trigger] sites[k]).0.start_byte <= i
                            < sites[k].0.end_byte
                }
            },
    decreases sites.len(),
{
    if sites.len() > 0 {
        let shorter = sites.drop_last();
        parser_source_keeps_positions(bytes, shorter);
        let before = all_blanked(bytes, shorter);
        let after = all_blanked(bytes, sites);
        assert forall|i: int| 0 <= i < bytes.len() implies {
            ||| #[trigger] after[i] == bytes[i]
            ||| {
                &&& after[i] == SPACE
                &&& bytes[i] != NEWLINE
                &&& bytes[i] != RETURN
                &&& exists|k: int|
                    0 <= k < sites.len() && (#[trigger] sites[k]).0.start_byte <= i
                        < sites[k].0.end_byte
            }
        } by {
            assert(before[i] == before[i]);
            if after[i] != before[i] {
                let k = sites.len() - 1;
                assert(sites[k].0.start_byte <= i < sites[k].0.end_byte);
            } else if before[i] != bytes[i] {
                let k = choose|k: int|
                    0 <= k < shorter.len() && (#[trigger] shorter[k]).0.start_byte <= i
                        < shorter[k].0.end_byte;
                assert(sites[k] == shorter[k]);
            }
        }
    }
}

/// A token that no longer stands in its range leaves the parser input as it was.
pub proof fn a_changed_token_is_left_alone(bytes: Seq<u8>, range: TextRange, text: Seq<u8>)
    requires
        bytes_between(bytes, range.start_byte as int, range.end_byte as int) != Some(text),
    ensures
        blanked(bytes, range, text) == bytes,
{
}

/// What stands at a position for the plain reader of tokens: blank space, a comment
/// or a line splice, a token, the end of what is read, or what is not supported. The
/// number is where it ends.
#[derive(Clone, Copy, PartialEq, Eq, Structural, Debug)]
pub enum PlainLexeme {
    Gap(usize),
    Token(usize),
    End,
    Unknown,
}

/// What stands at a position for the plain reader of tokens.
pub open spec fn plain_lexeme_at(bytes: Seq<u8>, at: int) -> PlainLexeme {
    if is_blank(bytes[at]) {
        PlainLexeme::Gap((at + 1) as usize)
    } else if pair_at(bytes, at, BACKSLASH, NEWLINE) {
        PlainLexeme::Gap((at + 2) as usize)
    } else if pair_at(bytes, at, SLASH, SLASH) {
        PlainLexeme::End
    } else if pair_at(bytes, at, SLASH, STAR) {
        match find_pair(bytes, at + 2, STAR, SLASH) {
            None => PlainLexeme::Unknown,
            Some(end) => PlainLexeme::Gap((end + 2) as usize),
        }
    } else if is_word_start(bytes[at]) {
        PlainLexeme::Token(word_run(bytes, at) as usize)
    } else if bytes[at] == QUOTE {
        match crate::cpp_annotations::closing_quote(bytes, at + 1, QUOTE) {
            None => PlainLexeme::Unknown,
            Some(end) => PlainLexeme::Token((end + 1) as usize),
        }
    } else if bytes[at] < 128 {
        PlainLexeme::Token((at + 1) as usize)
    } else {
        PlainLexeme::Unknown
    }
}

fn plain_lexeme(bytes: &[u8], at: usize) -> (r: PlainLexeme)
    requires
        at < bytes@.len(),
    ensures
        r == plain_lexeme_at(bytes@, at as int),
        match r {
            PlainLexeme::Gap(end) => at < end <= bytes@.len(),
            PlainLexeme::Token(end) => at < end <= bytes@.len(),
            _ => true,
        },
{
    let count: usize = bytes.len();
    let b = bytes[at];
    if crate::cpp_tokens::blank(b) {
        return PlainLexeme::Gap(at + 1);
    }
    if has_pair_at(bytes, at, BACKSLASH, NEWLINE) {
        return PlainLexeme::Gap(at + 2);
    }
    if has_pair_at(bytes, at, SLASH, SLASH) {
        return PlainLexeme::End;
    }
    if has_pair_at(bytes, at, SLASH, STAR) {
        return match find_pair_from(bytes, at + 2, STAR, SLASH) {
            None => PlainLexeme::Unknown,
            Some(end) => PlainLexeme::Gap(end + 2),
        };
    }
    if starts_word(b) {
        proof {
            assert(word_run(bytes@, at as int) == word_run(bytes@, at + 1));
            crate::cpp_tokens::lemma_run_end(bytes@, at + 1, |b: u8| is_word_byte(b));
        }
        return PlainLexeme::Token(word_run_end(bytes, at));
    }
    if b == QUOTE {
        return match crate::cpp_annotations::find_closing_quote(bytes, at + 1, QUOTE) {
            None => PlainLexeme::Unknown,
            Some(end) => PlainLexeme::Token(end + 1),
        };
    }
    if b < 128 {
        PlainLexeme::Token(at + 1)
    } else {
        PlainLexeme::Unknown
    }
}

/// The plain tokens of a text from a position on, up to a line comment.
pub open spec fn plain_tokens_from(bytes: Seq<u8>, at: int) -> Option<Seq<Seq<u8>>>
    decreases bytes.len() - at,
{
    if at < 0 || at >= bytes.len() {
        Some(Seq::empty())
    } else {
        match plain_lexeme_at(bytes, at) {
            PlainLexeme::Unknown => None,
            PlainLexeme::End => Some(Seq::empty()),
            PlainLexeme::Gap(end) => if at < end <= bytes.len() {
                plain_tokens_from(bytes, end as int)
            } else {
                None
            },
            PlainLexeme::Token(end) => if at < end <= bytes.len() {
                match plain_tokens_from(bytes, end as int) {
                    None => None,
                    Some(rest) => Some(seq![bytes.subrange(at, end as int)] + rest),
                }
            } else {
                None
            },
        }
    }
}

/// The plain tokens of a text: words, strings and single characters. Strings are kept
/// whole; comments and line splices separate.
pub fn tokens(source: &[u8]) -> (r: Option<Vec<Vec<u8>>>)
    ensures
        lists(r, plain_tokens_from(source@, 0)),
{
    let ghost all = plain_tokens_from(source@, 0);
    let mut list: Vec<Vec<u8>> = Vec::new();
    let mut at: usize = 0;
    let mut open = true;
    assert(byte_views(list@) =~= Seq::empty());
    proof {
        if let Some(rest) = all {
            assert(Seq::<Seq<u8>>::empty() + rest =~= rest);
        }
    }
    while open && at < source.len()
        invariant
            at <= source@.len(),
            all == plain_tokens_from(source@, 0),
            open ==> match plain_tokens_from(source@, at as int) {
                None => all is None,
                Some(rest) => all == Some(byte_views(list@) + rest),
            },
            !open ==> all == Some(byte_views(list@)),
        decreases source@.len() - at, if open { 1int } else { 0int },
    {
        match plain_lexeme(source, at) {
            PlainLexeme::Unknown => {
                return None;
            },
            PlainLexeme::End => {
                assert(byte_views(list@) + Seq::<Seq<u8>>::empty() =~= byte_views(list@));
                open = false;
            },
            PlainLexeme::Gap(end) => {
                at = end;
            },
            PlainLexeme::Token(end) => {
                let ghost before = list@;
                let token = copy_bytes(&source[at..end]);
                list.push(token);
                proof {
                    lemma_push_bytes(before, token);
                    if let Some(rest) = plain_tokens_from(source@, end as int) {
                        assert(byte_views(before) + (seq![token@] + rest) =~= byte_views(list@)
                            + rest);
                    }
                }
                at = end;
            },
        }
    }
    assert(byte_views(list@) + Seq::<Seq<u8>>::empty() =~= byte_views(list@));
    Some(list)
}

/// Whether there is nothing but white space between two positions of a text.
pub open spec fn only_space(bytes: Seq<u8>, start: int, end: int) -> bool {
    match slice_of(bytes, start, end) {
        None => false,
        Some(part) => word_start(part, 0) == part.len(),
    }
}

/// Whether there is nothing but white space between two positions of a text.
pub fn is_only_space(bytes: &[u8], start: u32, end: u32) -> (r: bool)
    ensures
        r == only_space(bytes@, start as int, end as int),
{
    match get_slice(bytes, start as usize, end as usize) {
        None => false,
        Some(part) => skip_space(part, 0) == part.len(),
    }
}

/// Whether tokens are one word.
pub open spec fn are_one(tokens: Option<Seq<Seq<u8>>>, word: &str) -> bool {
    match tokens {
        None => false,
        Some(list) => list.len() == 1 && token_is(list[0], word),
    }
}

/// The condition of a conditional, in plain tokens.
pub open spec fn condition_tokens(tree: SyntaxTree, n: usize) -> Option<Seq<Seq<u8>>> {
    match tree.child_in_role(n, Field::Condition) {
        None => None,
        Some(condition) => match tree.text_of(condition) {
            None => None,
            Some(text) => plain_tokens_from(text, 0),
        },
    }
}

/// Whether a node stands in a branch that a literal condition leaves out.
pub open spec fn is_inactive(tree: SyntaxTree, n: usize) -> bool
    decreases n,
{
    match tree.parent_of(n) {
        None => false,
        Some(p) => {
            let condition = condition_tokens(tree, p);
            let alternative = tree.child_in_role(p, Field::Alternative) == Some(n);
            ((tree.kind_of(p) == Kind::PreprocIf || tree.kind_of(p) == Kind::PreprocElif) && ((
            are_one(condition, "0") && !alternative) || (are_one(condition, "1") && alternative)))
                || is_inactive(tree, p)
        },
    }
}

/// Whether a node stands in a branch that a literal condition leaves out.
pub fn inactive_literal_branch(tree: &SyntaxTree, node: usize) -> (r: bool)
    ensures
        r == is_inactive(*tree, node),
{
    let mut n: usize = node;
    loop
        invariant
            is_inactive(*tree, node) == is_inactive(*tree, n),
        decreases n,
    {
        let p: usize = match tree.parent(n) {
            None => {
                return false;
            },
            Some(p) => p,
        };
        if matches!(tree.kind(p), Kind::PreprocIf | Kind::PreprocElif) {
            if let Some(condition) = tree.child_by_field(p, Field::Condition) {
                if let Some(text) = tree.node_text(condition) {
                    if let Some(list) = tokens(text) {
                        let alternative = tree.child_by_field(p, Field::Alternative) == Some(n);
                        if list.len() == 1 {
                            assert(byte_views(list@)[0] == list@[0]@);
                            let token = list[0].as_slice();
                            if (is_token(token, "0") && !alternative) || (is_token(token, "1")
                                && alternative) {
                                return true;
                            }
                        }
                    }
                }
            }
        }
        n = p;
    }
}

/// The text of a child in a role.
pub open spec fn role_text(tree: SyntaxTree, n: usize, field: Field) -> Option<Seq<u8>> {
    match tree.child_in_role(n, field) {
        None => None,
        Some(child) => tree.text_of(child),
    }
}

/// The text of a child in a role.
pub fn find_role_text(tree: &SyntaxTree, n: usize, field: Field) -> (r: Option<&[u8]>)
    ensures
        match r {
            None => role_text(*tree, n, field) is None,
            Some(text) => role_text(*tree, n, field) == Some(text@),
        },
{
    match tree.child_by_field(n, field) {
        None => None,
        Some(child) => tree.node_text(child),
    }
}

/// The macro that a directive defines, or whose definition it takes away.
pub open spec fn macro_at(tree: SyntaxTree, n: usize) -> Option<MacroDefinitionView> {
    match tree.kind_of(n) {
        Kind::PreprocDef | Kind::PreprocFunctionDef => match role_text(tree, n, Field::Name) {
            None => None,
            Some(name) => {
                let listed = match role_text(tree, n, Field::Parameters) {
                    None => None,
                    Some(text) => parameters_of(text),
                };
                Some(
                    MacroDefinitionView {
                        name,
                        parameters: match listed {
                            None => None,
                            Some((names, _)) => Some(names),
                        },
                        variadic: match listed {
                            None => false,
                            Some((_, variadic)) => variadic,
                        },
                        replacement: if !tree.node(n).has_error && (tree.kind_of(n)
                            == Kind::PreprocDef || listed is Some) {
                            Some(
                                match role_text(tree, n, Field::Value) {
                                    None => Seq::empty(),
                                    Some(value) => value,
                                },
                            )
                        } else {
                            None
                        },
                        range: tree.range_of(n),
                    },
                )
            },
        },
        Kind::PreprocCall => if role_text(tree, n, Field::Directive) == Some(
            "#undef".spec_bytes(),
        ) {
            match role_text(tree, n, Field::Argument) {
                None => None,
                Some(text) => match plain_tokens_from(text, 0) {
                    Some(list) if list.len() == 1 && is_identifier(list[0]) => Some(
                        MacroDefinitionView {
                            name: list[0],
                            parameters: None,
                            variadic: false,
                            replacement: None,
                            range: tree.range_of(n),
                        },
                    ),
                    _ => None,
                },
            }
        } else {
            None
        },
        _ => None,
    }
}

fn find_macro_definition(tree: &SyntaxTree, n: usize) -> (r: Option<CppMacroDefinition>)
    ensures
        match r {
            None => macro_at(*tree, n) is None,
            Some(found) => macro_at(*tree, n) == Some(found@),
        },
{
    let kind = tree.kind(n);
    if matches!(kind, Kind::PreprocDef | Kind::PreprocFunctionDef) {
        let name = match find_role_text(tree, n, Field::Name) {
            None => {
                return None;
            },
            Some(name) => Text::from_bytes(name),
        };
        let listed = match find_role_text(tree, n, Field::Parameters) {
            None => None,
            Some(text) => parameters(text),
        };
        let (names, variadic) = match listed {
            None => (None, false),
            Some((names, variadic)) => (Some(names), variadic),
        };
        let replacement = if !tree.data(n).has_error && (kind == Kind::PreprocDef
            || names.is_some()) {
            match find_role_text(tree, n, Field::Value) {
                None => {
                    let none: Vec<u8> = Vec::new();
                    assert(none@ =~= Seq::empty());
                    Some(Text::from_vec(none))
                },
                Some(value) => Some(Text::from_bytes(value)),
            }
        } else {
            None
        };
        let found = CppMacroDefinition {
            name,
            parameters: names,
            variadic,
            replacement,
            range: tree.range(n),
        };
        assert(macro_at(*tree, n)->0 =~= found@);
        return Some(found);
    }
    if kind == Kind::PreprocCall {
        let undefines = match find_role_text(tree, n, Field::Directive) {
            None => false,
            Some(text) => is_token(text, "#undef"),
        };
        if !undefines {
            return None;
        }
        let list = match find_role_text(tree, n, Field::Argument) {
            None => {
                return None;
            },
            Some(text) => match tokens(text) {
                None => {
                    return None;
                },
                Some(list) => list,
            },
        };
        if list.len() != 1 {
            return None;
        }
        assert(byte_views(list@)[0] == list@[0]@);
        if !identifier(list[0].as_slice()) {
            return None;
        }
        let found = CppMacroDefinition {
            name: Text::from_bytes(list[0].as_slice()),
            parameters: None,
            variadic: false,
            replacement: None,
            range: tree.range(n),
        };
        assert(macro_at(*tree, n)->0 =~= found@);
        return Some(found);
    }
    None
}

/// Whether a node belongs to a declaration without changing what it declares.
pub open spec fn is_decoration(tree: SyntaxTree, n: usize) -> bool {
    (tree.kind_of(n) == Kind::AttributeDeclaration || tree.kind_of(n) == Kind::AttributeSpecifier
        || tree.kind_of(n) == Kind::Comment) && !tree.node(n).has_error
}

fn decoration(tree: &SyntaxTree, n: usize) -> (r: bool)
    ensures
        r == is_decoration(*tree, n),
{
    matches!(
        tree.kind(n),
        Kind::AttributeDeclaration | Kind::AttributeSpecifier | Kind::Comment
    ) && !tree.data(n).has_error
}

/// The range of a text that starts a distance behind a node: the text between them
/// moves the lines and columns on.
pub open spec fn range_behind(anchor: TextRange, between: Seq<u8>, text: Seq<u8>) -> TextRange {
    let lines = line_count(between);
    let line = anchor.end_line + lines;
    let column = if lines == 0 {
        anchor.end_column + between.len()
    } else {
        last_line_len(between) as int
    };
    TextRange {
        start_byte: (anchor.end_byte + between.len()) as u32,
        end_byte: (anchor.end_byte + between.len() + text.len()) as u32,
        start_line: line as u32,
        end_line: (line + line_count(text)) as u32,
        start_column: column as u32,
        end_column: if line_count(text) == 0 {
            (column + text.len()) as u32
        } else {
            last_line_len(text) as u32
        },
    }
}

fn find_range_behind(anchor: &TextRange, between: &[u8], text: &[u8]) -> (r: TextRange)
    ensures
        r == range_behind(*anchor, between@, text@),
{
    let (lines, rest) = count_lines(between);
    let (inner_lines, inner_rest) = count_lines(text);
    let start: u128 = anchor.end_byte as u128 + between.len() as u128;
    let line: u128 = anchor.end_line as u128 + lines as u128;
    let column: u128 = if lines == 0 {
        anchor.end_column as u128 + between.len() as u128
    } else {
        rest as u128
    };
    TextRange {
        start_byte: start as u32,
        end_byte: (start + text.len() as u128) as u32,
        start_line: line as u32,
        end_line: (line + inner_lines as u128) as u32,
        start_column: column as u32,
        end_column: if inner_lines == 0 {
            (column + text.len() as u128) as u32
        } else {
            inner_rest as u32
        },
    }
}

/// The last of the attributes and comments that follow a class keyword, or the
/// keyword: a macro may stand behind it.
pub open spec fn head_anchor(
    tree: SyntaxTree,
    children: Seq<usize>,
    keyword_end: u32,
    anchor: usize,
) -> usize
    decreases children.len(),
{
    if children.len() == 0 {
        anchor
    } else {
        let child = children[0];
        if tree.range_of(child).start_byte < keyword_end {
            head_anchor(tree, children.drop_first(), keyword_end, anchor)
        } else if is_decoration(tree, child) && only_space(
            tree.text(),
            tree.range_of(anchor).end_byte as int,
            tree.range_of(child).start_byte as int,
        ) {
            head_anchor(tree, children.drop_first(), keyword_end, child)
        } else {
            anchor
        }
    }
}

/// The macro between the keyword and the name of a class. A second identifier must
/// follow: a lone class name is none.
pub open spec fn class_prefix(tree: SyntaxTree, n: usize) -> Option<AnnotationTokenView> {
    match tree.first_of(
        tree.children_of(n),
        seq![Kind::ClassKeyword, Kind::StructKeyword],
        Seq::empty(),
    ) {
        None => None,
        Some(keyword) => {
            let anchor = head_anchor(
                tree,
                tree.children_of(n),
                tree.range_of(keyword).end_byte,
                keyword,
            );
            let after = tree.range_of(anchor).end_byte;
            match identifier_after(tree.text(), after as int) {
                Some((start, end)) if identifier_after(tree.text(), end as int) is Some => {
                    let name = tree.text().subrange(start as int, end as int);
                    Some(
                        AnnotationTokenView {
                            name,
                            text: name,
                            range: range_behind(
                                tree.range_of(anchor),
                                tree.text().subrange(after as int, start as int),
                                name,
                            ),
                            position: CppAnnotationPosition::ClassPrefix,
                        },
                    )
                },
                _ => None,
            }
        },
    }
}

fn find_head_anchor(tree: &SyntaxTree, children: &[usize], keyword: usize) -> (r: usize)
    ensures
        r == head_anchor(*tree, children@, tree.range_of(keyword).end_byte, keyword),
{
    let keyword_end = tree.range(keyword).end_byte;
    let ghost whole = head_anchor(*tree, children@, keyword_end, keyword);
    let mut anchor: usize = keyword;
    let mut i: usize = 0;
    assert(children@.skip(0) =~= children@);
    while i < children.len()
        invariant
            i <= children@.len(),
            keyword_end == tree.range_of(keyword).end_byte,
            whole == head_anchor(*tree, children@.skip(i as int), keyword_end, anchor),
            whole == head_anchor(*tree, children@, keyword_end, keyword),
        decreases children@.len() - i,
    {
        assert(children@.skip(i as int).drop_first() =~= children@.skip(i + 1));
        let child: usize = children[i];
        if tree.range(child).start_byte >= keyword_end {
            if !decoration(tree, child) || !is_only_space(
                tree.source(),
                tree.range(anchor).end_byte,
                tree.range(child).start_byte,
            ) {
                return anchor;
            }
            anchor = child;
        }
        i += 1;
    }
    anchor
}

fn find_class_prefix(tree: &SyntaxTree, n: usize) -> (r: Option<CppAnnotationToken>)
    ensures
        match r {
            None => class_prefix(*tree, n) is None,
            Some(found) => class_prefix(*tree, n) == Some(found@),
        },
{
    let children = tree.children(n);
    let want = [Kind::ClassKeyword, Kind::StructKeyword];
    let stop: [Kind; 0] = [];
    assert(want@ =~= seq![Kind::ClassKeyword, Kind::StructKeyword]);
    assert(stop@ =~= Seq::empty());
    let keyword = match tree.find_first(children, &want, &stop) {
        None => {
            return None;
        },
        Some(keyword) => keyword,
    };
    let anchor = find_head_anchor(tree, children, keyword);
    let range = tree.range(anchor);
    let after: usize = range.end_byte as usize;
    let source = tree.source();
    let (start, end) = match following_identifier(source, after) {
        None => {
            return None;
        },
        Some(found) => found,
    };
    if following_identifier(source, end).is_none() {
        return None;
    }
    let name = &source[start..end];
    let found = CppAnnotationToken {
        name: Text::from_bytes(name),
        text: Text::from_bytes(name),
        range: find_range_behind(&range, &source[after..start], name),
        position: CppAnnotationPosition::ClassPrefix,
    };
    assert(class_prefix(*tree, n)->0 =~= found@);
    Some(found)
}

/// The word at the start of a declaration that was read as its type: an identifier
/// follows it, and nothing but attributes stands before it.
pub open spec fn declaration_prefix(tree: SyntaxTree, n: usize) -> Option<AnnotationTokenView> {
    match tree.child_in_role(n, Field::Type) {
        None => None,
        Some(ty) => match tree.text_of(ty) {
            Some(text) if tree.kind_of(ty) == Kind::TypeIdentifier && !tree.node(ty).has_error && (
            forall|k: int|
                0 <= k < tree.earlier_siblings_of(ty).len() ==> is_decoration(
                    tree,
                    #[trigger] tree.earlier_siblings_of(ty)[k],
                )) && identifier_after(
                tree.text(),
                tree.range_of(ty).end_byte as int,
            ) is Some => Some(
                AnnotationTokenView {
                    name: text,
                    text,
                    range: tree.range_of(ty),
                    position: CppAnnotationPosition::DeclarationPrefix,
                },
            ),
            _ => None,
        },
    }
}

fn find_declaration_prefix(tree: &SyntaxTree, n: usize) -> (r: Option<CppAnnotationToken>)
    ensures
        match r {
            None => declaration_prefix(*tree, n) is None,
            Some(found) => declaration_prefix(*tree, n) == Some(found@),
        },
{
    let ty = match tree.child_by_field(n, Field::Type) {
        None => {
            return None;
        },
        Some(ty) => ty,
    };
    let text = match tree.node_text(ty) {
        None => {
            return None;
        },
        Some(text) => text,
    };
    if tree.kind(ty) != Kind::TypeIdentifier || tree.data(ty).has_error {
        return None;
    }
    let before = tree.earlier_siblings(ty);
    let mut i: usize = 0;
    while i < before.len()
        invariant
            i <= before@.len(),
            before@ == tree.earlier_siblings_of(ty),
            tree.child_in_role(n, Field::Type) == Some(ty),
            forall|k: int| 0 <= k < i ==> is_decoration(*tree, #[trigger] before@[k]),
        decreases before@.len() - i,
    {
        if !decoration(tree, before[i]) {
            assert(!is_decoration(*tree, tree.earlier_siblings_of(ty)[i as int]));
            return None;
        }
        i += 1;
    }
    if following_identifier(tree.source(), tree.range(ty).end_byte as usize).is_none() {
        return None;
    }
    let found = CppAnnotationToken {
        name: Text::from_bytes(text),
        text: Text::from_bytes(text),
        range: tree.range(ty),
        position: CppAnnotationPosition::DeclarationPrefix,
    };
    assert(declaration_prefix(*tree, n)->0 =~= found@);
    Some(found)
}

/// Whether a declaration goes on behind its annotations.
pub open spec fn ends_suffixes(
    text: Seq<u8>,
    at: int,
    position: CppAnnotationPosition,
) -> bool {
    let rest = word_start(text, at);
    ||| byte_at(text, rest) == Some(SEMICOLON)
    ||| byte_at(text, rest) == Some(OPEN_BRACE)
    ||| position == CppAnnotationPosition::DataSuffix && byte_at(text, rest) == Some(EQUALS)
    ||| (position == CppAnnotationPosition::CallableSuffix || position
        == CppAnnotationPosition::LambdaSuffix) && pair_at(text, rest, MINUS, GREATER)
}

/// Where the word that starts at a place ends, with its arguments where parentheses
/// follow; behind data they must.
pub open spec fn suffix_end(
    text: Seq<u8>,
    name_end: int,
    position: CppAnnotationPosition,
) -> Option<usize> {
    let open = word_start(text, name_end);
    if byte_at(text, open) == Some(OPEN) {
        close_from(invocation_reach(text, open), open, 0)
    } else if position == CppAnnotationPosition::DataSuffix {
        None
    } else {
        Some(name_end as usize)
    }
}

/// The words and invocations that follow a node up to where its declaration goes on,
/// behind those that are done; none where something else stands between them, or
/// there are too many.
pub open spec fn suffixes_from(
    text: Seq<u8>,
    anchor: TextRange,
    position: CppAnnotationPosition,
    after: int,
    fuel: nat,
    done: Seq<AnnotationTokenView>,
) -> Seq<AnnotationTokenView>
    decreases fuel,
{
    if fuel == 0 {
        Seq::empty()
    } else {
        match identifier_after(text, after) {
            None => Seq::empty(),
            Some((start, name_end)) => match suffix_end(text, name_end as int, position) {
                None => Seq::empty(),
                Some(end) => {
                    let written = text.subrange(start as int, end as int);
                    let site = AnnotationTokenView {
                        name: text.subrange(start as int, name_end as int),
                        text: written,
                        range: range_behind(
                            anchor,
                            text.subrange(anchor.end_byte as int, start as int),
                            written,
                        ),
                        position,
                    };
                    if ends_suffixes(text, end as int, position) {
                        done.push(site)
                    } else {
                        suffixes_from(
                            text,
                            anchor,
                            position,
                            end as int,
                            (fuel - 1) as nat,
                            done.push(site),
                        )
                    }
                },
            },
        }
    }
}

/// The most annotations that are read behind a node.
pub const MAX_SUFFIXES: usize = 32;

/// The words and invocations that follow a node up to where its declaration goes on.
pub open spec fn suffixes_of(
    tree: SyntaxTree,
    n: usize,
    position: CppAnnotationPosition,
) -> Seq<AnnotationTokenView> {
    suffixes_from(
        tree.text(),
        tree.range_of(n),
        position,
        tree.range_of(n).end_byte as int,
        MAX_SUFFIXES as nat,
        Seq::empty(),
    )
}

fn find_suffix_end(text: &[u8], name_end: usize, position: CppAnnotationPosition) -> (r: Option<
    usize,
>)
    requires
        name_end <= text@.len(),
    ensures
        r == suffix_end(text@, name_end as int, position),
        r is Some ==> name_end <= r->0 <= text@.len(),
{
    let open = skip_space(text, name_end);
    if open < text.len() && text[open] == OPEN {
        return invocation_end(text, open);
    }
    if matches!(position, CppAnnotationPosition::DataSuffix) {
        None
    } else {
        Some(name_end)
    }
}

fn find_ends_suffixes(text: &[u8], at: usize, position: CppAnnotationPosition) -> (r: bool)
    requires
        at <= text@.len(),
    ensures
        r == ends_suffixes(text@, at as int, position),
{
    let rest = skip_space(text, at);
    match get_byte(text, rest) {
        None => false,
        Some(b) => b == SEMICOLON || b == OPEN_BRACE || (matches!(
            position,
            CppAnnotationPosition::DataSuffix
        ) && b == EQUALS) || (matches!(
            position,
            CppAnnotationPosition::CallableSuffix | CppAnnotationPosition::LambdaSuffix
        ) && has_pair_at(text, rest, MINUS, GREATER)),
    }
}

/// The words and invocations that follow a node up to where its declaration goes on.
pub fn collect_suffixes(
    tree: &SyntaxTree,
    n: usize,
    position: CppAnnotationPosition,
) -> (r: Vec<CppAnnotationToken>)
    ensures
        views(r@) == suffixes_of(*tree, n, position),
{
    let text = tree.source();
    let anchor = tree.range(n);
    let first: usize = anchor.end_byte as usize;
    let ghost whole = suffixes_of(*tree, n, position);
    let mut after: usize = first;
    let mut sites: Vec<CppAnnotationToken> = Vec::new();
    let mut left: usize = MAX_SUFFIXES;
    assert(views(sites@) =~= Seq::<AnnotationTokenView>::empty());
    while left > 0
        invariant
            left <= MAX_SUFFIXES,
            text@ == tree.text(),
            anchor == tree.range_of(n),
            first == anchor.end_byte,
            first <= after,
            whole == suffixes_from(
                text@,
                anchor,
                position,
                after as int,
                left as nat,
                views(sites@),
            ),
            whole == suffixes_of(*tree, n, position),
        decreases left,
    {
        let none: Vec<CppAnnotationToken> = Vec::new();
        assert(views(none@) =~= Seq::<AnnotationTokenView>::empty());
        let (start, name_end) = match following_identifier(text, after) {
            None => {
                return none;
            },
            Some(found) => found,
        };
        let end: usize = match find_suffix_end(text, name_end, position) {
            None => {
                return none;
            },
            Some(end) => end,
        };
        let written = &text[start..end];
        let ghost before = sites@;
        let site = CppAnnotationToken {
            name: Text::from_bytes(&text[start..name_end]),
            text: Text::from_bytes(written),
            range: find_range_behind(&anchor, &text[first..start], written),
            position,
        };
        sites.push(site);
        proof {
            lemma_push_view(before, site);
            assert(site@ =~= AnnotationTokenView {
                name: text@.subrange(start as int, name_end as int),
                text: text@.subrange(start as int, end as int),
                range: range_behind(
                    anchor,
                    text@.subrange(anchor.end_byte as int, start as int),
                    text@.subrange(start as int, end as int),
                ),
                position,
            });
        }
        if find_ends_suffixes(text, end, position) {
            return sites;
        }
        after = end;
        left -= 1;
    }
    let none: Vec<CppAnnotationToken> = Vec::new();
    assert(views(none@) =~= Seq::<AnnotationTokenView>::empty());
    none
}

/// The named sibling before a node.
pub open spec fn named_before(tree: SyntaxTree, n: usize) -> Option<usize> {
    tree.first_named(tree.earlier_siblings_of(n))
}

/// The named sibling before a node.
pub fn find_named_before(tree: &SyntaxTree, n: usize) -> (r: Option<usize>)
    ensures
        r == named_before(*tree, n),
{
    let before = tree.earlier_siblings(n);
    tree.find_named(before.as_slice())
}

/// Whether a parameter list is that of a closure: its captures stand before it.
pub open spec fn is_lambda_parameters(tree: SyntaxTree, n: usize) -> bool {
    let outer = match tree.parent_of(n) {
        Some(p) if tree.kind_of(p) == Kind::AbstractFunctionDeclarator => named_before(tree, p),
        _ => None,
    };
    let previous = match named_before(tree, n) {
        Some(previous) => Some(previous),
        None => outer,
    };
    match previous {
        None => false,
        Some(capture) => tree.kind_of(capture) == Kind::LambdaCaptureSpecifier && only_space(
            tree.text(),
            tree.range_of(capture).end_byte as int,
            tree.range_of(n).start_byte as int,
        ),
    }
}

/// Whether a parameter list is that of a closure: its captures stand before it.
pub fn lambda_parameters(tree: &SyntaxTree, n: usize) -> (r: bool)
    ensures
        r == is_lambda_parameters(*tree, n),
{
    let previous = match find_named_before(tree, n) {
        Some(previous) => Some(previous),
        None => match tree.parent(n) {
            None => None,
            Some(p) => if tree.kind(p) == Kind::AbstractFunctionDeclarator {
                find_named_before(tree, p)
            } else {
                None
            },
        },
    };
    match previous {
        None => false,
        Some(capture) => tree.kind(capture) == Kind::LambdaCaptureSpecifier && is_only_space(
            tree.source(),
            tree.range(capture).end_byte,
            tree.range(n).start_byte,
        ),
    }
}

/// Whether a name inside a node stands in a declaration of data, behind its type and
/// outside initial values.
pub open spec fn declares_data(tree: SyntaxTree, name: TextRange, at: usize) -> bool
    decreases at,
{
    match tree.parent_of(at) {
        None => false,
        Some(p) => match tree.kind_of(p) {
            Kind::ParameterList
            | Kind::ArgumentList
            | Kind::CompoundStatement
            | Kind::CallExpression
            | Kind::PreprocArg
            | Kind::PreprocDef
            | Kind::PreprocFunctionDef
            | Kind::FunctionDefinition
            | Kind::ClassSpecifier
            | Kind::StructSpecifier => false,
            Kind::Declaration | Kind::FieldDeclaration => match tree.child_in_role(p, Field::Type) {
                None => false,
                Some(ty) => tree.range_of(ty).end_byte <= name.start_byte,
            },
            Kind::InitDeclarator => !(match tree.child_in_role(p, Field::Value) {
                None => false,
                Some(value) => tree.range_of(value).covers(name),
            }) && declares_data(tree, name, p),
            _ => declares_data(tree, name, p),
        },
    }
}

/// Whether a name stands in a declaration of data.
pub fn data_declarator_context(tree: &SyntaxTree, n: usize) -> (r: bool)
    ensures
        r == declares_data(*tree, tree.range_of(n), n),
{
    let name = tree.range(n);
    let mut at: usize = n;
    loop
        invariant
            name == tree.range_of(n),
            declares_data(*tree, name, n) == declares_data(*tree, name, at),
        decreases at,
    {
        let p: usize = match tree.parent(at) {
            None => {
                return false;
            },
            Some(p) => p,
        };
        match tree.kind(p) {
            Kind::ParameterList
            | Kind::ArgumentList
            | Kind::CompoundStatement
            | Kind::CallExpression
            | Kind::PreprocArg
            | Kind::PreprocDef
            | Kind::PreprocFunctionDef
            | Kind::FunctionDefinition
            | Kind::ClassSpecifier
            | Kind::StructSpecifier => {
                return false;
            },
            Kind::Declaration | Kind::FieldDeclaration => {
                return match tree.child_by_field(p, Field::Type) {
                    None => false,
                    Some(ty) => tree.range(ty).end_byte <= name.start_byte,
                };
            },
            Kind::InitDeclarator => {
                if let Some(value) = tree.child_by_field(p, Field::Value) {
                    if tree.range(value).contains_range(&name) {
                        return false;
                    }
                }
            },
            _ => {},
        }
        at = p;
    }
}

/// Whether a node is a function with no parameters that the grammar took for an
/// initialized variable, because an annotation follows it and was taken for the name.
/// Only the whole spelling behind an actual type counts.
pub open spec fn is_recovered_function(tree: SyntaxTree, n: usize) -> bool {
    match tree.parent_of(n) {
        None => false,
        Some(error) => tree.kind_of(error) == Kind::Error && tree.range_of(error).same_bytes(
            tree.range_of(n),
        ) && (match tree.parent_of(error) {
            None => false,
            Some(function) => tree.kind_of(function) == Kind::FunctionDefinition && recovered_in(
                tree,
                n,
                function,
            ),
        }),
    }
}

/// Whether a recovered variable stands between the type and the taken name of a
/// function.
pub open spec fn recovered_in(tree: SyntaxTree, n: usize, function: usize) -> bool {
    let own = tree.range_of(n);
    &&& match tree.child_in_role(function, Field::Type) {
        None => false,
        Some(ty) => !tree.node(ty).has_error && tree.range_of(ty).end_byte <= own.start_byte
            && only_space(
            tree.text(),
            tree.range_of(ty).end_byte as int,
            own.start_byte as int,
        ),
    }
    &&& match tree.child_in_role(n, Field::Declarator) {
        None => false,
        Some(name) => !tree.node(name).has_error && (tree.kind_of(name) == Kind::Identifier
            || tree.kind_of(name) == Kind::QualifiedIdentifier),
    }
    &&& match tree.child_in_role(n, Field::Value) {
        None => false,
        Some(value) => tree.kind_of(value) == Kind::ArgumentList && (match tree.text_of(value) {
            None => false,
            Some(text) => match crate::cpp_tokens::tokens_of(text) {
                None => false,
                Some(list) => list.len() == 2 && token_is(list[0], "(") && token_is(list[1], ")"),
            },
        }),
    }
    &&& match tree.child_in_role(function, Field::Declarator) {
        None => false,
        Some(declarator) => own.end_byte < tree.range_of(declarator).start_byte && only_space(
            tree.text(),
            own.end_byte as int,
            tree.range_of(declarator).start_byte as int,
        ),
    }
}

fn empty_parentheses(text: &[u8]) -> (r: bool)
    ensures
        r == (match crate::cpp_tokens::tokens_of(text@) {
            None => false,
            Some(list) => list.len() == 2 && token_is(list[0], "(") && token_is(list[1], ")"),
        }),
{
    match crate::cpp_tokens::tokens(text) {
        None => false,
        Some(list) => {
            if list.len() != 2 {
                return false;
            }
            assert(byte_views(list@)[0] == list@[0]@ && byte_views(list@)[1] == list@[1]@);
            is_token(list[0].as_slice(), "(") && is_token(list[1].as_slice(), ")")
        },
    }
}

fn is_recovered_in(tree: &SyntaxTree, n: usize, function: usize) -> (r: bool)
    ensures
        r == recovered_in(*tree, n, function),
{
    let own = tree.range(n);
    let typed = match tree.child_by_field(function, Field::Type) {
        None => false,
        Some(ty) => !tree.data(ty).has_error && tree.range(ty).end_byte <= own.start_byte
            && is_only_space(tree.source(), tree.range(ty).end_byte, own.start_byte),
    };
    let named = match tree.child_by_field(n, Field::Declarator) {
        None => false,
        Some(name) => !tree.data(name).has_error && matches!(
            tree.kind(name),
            Kind::Identifier | Kind::QualifiedIdentifier
        ),
    };
    let empty = match tree.child_by_field(n, Field::Value) {
        None => false,
        Some(value) => tree.kind(value) == Kind::ArgumentList && match tree.node_text(value) {
            None => false,
            Some(text) => empty_parentheses(text),
        },
    };
    let followed = match tree.child_by_field(function, Field::Declarator) {
        None => false,
        Some(declarator) => own.end_byte < tree.range(declarator).start_byte && is_only_space(
            tree.source(),
            own.end_byte,
            tree.range(declarator).start_byte,
        ),
    };
    typed && named && empty && followed
}

/// Whether a node is a function with no parameters that the grammar took for an
/// initialized variable.
pub fn recovered_empty_function_declarator(tree: &SyntaxTree, n: usize) -> (r: bool)
    ensures
        r == is_recovered_function(*tree, n),
{
    let error = match tree.parent(n) {
        None => {
            return false;
        },
        Some(error) => error,
    };
    let outer = tree.range(error);
    let own = tree.range(n);
    if tree.kind(error) != Kind::Error || outer.start_byte != own.start_byte || outer.end_byte
        != own.end_byte {
        return false;
    }
    match tree.parent(error) {
        None => false,
        Some(function) => tree.kind(function) == Kind::FunctionDefinition && is_recovered_in(
            tree,
            n,
            function,
        ),
    }
}

/// One site, or none.
pub open spec fn one_site(site: Option<AnnotationTokenView>) -> Seq<AnnotationTokenView> {
    match site {
        None => Seq::empty(),
        Some(site) => seq![site],
    }
}

/// What a node adds to the macros.
pub open spec fn macros_of(tree: SyntaxTree, n: usize) -> Seq<MacroDefinitionView> {
    match macro_at(tree, n) {
        Some(found) if !is_inactive(tree, n) => seq![found],
        _ => Seq::empty(),
    }
}

/// What a node adds to the words that may be annotations.
pub open spec fn candidates_of(tree: SyntaxTree, n: usize) -> Seq<AnnotationTokenView> {
    match tree.kind_of(n) {
        Kind::ClassSpecifier | Kind::StructSpecifier => one_site(class_prefix(tree, n)),
        Kind::FieldDeclaration | Kind::Declaration | Kind::FunctionDefinition => one_site(
            declaration_prefix(tree, n),
        ),
        Kind::FunctionDeclarator => suffixes_of(tree, n, CppAnnotationPosition::CallableSuffix),
        Kind::ParameterList => if is_lambda_parameters(tree, n) {
            suffixes_of(tree, n, CppAnnotationPosition::LambdaSuffix)
        } else {
            Seq::empty()
        },
        Kind::InitDeclarator => if is_recovered_function(tree, n) {
            suffixes_of(tree, n, CppAnnotationPosition::CallableSuffix)
        } else {
            Seq::empty()
        },
        Kind::Identifier
        | Kind::FieldIdentifier
        | Kind::TypeIdentifier
        | Kind::NamespaceIdentifier => if declares_data(tree, tree.range_of(n), n) {
            suffixes_of(tree, n, CppAnnotationPosition::DataSuffix)
        } else {
            Seq::empty()
        },
        _ => Seq::empty(),
    }
}

fn find_candidates(tree: &SyntaxTree, n: usize) -> (r: Vec<CppAnnotationToken>)
    ensures
        views(r@) == candidates_of(*tree, n),
{
    let mut sites: Vec<CppAnnotationToken> = Vec::new();
    assert(views(sites@) =~= Seq::<AnnotationTokenView>::empty());
    match tree.kind(n) {
        Kind::ClassSpecifier | Kind::StructSpecifier => {
            if let Some(site) = find_class_prefix(tree, n) {
                sites.push(site);
                assert(views(sites@) =~= seq![site@]);
            }
        },
        Kind::FieldDeclaration | Kind::Declaration | Kind::FunctionDefinition => {
            if let Some(site) = find_declaration_prefix(tree, n) {
                sites.push(site);
                assert(views(sites@) =~= seq![site@]);
            }
        },
        Kind::FunctionDeclarator => {
            sites = collect_suffixes(tree, n, CppAnnotationPosition::CallableSuffix);
        },
        Kind::ParameterList => {
            if lambda_parameters(tree, n) {
                sites = collect_suffixes(tree, n, CppAnnotationPosition::LambdaSuffix);
            }
        },
        Kind::InitDeclarator => {
            if recovered_empty_function_declarator(tree, n) {
                sites = collect_suffixes(tree, n, CppAnnotationPosition::CallableSuffix);
            }
        },
        Kind::Identifier
        | Kind::FieldIdentifier
        | Kind::TypeIdentifier
        | Kind::NamespaceIdentifier => {
            if data_declarator_context(tree, n) {
                sites = collect_suffixes(tree, n, CppAnnotationPosition::DataSuffix);
            }
        },
        _ => {},
    }
    sites
}

/// Record what a node says of macros and of words that may be annotations.
pub fn collect_node(
    tree: &SyntaxTree,
    n: usize,
    macros: &mut Vec<CppMacroDefinition>,
    candidates: &mut Vec<CppAnnotationToken>,
)
    ensures
        views(final(macros)@) == views(old(macros)@) + macros_of(*tree, n),
        views(final(candidates)@) == views(old(candidates)@) + candidates_of(*tree, n),
{
    let ghost before = macros@;
    let mut added = false;
    if let Some(found) = find_macro_definition(tree, n) {
        if !inactive_literal_branch(tree, n) {
            macros.push(found);
            added = true;
            proof {
                lemma_push_view(before, found);
                assert(views(before).push(found@) =~= views(before) + seq![found@]);
            }
        }
    }
    if !added {
        assert(views(macros@) =~= views(before) + Seq::<MacroDefinitionView>::empty());
    }
    let mut sites = find_candidates(tree, n);
    let ghost first = candidates@;
    let ghost more = sites@;
    candidates.append(&mut sites);
    assert(views(candidates@) =~= views(first) + views(more));
}

} // verus!
