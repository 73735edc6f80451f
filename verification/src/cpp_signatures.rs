//! Signatures out of the headers of C++ declarations, and what files take in from
//! others.

use crate::cpp_symbols::{capture_is, is_capture};
use crate::cpp_tokens::{
    is_token, token_is, AMPERSAND, APOSTROPHE, CLOSE, EQUALS, LESS, OPEN, QUOTE, STAR,
};
use crate::facts::TextRange;
use crate::ids::{digest_field, identity_of, number_field, Digest, Fields, FileId};
use crate::syntax::{Kind, SyntaxTree};
use crate::text::{
    append_bytes, byte_views, copy_bytes, join, joined, lemma_push_bytes, same_bytes, split_words,
    trim, trimmed, words_of, Text,
};
use vstd::prelude::*;
use vstd::string::StringSliceAdditionalSpecFns;

verus! {

/// Whether a part stands at a place in a text.
pub open spec fn stands_at(text: Seq<u8>, part: Seq<u8>, at: int) -> bool {
    0 <= at && at + part.len() <= text.len() && text.subrange(at, at + part.len()) == part
}

/// The last place at or before one at which a part stands in a text.
pub open spec fn last_place(text: Seq<u8>, part: Seq<u8>, at: int) -> Option<usize>
    decreases at + 1,
{
    if at < 0 {
        None
    } else if stands_at(text, part, at) {
        Some(at as usize)
    } else {
        last_place(text, part, at - 1)
    }
}

fn find_last_place(text: &[u8], part: &[u8]) -> (r: Option<usize>)
    ensures
        r == last_place(text@, part@, text@.len() - part@.len()),
        r is Some ==> stands_at(text@, part@, r->0 as int),
{
    if part.len() > text.len() {
        return None;
    }
    let total: usize = text.len();
    let mut at: usize = total - part.len();
    loop
        invariant
            total == text@.len(),
            at + part@.len() <= total,
            last_place(text@, part@, text@.len() - part@.len()) == last_place(
                text@,
                part@,
                at as int,
            ),
        decreases at,
    {
        let slice = &text[at..at + part.len()];
        assert(slice@ =~= text@.subrange(at as int, at + part@.len()));
        if same_bytes(slice, part) {
            return Some(at);
        }
        if at == 0 {
            assert(last_place(text@, part@, -1) is None);
            return None;
        }
        at -= 1;
    }
}

/// A header before and behind the name that it declares.
pub open spec fn header_parts(header: Seq<u8>, name: Seq<u8>) -> Option<(Seq<u8>, Seq<u8>)> {
    match last_place(header, name, header.len() - name.len()) {
        None => None,
        Some(at) => Some((trimmed(header.take(at as int)), trimmed(header.skip(at + name.len())))),
    }
}

/// A header before and behind the name that it declares.
pub fn split_header<'a>(header: &'a [u8], name: &[u8]) -> (r: Option<(&'a [u8], &'a [u8])>)
    ensures
        match r {
            None => header_parts(header@, name@) is None,
            Some((before, behind)) => header_parts(header@, name@) == Some((before@, behind@)),
        },
{
    match find_last_place(header, name) {
        None => None,
        Some(at) => {
            let total: usize = header.len();
            let before = &header[0..at];
            let behind = &header[at + name.len()..total];
            assert(before@ =~= header@.take(at as int));
            assert(behind@ =~= header@.skip(at + name@.len()));
            Some((trim(before), trim(behind)))
        },
    }
}

/// Text up to the first equals sign.
pub open spec fn before_equals(text: Seq<u8>) -> Seq<u8>
    decreases text.len(),
{
    if text.len() == 0 || text[0] == EQUALS {
        Seq::empty()
    } else {
        seq![text[0]] + before_equals(text.drop_first())
    }
}

fn cut_at_equals(text: &[u8]) -> (r: &[u8])
    ensures
        r@ == before_equals(text@),
{
    let mut i: usize = 0;
    assert(text@.skip(0) =~= text@);
    assert(text@.take(0) + before_equals(text@) =~= before_equals(text@));
    while i < text.len() && text[i] != EQUALS
        invariant
            i <= text@.len(),
            before_equals(text@) == text@.take(i as int) + before_equals(text@.skip(i as int)),
        decreases text@.len() - i,
    {
        assert(text@.skip(i as int).drop_first() =~= text@.skip(i + 1));
        assert(text@.take(i as int) + (seq![text@[i as int]] + before_equals(text@.skip(i + 1)))
            =~= text@.take(i + 1) + before_equals(text@.skip(i + 1)));
        i += 1;
    }
    let part = &text[0..i];
    assert(part@ =~= text@.take(i as int));
    assert(before_equals(text@) =~= text@.take(i as int));
    part
}

/// Whether a word belongs to a declaration and not to the type of the callable.
pub open spec fn is_declaration_word(word: Seq<u8>) -> bool {
    token_is(word, "override") || token_is(word, "final")
}

/// The qualifiers of a callable: `const` and the like tell overloads apart.
pub open spec fn type_words(words: Seq<Seq<u8>>) -> Seq<Seq<u8>> {
    words.filter(|word: Seq<u8>| !is_declaration_word(word))
}

fn find_type_words(text: &[u8]) -> (r: Vec<Vec<u8>>)
    ensures
        byte_views(r@) == type_words(words_of(text@)),
{
    let list = split_words(text);
    let ghost all = byte_views(list@);
    let ghost keep = |word: Seq<u8>| !is_declaration_word(word);
    let mut kept: Vec<Vec<u8>> = Vec::new();
    let mut i: usize = 0;
    assert(byte_views(kept@) =~= all.take(0).filter(keep)) by {
        reveal(Seq::filter);
    }
    while i < list.len()
        invariant
            i <= list@.len(),
            all == byte_views(list@),
            keep == (|word: Seq<u8>| !is_declaration_word(word)),
            byte_views(kept@) == all.take(i as int).filter(keep),
        decreases list@.len() - i,
    {
        proof {
            crate::collections::lemma_filter_step(all, keep, i as int);
        }
        assert(all[i as int] == list@[i as int]@);
        if !is_token(list[i].as_slice(), "override") && !is_token(list[i].as_slice(), "final") {
            let ghost before = kept@;
            let item = copy_bytes(list[i].as_slice());
            kept.push(item);
            proof {
                lemma_push_bytes(before, item);
            }
        }
        i += 1;
    }
    assert(all.take(i as int) =~= all);
    kept
}

/// Text without stars and ampersands at its end.
pub open spec fn without_marks(text: Seq<u8>) -> Seq<u8>
    decreases text.len(),
{
    if text.len() > 0 && (text.last() == STAR || text.last() == AMPERSAND) {
        without_marks(text.drop_last())
    } else {
        text
    }
}

fn drop_marks(text: &[u8]) -> (r: &[u8])
    ensures
        r@ == without_marks(text@),
{
    let mut end: usize = text.len();
    assert(text@.take(end as int) =~= text@);
    while end > 0 && (text[end - 1] == STAR || text[end - 1] == AMPERSAND)
        invariant
            end <= text@.len(),
            without_marks(text@) == without_marks(text@.take(end as int)),
        decreases end,
    {
        assert(text@.take(end as int).drop_last() =~= text@.take(end - 1));
        end -= 1;
    }
    let part = &text[0..end];
    assert(part@ =~= text@.take(end as int));
    part
}

/// The signature of a callable: its parameters, its qualifiers and what it returns.
/// `parameters` counts the bytes of the parenthesized parameters behind the name.
pub open spec fn signature_text(before: Seq<u8>, behind: Seq<u8>, parameters: int) -> Seq<u8> {
    let qualifiers = joined(
        type_words(words_of(before_equals(behind.skip(parameters)))),
        " ".spec_bytes(),
    );
    let callable = if qualifiers.len() == 0 {
        behind.take(parameters)
    } else {
        behind.take(parameters) + " ".spec_bytes() + qualifiers
    };
    let returned = trimmed(without_marks(before));
    if returned.len() == 0 {
        callable
    } else {
        callable + ": ".spec_bytes() + returned
    }
}

/// The signature of a callable out of what stands before and behind its name.
fn signature_from_parts(before: &[u8], behind: &[u8], parameters: usize) -> (r: Vec<u8>)
    requires
        parameters <= behind@.len(),
    ensures
        r@ == signature_text(before@, behind@, parameters as int),
{
    let list = &behind[0..parameters];
    let rest = &behind[parameters..behind.len()];
    assert(list@ =~= behind@.take(parameters as int));
    assert(rest@ =~= behind@.skip(parameters as int));
    let words = find_type_words(cut_at_equals(rest));
    let qualifiers = join(words.as_slice(), " ".as_bytes());
    let mut text = copy_bytes(list);
    if qualifiers.len() > 0 {
        append_bytes(&mut text, " ".as_bytes());
        append_bytes(&mut text, qualifiers.as_slice());
    }
    let returned = trim(drop_marks(before));
    if returned.len() > 0 {
        append_bytes(&mut text, ": ".as_bytes());
        append_bytes(&mut text, returned);
    }
    text
}

/// Where the bracket ends that is open at a place, with so many brackets open.
pub open spec fn group_end(text: Seq<u8>, at: int, depth: nat) -> Option<usize>
    decreases text.len() - at,
{
    if at < 0 || at >= text.len() {
        None
    } else if text[at] == OPEN {
        group_end(text, at + 1, depth + 1)
    } else if text[at] == CLOSE {
        if depth <= 1 {
            Some((at + 1) as usize)
        } else {
            group_end(text, at + 1, (depth - 1) as nat)
        }
    } else {
        group_end(text, at + 1, depth)
    }
}

/// How many bytes the round brackets take at the start of a text.
pub open spec fn leading_group(text: Seq<u8>) -> Option<usize> {
    if text.len() > 0 && text[0] == OPEN {
        group_end(text, 1, 1)
    } else {
        None
    }
}

/// How many bytes the round brackets take at the start of a text.
pub fn leading_parenthesized(text: &[u8]) -> (r: Option<usize>)
    ensures
        r == leading_group(text@),
        r is Some ==> r->0 <= text@.len(),
{
    if text.len() == 0 || text[0] != OPEN {
        return None;
    }
    let total: usize = text.len();
    let mut at: usize = 1;
    let mut depth: usize = 1;
    while at < total
        invariant
            total == text@.len(),
            at <= total,
            1 <= depth <= at,
            leading_group(text@) == group_end(text@, at as int, depth as nat),
        decreases total - at,
    {
        if text[at] == OPEN {
            depth += 1;
        } else if text[at] == CLOSE {
            if depth == 1 {
                return Some(at + 1);
            }
            depth -= 1;
        }
        at += 1;
    }
    None
}

/// The signature of a callable out of the header of its declaration, before it is
/// compacted. A header that does not name it, or has no parameters behind the name, gives
/// none.
pub open spec fn header_signature(header: Seq<u8>, name: Seq<u8>) -> Option<Seq<u8>> {
    match header_parts(header, name) {
        None => None,
        Some((before, behind)) => match leading_group(behind) {
            None => None,
            Some(parameters) => Some(signature_text(before, behind, parameters as int)),
        },
    }
}

/// Whether a result is what a caller makes of a text.
pub open spec fn is_compacted<F: Fn(Vec<u8>) -> Option<Vec<u8>>>(
    compact: F,
    text: Seq<u8>,
    r: Option<Vec<u8>>,
) -> bool {
    exists|t: Vec<u8>| t@ == text && #[trigger] call_ensures(compact, (t,), r)
}

/// The signature of a callable out of the header of its declaration. How it is compacted
/// is the caller's to say, who may also give none.
pub fn cpp_signature_from_header<F: Fn(Vec<u8>) -> Option<Vec<u8>>>(
    header: &[u8],
    name: &[u8],
    compact: &F,
) -> (r: Option<Vec<u8>>)
    requires
        forall|t: Vec<u8>| call_requires(*compact, (t,)),
    ensures
        match header_signature(header@, name@) {
            None => r is None,
            Some(text) => is_compacted(*compact, text, r),
        },
{
    match split_header(header, name) {
        None => None,
        Some((before, behind)) => match leading_parenthesized(behind) {
            None => None,
            Some(parameters) => compact(signature_from_parts(before, behind, parameters)),
        },
    }
}

/// Whether a captured definition has a plain signature: it is a callable, and in no
/// template up to its namespace.
pub open spec fn has_plain_signature(tree: SyntaxTree, capture: Seq<u8>, n: usize) -> bool {
    (is_capture(capture, "definition.function") || is_capture(
        capture,
        "definition.function_declaration",
    ) || is_capture(capture, "definition.method")) && tree.first_of(
        tree.ancestors_of(n),
        seq![Kind::TemplateDeclaration],
        seq![Kind::NamespaceDefinition, Kind::TranslationUnit],
    ) is None
}

/// Whether a captured definition has a plain signature.
pub fn cpp_has_plain_signature(tree: &SyntaxTree, capture: &str, n: usize) -> (r: bool)
    ensures
        r == has_plain_signature(*tree, capture.spec_bytes(), n),
{
    let templates = [Kind::TemplateDeclaration];
    let scopes = [Kind::NamespaceDefinition, Kind::TranslationUnit];
    assert(templates@ =~= seq![Kind::TemplateDeclaration]);
    assert(scopes@ =~= seq![Kind::NamespaceDefinition, Kind::TranslationUnit]);
    let around = tree.ancestors(n);
    (capture_is(capture, "definition.function") || capture_is(
        capture,
        "definition.function_declaration",
    ) || capture_is(capture, "definition.method")) && tree.find_first(
        around.as_slice(),
        &templates,
        &scopes,
    ).is_none()
}

/// The signature of a captured definition before it is compacted, where the header of its
/// declaration is known.
pub open spec fn definition_signature(
    tree: SyntaxTree,
    capture: Seq<u8>,
    n: usize,
    header: Option<Seq<u8>>,
) -> Option<Seq<u8>> {
    if !has_plain_signature(tree, capture, n) {
        None
    } else {
        match (tree.text_of(n), header) {
            (Some(name), Some(header)) => header_signature(header, name),
            _ => None,
        }
    }
}

/// The signature of a captured definition, where the header of its declaration is known.
/// How it is compacted is the caller's to say, who may also give none.
pub fn cpp_extract_signature<F: Fn(Vec<u8>) -> Option<Vec<u8>>>(
    tree: &SyntaxTree,
    capture: &str,
    n: usize,
    header: Option<&[u8]>,
    compact: &F,
) -> (r: Option<Vec<u8>>)
    requires
        forall|t: Vec<u8>| call_requires(*compact, (t,)),
    ensures
        match definition_signature(
            *tree,
            capture.spec_bytes(),
            n,
            match header {
                None => None,
                Some(header) => Some(header@),
            },
        ) {
            None => r is None,
            Some(text) => is_compacted(*compact, text, r),
        },
{
    if !cpp_has_plain_signature(tree, capture, n) {
        return None;
    }
    match (tree.node_text(n), header) {
        (Some(name), Some(header)) => cpp_signature_from_header(header, name, compact),
        _ => None,
    }
}

/// Identifies something that a file takes in.
#[derive(Clone, Copy, PartialEq, Eq, Structural, Debug, Hash, PartialOrd, Ord)]
pub struct ImportId(pub Digest);

/// How a file takes something in.
#[derive(Clone, Copy, PartialEq, Eq, Structural, Debug, Hash)]
pub enum ImportKind {
    /// Another file as a whole.
    Inclusion,
    /// A name of another scope.
    Use,
}

impl ImportKind {
    /// The stored name of a file as a whole.
    pub open spec fn name(self) -> Seq<u8> {
        match self {
            ImportKind::Inclusion => inclusion_word(),
            ImportKind::Use => "use".spec_bytes(),
        }
    }
}

/// The bytes of the word for taking in a file as a whole.
pub open spec fn inclusion_word() -> Seq<u8> {
    seq![0x69u8, 0x6Eu8, 0x63u8, 0x6Cu8, 0x75u8, 0x64u8, 0x65u8]
}

/// What a file takes in, by value.
#[verifier::ext_equal]
pub struct ImportView {
    pub id: ImportId,
    pub kind: ImportKind,
    pub module: Seq<u8>,
    pub imported_name: Seq<u8>,
    pub is_relative: bool,
    pub range: TextRange,
}

/// What a file takes in.
#[derive(Debug)]
pub struct Import {
    pub id: ImportId,
    pub kind: ImportKind,
    pub module: Text,
    pub imported_name: Text,
    pub is_relative: bool,
    pub range: TextRange,
}

impl View for Import {
    type V = ImportView;

    open spec fn view(&self) -> ImportView {
        ImportView {
            id: self.id,
            kind: self.kind,
            module: self.module@,
            imported_name: self.imported_name@,
            is_relative: self.is_relative,
            range: self.range,
        }
    }
}

/// Whether a byte is a quotation mark of either kind.
pub open spec fn is_quote(b: u8) -> bool {
    b == QUOTE || b == APOSTROPHE
}

/// Text without quotation marks at its start.
pub open spec fn unquoted_start(text: Seq<u8>) -> Seq<u8>
    decreases text.len(),
{
    if text.len() > 0 && is_quote(text[0]) {
        unquoted_start(text.drop_first())
    } else {
        text
    }
}

/// Text without quotation marks at its end.
pub open spec fn unquoted_end(text: Seq<u8>) -> Seq<u8>
    decreases text.len(),
{
    if text.len() > 0 && is_quote(text.last()) {
        unquoted_end(text.drop_last())
    } else {
        text
    }
}

fn drop_quotes(text: &[u8]) -> (r: &[u8])
    ensures
        r@ == unquoted_end(unquoted_start(text@)),
{
    let mut start: usize = 0;
    assert(text@.skip(0) =~= text@);
    while start < text.len() && (text[start] == QUOTE || text[start] == APOSTROPHE)
        invariant
            start <= text@.len(),
            unquoted_start(text@) == unquoted_start(text@.skip(start as int)),
        decreases text@.len() - start,
    {
        assert(text@.skip(start as int).drop_first() =~= text@.skip(start + 1));
        start += 1;
    }
    let rest = &text[start..text.len()];
    assert(rest@ =~= text@.skip(start as int));
    let mut end: usize = rest.len();
    assert(rest@.take(end as int) =~= rest@);
    while end > 0 && (rest[end - 1] == QUOTE || rest[end - 1] == APOSTROPHE)
        invariant
            end <= rest@.len(),
            unquoted_end(rest@) == unquoted_end(rest@.take(end as int)),
        decreases end,
    {
        assert(rest@.take(end as int).drop_last() =~= rest@.take(end - 1));
        end -= 1;
    }
    let part = &rest[0..end];
    assert(part@ =~= rest@.take(end as int));
    part
}

/// What a captured node takes in: its kind, the file and the name.
pub open spec fn import_info(capture: Seq<u8>, text: Seq<u8>) -> Option<
    (ImportKind, Seq<u8>, Seq<u8>),
> {
    if is_capture(capture, "import.module") || capture == "import.".spec_bytes()
        + inclusion_word() {
        Some((ImportKind::Inclusion, unquoted_end(unquoted_start(text)), Seq::empty()))
    } else if is_capture(capture, "import.name") {
        Some((ImportKind::Use, Seq::empty(), text))
    } else {
        None
    }
}

fn cpp_import_info(capture: &str, text: &[u8]) -> (r: Option<(ImportKind, Vec<u8>, Vec<u8>)>)
    ensures
        match r {
            None => import_info(capture.spec_bytes(), text@) is None,
            Some((kind, module, name)) => import_info(capture.spec_bytes(), text@) == Some(
                (kind, module@, name@),
            ),
        },
{
    let word: [u8; 7] = [0x69, 0x6E, 0x63, 0x6C, 0x75, 0x64, 0x65];
    assert(word@ =~= inclusion_word());
    let mut inclusion = copy_bytes("import.".as_bytes());
    append_bytes(&mut inclusion, &word);
    let none: Vec<u8> = Vec::new();
    assert(none@ =~= Seq::empty());
    if capture_is(capture, "import.module") || same_bytes(
        capture.as_bytes(),
        inclusion.as_slice(),
    ) {
        Some((ImportKind::Inclusion, copy_bytes(drop_quotes(text)), none))
    } else if capture_is(capture, "import.name") {
        Some((ImportKind::Use, none, copy_bytes(text)))
    } else {
        None
    }
}

/// The identity of something that a file takes in.
pub open spec fn import_id(
    file: FileId,
    kind: ImportKind,
    module: Seq<u8>,
    name: Seq<u8>,
    start_byte: u32,
) -> ImportId {
    ImportId(
        identity_of(
            seq![
                Some("import".spec_bytes()),
                digest_field(file.0),
                Some(kind.name()),
                Some(module),
                Some(name),
                number_field(start_byte),
            ],
        ),
    )
}

fn make_import_id(
    file: FileId,
    kind: ImportKind,
    module: &[u8],
    name: &[u8],
    start_byte: u32,
) -> (r: ImportId)
    ensures
        r == import_id(file, kind, module@, name@, start_byte),
{
    let word: [u8; 7] = [0x69, 0x6E, 0x63, 0x6C, 0x75, 0x64, 0x65];
    assert(word@ =~= inclusion_word());
    let fields = Fields::new().bytes("import".as_bytes());
    let fields = fields.digest(file.0);
    let fields = match kind {
        ImportKind::Inclusion => fields.bytes(&word),
        ImportKind::Use => fields.bytes("use".as_bytes()),
    };
    let fields = fields.bytes(module);
    let fields = fields.bytes(name);
    let fields = fields.number(start_byte);
    assert(fields.list() =~= seq![
        Some("import".spec_bytes()),
        digest_field(file.0),
        Some(kind.name()),
        Some(module@),
        Some(name@),
        number_field(start_byte),
    ]);
    ImportId(fields.finish())
}

/// What a captured node takes in. A file in angle brackets is not looked for beside the
/// one that takes it in.
pub open spec fn import_at(tree: SyntaxTree, file: FileId, capture: Seq<u8>, n: usize) -> Option<
    ImportView,
> {
    match tree.text_of(n) {
        None => None,
        Some(text) => match import_info(capture, text) {
            None => None,
            Some((kind, module, name)) => Some(
                ImportView {
                    id: import_id(file, kind, module, name, tree.range_of(n).start_byte),
                    kind,
                    module,
                    imported_name: name,
                    is_relative: !(module.len() > 0 && module[0] == LESS),
                    range: tree.range_of(n),
                },
            ),
        },
    }
}

/// What a captured node takes in.
pub fn normalize_cpp_import(tree: &SyntaxTree, file_id: FileId, capture: &str, n: usize) -> (r:
    Option<Import>)
    ensures
        crate::cpp_facts::optional_view(r) == import_at(*tree, file_id, capture.spec_bytes(), n),
{
    let text = match tree.node_text(n) {
        None => {
            return None;
        },
        Some(text) => text,
    };
    match cpp_import_info(capture, text) {
        None => None,
        Some((kind, module, name)) => {
            let range = tree.range(n);
            let is_relative = !(module.len() > 0 && module[0] == LESS);
            Some(
                Import {
                    id: make_import_id(
                        file_id,
                        kind,
                        module.as_slice(),
                        name.as_slice(),
                        range.start_byte,
                    ),
                    kind,
                    module: Text::from_vec(module),
                    imported_name: Text::from_vec(name),
                    is_relative,
                    range,
                },
            )
        },
    }
}

} // verus!
