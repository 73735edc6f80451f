//! Queries over the trees of C++ files, and a bounded store of compiled queries.

use crate::cpp_facts::{lemma_push_view, views};
use crate::syntax::{cpp_shapes, get_bytes, tree_edits, tree_text, SyntaxTree};
use crate::text::{
    append_bytes, byte_views, copy_bytes, decimal, decimal_digits, lemma_push_bytes, same_bytes,
    trim, trimmed, Text,
};
use tree_sitter::{Node, Query, QueryCursor, StreamingIterator, Tree};
use tree_sitter_cpp::LANGUAGE;
use vstd::prelude::*;
use vstd::string::StringSliceAdditionalSpecFns;

verus! {

/// How many compiled queries are kept.
pub const MAX_CACHED_QUERIES: usize = 32;

/// How long the text of a query is that is kept.
pub const MAX_CACHED_QUERY_SOURCE_BYTES: usize = 65536;

/// A compiled query with the grammar and the text that it was made from.
#[derive(Debug)]
pub struct CachedQuery<P> {
    pub language: u32,
    pub source: Vec<u8>,
    pub program: P,
}

/// What a kept query says, by value.
pub struct CachedQueryView<P> {
    pub language: u32,
    pub source: Seq<u8>,
    pub program: P,
}

/// The first kept query of a grammar with a text.
pub open spec fn cached<P>(
    entries: Seq<CachedQueryView<P>>,
    language: u32,
    source: Seq<u8>,
) -> Option<P>
    decreases entries.len(),
{
    if entries.len() == 0 {
        None
    } else if entries[0].language == language && entries[0].source == source {
        Some(entries[0].program)
    } else {
        cached(entries.drop_first(), language, source)
    }
}

/// What is kept with one more query: one that is kept already or is too long is not
/// kept again, and the oldest makes room.
pub open spec fn with_query<P>(
    entries: Seq<CachedQueryView<P>>,
    language: u32,
    source: Seq<u8>,
    program: P,
) -> Seq<CachedQueryView<P>> {
    if source.len() > MAX_CACHED_QUERY_SOURCE_BYTES || cached(entries, language, source) is Some {
        entries
    } else {
        let item = CachedQueryView { language, source, program };
        if entries.len() >= MAX_CACHED_QUERIES {
            entries.drop_first().push(item)
        } else {
            entries.push(item)
        }
    }
}

/// A bounded store of compiled queries. What is kept depends on the grammar and the text
/// of a query alone, never on a source file.
#[derive(Debug)]
pub struct QueryCache<P> {
    entries: Vec<CachedQuery<P>>,
}

impl<P> View for QueryCache<P> {
    type V = Seq<CachedQueryView<P>>;

    closed spec fn view(&self) -> Seq<CachedQueryView<P>> {
        self.entries@.map_values(
            |e: CachedQuery<P>|
                CachedQueryView { language: e.language, source: e.source@, program: e.program },
        )
    }
}

impl<P> QueryCache<P> {
    #[verifier::type_invariant]
    spec fn is_bounded(&self) -> bool {
        self.entries@.len() <= MAX_CACHED_QUERIES && forall|i: int|
            0 <= i < self.entries@.len() ==> (#[trigger] self.entries@[i]).source@.len()
                <= MAX_CACHED_QUERY_SOURCE_BYTES
    }

    /// A store that holds nothing.
    pub fn new() -> (r: Self)
        ensures
            r@ == Seq::<CachedQueryView<P>>::empty(),
    {
        let r = QueryCache { entries: Vec::new() };
        assert(r@ =~= Seq::<CachedQueryView<P>>::empty());
        r
    }

    /// The number of queries that are kept.
    pub fn len(&self) -> (r: usize)
        ensures
            r == self@.len(),
            r <= MAX_CACHED_QUERIES,
    {
        proof {
            use_type_invariant(self);
        }
        self.entries.len()
    }

    /// The kept query of a grammar with a text.
    pub fn find(&self, language: u32, source: &[u8]) -> (r: Option<&P>)
        ensures
            match r {
                None => cached(self@, language, source@) is None,
                Some(program) => cached(self@, language, source@) == Some(*program),
            },
    {
        let mut i: usize = 0;
        assert(self@.skip(0) =~= self@);
        while i < self.entries.len()
            invariant
                i <= self.entries@.len(),
                self.entries@.len() == self@.len(),
                cached(self@, language, source@) == cached(
                    self@.skip(i as int),
                    language,
                    source@,
                ),
            decreases self.entries@.len() - i,
        {
            assert(self@.skip(i as int).drop_first() =~= self@.skip(i + 1));
            let entry = &self.entries[i];
            assert(self@[i as int].source == entry.source@);
            if entry.language == language && same_bytes(entry.source.as_slice(), source) {
                return Some(&entry.program);
            }
            i += 1;
        }
        None
    }

    /// Keep a compiled query.
    pub fn record(&mut self, language: u32, source: &[u8], program: P)
        ensures
            final(self)@ == with_query(old(self)@, language, source@, program),
    {
        proof {
            use_type_invariant(&*self);
        }
        if source.len() > MAX_CACHED_QUERY_SOURCE_BYTES || self.find(language, source).is_some() {
            return;
        }
        let ghost before = self@;
        let ghost held = self.entries@;
        let mut entries: Vec<CachedQuery<P>> = Vec::new();
        let mut other = QueryCache { entries: Vec::new() };
        std::mem::swap(&mut other, self);
        let QueryCache { entries: taken } = other;
        entries = taken;
        if entries.len() >= MAX_CACHED_QUERIES {
            let _ = entries.remove(0);
        }
        let ghost kept = entries@;
        entries.push(CachedQuery { language, source: copy_bytes(source), program });
        proof {
            assert forall|i: int| 0 <= i < entries@.len() implies (
            #[trigger] entries@[i]).source@.len() <= MAX_CACHED_QUERY_SOURCE_BYTES by {
                if i < kept.len() {
                    assert(entries@[i] == kept[i]);
                    if held.len() >= MAX_CACHED_QUERIES {
                        assert(kept[i] == held[i + 1]);
                    } else {
                        assert(kept[i] == held[i]);
                    }
                }
            }
        }
        *self = QueryCache { entries };
        assert(self@ =~= with_query(before, language, source@, program));
    }
}

proof fn lemma_cached_in_push<P>(
    entries: Seq<CachedQueryView<P>>,
    item: CachedQueryView<P>,
    language: u32,
    source: Seq<u8>,
)
    ensures
        cached(entries.push(item), language, source) == if cached(
            entries,
            language,
            source,
        ) is Some {
            cached(entries, language, source)
        } else if item.language == language && item.source == source {
            Some(item.program)
        } else {
            None
        },
    decreases entries.len(),
{
    if entries.len() > 0 {
        assert(entries.push(item).drop_first() =~= entries.drop_first().push(item));
        lemma_cached_in_push(entries.drop_first(), item, language, source);
    } else {
        let rest = entries.push(item).drop_first();
        assert(rest.len() == 0);
        assert(cached(rest, language, source) is None);
    }
}

proof fn lemma_cached_behind_first<P>(
    entries: Seq<CachedQueryView<P>>,
    language: u32,
    source: Seq<u8>,
)
    requires
        entries.len() > 0,
        cached(entries, language, source) is None,
    ensures
        cached(entries.drop_first(), language, source) is None,
{
}

/// A query that is not too long is found once it is kept; where one was kept already, it
/// is found again.
pub proof fn a_kept_query_is_found<P>(
    entries: Seq<CachedQueryView<P>>,
    language: u32,
    source: Seq<u8>,
    program: P,
)
    requires
        source.len() <= MAX_CACHED_QUERY_SOURCE_BYTES,
    ensures
        cached(with_query(entries, language, source, program), language, source) == match cached(
            entries,
            language,
            source,
        ) {
            None => Some(program),
            Some(kept) => Some(kept),
        },
{
    if cached(entries, language, source) is None {
        let item = CachedQueryView { language, source, program };
        if entries.len() >= MAX_CACHED_QUERIES {
            lemma_cached_behind_first(entries, language, source);
            lemma_cached_in_push(entries.drop_first(), item, language, source);
        } else {
            lemma_cached_in_push(entries, item, language, source);
        }
    }
}

/// A query of one grammar is never found for another, or for another text.
pub proof fn a_kept_query_does_not_stand_for_others<P>(
    entries: Seq<CachedQueryView<P>>,
    language: u32,
    source: Seq<u8>,
    program: P,
    other_language: u32,
    other_source: Seq<u8>,
)
    requires
        other_language != language || other_source != source,
        cached(entries, other_language, other_source) is None,
    ensures
        cached(
            with_query(entries, language, source, program),
            other_language,
            other_source,
        ) is None,
{
    let item = CachedQueryView { language, source, program };
    if entries.len() >= MAX_CACHED_QUERIES {
        lemma_cached_behind_first(entries, other_language, other_source);
        lemma_cached_in_push(entries.drop_first(), item, other_language, other_source);
    } else {
        lemma_cached_in_push(entries, item, other_language, other_source);
    }
}

/// The names of the captures of a query in the C++ grammar, or why it is none.
pub uninterp spec fn cpp_query(query: Seq<u8>) -> Result<Seq<Seq<u8>>, Seq<u8>>;

/// What a query captures below a node of the tree of a C++ text after edits, where the
/// nodes stand over another text: the number of the capture and the row of the node, in
/// the order in which the cursor gives them.
pub uninterp spec fn cpp_captures(
    query: Seq<u8>,
    parsed_text: Seq<u8>,
    edits: Seq<(usize, usize, usize, usize, usize)>,
    root: usize,
    source: Seq<u8>,
) -> Seq<(u32, usize)>;

/// `Query::new` with `tree_sitter_cpp::LANGUAGE`, and `Query::capture_names`. Which
/// queries the grammar accepts is not said; whether it does depends on the text alone.
/// The length of a query is counted in 32 bits.
#[verifier::external_body]
fn compile_query(query: &[u8]) -> (r: Result<Vec<Vec<u8>>, Vec<u8>>)
    requires
        query@.len() <= u32::MAX,
    ensures
        match r {
            Ok(names) => cpp_query(query@) == Ok::<Seq<Seq<u8>>, Seq<u8>>(byte_views(names@)),
            Err(message) => cpp_query(query@) == Err::<Seq<Seq<u8>>, Seq<u8>>(message@),
        },
{
    let text = String::from_utf8_lossy(query);
    let program = Query::new(&LANGUAGE.into(), &text).map_err(|e| e.to_string().into_bytes())?;
    Ok(program.capture_names().iter().map(|name| name.as_bytes().to_vec()).collect())
}

/// `QueryCursor::captures` below a node of a tree, with a query that the grammar accepts.
/// The nodes are counted as `goto_descendant` does. Conditions of the query read the text
/// of a node where it stands in `source`. What a query captures is not said; it depends
/// on the query, on how the tree was made, on the node and on that text alone. The length
/// of a query is counted in 32 bits.
#[verifier::external_body]
fn query_captures(query: &[u8], tree: &Tree, root: usize, source: &[u8]) -> (r: Vec<(u32, usize)>)
    requires
        query@.len() <= u32::MAX,
        cpp_query(query@) is Ok,
        cpp_shapes(tree_text(*tree)) is Some,
        root < cpp_shapes(tree_text(*tree))->0.len(),
    ensures
        r@ == cpp_captures(query@, tree_text(*tree), tree_edits(*tree), root, source@),
{
    let program = Query::new(&LANGUAGE.into(), &String::from_utf8_lossy(query)).unwrap();
    let mut walk = tree.walk();
    let nodes: Vec<Node> = (0..tree.root_node().descendant_count()).map(|i| {
        walk.goto_descendant(i);
        walk.node()
    }).collect();
    let read = |n: Node| get_bytes(source, n.start_byte(), n.end_byte()).into_iter();
    return QueryCursor::new().captures(&program, nodes[root], read).map_deref(|(m, i)| {
        let c = m.captures[*i];
        (c.index, nodes.iter().position(|n| *n == c.node).unwrap())
    }).collect();
}

/// A captured node, by value.
#[verifier::ext_equal]
pub struct CaptureView {
    pub name: Seq<u8>,
    pub node: usize,
}

/// A captured node.
#[derive(Debug)]
pub struct Capture {
    pub name: Text,
    pub node: usize,
}

impl View for Capture {
    type V = CaptureView;

    open spec fn view(&self) -> CaptureView {
        CaptureView { name: self.name@, node: self.node }
    }
}

/// The name of a capture.
pub open spec fn capture_name(names: Seq<Seq<u8>>, index: u32) -> Seq<u8> {
    if index < names.len() {
        names[index as int]
    } else {
        "capture_".spec_bytes() + decimal(index as nat)
    }
}

/// Whether a capture is there for the conditions of its query alone.
pub open spec fn is_condition(name: Seq<u8>) -> bool {
    name.len() > 0 && name[0] == 0x5Fu8
}

/// The captures of a query, each once, without those that are there for its conditions.
pub open spec fn selected(raw: Seq<(u32, usize)>, names: Seq<Seq<u8>>) -> Seq<CaptureView>
    decreases raw.len(),
{
    if raw.len() == 0 {
        Seq::empty()
    } else {
        let before = selected(raw.drop_last(), names);
        let name = capture_name(names, raw.last().0);
        if raw.drop_last().contains(raw.last()) || is_condition(name) {
            before
        } else {
            before.push(CaptureView { name, node: raw.last().1 })
        }
    }
}

/// Why captures cannot be had.
#[derive(Debug)]
pub enum QueryFailure {
    /// The grammar does not accept the query.
    QueryCompile { slot: &'static str, message: Text },
    /// It was canceled.
    Cancelled { slot: &'static str },
}

fn find_capture_name(names: &[Vec<u8>], index: u32) -> (r: Vec<u8>)
    ensures
        r@ == capture_name(byte_views(names@), index),
{
    if (index as usize) < names.len() {
        copy_bytes(names[index as usize].as_slice())
    } else {
        let mut name = copy_bytes("capture_".as_bytes());
        append_bytes(&mut name, decimal_digits(index).as_slice());
        name
    }
}

fn was_seen(raw: &[(u32, usize)], count: usize) -> (r: bool)
    requires
        count < raw@.len(),
    ensures
        r == raw@.take(count as int).contains(raw@[count as int]),
{
    let mut i: usize = 0;
    while i < count
        invariant
            i <= count < raw@.len(),
            forall|k: int| 0 <= k < i ==> raw@[k] != raw@[count as int],
        decreases count - i,
    {
        if raw[i].0 == raw[count].0 && raw[i].1 == raw[count].1 {
            assert(raw@.take(count as int)[i as int] == raw@[count as int]);
            return true;
        }
        i += 1;
    }
    false
}

/// How many captures there are between two looks at whether it was canceled.
pub const CANCEL_INTERVAL: usize = 100;

/// Select the captures of a query from what the cursor gave. Whether it was canceled is
/// asked after every hundredth.
pub fn select_captures<F: Fn() -> bool>(
    raw: &[(u32, usize)],
    names: &[Vec<u8>],
    cancel: &F,
) -> (r: Option<Vec<Capture>>)
    requires
        call_requires(*cancel, ()),
    ensures
        match r {
            None => raw@.len() >= CANCEL_INTERVAL && call_ensures(*cancel, (), true),
            Some(found) => views(found@) == selected(raw@, byte_views(names@)) && (raw@.len()
                >= CANCEL_INTERVAL ==> call_ensures(*cancel, (), false)),
        },
{
    let ghost list = byte_views(names@);
    let mut found: Vec<Capture> = Vec::new();
    let mut i: usize = 0;
    assert(views(found@) =~= selected(raw@.take(0), list));
    while i < raw.len()
        invariant
            i <= raw@.len(),
            list == byte_views(names@),
            call_requires(*cancel, ()),
            i >= CANCEL_INTERVAL ==> call_ensures(*cancel, (), false),
            views(found@) == selected(raw@.take(i as int), list),
        decreases raw@.len() - i,
    {
        assert(raw@.take(i + 1).drop_last() =~= raw@.take(i as int));
        if !was_seen(raw, i) {
            let name = find_capture_name(names, raw[i].0);
            if !(name.len() > 0 && name[0] == 0x5F) {
                let item = Capture { name: Text::from_vec(name), node: raw[i].1 };
                let ghost before = found@;
                found.push(item);
                proof {
                    lemma_push_view(before, item);
                }
            }
        }
        i += 1;
        if i % CANCEL_INTERVAL == 0 && cancel() {
            return None;
        }
    }
    assert(raw@.take(i as int) =~= raw@);
    Some(found)
}

/// What the grammar gives for a query below a node of a tree.
pub open spec fn captures_below(query: Seq<u8>, tree: SyntaxTree, root: usize) -> Seq<
    (u32, usize),
> {
    cpp_captures(query, tree.parser_text(), tree.parser_edits(), root, tree.text())
}

/// The captures of a query below a node of a tree, as they are selected from what the
/// grammar gives. An empty query captures nothing.
pub open spec fn captures_of(query: Seq<u8>, tree: SyntaxTree, root: usize) -> Option<
    Seq<CaptureView>,
> {
    let text = trimmed(query);
    if text.len() == 0 {
        Some(Seq::empty())
    } else {
        match cpp_query(text) {
            Ok(names) => Some(selected(captures_below(text, tree, root), names)),
            Err(_) => None,
        }
    }
}

/// Whether the grammar gives so many captures that it is asked whether it was canceled.
pub open spec fn has_many(query: Seq<u8>, tree: SyntaxTree, root: usize) -> bool {
    let text = trimmed(query);
    text.len() > 0 && cpp_query(text) is Ok && captures_below(text, tree, root).len()
        >= CANCEL_INTERVAL
}

/// The captures of a query below a node of a tree. `slot` says what the query is for. The
/// grammar counts the bytes of the query in 32 bits.
pub fn collect_captures<F: Fn() -> bool>(
    query_src: &str,
    tree: &SyntaxTree,
    root: usize,
    slot: &'static str,
    cancel: &F,
) -> (r: Result<Vec<Capture>, QueryFailure>)
    requires
        call_requires(*cancel, ()),
        query_src.spec_bytes().len() <= u32::MAX,
        root < tree.count(),
    ensures
        match r {
            Ok(found) => captures_of(query_src.spec_bytes(), *tree, root) == Some(views(found@))
                && (has_many(query_src.spec_bytes(), *tree, root) ==> call_ensures(
                *cancel,
                (),
                false,
            )),
            Err(QueryFailure::QueryCompile { slot: at, message }) => at == slot && cpp_query(
                trimmed(query_src.spec_bytes()),
            ) == Err::<Seq<Seq<u8>>, Seq<u8>>(message@) && trimmed(
                query_src.spec_bytes(),
            ).len() > 0,
            Err(QueryFailure::Cancelled { slot: at }) => at == slot && call_ensures(
                *cancel,
                (),
                true,
            ) && has_many(query_src.spec_bytes(), *tree, root),
        },
{
    let text = trim(query_src.as_bytes());
    if text.len() == 0 {
        let none: Vec<Capture> = Vec::new();
        assert(views(none@) =~= Seq::<CaptureView>::empty());
        return Ok(none);
    }
    let names = match compile_query(text) {
        Err(message) => {
            return Err(QueryFailure::QueryCompile { slot, message: Text::from_vec(message) });
        },
        Ok(names) => names,
    };
    let raw = query_captures(text, tree.parser_tree(), root, tree.source());
    match select_captures(raw.as_slice(), names.as_slice(), cancel) {
        None => Err(QueryFailure::Cancelled { slot }),
        Some(found) => Ok(found),
    }
}

/// Kept capture names, by value.
pub open spec fn names_kept(entries: Seq<CachedQueryView<Vec<Vec<u8>>>>) -> Seq<
    CachedQueryView<Seq<Seq<u8>>>,
> {
    entries.map_values(
        |e: CachedQueryView<Vec<Vec<u8>>>|
            CachedQueryView {
                language: e.language,
                source: e.source,
                program: byte_views(e.program@),
            },
    )
}

proof fn lemma_names_kept(
    entries: Seq<CachedQueryView<Vec<Vec<u8>>>>,
    language: u32,
    source: Seq<u8>,
)
    ensures
        cached(names_kept(entries), language, source) == match cached(entries, language, source) {
            None => None,
            Some(names) => Some(byte_views(names@)),
        },
    decreases entries.len(),
{
    if entries.len() > 0 {
        assert(names_kept(entries).drop_first() =~= names_kept(entries.drop_first()));
        lemma_names_kept(entries.drop_first(), language, source);
    }
}

/// What compiling a query comes to where some are kept already: its capture names, or why
/// it is none.
pub open spec fn compiled_names(
    entries: Seq<CachedQueryView<Seq<Seq<u8>>>>,
    language: u32,
    source: Seq<u8>,
) -> Result<Seq<Seq<u8>>, Seq<u8>> {
    match cached(entries, language, source) {
        Some(names) => Ok(names),
        None => cpp_query(source),
    }
}

/// The capture names of a query of the C++ grammar, compiled where it is not kept yet. A
/// query that compiles is kept, one that does not is not. The grammar is known by its
/// number, and counts the bytes of a query in 32 bits.
pub fn compiled_query(
    cache: &mut QueryCache<Vec<Vec<u8>>>,
    language: u32,
    source: &[u8],
) -> (r: Result<Vec<Vec<u8>>, Vec<u8>>)
    requires
        source@.len() <= u32::MAX,
    ensures
        match r {
            Ok(names) => compiled_names(names_kept(old(cache)@), language, source@) == Ok::<
                Seq<Seq<u8>>,
                Seq<u8>,
            >(byte_views(names@)) && names_kept(final(cache)@) == with_query(
                names_kept(old(cache)@),
                language,
                source@,
                byte_views(names@),
            ),
            Err(message) => compiled_names(names_kept(old(cache)@), language, source@) == Err::<
                Seq<Seq<u8>>,
                Seq<u8>,
            >(message@) && final(cache)@ == old(cache)@,
        },
        cached(old(cache)@, language, source@) is Some ==> final(cache)@ == old(cache)@,
{
    let ghost before = cache@;
    proof {
        lemma_names_kept(before, language, source@);
    }
    if let Some(kept) = cache.find(language, source) {
        return Ok(copy_names(kept.as_slice()));
    }
    let names = match compile_query(source) {
        Err(message) => {
            return Err(message);
        },
        Ok(names) => names,
    };
    let kept = copy_names(names.as_slice());
    cache.record(language, source, kept);
    assert(names_kept(cache@) =~= with_query(
        names_kept(before),
        language,
        source@,
        byte_views(names@),
    ));
    Ok(names)
}

fn copy_names(names: &[Vec<u8>]) -> (r: Vec<Vec<u8>>)
    ensures
        byte_views(r@) == byte_views(names@),
{
    let mut copy: Vec<Vec<u8>> = Vec::new();
    let mut i: usize = 0;
    assert(byte_views(copy@) =~= byte_views(names@).take(0));
    while i < names.len()
        invariant
            i <= names@.len(),
            byte_views(copy@) == byte_views(names@).take(i as int),
        decreases names@.len() - i,
    {
        let ghost before = copy@;
        let name = copy_bytes(names[i].as_slice());
        copy.push(name);
        proof {
            lemma_push_bytes(before, name);
            assert(byte_views(names@).take(i + 1) =~= byte_views(names@).take(i as int).push(
                byte_views(names@)[i as int],
            ));
        }
        i += 1;
    }
    assert(byte_views(names@).take(i as int) =~= byte_views(names@));
    copy
}

/// Where every kept query has the capture names that the grammar gives, compiling it
/// again comes to the same, and what is kept afterwards has them too: keeping queries
/// changes no result.
pub proof fn keeping_queries_changes_no_result(
    entries: Seq<CachedQueryView<Seq<Seq<u8>>>>,
    language: u32,
    source: Seq<u8>,
)
    requires
        are_compiled(entries, language),
    ensures
        compiled_names(entries, language, source) == cpp_query(source),
        match cpp_query(source) {
            Ok(names) => are_compiled(with_query(entries, language, source, names), language),
            Err(_) => true,
        },
{
    lemma_cached_is_kept(entries, language, source);
    if let Ok(names) = cpp_query(source) {
        let after = with_query(entries, language, source, names);
        assert forall|i: int| 0 <= i < after.len() && (#[trigger] after[i]).language
            == language implies cpp_query(after[i].source) == Ok::<Seq<Seq<u8>>, Seq<u8>>(
            after[i].program,
        ) by {
            if i < after.len() - 1 || after == entries {
                if after.len() == entries.len() && after != entries {
                    assert(after[i] == entries[i + 1]);
                } else {
                    assert(after[i] == entries[i]);
                }
            }
        }
    }
}

/// Whether the kept queries of a grammar have the capture names that it gives.
pub open spec fn are_compiled(
    entries: Seq<CachedQueryView<Seq<Seq<u8>>>>,
    language: u32,
) -> bool {
    forall|i: int|
        0 <= i < entries.len() && (#[trigger] entries[i]).language == language ==> cpp_query(
            entries[i].source,
        ) == Ok::<Seq<Seq<u8>>, Seq<u8>>(entries[i].program)
}

proof fn lemma_cached_is_kept<P>(
    entries: Seq<CachedQueryView<P>>,
    language: u32,
    source: Seq<u8>,
)
    ensures
        cached(entries, language, source) is Some ==> exists|i: int|
            0 <= i < entries.len() && (#[trigger] entries[i]).language == language
                && entries[i].source == source && entries[i].program == cached(
                entries,
                language,
                source,
            )->0,
    decreases entries.len(),
{
    if entries.len() > 0 && cached(entries, language, source) is Some && !(entries[0].language
        == language && entries[0].source == source) {
        let rest = entries.drop_first();
        lemma_cached_is_kept(rest, language, source);
        let i = choose|i: int|
            0 <= i < rest.len() && (#[trigger] rest[i]).language == language && rest[i].source
                == source && rest[i].program == cached(rest, language, source)->0;
        assert(entries[i + 1] == rest[i]);
    }
}

proof fn lemma_selected(raw: Seq<(u32, usize)>, names: Seq<Seq<u8>>, i: int)
    requires
        0 <= i < selected(raw, names).len(),
    ensures
        !is_condition(selected(raw, names)[i].name),
        exists|k: int|
            0 <= k < raw.len() && (#[trigger] raw[k]).1 == selected(raw, names)[i].node
                && capture_name(names, raw[k].0) == selected(raw, names)[i].name,
    decreases raw.len(),
{
    if raw.len() > 0 {
        let shorter = raw.drop_last();
        let before = selected(shorter, names);
        if i < before.len() {
            lemma_selected(shorter, names, i);
            let k = choose|k: int|
                0 <= k < shorter.len() && (#[trigger] shorter[k]).1 == before[i].node
                    && capture_name(names, shorter[k].0) == before[i].name;
            assert(raw[k] == shorter[k]);
        } else {
            assert(raw[raw.len() - 1] == raw.last());
        }
    }
}

/// Captures that are there for the conditions of a query are not facts: none of them is
/// selected, and every selected one was captured.
pub proof fn conditions_are_not_selected(raw: Seq<(u32, usize)>, names: Seq<Seq<u8>>, i: int)
    requires
        0 <= i < selected(raw, names).len(),
    ensures
        !is_condition(selected(raw, names)[i].name),
        exists|k: int|
            0 <= k < raw.len() && (#[trigger] raw[k]).1 == selected(raw, names)[i].node
                && capture_name(names, raw[k].0) == selected(raw, names)[i].name,
{
    lemma_selected(raw, names, i);
}

} // verus!
