//! Which symbol owns a region of source text. References and relations whose source
//! is not an extracted symbol are corrected or dropped here.

use crate::collections::{holds, IdMap};
use crate::facts::{
    Language, RawEdge, ReferenceUse, ScopeDef, ScopeKind, SymbolDef, SymbolKind, TextRange,
};
use crate::ids::{EdgeId, FileId, Identity, ReferenceId, ScopeId, SymbolId};
use vstd::prelude::*;
use vstd::string::StringSliceAdditionalSpecFns;

verus! {

/// Whether a symbol of one kind can own a scope of another.
pub open spec fn can_own(symbol: SymbolKind, scope: ScopeKind) -> bool {
    match symbol {
        SymbolKind::Function | SymbolKind::Method | SymbolKind::Constructor => scope
            == ScopeKind::Function || scope == ScopeKind::Method,
        SymbolKind::Class | SymbolKind::Struct | SymbolKind::Interface | SymbolKind::Trait => scope
            == ScopeKind::Class || scope == ScopeKind::Struct || scope == ScopeKind::Interface
            || scope == ScopeKind::Trait,
        SymbolKind::Enum => scope == ScopeKind::Enum,
        SymbolKind::Namespace | SymbolKind::Module | SymbolKind::Package => scope
            == ScopeKind::File || scope == ScopeKind::Module || scope == ScopeKind::Namespace,
        _ => false,
    }
}

/// Whether a symbol of one kind can own a scope of another.
fn owns_scope(symbol: SymbolKind, scope: ScopeKind) -> (r: bool)
    ensures
        r == can_own(symbol, scope),
{
    match symbol {
        SymbolKind::Function | SymbolKind::Method | SymbolKind::Constructor => {
            matches!(scope, ScopeKind::Function | ScopeKind::Method)
        },
        SymbolKind::Class | SymbolKind::Struct | SymbolKind::Interface | SymbolKind::Trait => {
            matches!(
                scope,
                ScopeKind::Class | ScopeKind::Struct | ScopeKind::Interface | ScopeKind::Trait
            )
        },
        SymbolKind::Enum => scope == ScopeKind::Enum,
        SymbolKind::Namespace | SymbolKind::Module | SymbolKind::Package => {
            matches!(scope, ScopeKind::File | ScopeKind::Module | ScopeKind::Namespace)
        },
        _ => false,
    }
}

/// How strong the claim of a symbol on its scope is, where it has any.
pub open spec fn priority_of(kind: SymbolKind) -> Option<u8> {
    match kind {
        SymbolKind::Function | SymbolKind::Method | SymbolKind::Constructor => Some(100),
        SymbolKind::Class
        | SymbolKind::Struct
        | SymbolKind::Interface
        | SymbolKind::Trait
        | SymbolKind::Enum => Some(80),
        SymbolKind::Namespace | SymbolKind::Module | SymbolKind::Package => Some(60),
        _ => None,
    }
}

/// How strong the claim of a symbol on its scope is, where it has any.
fn source_symbol_priority(kind: SymbolKind) -> (r: Option<u8>)
    ensures
        r == priority_of(kind),
{
    match kind {
        SymbolKind::Function | SymbolKind::Method | SymbolKind::Constructor => Some(100),
        SymbolKind::Class
        | SymbolKind::Struct
        | SymbolKind::Interface
        | SymbolKind::Trait
        | SymbolKind::Enum => Some(80),
        SymbolKind::Namespace | SymbolKind::Module | SymbolKind::Package => Some(60),
        _ => None,
    }
}

/// The last scope with an identity.
pub open spec fn scope_with(scopes: Seq<ScopeDef>, id: ScopeId) -> Option<ScopeDef>
    decreases scopes.len(),
{
    if scopes.len() == 0 {
        None
    } else if scopes.last().id == id {
        Some(scopes.last())
    } else {
        scope_with(scopes.drop_last(), id)
    }
}

fn find_scope(scopes: &[ScopeDef], id: &ScopeId) -> (r: Option<ScopeDef>)
    ensures
        r == scope_with(scopes@, *id),
{
    let mut i: usize = scopes.len();
    assert(scopes@.take(i as int) =~= scopes@);
    while i > 0
        invariant
            i <= scopes@.len(),
            scope_with(scopes@, *id) == scope_with(scopes@.take(i as int), *id),
        decreases i,
    {
        assert(scopes@.take(i as int).drop_last() =~= scopes@.take(i - 1));
        if scopes[i - 1].id.same(id) {
            return Some(scopes[i - 1]);
        }
        i -= 1;
    }
    None
}

/// The scope around a scope: that of the last entry that has one.
pub open spec fn parent_scope(scopes: Seq<ScopeDef>, id: ScopeId) -> Option<ScopeId>
    decreases scopes.len(),
{
    if scopes.len() == 0 {
        None
    } else if scopes.last().id == id && scopes.last().parent_id is Some {
        scopes.last().parent_id
    } else {
        parent_scope(scopes.drop_last(), id)
    }
}

fn find_parent_scope(scopes: &[ScopeDef], id: &ScopeId) -> (r: Option<ScopeId>)
    ensures
        r == parent_scope(scopes@, *id),
{
    let mut i: usize = scopes.len();
    assert(scopes@.take(i as int) =~= scopes@);
    while i > 0
        invariant
            i <= scopes@.len(),
            parent_scope(scopes@, *id) == parent_scope(scopes@.take(i as int), *id),
        decreases i,
    {
        assert(scopes@.take(i as int).drop_last() =~= scopes@.take(i - 1));
        if scopes[i - 1].id.same(id) && scopes[i - 1].parent_id.is_some() {
            return scopes[i - 1].parent_id;
        }
        i -= 1;
    }
    None
}

/// The smallest scope that covers a range; the first of those of one size.
pub open spec fn innermost(scopes: Seq<ScopeDef>, range: TextRange) -> Option<ScopeDef>
    decreases scopes.len(),
{
    if scopes.len() == 0 {
        None
    } else {
        let scope = scopes.last();
        match innermost(scopes.drop_last(), range) {
            Some(best) if !scope.range.covers(range) || best.range.byte_len_spec()
                <= scope.range.byte_len_spec() => Some(best),
            _ => if scope.range.covers(range) {
                Some(scope)
            } else {
                None
            },
        }
    }
}

/// The smallest scope that covers a range.
pub fn innermost_scope(scopes: &[ScopeDef], range: TextRange) -> (r: Option<ScopeId>)
    ensures
        r == match innermost(scopes@, range) {
            None => None,
            Some(scope) => Some(scope.id),
        },
{
    let mut best: Option<ScopeDef> = None;
    let mut i: usize = 0;
    while i < scopes.len()
        invariant
            i <= scopes@.len(),
            best == innermost(scopes@.take(i as int), range),
        decreases scopes@.len() - i,
    {
        assert(scopes@.take(i + 1).drop_last() =~= scopes@.take(i as int));
        let scope = scopes[i];
        if scope.range.contains_range(&range) {
            let better = match best {
                None => true,
                Some(best) => best.range.byte_len() > scope.range.byte_len(),
            };
            if better {
                best = Some(scope);
            }
        }
        i += 1;
    }
    assert(scopes@.take(i as int) =~= scopes@);
    match best {
        None => None,
        Some(scope) => Some(scope.id),
    }
}

/// Whether a symbol defines a scope. Where a declaration merely occurs does not belong
/// to it: in C++ a callable or type owns the scope that has its own range.
pub open spec fn defines_scope(scopes: Seq<ScopeDef>, symbol: SymbolDef, id: ScopeId) -> bool {
    symbol.scope_id == Some(id) && priority_of(symbol.kind) is Some && match scope_with(
        scopes,
        id,
    ) {
        None => false,
        Some(scope) => can_own(symbol.kind, scope.kind) && (symbol.language != Language::Cpp
            || symbol.kind == SymbolKind::Namespace || symbol.kind == SymbolKind::Module
            || symbol.kind == SymbolKind::Package || symbol.range == scope.range),
    }
}

/// The best claim on a scope: its strength, the size of the symbol, and the symbol.
/// A stronger claim wins, then a smaller symbol, then the one that came first.
pub open spec fn best_claim(
    symbols: Seq<SymbolDef>,
    scopes: Seq<ScopeDef>,
    id: ScopeId,
) -> Option<(u8, u32, SymbolId)>
    decreases symbols.len(),
{
    if symbols.len() == 0 {
        None
    } else {
        let symbol = symbols.last();
        let before = best_claim(symbols.drop_last(), scopes, id);
        if defines_scope(scopes, symbol, id) {
            let priority = priority_of(symbol.kind)->0;
            let span = symbol.range.byte_len_spec();
            match before {
                Some((old_priority, old_span, _)) if old_priority > priority || (old_priority
                    == priority && old_span <= span) => before,
                _ => Some((priority, span, symbol.id)),
            }
        } else {
            before
        }
    }
}

/// The identities of symbols.
pub open spec fn ids_of(symbols: Seq<SymbolDef>) -> Seq<SymbolId> {
    symbols.map_values(|s: SymbolDef| s.id)
}

/// What a registry says.
#[verifier::ext_equal]
pub struct RegistryView {
    /// The extracted symbols.
    pub known: Seq<SymbolId>,
    /// The scopes of the file.
    pub scopes: Seq<ScopeDef>,
    /// The symbols that own scopes.
    pub owners: Map<ScopeId, SymbolId>,
    /// Regions of callables that the caller around them evaluates.
    pub initializers: Map<SymbolId, TextRange>,
}

impl RegistryView {
    /// What is known from the symbols and scopes of a file.
    pub open spec fn made(
        symbols: Seq<SymbolDef>,
        scopes: Seq<ScopeDef>,
        initializers: Map<SymbolId, TextRange>,
    ) -> RegistryView {
        RegistryView {
            known: ids_of(symbols),
            scopes,
            owners: Map::new(
                |id: ScopeId| best_claim(symbols, scopes, id) is Some,
                |id: ScopeId| best_claim(symbols, scopes, id).unwrap().2,
            ),
            initializers,
        }
    }

    /// Whether a scope is that of a callable that no symbol stands for.
    pub open spec fn is_unowned_callable(self, id: ScopeId) -> bool {
        !self.owners.dom().contains(id) && exists|i: int|
            0 <= i < self.scopes.len() && (#[trigger] self.scopes[i]).id == id && (
            self.scopes[i].kind == ScopeKind::Function || self.scopes[i].kind == ScopeKind::Method)
    }

    /// Whether the caller around a callable evaluates a range inside it.
    pub open spec fn is_initializer(self, owner: SymbolId, range: TextRange) -> bool {
        self.initializers.dom().contains(owner) && self.initializers[owner].covers(range)
    }

    /// The owner of a range, looked for from a scope outwards in some steps.
    pub open spec fn source_from(
        self,
        current: Option<ScopeId>,
        range: TextRange,
        steps: nat,
    ) -> Option<SymbolId>
        decreases steps,
    {
        match current {
            None => None,
            Some(id) => if steps == 0 || self.is_unowned_callable(id) {
                None
            } else if self.owners.dom().contains(id) && !self.is_initializer(
                self.owners[id],
                range,
            ) {
                Some(self.owners[id])
            } else {
                self.source_from(parent_scope(self.scopes, id), range, (steps - 1) as nat)
            },
        }
    }

    /// The symbol that owns a range: that of the innermost scope that has one. Code in a
    /// callable without a symbol has none. There are no more steps outwards than scopes,
    /// and one to a scope that is not recorded.
    pub open spec fn source(self, range: TextRange) -> Option<SymbolId> {
        self.source_from(
            match innermost(self.scopes, range) {
                None => None,
                Some(scope) => Some(scope.id),
            },
            range,
            self.scopes.len() + 1,
        )
    }

    /// Whether every owner is an extracted symbol.
    pub open spec fn owners_are_known(self) -> bool {
        forall|id: ScopeId| #[trigger]
            self.owners.dom().contains(id) ==> self.known.contains(self.owners[id])
    }
}

/// The symbols, scopes and owners of a file.
#[derive(Debug)]
pub struct SymbolRegistry {
    known: Vec<SymbolId>,
    scopes: Vec<ScopeDef>,
    owners: IdMap<ScopeId, SymbolId>,
    initializers: IdMap<SymbolId, TextRange>,
}

impl View for SymbolRegistry {
    type V = RegistryView;

    closed spec fn view(&self) -> RegistryView {
        RegistryView {
            known: self.known@,
            scopes: self.scopes@,
            owners: self.owners@,
            initializers: self.initializers@,
        }
    }
}

/// The best claim belongs to one of the symbols.
proof fn lemma_claim_is_known(symbols: Seq<SymbolDef>, scopes: Seq<ScopeDef>, id: ScopeId)
    ensures
        match best_claim(symbols, scopes, id) {
            None => true,
            Some((_, _, owner)) => ids_of(symbols).contains(owner),
        },
    decreases symbols.len(),
{
    if symbols.len() > 0 {
        lemma_claim_is_known(symbols.drop_last(), scopes, id);
        let all = ids_of(symbols);
        assert(all[symbols.len() - 1] == symbols.last().id);
        if let Some((_, _, owner)) = best_claim(symbols.drop_last(), scopes, id) {
            let before = ids_of(symbols.drop_last());
            let at = choose|at: int| 0 <= at < before.len() && before[at] == owner;
            assert(all[at] == owner);
        }
    }
}

/// Every owner is an extracted symbol.
pub proof fn owners_are_extracted(
    symbols: Seq<SymbolDef>,
    scopes: Seq<ScopeDef>,
    initializers: Map<SymbolId, TextRange>,
)
    ensures
        RegistryView::made(symbols, scopes, initializers).owners_are_known(),
{
    let made = RegistryView::made(symbols, scopes, initializers);
    assert forall|id: ScopeId| #[trigger] made.owners.dom().contains(id) implies made.known.contains(
        made.owners[id],
    ) by {
        lemma_claim_is_known(symbols, scopes, id);
    }
}

proof fn lemma_source_is_known(
    registry: RegistryView,
    current: Option<ScopeId>,
    range: TextRange,
    steps: nat,
)
    requires
        registry.owners_are_known(),
    ensures
        match registry.source_from(current, range, steps) {
            None => true,
            Some(source) => registry.known.contains(source),
        },
    decreases steps,
{
    if let Some(id) = current {
        if steps > 0 {
            lemma_source_is_known(
                registry,
                parent_scope(registry.scopes, id),
                range,
                (steps - 1) as nat,
            );
        }
    }
}

/// A reference with the source that the registry gives it. Its identity is made anew
/// where the source changes.
pub open spec fn with_source(
    registry: RegistryView,
    file: FileId,
    reference: ReferenceUse,
) -> ReferenceUse {
    let source = registry.source(reference.range);
    if reference.source_symbol == source {
        reference
    } else {
        ReferenceUse {
            source_symbol: source,
            id: ReferenceId::generated(
                file,
                source,
                reference.range.start_byte,
                reference.range.end_byte,
                reference.text@,
                reference.kind.name().spec_bytes(),
            ),
            ..reference
        }
    }
}

/// The source of a relation: that of its location, or else the one that it has, where
/// this is an extracted symbol.
pub open spec fn edge_source(registry: RegistryView, edge: RawEdge) -> Option<SymbolId> {
    let located = match edge.location {
        None => None,
        Some(range) => registry.source(range),
    };
    let source = if located is Some {
        located
    } else {
        Some(edge.source)
    };
    if registry.known.contains(source->0) {
        source
    } else {
        None
    }
}

/// A relation with another source. Its identity is made anew where the source changes.
pub open spec fn moved_edge(edge: RawEdge, source: SymbolId) -> RawEdge {
    if edge.source == source {
        edge
    } else {
        RawEdge {
            source,
            id: EdgeId::generated(
                source,
                edge.target,
                edge.kind.name().spec_bytes(),
                edge.ref_id,
                edge.provenance.name().spec_bytes(),
            ),
            ..edge
        }
    }
}

/// The relations whose source is an extracted symbol, with that source.
pub open spec fn resolved_edges(registry: RegistryView, edges: Seq<RawEdge>) -> Seq<RawEdge>
    decreases edges.len(),
{
    if edges.len() == 0 {
        Seq::empty()
    } else {
        let before = resolved_edges(registry, edges.drop_last());
        match edge_source(registry, edges.last()) {
            None => before,
            Some(source) => before.push(moved_edge(edges.last(), source)),
        }
    }
}

impl SymbolRegistry {
    /// The registry of the symbols and scopes of a file.
    pub fn new(
        symbols: &[SymbolDef],
        scopes: &[ScopeDef],
        caller_initializers: IdMap<SymbolId, TextRange>,
    ) -> (r: Self)
        ensures
            r@ == RegistryView::made(symbols@, scopes@, caller_initializers@),
    {
        let mut known: Vec<SymbolId> = Vec::new();
        let mut claims: IdMap<ScopeId, (u8, u32, SymbolId)> = IdMap::new();
        let mut i: usize = 0;
        while i < symbols.len()
            invariant
                i <= symbols@.len(),
                known@ == ids_of(symbols@).take(i as int),
                forall|id: ScopeId|
                    claims@.dom().contains(id) == (#[trigger] best_claim(
                        symbols@.take(i as int),
                        scopes@,
                        id,
                    ) is Some),
                forall|id: ScopeId| #[trigger]
                    claims@.dom().contains(id) ==> best_claim(symbols@.take(i as int), scopes@, id)
                        == Some(claims@[id]),
            decreases symbols@.len() - i,
        {
            let symbol = &symbols[i];
            let ghost before = symbols@.take(i as int);
            assert(symbols@.take(i + 1).drop_last() =~= before);
            assert(symbols@.take(i + 1).last() == *symbol);
            known.push(symbol.id);
            assert(known@ =~= ids_of(symbols@).take(i + 1));
            if let Some(scope_id) = symbol.scope_id {
                if let Some(priority) = source_symbol_priority(symbol.kind) {
                    let defining = match find_scope(scopes, &scope_id) {
                        None => false,
                        Some(scope) => owns_scope(symbol.kind, scope.kind) && (symbol.language
                            != Language::Cpp || matches!(
                            symbol.kind,
                            SymbolKind::Namespace | SymbolKind::Module | SymbolKind::Package
                        ) || symbol.range == scope.range),
                    };
                    if defining {
                        assert(defines_scope(scopes@, *symbol, scope_id));
                        let span = symbol.range.byte_len();
                        let keep = match claims.get(&scope_id) {
                            None => false,
                            Some(claim) => claim.0 > priority || (claim.0 == priority && claim.1
                                <= span),
                        };
                        assert(best_claim(before, scopes@, scope_id) is Some
                            == claims@.dom().contains(scope_id));
                        if !keep {
                            claims.insert(scope_id, (priority, span, symbol.id));
                        }
                    }
                }
            }
            proof {
                assert forall|id: ScopeId|
                    claims@.dom().contains(id) == (#[trigger] best_claim(
                        symbols@.take(i + 1),
                        scopes@,
                        id,
                    ) is Some) by {
                    assert(best_claim(before, scopes@, id) is Some
                        || best_claim(before, scopes@, id) is None);
                }
                assert forall|id: ScopeId| #[trigger] claims@.dom().contains(id) implies best_claim(
                    symbols@.take(i + 1),
                    scopes@,
                    id,
                ) == Some(claims@[id]) by {
                    assert(best_claim(before, scopes@, id) is Some
                        || best_claim(before, scopes@, id) is None);
                }
            }
            i += 1;
        }
        assert(symbols@.take(i as int) =~= symbols@);
        assert(known@ =~= ids_of(symbols@));
        let mut owners: IdMap<ScopeId, SymbolId> = IdMap::new();
        let keys = claims.keys();
        let mut j: usize = 0;
        while j < keys.len()
            invariant
                j <= keys@.len(),
                keys@.to_set() == claims@.dom(),
                keys@.no_duplicates(),
                forall|id: ScopeId|
                    #![trigger owners@.dom().contains(id)]
                    owners@.dom().contains(id) == keys@.take(j as int).contains(id),
                forall|id: ScopeId| #[trigger]
                    owners@.dom().contains(id) ==> claims@.dom().contains(id) && owners@[id]
                        == claims@[id].2,
            decreases keys@.len() - j,
        {
            let key: ScopeId = keys[j];
            assert(keys@.to_set().contains(key));
            proof {
                let longer = keys@.take(j + 1);
                assert forall|id: ScopeId| longer.contains(id) == (keys@.take(j as int).contains(id)
                    || id == key) by {
                    if longer.contains(id) {
                        let at = choose|at: int| 0 <= at < longer.len() && longer[at] == id;
                        if at < j {
                            assert(keys@.take(j as int)[at] == id);
                        }
                    }
                    if keys@.take(j as int).contains(id) {
                        let at = choose|at: int|
                            0 <= at < keys@.take(j as int).len() && keys@.take(j as int)[at] == id;
                        assert(longer[at] == id);
                    }
                    assert(longer[j as int] == key);
                }
            }
            match claims.get(&key) {
                None => {},
                Some(claim) => {
                    owners.insert(key, claim.2);
                },
            }
            j += 1;
        }
        assert(keys@.take(j as int) =~= keys@);
        proof {
            let made = RegistryView::made(symbols@, scopes@, caller_initializers@);
            assert forall|id: ScopeId| owners@.dom().contains(id) == made.owners.dom().contains(id) by {
                assert(claims@.dom().contains(id) == (best_claim(symbols@, scopes@, id) is Some));
                assert(keys@.to_set().contains(id) == keys@.contains(id));
            }
            assert(owners@ =~= made.owners);
        }
        SymbolRegistry {
            known,
            scopes: copy_scopes(scopes),
            owners,
            initializers: caller_initializers,
        }
    }

    /// Whether a symbol is one of those extracted.
    pub fn contains_symbol(&self, id: &SymbolId) -> (r: bool)
        ensures
            r == self@.known.contains(*id),
    {
        holds(self.known.as_slice(), id)
    }

    fn unowned_callable(&self, id: &ScopeId) -> (r: bool)
        ensures
            r == self@.is_unowned_callable(*id),
    {
        if self.owners.contains_key(id) {
            return false;
        }
        let mut i: usize = 0;
        while i < self.scopes.len()
            invariant
                i <= self.scopes@.len(),
                !self.owners@.dom().contains(*id),
                forall|k: int|
                    0 <= k < i ==> !((#[trigger] self.scopes@[k]).id == *id && (
                    self.scopes@[k].kind == ScopeKind::Function || self.scopes@[k].kind
                        == ScopeKind::Method)),
            decreases self.scopes@.len() - i,
        {
            if self.scopes[i].id.same(id) && matches!(
                self.scopes[i].kind,
                ScopeKind::Function | ScopeKind::Method
            ) {
                assert(self@.scopes[i as int].id == *id);
                return true;
            }
            i += 1;
        }
        false
    }

    /// The symbol that owns a range.
    pub fn source_for_range(&self, range: TextRange) -> (r: Option<SymbolId>)
        ensures
            r == self@.source(range),
    {
        let mut current = innermost_scope(self.scopes.as_slice(), range);
        let mut used: usize = 0;
        let ghost whole = self@.source(range);
        while used <= self.scopes.len()
            invariant
                used <= self.scopes@.len() + 1,
                self@.scopes == self.scopes@,
                whole == self@.source(range),
                whole == self@.source_from(
                    current,
                    range,
                    (self.scopes@.len() + 1 - used) as nat,
                ),
            decreases self.scopes@.len() + 1 - used,
        {
            let id = match current {
                None => {
                    return None;
                },
                Some(id) => id,
            };
            if self.unowned_callable(&id) {
                return None;
            }
            if let Some(owner) = self.owners.get(&id) {
                let inside = match self.initializers.get(owner) {
                    None => false,
                    Some(region) => region.contains_range(&range),
                };
                if !inside {
                    return Some(*owner);
                }
            }
            current = find_parent_scope(self.scopes.as_slice(), &id);
            if used == self.scopes.len() {
                assert(self@.source_from(current, range, 0) is None);
                return None;
            }
            used += 1;
        }
        None
    }

    /// Give references the sources that the registry knows.
    pub fn resolve_reference_sources(&self, file_id: FileId, references: &mut Vec<ReferenceUse>)
        ensures
            final(references)@.len() == old(references)@.len(),
            forall|i: int|
                0 <= i < old(references)@.len() ==> #[trigger] final(references)@[i] == with_source(
                    self@,
                    file_id,
                    old(references)@[i],
                ),
    {
        let mut i: usize = 0;
        while i < references.len()
            invariant
                i <= references@.len(),
                references@.len() == old(references)@.len(),
                forall|k: int|
                    0 <= k < i ==> #[trigger] references@[k] == with_source(
                        self@,
                        file_id,
                        old(references)@[k],
                    ),
                forall|k: int| i <= k < references@.len() ==> references@[k] == old(references)@[k],
            decreases references@.len() - i,
        {
            let source = self.source_for_range(references[i].range);
            if !same_source(references[i].source_symbol, source) {
                let id = ReferenceId::generate(
                    &file_id,
                    source,
                    references[i].range.start_byte,
                    references[i].range.end_byte,
                    references[i].text.as_bytes(),
                    references[i].kind.as_str(),
                );
                let mut reference = references[i].clone();
                reference.source_symbol = source;
                reference.id = id;
                references.set(i, reference);
            }
            i += 1;
        }
    }

    /// Give relations the sources that the registry knows, and drop those that have none.
    pub fn resolve_edge_sources(&self, edges: &mut Vec<RawEdge>)
        ensures
            final(edges)@ == resolved_edges(self@, old(edges)@),
    {
        let mut kept: Vec<RawEdge> = Vec::new();
        let mut i: usize = 0;
        while i < edges.len()
            invariant
                i <= edges@.len(),
                edges@ == old(edges)@,
                kept@ == resolved_edges(self@, edges@.take(i as int)),
            decreases edges@.len() - i,
        {
            assert(edges@.take(i + 1).drop_last() =~= edges@.take(i as int));
            let edge = edges[i];
            let located = match edge.location {
                None => None,
                Some(range) => self.source_for_range(range),
            };
            let source = match located {
                None => edge.source,
                Some(source) => source,
            };
            if self.contains_symbol(&source) {
                let mut edge = edge;
                if !edge.source.same(&source) {
                    edge.source = source;
                    edge.id = regenerate_edge_id(&edge);
                }
                kept.push(edge);
            }
            i += 1;
        }
        assert(edges@.take(i as int) =~= edges@);
        *edges = kept;
    }
}

fn same_source(a: Option<SymbolId>, b: Option<SymbolId>) -> (r: bool)
    ensures
        r == (a == b),
{
    match (a, b) {
        (None, None) => true,
        (Some(a), Some(b)) => a.same(&b),
        _ => false,
    }
}

fn copy_scopes(scopes: &[ScopeDef]) -> (r: Vec<ScopeDef>)
    ensures
        r@ == scopes@,
{
    let mut copy: Vec<ScopeDef> = Vec::new();
    let mut i: usize = 0;
    while i < scopes.len()
        invariant
            i <= scopes@.len(),
            copy@ == scopes@.take(i as int),
        decreases scopes@.len() - i,
    {
        copy.push(scopes[i]);
        assert(scopes@.take(i + 1) =~= scopes@.take(i as int).push(scopes@[i as int]));
        i += 1;
    }
    assert(scopes@.take(i as int) =~= scopes@);
    copy
}

fn regenerate_edge_id(edge: &RawEdge) -> (r: EdgeId)
    ensures
        r == EdgeId::generated(
            edge.source,
            edge.target,
            edge.kind.name().spec_bytes(),
            edge.ref_id,
            edge.provenance.name().spec_bytes(),
        ),
{
    EdgeId::generate(
        &edge.source,
        &edge.target,
        edge.kind.as_str(),
        edge.ref_id,
        edge.provenance.as_str(),
    )
}

/// Whether the sources of all relations are among some symbols.
pub open spec fn edge_sources_known(edges: Seq<RawEdge>, known: Seq<SymbolId>) -> bool {
    forall|i: int| 0 <= i < edges.len() ==> known.contains((#[trigger] edges[i]).source)
}

/// Whether the sources of all references that have one are among some symbols.
pub open spec fn reference_sources_known(
    references: Seq<ReferenceUse>,
    known: Seq<SymbolId>,
) -> bool {
    forall|i: int|
        0 <= i < references.len() ==> match (#[trigger] references[i]).source_symbol {
            None => true,
            Some(source) => known.contains(source),
        }
}

fn known_ids(symbols: &[SymbolDef]) -> (r: Vec<SymbolId>)
    ensures
        r@ == ids_of(symbols@),
{
    let mut known: Vec<SymbolId> = Vec::new();
    let mut i: usize = 0;
    while i < symbols.len()
        invariant
            i <= symbols@.len(),
            known@ == ids_of(symbols@).take(i as int),
        decreases symbols@.len() - i,
    {
        known.push(symbols[i].id);
        assert(known@ =~= ids_of(symbols@).take(i + 1));
        i += 1;
    }
    assert(known@ =~= ids_of(symbols@));
    known
}

/// Whether the sources of all relations are among the symbols.
pub fn all_edge_sources_known(edges: &[RawEdge], symbols: &[SymbolDef]) -> (r: bool)
    ensures
        r == edge_sources_known(edges@, ids_of(symbols@)),
{
    let known = known_ids(symbols);
    let mut i: usize = 0;
    while i < edges.len()
        invariant
            i <= edges@.len(),
            known@ == ids_of(symbols@),
            forall|k: int| 0 <= k < i ==> known@.contains((#[trigger] edges@[k]).source),
        decreases edges@.len() - i,
    {
        if !holds(known.as_slice(), &edges[i].source) {
            assert(!known@.contains(edges@[i as int].source));
            return false;
        }
        i += 1;
    }
    true
}

/// Whether the sources of all references that have one are among the symbols.
pub fn all_reference_sources_known(references: &[ReferenceUse], symbols: &[SymbolDef]) -> (r: bool)
    ensures
        r == reference_sources_known(references@, ids_of(symbols@)),
{
    let known = known_ids(symbols);
    let mut i: usize = 0;
    while i < references.len()
        invariant
            i <= references@.len(),
            known@ == ids_of(symbols@),
            reference_sources_known(references@.take(i as int), known@),
        decreases references@.len() - i,
    {
        if let Some(source) = references[i].source_symbol {
            if !holds(known.as_slice(), &source) {
                assert(references@[i as int].source_symbol == Some(source));
                return false;
            }
        }
        assert(reference_sources_known(references@.take(i + 1), known@)) by {
            assert forall|k: int| 0 <= k < i + 1 implies match (#[trigger] references@.take(
                i + 1,
            )[k]).source_symbol {
                None => true,
                Some(source) => known@.contains(source),
            } by {
                if k < i {
                    assert(references@.take(i as int)[k] == references@[k]);
                }
            }
        }
        i += 1;
    }
    assert(references@.take(i as int) =~= references@);
    true
}

/// Every relation that is kept comes from an extracted symbol.
pub proof fn kept_edges_come_from_symbols(
    symbols: Seq<SymbolDef>,
    scopes: Seq<ScopeDef>,
    initializers: Map<SymbolId, TextRange>,
    edges: Seq<RawEdge>,
)
    ensures
        edge_sources_known(
            resolved_edges(RegistryView::made(symbols, scopes, initializers), edges),
            ids_of(symbols),
        ),
    decreases edges.len(),
{
    if edges.len() > 0 {
        kept_edges_come_from_symbols(symbols, scopes, initializers, edges.drop_last());
    }
}

/// Every source that a reference is given is an extracted symbol.
pub proof fn reference_sources_are_symbols(
    symbols: Seq<SymbolDef>,
    scopes: Seq<ScopeDef>,
    initializers: Map<SymbolId, TextRange>,
    file: FileId,
    reference: ReferenceUse,
)
    ensures
        match with_source(
            RegistryView::made(symbols, scopes, initializers),
            file,
            reference,
        ).source_symbol {
            None => true,
            Some(source) => ids_of(symbols).contains(source),
        },
{
    let made = RegistryView::made(symbols, scopes, initializers);
    owners_are_extracted(symbols, scopes, initializers);
    lemma_source_is_known(
        made,
        match innermost(scopes, reference.range) {
            None => None,
            Some(scope) => Some(scope.id),
        },
        reference.range,
        scopes.len() + 1,
    );
}

/// To give a reference its source again changes nothing.
pub proof fn giving_a_source_twice_changes_nothing(
    registry: RegistryView,
    file: FileId,
    reference: ReferenceUse,
)
    ensures
        with_source(registry, file, with_source(registry, file, reference)) == with_source(
            registry,
            file,
            reference,
        ),
{
}

/// To resolve relations again changes nothing.
pub proof fn resolving_edges_twice_changes_nothing(registry: RegistryView, edges: Seq<RawEdge>)
    ensures
        resolved_edges(registry, resolved_edges(registry, edges)) == resolved_edges(
            registry,
            edges,
        ),
    decreases edges.len(),
{
    if edges.len() > 0 {
        resolving_edges_twice_changes_nothing(registry, edges.drop_last());
        let before = resolved_edges(registry, edges.drop_last());
        if let Some(source) = edge_source(registry, edges.last()) {
            let moved = moved_edge(edges.last(), source);
            assert(before.push(moved).drop_last() =~= before);
            assert(edge_source(registry, moved) == Some(source));
        }
    }
}

} // verus!
