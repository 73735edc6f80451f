//! C++ type facts and failed type lookups of the snapshot.

use crate::collections::{lemma_filter_step, IdMap, IdSet};
use crate::cpp_facts::{
    optional_view, views, CppAllocationSite, CppFileTypes, CppLambdaCapture, CppLookupLimit,
};
use crate::facts::TextRange;
use crate::ids::{FileId, Identity, ReferenceId, SymbolId};
use crate::store::{FileTypes, Store};
use crate::text::{same_bytes, Text};
use vstd::prelude::*;

verus! {

/// Why a type was not found.
#[derive(Clone, Copy, PartialEq, Eq, Structural, Debug, Hash)]
pub enum CppTypeLookupFailureKind {
    /// The scope may hold names that are not recorded.
    LookupRestricted,
    /// The scope may hold more declarations of the name.
    NameLookupRestricted,
    /// Another reason, by its number.
    Other(u32),
}

/// A failed type lookup, and the declarations that have to do with it.
#[derive(Debug)]
pub struct CppTypeLookupFailure {
    pub kind: CppTypeLookupFailureKind,
    pub name: Text,
    pub scope: Text,
    pub file_id: FileId,
    pub range: TextRange,
    pub related_declarations: Vec<(FileId, TextRange)>,
}

/// What failed lookups are grouped by, by value.
#[verifier::ext_equal]
pub struct LookupContextView {
    pub kind: CppTypeLookupFailureKind,
    pub name: Seq<u8>,
    pub scope: Seq<u8>,
    pub file_id: FileId,
    pub range: TextRange,
}

/// A failed type lookup, by value.
#[verifier::ext_equal]
pub struct LookupFailureView {
    pub context: LookupContextView,
    pub related_declarations: Seq<(FileId, TextRange)>,
}

impl View for CppTypeLookupFailure {
    type V = LookupFailureView;

    open spec fn view(&self) -> LookupFailureView {
        LookupFailureView {
            context: LookupContextView {
                kind: self.kind,
                name: self.name@,
                scope: self.scope@,
                file_id: self.file_id,
                range: self.range,
            },
            related_declarations: self.related_declarations@,
        }
    }
}

/// A recorded reference with its last failed lookup.
#[derive(Debug)]
pub struct StoredReference {
    pub id: ReferenceId,
    pub resolved: Option<SymbolId>,
    pub failure: Option<CppTypeLookupFailure>,
}

/// A recorded reference, by value.
#[verifier::ext_equal]
pub struct StoredReferenceView {
    pub id: ReferenceId,
    pub resolved: Option<SymbolId>,
    pub failure: Option<LookupFailureView>,
}

impl View for StoredReference {
    type V = StoredReferenceView;

    open spec fn view(&self) -> StoredReferenceView {
        StoredReferenceView {
            id: self.id,
            resolved: self.resolved,
            failure: optional_view(self.failure),
        }
    }
}

/// Why facts cannot be read.
#[derive(Clone, Copy, PartialEq, Eq, Structural, Debug)]
pub enum CppReadError {
    /// The read was canceled.
    Canceled,
    /// There are more than can be counted.
    TooMany,
}

/// What the failed lookups with one context have in common.
#[derive(Clone, Copy, PartialEq, Eq, Structural, Debug)]
pub struct CppTypeLookupSharing {
    pub matching_failures: usize,
    pub same_declarations: bool,
}

impl CppTypeLookupSharing {
    /// Whether several failed lookups name the same declarations. Declarations that are
    /// the same need not be there.
    pub open spec fn is_shared(self) -> bool {
        self.matching_failures > 1 && self.same_declarations
    }

    /// Whether several failed lookups name the same declarations.
    pub fn has_shared_inventory(&self) -> (r: bool)
        ensures
            r == self.is_shared(),
    {
        self.matching_failures > 1 && self.same_declarations
    }
}

/// The work of a selection, in records; not in pages or bytes that are read. Lists of
/// declarations are decoded before they are here; the last number is what was counted
/// there.
#[derive(Clone, Copy, PartialEq, Eq, Structural, Debug)]
pub struct CppTypeLookupReadWork {
    pub unique_references_requested: usize,
    pub failures_decoded: usize,
    pub global_contexts_examined: usize,
    pub matching_inventories_examined: usize,
    pub declaration_lists_decoded: usize,
}

impl Default for CppTypeLookupReadWork {
    fn default() -> (r: Self)
        ensures
            r == (CppTypeLookupReadWork {
                unique_references_requested: 0,
                failures_decoded: 0,
                global_contexts_examined: 0,
                matching_inventories_examined: 0,
                declaration_lists_decoded: 0,
            }),
    {
        CppTypeLookupReadWork {
            unique_references_requested: 0,
            failures_decoded: 0,
            global_contexts_examined: 0,
            matching_inventories_examined: 0,
            declaration_lists_decoded: 0,
        }
    }
}

/// The failed lookups of requested references, and what each has in common with all.
#[derive(Debug)]
pub struct CppTypeLookupSelection<'a> {
    pub failures: IdMap<ReferenceId, &'a CppTypeLookupFailure>,
    pub sharing: IdMap<ReferenceId, CppTypeLookupSharing>,
    pub work: CppTypeLookupReadWork,
}

/// The failed lookup of a reference that was not resolved.
pub open spec fn open_failure(reference: StoredReferenceView) -> Option<LookupFailureView> {
    if reference.resolved is None {
        reference.failure
    } else {
        None
    }
}

/// The failed lookups of all references that were not resolved.
pub open spec fn failures_of(references: Seq<StoredReferenceView>) -> Map<
    ReferenceId,
    LookupFailureView,
>
    decreases references.len(),
{
    if references.len() == 0 {
        Map::empty()
    } else {
        let before = failures_of(references.drop_last());
        match open_failure(references.last()) {
            None => before,
            Some(failure) => before.insert(references.last().id, failure),
        }
    }
}

/// Failed lookups, by value.
pub open spec fn failure_views(map: Map<ReferenceId, &CppTypeLookupFailure>) -> Map<
    ReferenceId,
    LookupFailureView,
> {
    map.map_values(|f: &CppTypeLookupFailure| f@)
}

/// Whether no two rows have the same identity.
pub open spec fn have_distinct_ids(references: Seq<StoredReferenceView>) -> bool {
    forall|i: int, j: int|
        0 <= i < j < references.len() ==> (#[trigger] references[i]).id != (
        #[trigger] references[j]).id
}

/// Whether each reference of a snapshot has one row, as the database keeps them.
pub open spec fn distinct_rows(store: Store) -> bool {
    have_distinct_ids(views(store.references@))
}

/// The failed lookup that is recorded for a reference.
pub open spec fn failure_of(references: Seq<StoredReferenceView>, id: ReferenceId) -> Option<
    LookupFailureView,
> {
    if failures_of(references).dom().contains(id) {
        Some(failures_of(references)[id])
    } else {
        None
    }
}

/// The failed lookups of requested references.
pub open spec fn selected_failures(
    references: Seq<StoredReferenceView>,
    requested: Set<ReferenceId>,
) -> Map<ReferenceId, LookupFailureView> {
    failures_of(references).restrict(requested)
}

/// Whether a reference failed with a context.
pub open spec fn has_context(reference: StoredReferenceView, context: LookupContextView) -> bool {
    match open_failure(reference) {
        None => false,
        Some(failure) => failure.context == context,
    }
}

/// The number of references that failed with a context.
pub open spec fn matching_count(
    references: Seq<StoredReferenceView>,
    context: LookupContextView,
) -> nat
    decreases references.len(),
{
    if references.len() == 0 {
        0
    } else {
        matching_count(references.drop_last(), context) + if has_context(
            references.last(),
            context,
        ) {
            1nat
        } else {
            0
        }
    }
}

/// Whether all references that failed with the context of a failure name the same
/// declarations.
pub open spec fn all_same(
    references: Seq<StoredReferenceView>,
    failure: LookupFailureView,
) -> bool {
    forall|i: int|
        0 <= i < references.len() && has_context(#[trigger] references[i], failure.context)
            ==> open_failure(references[i])->0.related_declarations == failure.related_declarations
}

/// What a failed lookup has in common with all.
pub open spec fn sharing_of(
    references: Seq<StoredReferenceView>,
    failure: LookupFailureView,
) -> CppTypeLookupSharing {
    CppTypeLookupSharing {
        matching_failures: matching_count(references, failure.context) as usize,
        same_declarations: all_same(references, failure),
    }
}

/// Whether a reference failed with the context of a selected failure.
pub open spec fn is_examined(
    selected: Map<ReferenceId, LookupFailureView>,
    reference: StoredReferenceView,
) -> bool {
    match open_failure(reference) {
        None => false,
        Some(failure) => exists|id: ReferenceId|
            #[trigger] selected.dom().contains(id) && selected[id].context == failure.context,
    }
}

/// The number of references that failed at all.
pub open spec fn open_count(references: Seq<StoredReferenceView>) -> nat
    decreases references.len(),
{
    if references.len() == 0 {
        0
    } else {
        open_count(references.drop_last()) + if open_failure(references.last()) is Some {
            1nat
        } else {
            0
        }
    }
}

/// The number of references that failed with the context of a selected failure.
pub open spec fn examined_count(
    selected: Map<ReferenceId, LookupFailureView>,
    references: Seq<StoredReferenceView>,
) -> nat
    decreases references.len(),
{
    if references.len() == 0 {
        0
    } else {
        examined_count(selected, references.drop_last()) + if is_examined(
            selected,
            references.last(),
        ) {
            1nat
        } else {
            0
        }
    }
}

/// Whether a selection holds what is recorded of requested references, and the work
/// for it.
pub open spec fn is_selection(
    references: Seq<StoredReferenceView>,
    requested: Set<ReferenceId>,
    lists_decoded: usize,
    selection: CppTypeLookupSelection,
) -> bool {
    let chosen = selected_failures(references, requested);
    let scanned = chosen.dom().len() > 0;
    &&& failure_views(selection.failures@) == chosen
    &&& selection.sharing@.dom() == chosen.dom()
    &&& forall|id: ReferenceId| #[trigger]
        chosen.dom().contains(id) ==> selection.sharing@[id] == sharing_of(references, chosen[id])
    &&& selection.work.unique_references_requested == requested.len()
    &&& selection.work.failures_decoded == chosen.dom().len()
    &&& selection.work.global_contexts_examined == if scanned {
        open_count(references)
    } else {
        0
    }
    &&& selection.work.matching_inventories_examined == if scanned {
        examined_count(chosen, references)
    } else {
        0
    }
    &&& selection.work.declaration_lists_decoded == lists_decoded
}

/// The references after an attempt to resolve one failed, or found no exact cause. A
/// resolved reference keeps what it has.
pub open spec fn with_attempt(
    reference: StoredReferenceView,
    id: ReferenceId,
    failure: Option<LookupFailureView>,
) -> StoredReferenceView {
    if reference.id == id && reference.resolved is None {
        StoredReferenceView { failure, ..reference }
    } else {
        reference
    }
}

/// Failed attempts, by value.
pub open spec fn attempt_views(
    failures: Seq<(ReferenceId, Option<CppTypeLookupFailure>)>,
) -> Seq<(ReferenceId, Option<LookupFailureView>)> {
    failures.map_values(
        |f: (ReferenceId, Option<CppTypeLookupFailure>)| (f.0, optional_view(f.1)),
    )
}

/// A reference after attempts, one after the other.
pub open spec fn after_attempts(
    reference: StoredReferenceView,
    attempts: Seq<(ReferenceId, Option<LookupFailureView>)>,
) -> StoredReferenceView
    decreases attempts.len(),
{
    if attempts.len() == 0 {
        reference
    } else {
        with_attempt(
            after_attempts(reference, attempts.drop_last()),
            attempts.last().0,
            attempts.last().1,
        )
    }
}

/// The number of allocations in files.
pub open spec fn allocation_total(files: Seq<FileTypes>) -> nat
    decreases files.len(),
{
    if files.len() == 0 {
        0
    } else {
        allocation_total(files.drop_last()) + files.last().facts.allocation_sites@.len()
    }
}

/// The allocations in files.
pub open spec fn allocations_in(files: Seq<FileTypes>) -> Seq<(FileId, CppAllocationSite)>
    decreases files.len(),
{
    if files.len() == 0 {
        Seq::empty()
    } else {
        let file = files.last();
        allocations_in(files.drop_last()) + file.facts.allocation_sites@.map_values(
            |site: CppAllocationSite| (file.file_id, site),
        )
    }
}

/// The closures in files.
pub open spec fn closures_in(files: Seq<FileTypes>) -> Seq<(FileId, CppLambdaCapture)>
    decreases files.len(),
{
    if files.len() == 0 {
        Seq::empty()
    } else {
        let file = files.last();
        closures_in(files.drop_last()) + file.facts.lambda_captures@.map_values(
            |capture: CppLambdaCapture| (file.file_id, capture),
        )
    }
}

/// Whether a limit holds in a block alone.
pub open spec fn is_local(limit: CppLookupLimit) -> bool {
    limit.block_range is Some
}

/// The limits in a file that hold in a block alone.
pub open spec fn local_limits(facts: CppFileTypes) -> Seq<CppLookupLimit> {
    facts.lookup_limits@.filter(|l: CppLookupLimit| is_local(l))
}

/// Limits, by value.
pub open spec fn plain_limits(limits: Seq<&CppLookupLimit>) -> Seq<CppLookupLimit> {
    limits.map_values(|l: &CppLookupLimit| *l)
}

/// The limits of a file that hold in a block alone, in all its entries.
pub open spec fn local_limits_of(files: Seq<FileTypes>, id: FileId) -> Seq<CppLookupLimit>
    decreases files.len(),
{
    if files.len() == 0 {
        Seq::empty()
    } else {
        let before = local_limits_of(files.drop_last(), id);
        if files.last().file_id == id {
            before + local_limits(files.last().facts)
        } else {
            before
        }
    }
}

/// The scopes in files that cannot be trusted.
pub open spec fn unverified_in(files: Seq<FileTypes>) -> Set<SymbolId>
    decreases files.len(),
{
    if files.len() == 0 {
        Set::empty()
    } else {
        unverified_in(files.drop_last()).union(
            files.last().facts.unverified_callable_scopes@.to_set(),
        )
    }
}

/// The facts of all files, the last of each.
pub open spec fn types_of_files(files: Seq<FileTypes>) -> Map<FileId, CppFileTypes>
    decreases files.len(),
{
    if files.len() == 0 {
        Map::empty()
    } else {
        types_of_files(files.drop_last()).insert(files.last().file_id, files.last().facts)
    }
}

/// The facts of a file.
pub open spec fn types_for(files: Seq<FileTypes>, id: FileId) -> Option<CppFileTypes>
    decreases files.len(),
{
    if files.len() == 0 {
        None
    } else if files[0].file_id == id {
        Some(files[0].facts)
    } else {
        types_for(files.drop_first(), id)
    }
}


/// Whether two lists of declarations are the same.
pub fn same_declarations(a: &[(FileId, TextRange)], b: &[(FileId, TextRange)]) -> (r: bool)
    ensures
        r == (a@ == b@),
{
    if a.len() != b.len() {
        return false;
    }
    let mut i: usize = 0;
    while i < a.len()
        invariant
            i <= a@.len(),
            a@.len() == b@.len(),
            forall|k: int| 0 <= k < i ==> a@[k] == b@[k],
        decreases a@.len() - i,
    {
        if a[i].0 != b[i].0 || a[i].1 != b[i].1 {
            assert(a@[i as int] != b@[i as int]);
            return false;
        }
        i += 1;
    }
    assert(a@ =~= b@);
    true
}

impl CppTypeLookupFailure {
    /// Whether two failures have one context.
    pub fn same_context(&self, other: &CppTypeLookupFailure) -> (r: bool)
        ensures
            r == (self@.context == other@.context),
    {
        self.kind == other.kind && self.file_id == other.file_id && self.range == other.range
            && same_bytes(self.name.as_bytes(), other.name.as_bytes()) && same_bytes(
            self.scope.as_bytes(),
            other.scope.as_bytes(),
        )
    }

    /// A failure with the same contents.
    pub fn duplicate(&self) -> (r: CppTypeLookupFailure)
        ensures
            r@ == self@,
    {
        let mut related_declarations: Vec<(FileId, TextRange)> = Vec::new();
        let mut i: usize = 0;
        while i < self.related_declarations.len()
            invariant
                i <= self.related_declarations@.len(),
                related_declarations@ == self.related_declarations@.take(i as int),
            decreases self.related_declarations@.len() - i,
        {
            related_declarations.push(self.related_declarations[i]);
            assert(self.related_declarations@.take(i + 1) =~= self.related_declarations@.take(
                i as int,
            ).push(self.related_declarations@[i as int]));
            i += 1;
        }
        assert(self.related_declarations@.take(i as int) =~= self.related_declarations@);
        CppTypeLookupFailure {
            kind: self.kind,
            name: self.name.clone(),
            scope: self.scope.clone(),
            file_id: self.file_id,
            range: self.range,
            related_declarations,
        }
    }
}

impl StoredReference {
    /// The failed lookup, unless the reference was resolved.
    pub fn open_failure(&self) -> (r: Option<&CppTypeLookupFailure>)
        ensures
            match r {
                None => open_failure(self@) is None,
                Some(failure) => open_failure(self@) == Some(failure@),
            },
    {
        match &self.resolved {
            Some(_) => None,
            None => match &self.failure {
                None => None,
                Some(failure) => Some(failure),
            },
        }
    }
}

/// A failure that may be absent, with the same contents.
fn duplicate_failure(failure: &Option<CppTypeLookupFailure>) -> (r: Option<CppTypeLookupFailure>)
    ensures
        optional_view(r) == optional_view(*failure),
{
    match failure {
        None => None,
        Some(failure) => Some(failure.duplicate()),
    }
}

proof fn lemma_take_views(references: Seq<StoredReference>, i: int)
    requires
        0 <= i < references.len(),
    ensures
        views(references).take(i + 1).drop_last() == views(references).take(i),
        views(references).take(i + 1).last() == references[i]@,
{
    assert(views(references).take(i + 1).drop_last() =~= views(references).take(i));
}

/// The number of references that failed with the context of a failure.
fn count_matching(references: &[StoredReference], failure: &CppTypeLookupFailure) -> (r: usize)
    ensures
        r == matching_count(views(references@), failure@.context),
{
    let mut count: usize = 0;
    let mut i: usize = 0;
    let ghost all = views(references@);
    while i < references.len()
        invariant
            i <= references@.len(),
            all == views(references@),
            count <= i,
            count == matching_count(all.take(i as int), failure@.context),
        decreases references@.len() - i,
    {
        proof {
            lemma_take_views(references@, i as int);
        }
        match references[i].open_failure() {
            None => {},
            Some(other) => {
                if other.same_context(failure) {
                    count += 1;
                }
            },
        }
        i += 1;
    }
    assert(all.take(i as int) =~= all);
    count
}

/// Whether all references that failed with the context of a failure name the same
/// declarations.
fn all_declare_the_same(references: &[StoredReference], failure: &CppTypeLookupFailure) -> (r: bool)
    ensures
        r == all_same(views(references@), failure@),
{
    let mut i: usize = 0;
    let ghost all = views(references@);
    while i < references.len()
        invariant
            i <= references@.len(),
            all == views(references@),
            forall|k: int|
                0 <= k < i && has_context(#[trigger] all[k], failure@.context) ==> open_failure(
                    all[k],
                )->0.related_declarations == failure@.related_declarations,
        decreases references@.len() - i,
    {
        assert(all[i as int] == references@[i as int]@);
        match references[i].open_failure() {
            None => {},
            Some(other) => {
                if other.same_context(failure) && !same_declarations(
                    other.related_declarations.as_slice(),
                    failure.related_declarations.as_slice(),
                ) {
                    assert(has_context(all[i as int], failure@.context));
                    return false;
                }
            },
        }
        i += 1;
    }
    true
}

/// Whether a failure has the context of a selected one.
fn is_selected_context(
    selected: &IdMap<ReferenceId, &CppTypeLookupFailure>,
    failure: &CppTypeLookupFailure,
) -> (r: bool)
    ensures
        r == exists|id: ReferenceId|
            #[trigger] failure_views(selected@).dom().contains(id) && failure_views(
                selected@,
            )[id].context == failure@.context,
{
    let keys = selected.keys();
    let ghost chosen = failure_views(selected@);
    let mut i: usize = 0;
    while i < keys.len()
        invariant
            i <= keys@.len(),
            keys@.to_set() == selected@.dom(),
            chosen == failure_views(selected@),
            forall|k: int| 0 <= k < i ==> chosen[#[trigger] keys@[k]].context != failure@.context,
        decreases keys@.len() - i,
    {
        assert(keys@.to_set().contains(keys@[i as int]));
        match selected.get(&keys[i]) {
            None => {},
            Some(other) => {
                if other.same_context(failure) {
                    assert(chosen.dom().contains(keys@[i as int]));
                    return true;
                }
            },
        }
        i += 1;
    }
    assert forall|id: ReferenceId| #[trigger]
        chosen.dom().contains(id) implies chosen[id].context != failure@.context by {
        assert(keys@.to_set().contains(id));
        let k = choose|k: int| 0 <= k < keys@.len() && keys@[k] == id;
        assert(chosen[keys@[k]].context != failure@.context);
    }
    false
}

/// The failed lookup that is recorded for a reference.
fn find_failure<'a>(references: &'a [StoredReference], id: &ReferenceId) -> (r: Option<
    &'a CppTypeLookupFailure,
>)
    ensures
        match r {
            None => failure_of(views(references@), *id) is None,
            Some(failure) => failure_of(views(references@), *id) == Some(failure@),
        },
{
    let mut found: Option<&'a CppTypeLookupFailure> = None;
    let mut i: usize = 0;
    let ghost all = views(references@);
    while i < references.len()
        invariant
            i <= references@.len(),
            all == views(references@),
            match found {
                None => failure_of(all.take(i as int), *id) is None,
                Some(failure) => failure_of(all.take(i as int), *id) == Some(failure@),
            },
        decreases references@.len() - i,
    {
        proof {
            lemma_take_views(references@, i as int);
        }
        match references[i].open_failure() {
            None => {},
            Some(failure) => {
                if references[i].id.same(id) {
                    found = Some(failure);
                }
            },
        }
        i += 1;
    }
    assert(all.take(i as int) =~= all);
    found
}

/// Failed lookups with one more.
proof fn lemma_insert_failure(
    map: Map<ReferenceId, &CppTypeLookupFailure>,
    id: ReferenceId,
    failure: &CppTypeLookupFailure,
)
    ensures
        failure_views(map.insert(id, failure)) == failure_views(map).insert(id, failure@),
{
    assert(failure_views(map.insert(id, failure)) =~= failure_views(map).insert(id, failure@));
}

impl Store {
    /// The failed lookups of all references that were not resolved.
    pub fn cpp_type_lookup_failures<F: Fn() -> bool>(&self, canceled: &F) -> (r: Result<
        IdMap<ReferenceId, &CppTypeLookupFailure>,
        CppReadError,
    >)
        requires
            call_requires(*canceled, ()),
        ensures
            match r {
                Ok(failures) => call_ensures(*canceled, (), false) && failure_views(failures@)
                    == failures_of(views(self.references@)),
                Err(error) => error == CppReadError::Canceled && call_ensures(*canceled, (), true),
            },
    {
        if canceled() {
            return Err(CppReadError::Canceled);
        }
        let mut failures: IdMap<ReferenceId, &CppTypeLookupFailure> = IdMap::new();
        let mut i: usize = 0;
        let ghost all = views(self.references@);
        assert(failure_views(failures@) =~= failures_of(all.take(0)));
        while i < self.references.len()
            invariant
                call_requires(*canceled, ()),
                i <= self.references@.len(),
                all == views(self.references@),
                failure_views(failures@) == failures_of(all.take(i as int)),
            decreases self.references@.len() - i,
        {
            proof {
                lemma_take_views(self.references@, i as int);
            }
            match self.references[i].open_failure() {
                None => {},
                Some(failure) => {
                    if canceled() {
                        return Err(CppReadError::Canceled);
                    }
                    proof {
                        lemma_insert_failure(failures@, self.references@[i as int].id, failure);
                    }
                    failures.insert(self.references[i].id, failure);
                },
            }
            i += 1;
        }
        assert(all.take(i as int) =~= all);
        if canceled() {
            return Err(CppReadError::Canceled);
        }
        Ok(failures)
    }

    /// The failed lookups of distinct references; `None` if canceled.
    fn select_failures<F: Fn() -> bool>(&self, ids: &[ReferenceId], canceled: &F) -> (r: Option<
        IdMap<ReferenceId, &CppTypeLookupFailure>,
    >)
        requires
            call_requires(*canceled, ()),
            ids@.no_duplicates(),
        ensures
            match r {
                Some(failures) => failure_views(failures@) == selected_failures(
                    views(self.references@),
                    ids@.to_set(),
                ),
                None => call_ensures(*canceled, (), true),
            },
    {
        let mut failures: IdMap<ReferenceId, &CppTypeLookupFailure> = IdMap::new();
        let mut i: usize = 0;
        let ghost all = views(self.references@);
        assert(failure_views(failures@) =~= selected_failures(all, ids@.take(0).to_set()));
        while i < ids.len()
            invariant
                call_requires(*canceled, ()),
                i <= ids@.len(),
                all == views(self.references@),
                failure_views(failures@) == selected_failures(all, ids@.take(i as int).to_set()),
            decreases ids@.len() - i,
        {
            if canceled() {
                return None;
            }
            let ghost before = ids@.take(i as int).to_set();
            let ghost after = ids@.take(i + 1).to_set();
            proof {
                assert(ids@.take(i + 1) =~= ids@.take(i as int).push(ids@[i as int]));
                assert(after =~= before.insert(ids@[i as int])) by {
                    let shorter = ids@.take(i as int);
                    let longer = ids@.take(i + 1);
                    assert forall|k: ReferenceId| #[trigger]
                        longer.contains(k) implies shorter.contains(k) || k == ids@[i as int] by {
                        let at = choose|at: int| 0 <= at < longer.len() && longer[at] == k;
                        if at < i {
                            assert(shorter[at] == k);
                        }
                    }
                    assert forall|k: ReferenceId| #[trigger] shorter.contains(k) implies longer.contains(
                        k,
                    ) by {
                        let at = choose|at: int| 0 <= at < shorter.len() && shorter[at] == k;
                        assert(longer[at] == k);
                    }
                    assert(longer[i as int] == ids@[i as int]);
                }
            }
            match find_failure(self.references.as_slice(), &ids[i]) {
                None => {
                    assert(selected_failures(all, after) =~= selected_failures(all, before));
                },
                Some(failure) => {
                    proof {
                        lemma_insert_failure(failures@, ids@[i as int], failure);
                        assert(selected_failures(all, after) =~= selected_failures(
                            all,
                            before,
                        ).insert(ids@[i as int], failure@));
                    }
                    failures.insert(ids[i], failure);
                },
            }
            i += 1;
        }
        assert(ids@.take(i as int) =~= ids@);
        Some(failures)
    }

    /// The numbers of references that failed, and of those with the context of a selected
    /// failure; `None` if canceled.
    fn scan_contexts<F: Fn() -> bool>(
        &self,
        selected: &IdMap<ReferenceId, &CppTypeLookupFailure>,
        canceled: &F,
    ) -> (r: Option<(usize, usize)>)
        requires
            call_requires(*canceled, ()),
        ensures
            match r {
                Some(counts) => counts.0 == open_count(views(self.references@)) && counts.1
                    == examined_count(failure_views(selected@), views(self.references@)),
                None => call_ensures(*canceled, (), true),
            },
    {
        let mut open: usize = 0;
        let mut examined: usize = 0;
        let mut i: usize = 0;
        let ghost all = views(self.references@);
        let ghost chosen = failure_views(selected@);
        while i < self.references.len()
            invariant
                call_requires(*canceled, ()),
                i <= self.references@.len(),
                all == views(self.references@),
                chosen == failure_views(selected@),
                open <= i,
                examined <= i,
                open == open_count(all.take(i as int)),
                examined == examined_count(chosen, all.take(i as int)),
            decreases self.references@.len() - i,
        {
            proof {
                lemma_take_views(self.references@, i as int);
            }
            match self.references[i].open_failure() {
                None => {},
                Some(failure) => {
                    if canceled() {
                        return None;
                    }
                    open += 1;
                    if is_selected_context(selected, failure) {
                        examined += 1;
                    }
                },
            }
            i += 1;
        }
        assert(all.take(i as int) =~= all);
        Some((open, examined))
    }

    /// Which rows a selection looks at for their lists of declarations: those that failed
    /// with the context of a selected failure. `None` if canceled.
    pub fn lists_to_decode<F: Fn() -> bool>(
        &self,
        references: &[ReferenceId],
        canceled: &F,
    ) -> (r: Option<Vec<bool>>)
        requires
            call_requires(*canceled, ()),
        ensures
            match r {
                Some(needed) => call_ensures(*canceled, (), false) && needed@ == views(
                    self.references@,
                ).map_values(
                    |row: StoredReferenceView| is_examined(
                        selected_failures(views(self.references@), references@.to_set()),
                        row,
                    ),
                ),
                None => call_ensures(*canceled, (), true),
            },
    {
        if canceled() {
            return None;
        }
        let ids = IdSet::of(references);
        let selected = match self.select_failures(ids.as_slice(), canceled) {
            None => {
                return None;
            },
            Some(selected) => selected,
        };
        let ghost all = views(self.references@);
        let ghost chosen = failure_views(selected@);
        let mut needed: Vec<bool> = Vec::new();
        let mut i: usize = 0;
        while i < self.references.len()
            invariant
                i <= self.references@.len(),
                all == views(self.references@),
                chosen == failure_views(selected@),
                needed@.len() == i,
                forall|k: int| 0 <= k < i ==> #[trigger] needed@[k] == is_examined(chosen, all[k]),
            decreases self.references@.len() - i,
        {
            let examined = match self.references[i].open_failure() {
                None => false,
                Some(failure) => is_selected_context(&selected, failure),
            };
            needed.push(examined);
            i += 1;
        }
        assert(needed@ =~= all.map_values(|row: StoredReferenceView| is_examined(chosen, row)));
        Some(needed)
    }

    /// What each selected failure has in common with all.
    fn share_evidence(&self, selected: &IdMap<ReferenceId, &CppTypeLookupFailure>) -> (r: IdMap<
        ReferenceId,
        CppTypeLookupSharing,
    >)
        ensures
            r@.dom() == selected@.dom(),
            forall|id: ReferenceId| #[trigger]
                r@.dom().contains(id) ==> r@[id] == sharing_of(
                    views(self.references@),
                    failure_views(selected@)[id],
                ),
    {
        let mut sharing: IdMap<ReferenceId, CppTypeLookupSharing> = IdMap::new();
        let keys = selected.keys();
        let mut i: usize = 0;
        let ghost all = views(self.references@);
        let ghost chosen = failure_views(selected@);
        while i < keys.len()
            invariant
                i <= keys@.len(),
                keys@.to_set() == selected@.dom(),
                all == views(self.references@),
                chosen == failure_views(selected@),
                forall|id: ReferenceId| #[trigger]
                    sharing@.dom().contains(id) <==> exists|k: int| 0 <= k < i && keys@[k] == id,
                forall|id: ReferenceId| #[trigger]
                    sharing@.dom().contains(id) ==> sharing@[id] == sharing_of(all, chosen[id]),
            decreases keys@.len() - i,
        {
            assert(keys@.to_set().contains(keys@[i as int]));
            let ghost before = sharing@;
            match selected.get(&keys[i]) {
                None => {
                    assert(false);
                },
                Some(failure) => {
                    let evidence = CppTypeLookupSharing {
                        matching_failures: count_matching(self.references.as_slice(), failure),
                        same_declarations: all_declare_the_same(
                            self.references.as_slice(),
                            failure,
                        ),
                    };
                    assert(chosen[keys@[i as int]] == failure@);
                    sharing.insert(keys[i], evidence);
                },
            }
            assert forall|id: ReferenceId| #[trigger]
                sharing@.dom().contains(id) <==> exists|k: int| 0 <= k < i + 1 && keys@[k]
                    == id by {
                if sharing@.dom().contains(id) {
                    if id == keys@[i as int] {
                    } else {
                        assert(before.dom().contains(id));
                    }
                }
                if exists|k: int| 0 <= k < i + 1 && keys@[k] == id {
                    let k = choose|k: int| 0 <= k < i + 1 && keys@[k] == id;
                    if k < i {
                        assert(before.dom().contains(id));
                    }
                }
            }
            i += 1;
        }
        assert(sharing@.dom() =~= selected@.dom()) by {
            assert forall|id: ReferenceId| #[trigger]
                sharing@.dom().contains(id) <==> selected@.dom().contains(id) by {
                if selected@.dom().contains(id) {
                    assert(keys@.to_set().contains(id));
                    let k = choose|k: int| 0 <= k < keys@.len() && keys@[k] == id;
                    assert(keys@[k] == id);
                }
                if sharing@.dom().contains(id) {
                    let k = choose|k: int| 0 <= k < i && keys@[k] == id;
                    assert(keys@.to_set().contains(keys@[k]));
                }
            }
        }
        sharing
    }

    /// The failed lookups of the requested references, each with what it has in common
    /// with all failed lookups. Unknown, resolved and failure-free references are left
    /// out. A selection without failures examines no other record. Cancellation is
    /// checked at entry, between records and before the result.
    ///
    /// The number of lists that were decoded for it is the caller's to say, and is
    /// handed on. Only the lists of the rows that `lists_to_decode` names are looked at.
    pub fn cpp_type_lookup_failures_for_references<F: Fn() -> bool>(
        &self,
        references: &[ReferenceId],
        lists_decoded: usize,
        canceled: &F,
    ) -> (r: Result<CppTypeLookupSelection<'_>, CppReadError>)
        requires
            call_requires(*canceled, ()),
        ensures
            match r {
                Ok(selection) => call_ensures(*canceled, (), false) && is_selection(
                    views(self.references@),
                    references@.to_set(),
                    lists_decoded,
                    selection,
                ),
                Err(error) => error == CppReadError::Canceled && call_ensures(*canceled, (), true),
            },
    {
        if canceled() {
            return Err(CppReadError::Canceled);
        }
        let ids = IdSet::of(references);
        let failures = match self.select_failures(ids.as_slice(), canceled) {
            None => {
                return Err(CppReadError::Canceled);
            },
            Some(failures) => failures,
        };
        assert(failure_views(failures@).dom() =~= failures@.dom());
        let mut work = CppTypeLookupReadWork::default();
        work.unique_references_requested = ids.len();
        work.failures_decoded = failures.len();
        work.declaration_lists_decoded = lists_decoded;
        if failures.len() > 0 {
            match self.scan_contexts(&failures, canceled) {
                None => {
                    return Err(CppReadError::Canceled);
                },
                Some(counts) => {
                    work.global_contexts_examined = counts.0;
                    work.matching_inventories_examined = counts.1;
                },
            }
        }
        let sharing = self.share_evidence(&failures);
        if canceled() {
            return Err(CppReadError::Canceled);
        }
        Ok(CppTypeLookupSelection { failures, sharing, work })
    }

    /// Record the outcome of attempts to resolve references: a cause in place of the
    /// earlier one, or none where the attempt could not establish it. Resolved
    /// references keep what they have.
    pub fn batch_update_cpp_type_lookup_failures(
        &mut self,
        failures: &[(ReferenceId, Option<CppTypeLookupFailure>)],
    )
        ensures
            views(final(self).references@) == views(old(self).references@).map_values(
                |r: StoredReferenceView| after_attempts(r, attempt_views(failures@)),
            ),
            *final(self) == (Store { references: final(self).references, ..*old(self) }),
            distinct_rows(*old(self)) ==> distinct_rows(*final(self)),
    {
        let ghost attempts = attempt_views(failures@);
        let ghost before = views(self.references@);
        let ghost original = *self;
        let mut a: usize = 0;
        assert(before =~= before.map_values(
            |r: StoredReferenceView| after_attempts(r, attempts.take(0)),
        ));
        while a < failures.len()
            invariant
                a <= failures@.len(),
                attempts == attempt_views(failures@),
                before == views(original.references@),
                *self == (Store { references: self.references, ..original }),
                views(self.references@) == before.map_values(
                    |r: StoredReferenceView| after_attempts(r, attempts.take(a as int)),
                ),
            decreases failures@.len() - a,
        {
            let id = failures[a].0;
            let ghost start = views(self.references@);
            let mut i: usize = 0;
            while i < self.references.len()
                invariant
                    a < failures@.len(),
                    i <= self.references@.len(),
                    self.references@.len() == start.len(),
                    id == failures@[a as int].0,
                    *self == (Store { references: self.references, ..original }),
                    forall|k: int|
                        0 <= k < i ==> (#[trigger] self.references@[k])@ == with_attempt(
                            start[k],
                            id,
                            optional_view(failures@[a as int].1),
                        ),
                    forall|k: int|
                        i <= k < start.len() ==> (#[trigger] self.references@[k])@ == start[k],
                decreases self.references@.len() - i,
            {
                let resolved = self.references[i].resolved;
                if self.references[i].id.same(&id) && resolved.is_none() {
                    let failure = duplicate_failure(&failures[a].1);
                    self.references.set(i, StoredReference { id, resolved, failure });
                }
                i += 1;
            }
            proof {
                let earlier = attempts.take(a as int);
                let later = attempts.take(a + 1);
                assert(later.drop_last() =~= earlier);
                assert(later.last() == (id, optional_view(failures@[a as int].1)));
                assert(views(self.references@) =~= before.map_values(
                    |r: StoredReferenceView| after_attempts(r, later),
                ));
            }
            a += 1;
        }
        assert(attempts.take(a as int) =~= attempts);
        proof {
            let after = views(self.references@);
            assert forall|i: int| 0 <= i < after.len() implies (#[trigger] after[i]).id
                == before[i].id by {
                attempts_leave_resolved_references(before[i], attempts);
            }
        }
    }

    /// The number of allocations.
    pub fn cpp_allocation_site_count(&self) -> (r: Result<usize, CppReadError>)
        ensures
            match r {
                Ok(count) => count == allocation_total(self.cpp_types@),
                Err(error) => error == CppReadError::TooMany && allocation_total(self.cpp_types@)
                    > usize::MAX,
            },
    {
        let mut count: usize = 0;
        let mut i: usize = 0;
        while i < self.cpp_types.len()
            invariant
                i <= self.cpp_types@.len(),
                count == allocation_total(self.cpp_types@.take(i as int)),
            decreases self.cpp_types@.len() - i,
        {
            proof {
                lemma_take_files(self.cpp_types@, i as int);
            }
            let sites = self.cpp_types[i].facts.allocation_sites.len();
            match count.checked_add(sites) {
                None => {
                    proof {
                        lemma_total_grows(self.cpp_types@, i + 1);
                    }
                    return Err(CppReadError::TooMany);
                },
                Some(total) => {
                    count = total;
                },
            }
            i += 1;
        }
        assert(self.cpp_types@.take(i as int) =~= self.cpp_types@);
        Ok(count)
    }

    /// The allocations, each with its file. Cancellation is checked at entry and before
    /// each allocation.
    pub fn cpp_allocation_sites<F: Fn() -> bool>(&self, canceled: &F) -> (r: Result<
        Vec<(FileId, CppAllocationSite)>,
        CppReadError,
    >)
        requires
            call_requires(*canceled, ()),
        ensures
            match r {
                Ok(sites) => call_ensures(*canceled, (), false) && sites@ == allocations_in(
                    self.cpp_types@,
                ),
                Err(error) => error == CppReadError::Canceled && call_ensures(*canceled, (), true),
            },
    {
        if canceled() {
            return Err(CppReadError::Canceled);
        }
        let mut sites: Vec<(FileId, CppAllocationSite)> = Vec::new();
        let mut i: usize = 0;
        while i < self.cpp_types.len()
            invariant
                call_requires(*canceled, ()),
                i <= self.cpp_types@.len(),
                sites@ == allocations_in(self.cpp_types@.take(i as int)),
            decreases self.cpp_types@.len() - i,
        {
            proof {
                lemma_take_files(self.cpp_types@, i as int);
            }
            let file = &self.cpp_types[i];
            let ghost before = sites@;
            let ghost pair = |site: CppAllocationSite| (file.file_id, site);
            let mut k: usize = 0;
            assert(before =~= before + file.facts.allocation_sites@.take(0).map_values(pair));
            while k < file.facts.allocation_sites.len()
                invariant
                    call_requires(*canceled, ()),
                    k <= file.facts.allocation_sites@.len(),
                    pair == (|site: CppAllocationSite| (file.file_id, site)),
                    sites@ == before + file.facts.allocation_sites@.take(k as int).map_values(pair),
                decreases file.facts.allocation_sites@.len() - k,
            {
                if canceled() {
                    return Err(CppReadError::Canceled);
                }
                sites.push((file.file_id, file.facts.allocation_sites[k]));
                assert(file.facts.allocation_sites@.take(k + 1).map_values(pair)
                    =~= file.facts.allocation_sites@.take(k as int).map_values(pair).push(
                    (file.file_id, file.facts.allocation_sites@[k as int]),
                ));
                k += 1;
            }
            assert(file.facts.allocation_sites@.take(k as int)
                =~= file.facts.allocation_sites@);
            i += 1;
        }
        assert(self.cpp_types@.take(i as int) =~= self.cpp_types@);
        Ok(sites)
    }

    /// The closures, each with its file. That a closure is there does not say that it is
    /// called.
    pub fn cpp_lambda_captures(&self) -> (r: Vec<(FileId, &CppLambdaCapture)>)
        ensures
            r@.map_values(|c: (FileId, &CppLambdaCapture)| (c.0, *c.1)) == closures_in(
                self.cpp_types@,
            ),
    {
        let ghost plain = |c: (FileId, &CppLambdaCapture)| (c.0, *c.1);
        let mut closures: Vec<(FileId, &CppLambdaCapture)> = Vec::new();
        let mut i: usize = 0;
        assert(closures@.map_values(plain) =~= Seq::empty());
        while i < self.cpp_types.len()
            invariant
                i <= self.cpp_types@.len(),
                plain == (|c: (FileId, &CppLambdaCapture)| (c.0, *c.1)),
                closures@.map_values(plain) == closures_in(self.cpp_types@.take(i as int)),
            decreases self.cpp_types@.len() - i,
        {
            proof {
                lemma_take_files(self.cpp_types@, i as int);
            }
            let file = &self.cpp_types[i];
            let ghost before = closures@.map_values(plain);
            let ghost pair = |capture: CppLambdaCapture| (file.file_id, capture);
            let mut k: usize = 0;
            assert(before =~= before + file.facts.lambda_captures@.take(0).map_values(pair));
            while k < file.facts.lambda_captures.len()
                invariant
                    k <= file.facts.lambda_captures@.len(),
                    plain == (|c: (FileId, &CppLambdaCapture)| (c.0, *c.1)),
                    pair == (|capture: CppLambdaCapture| (file.file_id, capture)),
                    closures@.map_values(plain) == before + file.facts.lambda_captures@.take(
                        k as int,
                    ).map_values(pair),
                decreases file.facts.lambda_captures@.len() - k,
            {
                let ghost earlier = closures@;
                closures.push((file.file_id, &file.facts.lambda_captures[k]));
                proof {
                    let last = file.facts.lambda_captures@[k as int];
                    assert(closures@.map_values(plain) =~= earlier.map_values(plain).push(
                        (file.file_id, last),
                    ));
                    assert(file.facts.lambda_captures@.take(k + 1).map_values(pair)
                        =~= file.facts.lambda_captures@.take(k as int).map_values(pair).push(
                        (file.file_id, last),
                    ));
                }
                k += 1;
            }
            assert(file.facts.lambda_captures@.take(k as int) =~= file.facts.lambda_captures@);
            i += 1;
        }
        assert(self.cpp_types@.take(i as int) =~= self.cpp_types@);
        closures
    }

    /// The scopes whose calls cannot be trusted.
    pub fn cpp_unverified_callable_scopes(&self) -> (r: IdSet<SymbolId>)
        ensures
            r@ == unverified_in(self.cpp_types@),
    {
        let mut scopes: IdSet<SymbolId> = IdSet::new();
        let mut i: usize = 0;
        while i < self.cpp_types.len()
            invariant
                i <= self.cpp_types@.len(),
                scopes@ == unverified_in(self.cpp_types@.take(i as int)),
            decreases self.cpp_types@.len() - i,
        {
            proof {
                lemma_take_files(self.cpp_types@, i as int);
            }
            let found = &self.cpp_types[i].facts.unverified_callable_scopes;
            let ghost before = scopes@;
            let mut k: usize = 0;
            assert(before =~= before.union(found@.take(0).to_set()));
            while k < found.len()
                invariant
                    k <= found@.len(),
                    scopes@ == before.union(found@.take(k as int).to_set()),
                decreases found@.len() - k,
            {
                scopes.insert(found[k]);
                proof {
                    let shorter = found@.take(k as int);
                    let longer = found@.take(k + 1);
                    assert(longer =~= shorter.push(found@[k as int]));
                    assert forall|s: SymbolId| #[trigger] longer.contains(s) implies shorter.contains(s)
                        || s == found@[k as int] by {
                        let at = choose|at: int| 0 <= at < longer.len() && longer[at] == s;
                        if at < k {
                            assert(shorter[at] == s);
                        }
                    }
                    assert forall|s: SymbolId| #[trigger] shorter.contains(s) implies longer.contains(
                        s,
                    ) by {
                        let at = choose|at: int| 0 <= at < shorter.len() && shorter[at] == s;
                        assert(longer[at] == s);
                    }
                    assert(longer[k as int] == found@[k as int]);
                    assert(scopes@ =~= before.union(longer.to_set()));
                }
                k += 1;
            }
            assert(found@.take(k as int) =~= found@);
            i += 1;
        }
        assert(self.cpp_types@.take(i as int) =~= self.cpp_types@);
        scopes
    }

    /// The facts of a file.
    pub fn cpp_types_for_file(&self, file_id: &FileId) -> (r: Option<&CppFileTypes>)
        ensures
            match r {
                None => types_for(self.cpp_types@, *file_id) is None,
                Some(facts) => types_for(self.cpp_types@, *file_id) == Some(*facts),
            },
    {
        let mut i: usize = 0;
        assert(self.cpp_types@.skip(0) =~= self.cpp_types@);
        while i < self.cpp_types.len()
            invariant
                i <= self.cpp_types@.len(),
                types_for(self.cpp_types@, *file_id) == types_for(
                    self.cpp_types@.skip(i as int),
                    *file_id,
                ),
            decreases self.cpp_types@.len() - i,
        {
            assert(self.cpp_types@.skip(i as int)[0] == self.cpp_types@[i as int]);
            if self.cpp_types[i].file_id.same(file_id) {
                return Some(&self.cpp_types[i].facts);
            }
            assert(self.cpp_types@.skip(i as int).drop_first() =~= self.cpp_types@.skip(i + 1));
            i += 1;
        }
        None
    }

    /// The facts of all files.
    pub fn all_cpp_types(&self) -> (r: IdMap<FileId, &CppFileTypes>)
        ensures
            r@.map_values(|f: &CppFileTypes| *f) == types_of_files(self.cpp_types@),
    {
        let ghost plain = |f: &CppFileTypes| *f;
        let mut all: IdMap<FileId, &CppFileTypes> = IdMap::new();
        let mut i: usize = 0;
        assert(all@.map_values(plain) =~= Map::empty());
        while i < self.cpp_types.len()
            invariant
                i <= self.cpp_types@.len(),
                plain == (|f: &CppFileTypes| *f),
                all@.map_values(plain) == types_of_files(self.cpp_types@.take(i as int)),
            decreases self.cpp_types@.len() - i,
        {
            proof {
                lemma_take_files(self.cpp_types@, i as int);
            }
            let ghost before = all@;
            let file = &self.cpp_types[i];
            all.insert(file.file_id, &file.facts);
            assert(all@.map_values(plain) =~= before.map_values(plain).insert(
                file.file_id,
                file.facts,
            ));
            i += 1;
        }
        assert(self.cpp_types@.take(i as int) =~= self.cpp_types@);
        all
    }
}

/// The limits of a file that hold in a block alone, in all its entries.
fn gather_local_limits<'a>(files: &'a [FileTypes], id: &FileId) -> (r: Vec<&'a CppLookupLimit>)
    ensures
        plain_limits(r@) == local_limits_of(files@, *id),
{
    let mut limits: Vec<&'a CppLookupLimit> = Vec::new();
    let mut i: usize = 0;
    assert(plain_limits(limits@) =~= Seq::empty());
    while i < files.len()
        invariant
            i <= files@.len(),
            plain_limits(limits@) == local_limits_of(files@.take(i as int), *id),
        decreases files@.len() - i,
    {
        proof {
            lemma_take_files(files@, i as int);
        }
        let file = &files[i];
        if file.file_id.same(id) {
            let ghost before = plain_limits(limits@);
            let ghost keep = |l: CppLookupLimit| is_local(l);
            let ghost all = file.facts.lookup_limits@;
            let mut k: usize = 0;
            proof {
                reveal(Seq::filter);
                assert(before =~= before + all.take(0).filter(keep));
            }
            while k < file.facts.lookup_limits.len()
                invariant
                    k <= all.len(),
                    all == file.facts.lookup_limits@,
                    keep == (|l: CppLookupLimit| is_local(l)),
                    plain_limits(limits@) == before + all.take(k as int).filter(keep),
                decreases all.len() - k,
            {
                proof {
                    lemma_filter_step(all, keep, k as int);
                }
                if file.facts.lookup_limits[k].block_range.is_some() {
                    let ghost earlier = limits@;
                    limits.push(&file.facts.lookup_limits[k]);
                    assert(plain_limits(limits@) =~= plain_limits(earlier).push(all[k as int]));
                }
                k += 1;
            }
            assert(all.take(k as int) =~= all);
        }
        i += 1;
    }
    assert(files@.take(i as int) =~= files@);
    limits
}

impl Store {
    /// The limits that hold in a block alone, of each file that has any.
    pub fn cpp_local_lookup_limits(&self) -> (r: IdMap<FileId, Vec<&CppLookupLimit>>)
        ensures
            forall|id: FileId| #[trigger]
                r@.dom().contains(id) <==> local_limits_of(self.cpp_types@, id).len() > 0,
            forall|id: FileId| #[trigger]
                r@.dom().contains(id) ==> plain_limits(r@[id]@) == local_limits_of(
                    self.cpp_types@,
                    id,
                ),
    {
        let mut limits: IdMap<FileId, Vec<&CppLookupLimit>> = IdMap::new();
        let mut i: usize = 0;
        while i < self.cpp_types.len()
            invariant
                i <= self.cpp_types@.len(),
                forall|id: FileId| #[trigger]
                    limits@.dom().contains(id) ==> local_limits_of(self.cpp_types@, id).len() > 0
                        && plain_limits(limits@[id]@) == local_limits_of(self.cpp_types@, id),
                forall|k: int|
                    0 <= k < i && local_limits_of(
                        self.cpp_types@,
                        (#[trigger] self.cpp_types@[k]).file_id,
                    ).len() > 0 ==> limits@.dom().contains(self.cpp_types@[k].file_id),
            decreases self.cpp_types@.len() - i,
        {
            let id = self.cpp_types[i].file_id;
            if !limits.contains_key(&id) {
                let found = gather_local_limits(self.cpp_types.as_slice(), &id);
                assert(found@.len() == plain_limits(found@).len());
                if found.len() > 0 {
                    limits.insert(id, found);
                }
            }
            i += 1;
        }
        assert forall|id: FileId| #[trigger]
            limits@.dom().contains(id) <==> local_limits_of(self.cpp_types@, id).len() > 0 by {
            if local_limits_of(self.cpp_types@, id).len() > 0 {
                lemma_limits_have_a_file(self.cpp_types@, id);
            }
        }
        limits
    }
}

proof fn lemma_limits_have_a_file(files: Seq<FileTypes>, id: FileId)
    requires
        local_limits_of(files, id).len() > 0,
    ensures
        exists|k: int| 0 <= k < files.len() && (#[trigger] files[k]).file_id == id,
    decreases files.len(),
{
    if files.last().file_id == id {
        assert(files[files.len() - 1].file_id == id);
    } else {
        lemma_limits_have_a_file(files.drop_last(), id);
        let k = choose|k: int|
            0 <= k < files.drop_last().len() && (#[trigger] files.drop_last()[k]).file_id == id;
        assert(files[k].file_id == id);
    }
}

proof fn lemma_take_files(files: Seq<FileTypes>, i: int)
    requires
        0 <= i < files.len(),
    ensures
        files.take(i + 1).drop_last() == files.take(i),
        files.take(i + 1).last() == files[i],
{
    assert(files.take(i + 1).drop_last() =~= files.take(i));
}

proof fn lemma_total_grows(files: Seq<FileTypes>, count: int)
    requires
        0 <= count <= files.len(),
    ensures
        allocation_total(files.take(count)) <= allocation_total(files),
    decreases files.len() - count,
{
    if count == files.len() {
        assert(files.take(count) =~= files);
    } else {
        lemma_take_files(files, count);
        lemma_total_grows(files, count + 1);
    }
}

/// The most bytes of lists that a memo keeps.
pub const MEMO_BYTES: usize = 8388608;

/// The bytes that one declaration takes in a memo.
pub const DECLARATION_BYTES: usize = 56;

/// A decoded list of declarations with the text that it was decoded from.
#[derive(Debug)]
struct MemoEntry {
    text: Vec<u8>,
    list: Vec<(FileId, TextRange)>,
}

/// What a memo keeps, and how many lists were decoded.
#[verifier::ext_equal]
pub struct MemoView {
    pub lists: Seq<(Seq<u8>, Seq<(FileId, TextRange)>)>,
    pub decoded: nat,
}

/// The bytes that a list takes in a memo.
pub open spec fn memo_cost(entry: (Seq<u8>, Seq<(FileId, TextRange)>)) -> nat {
    entry.0.len() + entry.1.len() * DECLARATION_BYTES as nat
}

impl MemoView {
    /// The bytes that a memo keeps.
    pub open spec fn bytes(self) -> nat
        decreases self.lists.len(),
    {
        if self.lists.len() == 0 {
            0
        } else {
            (MemoView { lists: self.lists.drop_last(), decoded: self.decoded }).bytes()
                + memo_cost(self.lists.last())
        }
    }

    /// The position of the list of a text, from a position on.
    pub open spec fn position(self, text: Seq<u8>, from: int) -> int
        decreases self.lists.len() - from,
    {
        if from < 0 || from >= self.lists.len() {
            -1
        } else if self.lists[from].0 == text {
            from
        } else {
            self.position(text, from + 1)
        }
    }

    /// The list that is kept for a text.
    pub open spec fn kept(self, text: Seq<u8>) -> Option<Seq<(FileId, TextRange)>> {
        let at = self.position(text, 0);
        if at < 0 {
            None
        } else {
            Some(self.lists[at].1)
        }
    }

    /// The memo with one more decoded list. A list that is too large is not kept; one
    /// that does not fit beside the others takes their place.
    pub open spec fn recorded(self, entry: (Seq<u8>, Seq<(FileId, TextRange)>)) -> MemoView {
        let decoded = self.decoded + 1;
        if memo_cost(entry) > MEMO_BYTES {
            MemoView { lists: self.lists, decoded }
        } else if self.bytes() + memo_cost(entry) > MEMO_BYTES {
            MemoView { lists: seq![entry], decoded }
        } else {
            MemoView { lists: self.lists.push(entry), decoded }
        }
    }
}

/// Lists of declarations that were decoded, by their text, so that a text that comes
/// again is not decoded again.
#[derive(Debug)]
pub struct DeclarationMemo {
    entries: Vec<MemoEntry>,
    bytes: usize,
    decoded: u64,
}

impl View for DeclarationMemo {
    type V = MemoView;

    closed spec fn view(&self) -> MemoView {
        MemoView {
            lists: self.entries@.map_values(|e: MemoEntry| (e.text@, e.list@)),
            decoded: self.decoded as nat,
        }
    }
}

impl DeclarationMemo {
    #[verifier::type_invariant]
    spec fn bounded(&self) -> bool {
        self.bytes == self@.bytes() && self.bytes <= MEMO_BYTES
    }

    /// A memo without lists.
    pub fn new() -> (r: Self)
        ensures
            r@ == (MemoView { lists: Seq::empty(), decoded: 0 }),
    {
        let entries: Vec<MemoEntry> = Vec::new();
        assert(entries@.map_values(|e: MemoEntry| (e.text@, e.list@)) =~= Seq::empty());
        DeclarationMemo { entries, bytes: 0, decoded: 0 }
    }

    /// How many lists were decoded.
    pub fn lists_decoded(&self) -> (r: u64)
        ensures
            r == self@.decoded,
    {
        self.decoded
    }

    /// The list that is kept for a text.
    pub fn find(&self, text: &[u8]) -> (r: Option<&[(FileId, TextRange)]>)
        ensures
            match r {
                None => self@.kept(text@) is None,
                Some(list) => self@.kept(text@) == Some(list@),
            },
    {
        let mut i: usize = 0;
        while i < self.entries.len()
            invariant
                i <= self.entries@.len(),
                self@.position(text@, 0) == self@.position(text@, i as int),
            decreases self.entries@.len() - i,
        {
            assert(self@.lists[i as int].0 == self.entries@[i as int].text@);
            if same_bytes(self.entries[i].text.as_slice(), text) {
                return Some(self.entries[i].list.as_slice());
            }
            i += 1;
        }
        None
    }

    /// Record that a list was decoded from a text.
    pub fn record(&mut self, text: Vec<u8>, list: Vec<(FileId, TextRange)>)
        requires
            old(self)@.decoded < u64::MAX,
        ensures
            final(self)@ == old(self)@.recorded((text@, list@)),
    {
        proof {
            use_type_invariant(&*self);
        }
        let ghost before = self@;
        let ghost entry = (text@, list@);
        let mut memo = DeclarationMemo::new();
        std::mem::swap(&mut memo, self);
        proof {
            use_type_invariant(&memo);
        }
        let DeclarationMemo { entries, bytes, decoded } = memo;
        let mut entries = entries;
        let length = list.len();
        let size = text.len();
        if length > MEMO_BYTES / DECLARATION_BYTES || size > MEMO_BYTES || size + length
            * DECLARATION_BYTES > MEMO_BYTES {
            proof {
                lemma_bytes_of(
                    MemoView { lists: before.lists, decoded: (decoded + 1) as nat },
                    before,
                );
            }
            *self = DeclarationMemo { entries, bytes, decoded: decoded + 1 };
            return;
        }
        let cost: usize = size + length * DECLARATION_BYTES;
        if bytes + cost > MEMO_BYTES {
            let mut only: Vec<MemoEntry> = Vec::new();
            only.push(MemoEntry { text, list });
            proof {
                let view = MemoView {
                    lists: only@.map_values(|e: MemoEntry| (e.text@, e.list@)),
                    decoded: (decoded + 1) as nat,
                };
                assert(view.lists =~= seq![entry]);
                reveal_with_fuel(MemoView::bytes, 2);
            }
            *self = DeclarationMemo { entries: only, bytes: cost, decoded: decoded + 1 };
            return;
        }
        let ghost earlier = entries@;
        entries.push(MemoEntry { text, list });
        proof {
            let view = MemoView {
                lists: entries@.map_values(|e: MemoEntry| (e.text@, e.list@)),
                decoded: (decoded + 1) as nat,
            };
            assert(view.lists =~= before.lists.push(entry));
            assert(view.lists.drop_last() =~= before.lists);
            lemma_bytes_of(MemoView { lists: before.lists, decoded: view.decoded }, before);
        }
        *self = DeclarationMemo { entries, bytes: bytes + cost, decoded: decoded + 1 };
    }
}

/// The bytes depend on the lists alone.
proof fn lemma_bytes_of(a: MemoView, b: MemoView)
    requires
        a.lists == b.lists,
    ensures
        a.bytes() == b.bytes(),
    decreases a.lists.len(),
{
    if a.lists.len() > 0 {
        lemma_bytes_of(
            MemoView { lists: a.lists.drop_last(), decoded: a.decoded },
            MemoView { lists: b.lists.drop_last(), decoded: b.decoded },
        );
    }
}

/// A memo keeps at most `MEMO_BYTES`, whatever is recorded in it.
pub proof fn a_memo_is_bounded(memo: MemoView, entry: (Seq<u8>, Seq<(FileId, TextRange)>))
    requires
        memo.bytes() <= MEMO_BYTES,
    ensures
        memo.recorded(entry).bytes() <= MEMO_BYTES,
{
    let after = memo.recorded(entry);
    if memo_cost(entry) > MEMO_BYTES {
        lemma_bytes_of(after, memo);
    } else if memo.bytes() + memo_cost(entry) > MEMO_BYTES {
        reveal_with_fuel(MemoView::bytes, 2);
    } else {
        assert(after.lists.drop_last() =~= memo.lists);
        lemma_bytes_of(MemoView { lists: memo.lists, decoded: after.decoded }, memo);
    }
}

/// What a memo gives for a text is what was recorded for it: recording a list for a text
/// that is not kept leaves the lists of other texts alone, or drops them, and a list that
/// is kept for the text is the one that was recorded.
pub proof fn a_memo_gives_back_what_was_recorded(
    memo: MemoView,
    entry: (Seq<u8>, Seq<(FileId, TextRange)>),
    other: Seq<u8>,
)
    requires
        memo.kept(entry.0) is None,
    ensures
        memo_cost(entry) <= MEMO_BYTES ==> memo.recorded(entry).kept(entry.0) == Some(entry.1),
        memo_cost(entry) > MEMO_BYTES ==> memo.recorded(entry).kept(entry.0) is None,
        other != entry.0 ==> memo.recorded(entry).kept(other) is None || memo.recorded(entry).kept(
            other,
        ) == memo.kept(other),
{
    let after = memo.recorded(entry);
    if memo_cost(entry) > MEMO_BYTES {
        lemma_same_positions(memo, after, entry.0, 0);
        lemma_same_positions(memo, after, other, 0);
    } else if memo.bytes() + memo_cost(entry) > MEMO_BYTES {
        reveal_with_fuel(MemoView::position, 2);
    } else {
        lemma_pushed_position(memo, after, entry, entry.0, 0);
        lemma_pushed_position(memo, after, entry, other, 0);
        lemma_position_bounds(memo, other, 0);
    }
}

proof fn lemma_position_bounds(memo: MemoView, text: Seq<u8>, from: int)
    requires
        0 <= from,
    ensures
        memo.position(text, from) < memo.lists.len(),
    decreases memo.lists.len() - from,
{
    if from < memo.lists.len() && memo.lists[from].0 != text {
        lemma_position_bounds(memo, text, from + 1);
    }
}

proof fn lemma_same_positions(a: MemoView, b: MemoView, text: Seq<u8>, from: int)
    requires
        a.lists == b.lists,
        0 <= from,
    ensures
        a.position(text, from) == b.position(text, from),
    decreases a.lists.len() - from,
{
    if from < a.lists.len() && a.lists[from].0 != text {
        lemma_same_positions(a, b, text, from + 1);
    }
}

proof fn lemma_pushed_position(
    memo: MemoView,
    after: MemoView,
    entry: (Seq<u8>, Seq<(FileId, TextRange)>),
    text: Seq<u8>,
    from: int,
)
    requires
        after.lists == memo.lists.push(entry),
        0 <= from <= memo.lists.len(),
    ensures
        memo.position(text, from) >= 0 ==> after.position(text, from) == memo.position(text, from),
        memo.position(text, from) < 0 ==> after.position(text, from) == if text == entry.0 {
            memo.lists.len() as int
        } else {
            -1
        },
    decreases memo.lists.len() - from,
{
    if from < memo.lists.len() {
        if memo.lists[from].0 != text {
            lemma_pushed_position(memo, after, entry, text, from + 1);
        }
    } else {
        reveal_with_fuel(MemoView::position, 3);
    }
}

/// A reference keeps its identity and its target through all attempts, and a resolved one
/// keeps all that is recorded of it.
pub proof fn attempts_leave_resolved_references(
    reference: StoredReferenceView,
    attempts: Seq<(ReferenceId, Option<LookupFailureView>)>,
)
    ensures
        after_attempts(reference, attempts).id == reference.id,
        after_attempts(reference, attempts).resolved == reference.resolved,
        reference.resolved is Some ==> after_attempts(reference, attempts) == reference,
    decreases attempts.len(),
{
    if attempts.len() > 0 {
        attempts_leave_resolved_references(reference, attempts.drop_last());
    }
}

/// The last attempt on a reference that is not resolved decides what is read of it: its
/// cause, or nothing where it established none.
pub proof fn the_last_attempt_is_read_back(
    reference: StoredReferenceView,
    attempts: Seq<(ReferenceId, Option<LookupFailureView>)>,
    last: int,
)
    requires
        reference.resolved is None,
        0 <= last < attempts.len(),
        attempts[last].0 == reference.id,
        forall|i: int| last < i < attempts.len() ==> (#[trigger] attempts[i]).0 != reference.id,
    ensures
        open_failure(after_attempts(reference, attempts)) == attempts[last].1,
    decreases attempts.len(),
{
    attempts_leave_resolved_references(reference, attempts.drop_last());
    if last < attempts.len() - 1 {
        assert(attempts[attempts.len() - 1].0 != reference.id);
        let shorter = attempts.drop_last();
        assert forall|i: int| last < i < shorter.len() implies (#[trigger] shorter[i]).0
            != reference.id by {
            assert(attempts[i].0 != reference.id);
        }
        the_last_attempt_is_read_back(reference, shorter, last);
    }
}

/// A reference that no attempt names keeps all that is recorded of it.
pub proof fn other_references_are_kept(
    reference: StoredReferenceView,
    attempts: Seq<(ReferenceId, Option<LookupFailureView>)>,
)
    requires
        forall|i: int| 0 <= i < attempts.len() ==> (#[trigger] attempts[i]).0 != reference.id,
    ensures
        after_attempts(reference, attempts) == reference,
    decreases attempts.len(),
{
    if attempts.len() > 0 {
        let shorter = attempts.drop_last();
        assert forall|i: int| 0 <= i < shorter.len() implies (#[trigger] shorter[i]).0
            != reference.id by {
            assert(attempts[i].0 != reference.id);
        }
        assert(attempts[attempts.len() - 1].0 != reference.id);
        other_references_are_kept(reference, shorter);
    }
}

/// Where each reference has one row, a read of all failures gives the failure of each
/// row that is not resolved, and nothing else.
pub proof fn a_read_gives_each_open_failure(references: Seq<StoredReferenceView>, row: int)
    requires
        0 <= row < references.len(),
        have_distinct_ids(references),
    ensures
        failure_of(references, references[row].id) == open_failure(references[row]),
    decreases references.len(),
{
    let before = references.drop_last();
    if row < references.len() - 1 {
        a_read_gives_each_open_failure(before, row);
        assert(before[row] == references[row]);
        assert(references[row].id != references[references.len() - 1].id);
    } else {
        if failures_of(before).dom().contains(references[row].id) {
            lemma_failures_have_rows(before, references[row].id);
            let i = choose|i: int| 0 <= i < before.len() && (#[trigger] before[i]).id
                == references[row].id;
            assert(references[i].id != references[row].id);
        }
    }
}

proof fn lemma_failures_have_rows(references: Seq<StoredReferenceView>, id: ReferenceId)
    requires
        failures_of(references).dom().contains(id),
    ensures
        exists|i: int| 0 <= i < references.len() && (#[trigger] references[i]).id == id,
    decreases references.len(),
{
    if references.len() > 0 {
        if references.last().id == id {
            assert(references[references.len() - 1].id == id);
        } else {
            lemma_failures_have_rows(references.drop_last(), id);
            let i = choose|i: int|
                0 <= i < references.drop_last().len() && (#[trigger] references.drop_last()[i]).id
                    == id;
            assert(references[i].id == id);
        }
    }
}

/// A selection gives of each requested reference what a read of all failures gives.
pub proof fn a_selection_agrees_with_the_whole(
    references: Seq<StoredReferenceView>,
    requested: Set<ReferenceId>,
    id: ReferenceId,
)
    ensures
        selected_failures(references, requested).dom().contains(id) <==> requested.contains(id)
            && failure_of(references, id) is Some,
        selected_failures(references, requested).dom().contains(id) ==> Some(
            selected_failures(references, requested)[id],
        ) == failure_of(references, id),
{
}

/// Failures with one context have the same evidence.
pub proof fn evidence_is_that_of_the_context(
    references: Seq<StoredReferenceView>,
    one: int,
    other: int,
)
    requires
        0 <= one < references.len(),
        0 <= other < references.len(),
        open_failure(references[one]) is Some,
        open_failure(references[other]) is Some,
        open_failure(references[one])->0.context == open_failure(references[other])->0.context,
    ensures
        sharing_of(references, open_failure(references[one])->0) == sharing_of(
            references,
            open_failure(references[other])->0,
        ),
{
    let a = open_failure(references[one])->0;
    let b = open_failure(references[other])->0;
    assert(has_context(references[one], a.context) && has_context(references[other], a.context));
    if all_same(references, a) {
        assert(b.related_declarations == a.related_declarations);
    }
    if all_same(references, b) {
        assert(b.related_declarations == a.related_declarations);
    }
}

proof fn lemma_failures_count(references: Seq<StoredReferenceView>)
    requires
        have_distinct_ids(references),
    ensures
        failures_of(references).dom().finite(),
        failures_of(references).dom().len() == open_count(references),
    decreases references.len(),
{
    if references.len() > 0 {
        let before = references.drop_last();
        lemma_failures_count(before);
        if failures_of(before).dom().contains(references.last().id) {
            lemma_failures_have_rows(before, references.last().id);
            let i = choose|i: int| 0 <= i < before.len() && (#[trigger] before[i]).id
                == references.last().id;
            assert(references[i].id == references[references.len() - 1].id);
        }
    }
}

/// Where each reference has one row, a selection is the read of all failures, restricted
/// to the requested references. It decodes as many failures as it gives, counts each
/// reference once however often it is requested, and examines as many contexts as there
/// are failures at all, or none where it gives none.
pub proof fn a_selection_examines_all_failures(
    store: Store,
    references: Seq<ReferenceId>,
    lists_decoded: usize,
    selection: CppTypeLookupSelection,
)
    requires
        distinct_rows(store),
        is_selection(views(store.references@), references.to_set(), lists_decoded, selection),
    ensures
        ({
            let all = failures_of(views(store.references@));
            let given = failure_views(selection.failures@);
            &&& given == all.restrict(references.to_set())
            &&& selection.work.failures_decoded == given.dom().len()
            &&& selection.work.unique_references_requested == references.to_set().len()
            &&& selection.work.global_contexts_examined == if given.dom().len() == 0 {
                0
            } else {
                all.dom().len()
            }
            &&& selection.work.declaration_lists_decoded == lists_decoded
        }),
{
    lemma_failures_count(views(store.references@));
}

/// Whether rows differ in nothing but lists of declarations that a selection does not
/// look at.
pub open spec fn differ_in_other_lists(
    references: Seq<StoredReferenceView>,
    others: Seq<StoredReferenceView>,
    requested: Set<ReferenceId>,
) -> bool {
    &&& references.len() == others.len()
    &&& forall|i: int|
        0 <= i < references.len() ==> is_same_elsewhere(
            #[trigger] references[i],
            others[i],
            selected_failures(references, requested),
        )
}

/// Whether a row is another one, but for a list that is not looked at.
pub open spec fn is_same_elsewhere(
    reference: StoredReferenceView,
    other: StoredReferenceView,
    selected: Map<ReferenceId, LookupFailureView>,
) -> bool {
    reference == other || (reference.id == other.id && !is_examined(selected, reference)
        && match (open_failure(reference), open_failure(other)) {
        (Some(a), Some(b)) => a.context == b.context,
        _ => false,
    })
}

proof fn lemma_same_selection(
    references: Seq<StoredReferenceView>,
    others: Seq<StoredReferenceView>,
    requested: Set<ReferenceId>,
)
    requires
        have_distinct_ids(references),
        differ_in_other_lists(references, others, requested),
    ensures
        have_distinct_ids(others),
        selected_failures(references, requested) == selected_failures(others, requested),
{
    let chosen = selected_failures(references, requested);
    assert forall|i: int| 0 <= i < references.len() implies (#[trigger] references[i]).id
        == others[i].id by {
        assert(is_same_elsewhere(references[i], others[i], chosen));
    }
    assert forall|i: int, j: int| 0 <= i < j < others.len() implies (#[trigger] others[i]).id != (
    #[trigger] others[j]).id by {
        assert(references[i].id != references[j].id);
    }
    let same = selected_failures(others, requested);
    assert forall|id: ReferenceId| #[trigger] chosen.dom().contains(id) implies same.dom().contains(
        id,
    ) && same[id] == chosen[id] by {
        lemma_failures_have_rows(references, id);
        let i = choose|i: int| 0 <= i < references.len() && (#[trigger] references[i]).id == id;
        a_read_gives_each_open_failure(references, i);
        a_read_gives_each_open_failure(others, i);
        assert(chosen.dom().contains(id) && chosen[id].context == open_failure(
            references[i],
        )->0.context);
        assert(is_examined(chosen, references[i]));
        assert(is_same_elsewhere(references[i], others[i], chosen));
    }
    assert forall|id: ReferenceId| #[trigger] same.dom().contains(id) implies chosen.dom().contains(
        id,
    ) by {
        lemma_failures_have_rows(others, id);
        let i = choose|i: int| 0 <= i < others.len() && (#[trigger] others[i]).id == id;
        a_read_gives_each_open_failure(references, i);
        a_read_gives_each_open_failure(others, i);
        assert(is_same_elsewhere(references[i], others[i], chosen));
    }
    assert(chosen =~= same);
}

proof fn lemma_same_counts(
    references: Seq<StoredReferenceView>,
    others: Seq<StoredReferenceView>,
    chosen: Map<ReferenceId, LookupFailureView>,
)
    requires
        references.len() == others.len(),
        forall|i: int|
            0 <= i < references.len() ==> is_same_elsewhere(
                #[trigger] references[i],
                others[i],
                chosen,
            ),
    ensures
        open_count(references) == open_count(others),
        examined_count(chosen, references) == examined_count(chosen, others),
        forall|context: LookupContextView| #[trigger]
            matching_count(references, context) == matching_count(others, context),
    decreases references.len(),
{
    if references.len() > 0 {
        assert(is_same_elsewhere(
            references[references.len() - 1],
            others[references.len() - 1],
            chosen,
        ));
        assert forall|i: int| 0 <= i < references.drop_last().len() implies is_same_elsewhere(
            #[trigger] references.drop_last()[i],
            others.drop_last()[i],
            chosen,
        ) by {
            assert(is_same_elsewhere(references[i], others[i], chosen));
        }
        lemma_same_counts(references.drop_last(), others.drop_last(), chosen);
        assert forall|context: LookupContextView| #[trigger]
            matching_count(references, context) == matching_count(others, context) by {
            assert(matching_count(references.drop_last(), context) == matching_count(
                others.drop_last(),
                context,
            ));
        }
    }
}

/// A selection is the same whatever the lists hold that it does not look at, so only
/// the lists of the rows that failed with the context of a selected failure have to be
/// decoded for it.
pub proof fn other_lists_do_not_matter(
    references: Seq<StoredReferenceView>,
    others: Seq<StoredReferenceView>,
    requested: Set<ReferenceId>,
    lists_decoded: usize,
    selection: CppTypeLookupSelection,
)
    requires
        have_distinct_ids(references),
        differ_in_other_lists(references, others, requested),
    ensures
        is_selection(references, requested, lists_decoded, selection) <==> is_selection(
            others,
            requested,
            lists_decoded,
            selection,
        ),
{
    lemma_same_selection(references, others, requested);
    let chosen = selected_failures(references, requested);
    lemma_same_counts(references, others, chosen);
    assert forall|id: ReferenceId| #[trigger] chosen.dom().contains(id) implies sharing_of(
        references,
        chosen[id],
    ) == sharing_of(others, chosen[id]) by {
        let failure = chosen[id];
        assert forall|i: int| 0 <= i < references.len() implies (has_context(
            #[trigger] references[i],
            failure.context,
        ) <==> has_context(others[i], failure.context)) && (has_context(
            references[i],
            failure.context,
        ) ==> references[i] == others[i]) by {
            assert(is_same_elsewhere(references[i], others[i], chosen));
            if has_context(references[i], failure.context) {
                assert(chosen.dom().contains(id) && chosen[id].context == open_failure(
                    references[i],
                )->0.context);
                assert(is_examined(chosen, references[i]));
            }
        }
        if all_same(references, failure) {
            assert forall|i: int|
                0 <= i < others.len() && has_context(
                    #[trigger] others[i],
                    failure.context,
                ) implies open_failure(others[i])->0.related_declarations
                == failure.related_declarations by {
                assert(has_context(references[i], failure.context));
            }
        }
        if all_same(others, failure) {
            assert forall|i: int|
                0 <= i < references.len() && has_context(
                    #[trigger] references[i],
                    failure.context,
                ) implies open_failure(references[i])->0.related_declarations
                == failure.related_declarations by {
                assert(has_context(others[i], failure.context));
            }
        }
    }
}

} // verus!
