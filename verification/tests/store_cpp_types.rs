use atlas_engine::collections::IdSet;
use atlas_engine::cpp_facts::{
    CppAllocationSite, CppBaseClass, CppCallableDeclaration, CppCapture, CppCaptureKind,
    CppDeclaredType, CppFileTypes, CppLambdaCapture, CppLookupLimit, CppRecordType, CppTypeAlias,
    CppValueType,
};
use atlas_engine::facts::{FileInfo, Language, TextRange};
use atlas_engine::ids::{Digest, FileId, ReferenceId, SymbolId};
use atlas_engine::store::cpp_types::{
    CppReadError, CppTypeLookupFailure, CppTypeLookupFailureKind, DeclarationMemo, StoredReference,
    MEMO_BYTES,
};
use atlas_engine::store::{FileTypes, Store};
use atlas_engine::text::Text;
use std::cell::Cell;

fn id(n: u8) -> ReferenceId {
    let word = u128::from_be_bytes([n; 16]);
    ReferenceId(Digest { hi: word, lo: word })
}

fn span(start_byte: u32, end_byte: u32) -> TextRange {
    TextRange { start_byte, end_byte, ..TextRange::default() }
}

fn unresolved(id: ReferenceId) -> StoredReference {
    StoredReference { id, resolved: None, failure: None }
}

fn same(a: &CppTypeLookupFailure, b: &CppTypeLookupFailure) -> bool {
    a.same_context(b) && a.related_declarations == b.related_declarations
}

fn assert_failures(store: &Store, expected: &[(ReferenceId, CppTypeLookupFailure)]) {
    let found = store.cpp_type_lookup_failures(&|| false).unwrap();
    assert_eq!(found.len(), expected.len());
    for (id, failure) in expected {
        assert!(same(found.get(id).unwrap(), failure));
    }
}

#[test]
fn lookup_diagnostic_reads_preserve_repeated_lists_and_cancellation() {
    let file_id = FileId::generate(b"diagnostics.cpp");
    let mut store = Store::new();
    let mut expected = Vec::new();
    for index in 1..=6u8 {
        let reference = id(index);
        let range = span(u32::from(index) * 10, u32::from(index) * 10 + 4);
        store.references.push(unresolved(reference));
        let first = (FileId::generate(b"first.h"), span(2, 6));
        let second = (FileId::generate(b"second.h"), span(7, 11));
        expected.push((
            reference,
            CppTypeLookupFailure {
                kind: CppTypeLookupFailureKind::NameLookupRestricted,
                name: Text::new(&format!("call_{index}")),
                scope: Text::new("scope"),
                file_id,
                range,
                related_declarations: if index % 2 == 0 {
                    vec![first, second, first]
                } else {
                    vec![second]
                },
            },
        ));
    }
    let updates: Vec<_> = expected
        .iter()
        .map(|(id, failure)| (*id, Some(failure.duplicate())))
        .collect();
    store.batch_update_cpp_type_lookup_failures(&updates);
    assert_failures(&store, &expected);
    assert!(store.cpp_type_lookup_failures(&|| true).is_err());
    let checks = Cell::new(0);
    assert!(
        store
            .cpp_type_lookup_failures(&|| {
                checks.set(checks.get() + 1);
                checks.get() >= 4
            })
            .is_err()
    );
    assert_failures(&store, &expected);
    let removed = store.references[0].id;
    store.batch_update_cpp_type_lookup_failures(&[(removed, None)]);
    expected.remove(0);
    assert_failures(&store, &expected);
}

#[test]
fn selected_lookup_failures_preserve_global_evidence_and_read_only_state() {
    let file_id = FileId::generate(b"calls.cpp");
    let primary = span(10, 14);
    let declaration = (file_id, span(20, 24));
    let mut store = Store::new();
    store.files.push(FileInfo {
        file_id,
        path: Text::new("calls.cpp"),
        language: Language::Cpp,
    });
    for n in 1..=8 {
        store.references.push(unresolved(id(n)));
    }
    let updates: Vec<_> = (1..=7)
        .map(|n| {
            let mut failure = CppTypeLookupFailure {
                kind: CppTypeLookupFailureKind::LookupRestricted,
                name: Text::new("Base"),
                scope: Text::new("api"),
                file_id,
                range: primary,
                related_declarations: vec![declaration, declaration],
            };
            if n == 3 || n == 4 {
                failure.name = Text::new("Conflicting");
                if n == 4 {
                    failure.related_declarations.pop();
                }
            }
            if n == 5 || n == 6 {
                failure.name = Text::new("Empty");
                failure.related_declarations.clear();
            }
            if n == 7 {
                failure.file_id = FileId::generate(b"absent.h");
            }
            (id(n), Some(failure))
        })
        .collect();
    store.batch_update_cpp_type_lookup_failures(&updates);
    let global = store.cpp_type_lookup_failures(&|| false).unwrap();
    for requested in [
        vec![],
        vec![id(8), id(99)],
        vec![id(1), id(1), id(3), id(5), id(7), id(8), id(99)],
    ] {
        let result = store
            .cpp_type_lookup_failures_for_references(&requested, 0, &|| false)
            .unwrap();
        let expected: Vec<_> = global
            .keys()
            .iter()
            .filter(|id| requested.contains(id))
            .collect();
        assert_eq!(result.failures.len(), expected.len());
        for id in &expected {
            assert!(same(result.failures.get(id).unwrap(), global.get(id).unwrap()));
        }
        assert_eq!(result.work.failures_decoded, expected.len());
        assert_eq!(
            result.work.unique_references_requested,
            IdSet::of(&requested).len()
        );
        assert_eq!(
            result.work.global_contexts_examined,
            if expected.is_empty() { 0 } else { 7 }
        );
        for reference in result.failures.keys() {
            let failure = result.failures.get(reference).unwrap();
            // The oracle compares each part of the context, and the declarations.
            let matching: Vec<_> = global
                .keys()
                .iter()
                .map(|id| global.get(id).unwrap())
                .filter(|other| {
                    other.kind == failure.kind
                        && other.name == failure.name
                        && other.scope == failure.scope
                        && other.file_id == failure.file_id
                        && other.range == failure.range
                })
                .collect();
            let evidence = result.sharing.get(reference).unwrap();
            assert_eq!(evidence.matching_failures, matching.len());
            assert_eq!(
                evidence.same_declarations,
                matching
                    .iter()
                    .all(|f| f.related_declarations == failure.related_declarations)
            );
        }
    }
    let result = store
        .cpp_type_lookup_failures_for_references(&[id(1), id(3), id(5), id(7)], 0, &|| false)
        .unwrap();
    assert!(result.sharing.get(&id(1)).unwrap().has_shared_inventory());
    assert!(!result.sharing.get(&id(3)).unwrap().has_shared_inventory());
    assert!(
        result.sharing.get(&id(5)).unwrap().has_shared_inventory(),
        "empty inventory is evidence, not a projected region"
    );
    assert_eq!(result.work.matching_inventories_examined, 7);
    assert!(
        store
            .get_file(&result.failures.get(&id(7)).unwrap().file_id)
            .is_none()
    );
    assert!(
        store
            .cpp_type_lookup_failures_for_references(&[], 0, &|| true)
            .is_err()
    );
    // Cancel during selection and during the global scan; no partial success.
    for stop in [2, 5] {
        let checks = Cell::new(0);
        assert!(
            store
                .cpp_type_lookup_failures_for_references(&[id(1)], 0, &|| {
                    checks.set(checks.get() + 1);
                    checks.get() >= stop
                })
                .is_err()
        );
    }
}

fn declared(name: &str) -> CppDeclaredType {
    CppDeclaredType {
        name: Text::new(name),
        template_arguments: vec![],
        pointer: false,
        reference: false,
        const_: false,
        volatile: false,
    }
}

#[test]
fn cpp_type_facts_follow_atomic_file_replacement_and_deletion() {
    let file_id = FileId::generate(b"types.cpp");
    let unverified_owner =
        SymbolId::generate(&file_id, "cpp", b"api::recovered", "function", None);
    let cpp = CppFileTypes {
        allocation_sites: vec![CppAllocationSite {
            range: span(10, 20),
            source_symbol: Some(unverified_owner),
        }],
        lookup_limits: vec![CppLookupLimit {
            scope: Text::new("api"),
            name: Some(Text::new("Imported")),
            declaration_range: TextRange::default(),
            block_range: Some(span(0, 40)),
        }],
        unverified_callable_scopes: vec![unverified_owner],
        records: vec![CppRecordType {
            symbol_id: SymbolId::generate(&file_id, "cpp", b"api::Device", "class", None),
            is_definition: true,
            bases: Some(vec![CppBaseClass {
                declared_type: declared("Base"),
                virtual_: false,
                range: TextRange::default(),
            }]),
            identity_supported: true,
            lookup_supported: true,
            template_parameters: None,
        }],
        callables: vec![CppCallableDeclaration {
            symbol_id: SymbolId::generate(&file_id, "cpp", b"api::Device::run", "method", None),
            template_parameters: None,
            parameter_types: vec![Text::new("const api::Value&")],
            parameter_declared_types: vec![Some(CppDeclaredType {
                reference: true,
                const_: true,
                ..declared("api::Value")
            })],
            minimum_arity: 1,
            qualifiers: Text::new("const"),
            is_virtual: false,
            internal_linkage: false,
            return_type: None,
        }],
        values: vec![CppValueType {
            binding_id: None,
            symbol_id: None,
            capture_required: true,
            mutable_: false,
            bit_field: false,
            declared_type: Some(CppDeclaredType {
                pointer: true,
                const_: true,
                ..declared("api::Device")
            }),
            initializer_call: None,
            lookup_scope: Text::new("app"),
            declaration_range: TextRange::default(),
        }],
        aliases: vec![CppTypeAlias {
            symbol_id: unverified_owner,
            target: Some(declared("int")),
            target_range: TextRange::default(),
        }],
        lambda_captures: vec![CppLambdaCapture {
            symbol_id: Some(unverified_owner),
            enclosing_symbol: None,
            binding_id: None,
            binding_const: false,
            parameter_count: Some(0),
            range: TextRange::default(),
            body_range: TextRange::default(),
            default: Some(CppCaptureKind::Reference),
            captures: Some(vec![CppCapture {
                name: Text::new("value"),
                kind: CppCaptureKind::Copy,
            }]),
            mutable_: false,
        }],
        ..CppFileTypes::default()
    };
    let written = format!("{cpp:?}");
    let limits = format!("{:?}", cpp.lookup_limits);
    let captures = format!("{:?}", cpp.lambda_captures);
    let site = cpp.allocation_sites[0];
    let mut store = Store::new();
    store.cpp_types.push(FileTypes { file_id, facts: cpp });
    assert_eq!(store.cpp_allocation_site_count().unwrap(), 1);
    assert_eq!(
        store.cpp_allocation_sites(&|| false).unwrap(),
        vec![(file_id, site)]
    );
    assert!(store.cpp_allocation_sites(&|| true).is_err());
    let found = store.cpp_lambda_captures();
    assert_eq!(found.len(), 1);
    assert_eq!(found[0].0, file_id);
    assert_eq!(format!("[{:?}]", found[0].1), captures);
    assert_eq!(
        format!("{:?}", store.cpp_types_for_file(&file_id).unwrap()),
        written
    );
    assert_eq!(format!("{:?}", store.all_cpp_types().get(&file_id).unwrap()), written);
    assert_eq!(
        format!("{:?}", store.cpp_local_lookup_limits().get(&file_id).unwrap()),
        limits
    );
    assert_eq!(
        store.cpp_unverified_callable_scopes().as_slice(),
        &[unverified_owner]
    );
    store.cpp_types = vec![FileTypes { file_id, facts: CppFileTypes::default() }];
    assert_eq!(store.cpp_allocation_site_count().unwrap(), 0);
    assert!(store.cpp_allocation_sites(&|| false).unwrap().is_empty());
    assert_eq!(
        format!("{:?}", store.cpp_types_for_file(&file_id).unwrap()),
        format!("{:?}", CppFileTypes::default())
    );
    assert!(store.cpp_unverified_callable_scopes().as_slice().is_empty());
    assert_eq!(store.cpp_local_lookup_limits().len(), 0);
    store.cpp_types.clear();
    assert_eq!(store.all_cpp_types().len(), 0);
    assert!(store.cpp_types_for_file(&file_id).is_none());
}

#[test]
fn an_attempt_changes_open_references_alone() {
    let file_id = FileId::generate(b"a.cpp");
    let target = SymbolId::generate(&file_id, "cpp", b"f", "function", None);
    let failure = CppTypeLookupFailure {
        kind: CppTypeLookupFailureKind::Other(7),
        name: Text::new("f"),
        scope: Text::new(""),
        file_id,
        range: span(1, 2),
        related_declarations: vec![],
    };
    let mut store = Store::new();
    store.references.push(unresolved(id(1)));
    store.references.push(StoredReference { id: id(2), resolved: Some(target), failure: None });
    store.batch_update_cpp_type_lookup_failures(&[
        (id(1), Some(failure.duplicate())),
        (id(2), Some(failure.duplicate())),
        (id(3), Some(failure.duplicate())),
    ]);
    assert!(same(store.references[0].failure.as_ref().unwrap(), &failure));
    assert!(store.references[1].failure.is_none());
    assert_eq!(store.references.len(), 2);
    store.batch_update_cpp_type_lookup_failures(&[
        (id(1), Some(failure.duplicate())),
        (id(1), None),
    ]);
    assert!(store.references[0].failure.is_none());
    assert_eq!(
        store.cpp_type_lookup_failures(&|| true).unwrap_err(),
        CppReadError::Canceled
    );
}

#[test]
fn a_memo_keeps_what_fits_and_drops_the_rest_at_once() {
    let file = FileId::generate(b"a.h");
    let list = vec![(file, span(1, 2)), (file, span(3, 4))];
    let mut memo = DeclarationMemo::new();
    assert!(memo.find(b"[1]").is_none());
    memo.record(b"[1]".to_vec(), list.clone());
    assert_eq!(memo.find(b"[1]").unwrap(), list.as_slice());
    assert!(memo.find(b"[2]").is_none());
    // A list that is too large is decoded, and not kept.
    memo.record(vec![0x5B; MEMO_BYTES + 1], vec![]);
    assert!(memo.find(&vec![0x5B; MEMO_BYTES + 1]).is_none());
    assert_eq!(memo.find(b"[1]").unwrap(), list.as_slice());
    // One that does not fit beside the others takes their place.
    memo.record(vec![0x20; MEMO_BYTES], vec![]);
    assert!(memo.find(b"[1]").is_none());
    assert!(memo.find(&vec![0x20; MEMO_BYTES]).is_some());
    assert_eq!(memo.lists_decoded(), 3);
}

#[test]
fn a_selection_looks_at_few_lists_and_hands_on_how_many_were_decoded() {
    let file_id = FileId::generate(b"a.h");
    let failure = |name: &str, declarations: usize| CppTypeLookupFailure {
        kind: CppTypeLookupFailureKind::LookupRestricted,
        name: Text::new(name),
        scope: Text::new("api"),
        file_id,
        range: span(1, 2),
        related_declarations: vec![(file_id, span(3, 4)); declarations],
    };
    let mut store = Store::new();
    for (n, name) in [(1, "Base"), (2, "Base"), (3, "Other")] {
        store.references.push(StoredReference {
            failure: Some(failure(name, 1)),
            ..unresolved(id(n))
        });
    }
    store.references.push(unresolved(id(4)));
    assert_eq!(
        store.lists_to_decode(&[id(1), id(1)], &|| false).unwrap(),
        [true, true, false, false]
    );
    assert_eq!(store.lists_to_decode(&[id(4), id(99)], &|| false).unwrap(), [false; 4]);
    assert!(store.lists_to_decode(&[], &|| true).is_none());
    let read = |store: &Store| {
        let selection = store
            .cpp_type_lookup_failures_for_references(&[id(1), id(1)], 5, &|| false)
            .unwrap();
        assert_eq!(selection.failures.len(), 1);
        (selection.work, *selection.sharing.get(&id(1)).unwrap())
    };
    let whole = read(&store);
    assert_eq!(whole.0.unique_references_requested, 1);
    assert_eq!(whole.0.failures_decoded, 1);
    assert_eq!(
        whole.0.global_contexts_examined,
        store.cpp_type_lookup_failures(&|| false).unwrap().len()
    );
    assert_eq!(whole.0.matching_inventories_examined, 2);
    assert_eq!(whole.0.declaration_lists_decoded, 5);
    assert!(whole.1.has_shared_inventory());
    // What the other list holds changes nothing.
    store.references[2].failure = Some(failure("Other", 0));
    assert_eq!(read(&store), whole);
}
