//! A snapshot of the recorded facts that queries read. The tables keep the order
//! in which their rows were recorded.

pub mod cpp_types;

use crate::cpp_facts::CppFileTypes;
use crate::facts::{
    Callsite, DataFlowEdge, DataNode, ExtractDiagnostic, FileInfo, ResolvedCallsite,
};
use crate::ids::{CallsiteId, DataNodeId, FileId, SymbolId};
use crate::store::cpp_types::StoredReference;
use vstd::prelude::*;

verus! {

/// A diagnostic of one function's dataflow, or of the code outside functions.
#[derive(PartialEq, Eq, Debug)]
pub struct UnitDiagnostic {
    pub file_id: FileId,
    pub function_id: Option<SymbolId>,
    pub diagnostic: ExtractDiagnostic,
}

/// A diagnostic of a whole file.
#[derive(PartialEq, Eq, Debug)]
pub struct FileDiagnostic {
    pub file_id: FileId,
    pub diagnostic: ExtractDiagnostic,
}

/// The type facts of one file.
#[derive(Debug)]
pub struct FileTypes {
    pub file_id: FileId,
    pub facts: CppFileTypes,
}

/// The recorded facts.
#[derive(Debug)]
pub struct Store {
    pub files: Vec<FileInfo>,
    pub data_nodes: Vec<DataNode>,
    pub dataflow_edges: Vec<DataFlowEdge>,
    pub callsites: Vec<Callsite>,
    pub resolved_callsites: Vec<ResolvedCallsite>,
    pub file_diagnostics: Vec<FileDiagnostic>,
    pub unit_diagnostics: Vec<UnitDiagnostic>,
    pub references: Vec<StoredReference>,
    pub cpp_types: Vec<FileTypes>,
}

/// The first node with an identity.
pub open spec fn find_node(nodes: Seq<DataNode>, id: DataNodeId) -> Option<DataNode>
    decreases nodes.len(),
{
    if nodes.len() == 0 {
        None
    } else if nodes[0].id == id {
        Some(nodes[0])
    } else {
        find_node(nodes.drop_first(), id)
    }
}

/// The path of the first file with an identity.
pub open spec fn find_file(files: Seq<FileInfo>, id: FileId) -> Option<FileInfo>
    decreases files.len(),
{
    if files.len() == 0 {
        None
    } else if files[0].file_id == id {
        Some(files[0])
    } else {
        find_file(files.drop_first(), id)
    }
}

/// The first call with an identity.
pub open spec fn find_callsite(calls: Seq<Callsite>, id: CallsiteId) -> Option<Callsite>
    decreases calls.len(),
{
    if calls.len() == 0 {
        None
    } else if calls[0].id == id {
        Some(calls[0])
    } else {
        find_callsite(calls.drop_first(), id)
    }
}

pub proof fn lemma_found_node(nodes: Seq<DataNode>, id: DataNodeId)
    ensures
        match find_node(nodes, id) {
            None => forall|i: int| 0 <= i < nodes.len() ==> (#[trigger] nodes[i]).id != id,
            Some(node) => node.id == id && nodes.contains(node),
        },
    decreases nodes.len(),
{
    if nodes.len() > 0 && nodes[0].id != id {
        lemma_found_node(nodes.drop_first(), id);
        match find_node(nodes, id) {
            None => {
                assert forall|i: int| 0 <= i < nodes.len() implies (#[trigger] nodes[i]).id
                    != id by {
                    if i > 0 {
                        assert(nodes.drop_first()[i - 1].id != id);
                    }
                }
            },
            Some(node) => {
                let rest = nodes.drop_first();
                let i = choose|i: int| 0 <= i < rest.len() && rest[i] == node;
                assert(nodes[i + 1] == node);
            },
        }
    }
}

impl Store {
    /// A snapshot that holds nothing.
    pub fn new() -> (r: Self)
        ensures
            r.files@.len() == 0,
            r.data_nodes@.len() == 0,
            r.dataflow_edges@.len() == 0,
            r.callsites@.len() == 0,
            r.resolved_callsites@.len() == 0,
            r.file_diagnostics@.len() == 0,
            r.unit_diagnostics@.len() == 0,
            r.references@.len() == 0,
            r.cpp_types@.len() == 0,
    {
        Store {
            files: Vec::new(),
            data_nodes: Vec::new(),
            dataflow_edges: Vec::new(),
            callsites: Vec::new(),
            resolved_callsites: Vec::new(),
            file_diagnostics: Vec::new(),
            unit_diagnostics: Vec::new(),
            references: Vec::new(),
            cpp_types: Vec::new(),
        }
    }

    /// The node with an identity.
    pub fn get_data_node(&self, id: &DataNodeId) -> (r: Option<&DataNode>)
        ensures
            match r {
                None => find_node(self.data_nodes@, *id) is None,
                Some(node) => find_node(self.data_nodes@, *id) == Some(*node),
            },
    {
        let mut i: usize = 0;
        assert(self.data_nodes@.skip(0) =~= self.data_nodes@);
        while i < self.data_nodes.len()
            invariant
                i <= self.data_nodes@.len(),
                find_node(self.data_nodes@, *id) == find_node(self.data_nodes@.skip(i as int), *id),
            decreases self.data_nodes@.len() - i,
        {
            assert(self.data_nodes@.skip(i as int).drop_first() =~= self.data_nodes@.skip(i + 1));
            if self.data_nodes[i].id == *id {
                return Some(&self.data_nodes[i]);
            }
            i += 1;
        }
        None
    }

    /// The file with an identity.
    pub fn get_file(&self, id: &FileId) -> (r: Option<&FileInfo>)
        ensures
            match r {
                None => find_file(self.files@, *id) is None,
                Some(file) => find_file(self.files@, *id) == Some(*file),
            },
    {
        let mut i: usize = 0;
        assert(self.files@.skip(0) =~= self.files@);
        while i < self.files.len()
            invariant
                i <= self.files@.len(),
                find_file(self.files@, *id) == find_file(self.files@.skip(i as int), *id),
            decreases self.files@.len() - i,
        {
            assert(self.files@.skip(i as int).drop_first() =~= self.files@.skip(i + 1));
            if self.files[i].file_id == *id {
                return Some(&self.files[i]);
            }
            i += 1;
        }
        None
    }

    /// The first call with an identity.
    pub fn find_callsite_by_id(&self, id: &CallsiteId) -> (r: Option<&Callsite>)
        ensures
            match r {
                None => find_callsite(self.callsites@, *id) is None,
                Some(call) => find_callsite(self.callsites@, *id) == Some(*call),
            },
    {
        let mut i: usize = 0;
        assert(self.callsites@.skip(0) =~= self.callsites@);
        while i < self.callsites.len()
            invariant
                i <= self.callsites@.len(),
                find_callsite(self.callsites@, *id) == find_callsite(
                    self.callsites@.skip(i as int),
                    *id,
                ),
            decreases self.callsites@.len() - i,
        {
            assert(self.callsites@.skip(i as int).drop_first() =~= self.callsites@.skip(i + 1));
            if self.callsites[i].id == *id {
                return Some(&self.callsites[i]);
            }
            i += 1;
        }
        None
    }
}

} // verus!
