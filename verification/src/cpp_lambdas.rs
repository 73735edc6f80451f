//! Closures: their names, what they are bound to and where they are made.

use crate::collections::IdMap;
use crate::cpp_callables::{is_scope_supported, scope_supported};
use crate::cpp_declarations::is_callable;
use crate::cpp_facts::{CppLambdaCapture, LambdaCaptureView};
use crate::cpp_templates::{keep_kind, of_kind};
use crate::facts::{BindingDef, SymbolDef, SymbolKind, TextRange};
use crate::ids::{BindingId, Identity, SymbolId};
use crate::symbol_registry::{RegistryView, SymbolRegistry};
use crate::syntax::{Field, Kind, SyntaxTree};
use crate::text::{append_bytes, copy_bytes, decimal, decimal_digits, is_only_word, is_word};
use vstd::prelude::*;
use vstd::string::StringSliceAdditionalSpecFns;

verus! {

broadcast use {SyntaxTree::parent_comes_first, SyntaxTree::children_come_later};

/// The name of a closure: it has none of its own.
pub open spec fn lambda_name(tree: SyntaxTree, lambda: usize) -> Seq<u8> {
    "<lambda@".spec_bytes() + decimal(tree.range_of(lambda).start_byte as nat) + ">".spec_bytes()
}

/// The name of a closure.
pub fn name(tree: &SyntaxTree, lambda: usize) -> (r: Vec<u8>)
    ensures
        r@ == lambda_name(*tree, lambda),
{
    let mut text = copy_bytes("<lambda@".as_bytes());
    append_bytes(&mut text, decimal_digits(tree.range(lambda).start_byte).as_slice());
    append_bytes(&mut text, ">".as_bytes());
    text
}

/// The closure that a symbol stands for, by the range of its captures.
pub open spec fn lambda_of(tree: SyntaxTree, range: TextRange) -> Option<usize> {
    match tree.node_at(range.start_byte, range.end_byte) {
        None => None,
        Some(captures) => match tree.parent_of(captures) {
            Some(lambda) if tree.kind_of(captures) == Kind::LambdaCaptureSpecifier && tree.kind_of(
                lambda,
            ) == Kind::LambdaExpression => Some(lambda),
            _ => None,
        },
    }
}

/// The closure that a symbol stands for.
pub fn node(tree: &SyntaxTree, symbol: &SymbolDef) -> (r: Option<usize>)
    ensures
        r == lambda_of(*tree, symbol.name_range),
{
    match tree.descendant_for_byte_range(symbol.name_range.start_byte, symbol.name_range.end_byte) {
        None => None,
        Some(captures) => match tree.parent(captures) {
            None => None,
            Some(lambda) => if tree.kind(captures) == Kind::LambdaCaptureSpecifier && tree.kind(
                lambda,
            ) == Kind::LambdaExpression {
                Some(lambda)
            } else {
                None
            },
        },
    }
}

/// The captures of closures, which the callable around them evaluates.
pub open spec fn initializers_of(tree: SyntaxTree, symbols: Seq<SymbolDef>) -> Map<
    SymbolId,
    TextRange,
>
    decreases symbols.len(),
{
    if symbols.len() == 0 {
        Map::empty()
    } else {
        let before = initializers_of(tree, symbols.drop_last());
        if lambda_of(tree, symbols.last().name_range) is Some {
            before.insert(symbols.last().id, symbols.last().name_range)
        } else {
            before
        }
    }
}

/// The captures of closures, which the callable around them evaluates.
pub fn caller_initializers(tree: &SyntaxTree, symbols: &[SymbolDef]) -> (r: IdMap<
    SymbolId,
    TextRange,
>)
    ensures
        r@ == initializers_of(*tree, symbols@),
{
    let mut found: IdMap<SymbolId, TextRange> = IdMap::new();
    let mut i: usize = 0;
    while i < symbols.len()
        invariant
            i <= symbols@.len(),
            found@ == initializers_of(*tree, symbols@.take(i as int)),
        decreases symbols@.len() - i,
    {
        assert(symbols@.take(i + 1).drop_last() =~= symbols@.take(i as int));
        if node(tree, &symbols[i]).is_some() {
            found.insert(symbols[i].id, symbols[i].name_range);
        }
        i += 1;
    }
    assert(symbols@.take(i as int) =~= symbols@);
    found
}

/// The expression inside parentheses.
pub open spec fn unwrapped(tree: SyntaxTree, n: usize) -> Option<usize>
    decreases tree.count() - n,
    via unwrapped_decreases
{
    if tree.kind_of(n) == Kind::ParenthesizedExpression {
        match tree.sole_part_of(n) {
            None => None,
            Some(inner) => unwrapped(tree, inner),
        }
    } else {
        Some(n)
    }
}

#[via_fn]
proof fn unwrapped_decreases(tree: SyntaxTree, n: usize) {
    if tree.sole_part_of(n) is Some {
        tree.parts_are_children(n, 0);
    }
}

/// The expression inside parentheses.
pub fn unwrap_parentheses(tree: &SyntaxTree, from: usize) -> (r: Option<usize>)
    ensures
        r == unwrapped(*tree, from),
{
    let mut n: usize = from;
    while tree.kind(n) == Kind::ParenthesizedExpression
        invariant
            unwrapped(*tree, from) == unwrapped(*tree, n),
        decreases tree.count() - n,
    {
        match tree.sole_part(n) {
            None => {
                return None;
            },
            Some(inner) => {
                n = inner;
            },
        }
    }
    Some(n)
}

/// The outermost parentheses around an expression, or itself.
pub open spec fn wrapped(tree: SyntaxTree, n: usize) -> usize
    decreases n,
{
    match tree.parent_of(n) {
        Some(above) if above < n && tree.kind_of(above) == Kind::ParenthesizedExpression => wrapped(
            tree,
            above,
        ),
        _ => n,
    }
}

fn find_wrapped(tree: &SyntaxTree, from: usize) -> (r: usize)
    ensures
        r == wrapped(*tree, from),
{
    let mut n: usize = from;
    loop
        invariant
            wrapped(*tree, from) == wrapped(*tree, n),
        decreases n,
    {
        match tree.parent(n) {
            None => {
                return n;
            },
            Some(above) => {
                if tree.kind(above) != Kind::ParenthesizedExpression {
                    return n;
                }
                n = above;
            },
        }
    }
}

/// Whether all of some nodes are the word `const`.
pub open spec fn are_const(tree: SyntaxTree, nodes: Seq<usize>) -> bool {
    forall|i: int|
        0 <= i < nodes.len() ==> match tree.text_of(#[trigger] nodes[i]) {
            None => false,
            Some(text) => is_word(text, "const".spec_bytes()),
        }
}

fn find_const(tree: &SyntaxTree, nodes: &[usize]) -> (r: bool)
    ensures
        r == are_const(*tree, nodes@),
{
    let mut i: usize = 0;
    while i < nodes.len()
        invariant
            i <= nodes@.len(),
            forall|k: int|
                0 <= k < i ==> match tree.text_of(#[trigger] nodes@[k]) {
                    None => false,
                    Some(text) => is_word(text, "const".spec_bytes()),
                },
        decreases nodes@.len() - i,
    {
        match tree.node_text(nodes[i]) {
            None => {
                assert(tree.text_of(nodes@[i as int]) is None);
                return false;
            },
            Some(text) => {
                if !is_only_word(text, "const".as_bytes()) {
                    assert(tree.text_of(nodes@[i as int]) == Some(text@));
                    return false;
                }
            },
        }
        i += 1;
    }
    true
}

/// The name and the declaration of a variable that is declared alone with `auto` and
/// initialized by an expression.
pub open spec fn auto_variable(tree: SyntaxTree, expression: usize) -> Option<(usize, usize)> {
    match tree.parent_of(expression) {
        None => None,
        Some(initializer) => match (
            tree.child_in_role(initializer, Field::Declarator),
            tree.parent_of(initializer),
        ) {
            (Some(name), Some(declaration)) => if tree.kind_of(initializer) == Kind::InitDeclarator
                && tree.child_in_role(initializer, Field::Value) == Some(expression)
                && tree.kind_of(name) == Kind::Identifier && tree.kind_of(declaration)
                == Kind::Declaration && !tree.node(declaration).has_error {
                match tree.child_in_role(declaration, Field::Type) {
                    None => None,
                    Some(ty) => match tree.text_of(ty) {
                        Some(text) if is_word(text, "auto".spec_bytes()) && of_kind(
                            tree,
                            tree.named_children_of(declaration),
                            Kind::InitDeclarator,
                        ).len() == 1 => Some((name, declaration)),
                        _ => None,
                    },
                }
            } else {
                None
            },
            _ => None,
        },
    }
}

/// The first binding with a range.
pub open spec fn binding_over(bindings: Seq<BindingDef>, range: TextRange) -> Option<BindingId>
    decreases bindings.len(),
{
    if bindings.len() == 0 {
        None
    } else if bindings[0].range == range {
        Some(bindings[0].id)
    } else {
        binding_over(bindings.drop_first(), range)
    }
}

fn find_binding_over(bindings: &[BindingDef], range: TextRange) -> (r: Option<BindingId>)
    ensures
        r == binding_over(bindings@, range),
{
    let mut i: usize = 0;
    assert(bindings@.skip(0) =~= bindings@);
    while i < bindings.len()
        invariant
            i <= bindings@.len(),
            binding_over(bindings@, range) == binding_over(bindings@.skip(i as int), range),
        decreases bindings@.len() - i,
    {
        assert(bindings@.skip(i as int).drop_first() =~= bindings@.skip(i + 1));
        if bindings[i].range == range {
            return Some(bindings[i].id);
        }
        i += 1;
    }
    None
}

/// The variable that a closure initializes, and whether it is constant.
pub open spec fn bound_to(tree: SyntaxTree, lambda: usize, bindings: Seq<BindingDef>) -> Option<
    (BindingId, bool),
> {
    match auto_variable(tree, wrapped(tree, lambda)) {
        None => None,
        Some((name, declaration)) => {
            let qualifiers = of_kind(
                tree,
                tree.named_children_of(declaration),
                Kind::TypeQualifier,
            );
            match binding_over(bindings, tree.range_of(name)) {
                Some(binding) if are_const(tree, qualifiers) => Some(
                    (binding, qualifiers.len() > 0),
                ),
                _ => None,
            }
        },
    }
}

fn find_auto_variable(tree: &SyntaxTree, expression: usize) -> (r: Option<(usize, usize)>)
    ensures
        r == auto_variable(*tree, expression),
{
    let initializer = match tree.parent(expression) {
        None => {
            return None;
        },
        Some(initializer) => initializer,
    };
    if tree.kind(initializer) != Kind::InitDeclarator || tree.child_by_field(
        initializer,
        Field::Value,
    ) != Some(expression) {
        return None;
    }
    match (tree.child_by_field(initializer, Field::Declarator), tree.parent(initializer)) {
        (Some(name), Some(declaration)) => {
            if tree.kind(name) != Kind::Identifier || tree.kind(declaration) != Kind::Declaration
                || tree.data(declaration).has_error {
                return None;
            }
            match tree.child_by_field(declaration, Field::Type) {
                None => None,
                Some(ty) => match tree.node_text(ty) {
                    None => None,
                    Some(text) => {
                        let children = tree.named_children(declaration);
                        if is_only_word(text, "auto".as_bytes()) && keep_kind(
                            tree,
                            children.as_slice(),
                            Kind::InitDeclarator,
                        ).len() == 1 {
                            Some((name, declaration))
                        } else {
                            None
                        }
                    },
                },
            }
        },
        _ => None,
    }
}

/// The variable that a closure initializes, and whether it is constant.
pub fn local_binding(tree: &SyntaxTree, lambda: usize, bindings: &[BindingDef]) -> (r: Option<
    (BindingId, bool),
>)
    ensures
        r == bound_to(*tree, lambda, bindings@),
{
    let expression = find_wrapped(tree, lambda);
    match find_auto_variable(tree, expression) {
        None => None,
        Some((name, declaration)) => {
            let children = tree.named_children(declaration);
            let qualifiers = keep_kind(tree, children.as_slice(), Kind::TypeQualifier);
            if !find_const(tree, qualifiers.as_slice()) {
                return None;
            }
            match find_binding_over(bindings, tree.range(name)) {
                None => None,
                Some(binding) => Some((binding, qualifiers.len() > 0)),
            }
        },
    }
}

/// The first function symbol with a name range.
pub open spec fn function_over(symbols: Seq<SymbolDef>, range: TextRange) -> Option<SymbolId>
    decreases symbols.len(),
{
    if symbols.len() == 0 {
        None
    } else if symbols[0].name_range == range && symbols[0].kind == SymbolKind::Function {
        Some(symbols[0].id)
    } else {
        function_over(symbols.drop_first(), range)
    }
}

fn find_function_over(symbols: &[SymbolDef], range: TextRange) -> (r: Option<SymbolId>)
    ensures
        r == function_over(symbols@, range),
{
    let mut i: usize = 0;
    assert(symbols@.skip(0) =~= symbols@);
    while i < symbols.len()
        invariant
            i <= symbols@.len(),
            function_over(symbols@, range) == function_over(symbols@.skip(i as int), range),
        decreases symbols@.len() - i,
    {
        assert(symbols@.skip(i as int).drop_first() =~= symbols@.skip(i + 1));
        if symbols[i].name_range == range && symbols[i].kind == SymbolKind::Function {
            return Some(symbols[i].id);
        }
        i += 1;
    }
    None
}

/// The number of parameters of a closure, where it is plain to see.
pub open spec fn parameter_count(tree: SyntaxTree, lambda: usize, captures: usize) -> Option<u32> {
    if tree.node(captures).has_error || tree.has_one_of(
        tree.named_children_of(lambda),
        seq![Kind::TemplateParameterList, Kind::RequiresClause],
    ) {
        None
    } else {
        match tree.child_in_role(lambda, Field::Declarator) {
            None => Some(0),
            Some(declarator) => if tree.node(declarator).has_error {
                None
            } else {
                match tree.child_in_role(declarator, Field::Parameters) {
                    None => None,
                    Some(list) => {
                        let parts = tree.parts_of(list);
                        if tree.without(
                            parts,
                            seq![Kind::ParameterDeclaration, Kind::OptionalParameterDeclaration],
                        ).len() > 0 || parts.len() > u32::MAX {
                            None
                        } else {
                            Some(parts.len() as u32)
                        }
                    },
                }
            },
        }
    }
}

fn count_parameters(tree: &SyntaxTree, lambda: usize, captures: usize) -> (r: Option<u32>)
    ensures
        r == parameter_count(*tree, lambda, captures),
{
    let dependent = [Kind::TemplateParameterList, Kind::RequiresClause];
    let plain = [Kind::ParameterDeclaration, Kind::OptionalParameterDeclaration];
    assert(dependent@ =~= seq![Kind::TemplateParameterList, Kind::RequiresClause]);
    assert(plain@ =~= seq![Kind::ParameterDeclaration, Kind::OptionalParameterDeclaration]);
    let children = tree.named_children(lambda);
    if tree.data(captures).has_error || tree.has_any(children.as_slice(), &dependent) {
        return None;
    }
    match tree.child_by_field(lambda, Field::Declarator) {
        None => Some(0),
        Some(declarator) => {
            if tree.data(declarator).has_error {
                return None;
            }
            match tree.child_by_field(declarator, Field::Parameters) {
                None => None,
                Some(list) => {
                    let parts = tree.parts(list);
                    let rest = tree.drop_kinds(parts.as_slice(), &plain);
                    if rest.len() > 0 || parts.len() as u64 > u32::MAX as u64 {
                        None
                    } else {
                        Some(parts.len() as u32)
                    }
                },
            }
        },
    }
}

/// What is written of a closure, with the symbols and bindings that belong to it.
pub open spec fn annotated(
    tree: SyntaxTree,
    lambda: usize,
    symbols: Seq<SymbolDef>,
    bindings: Seq<BindingDef>,
    registry: RegistryView,
    capture: LambdaCaptureView,
) -> LambdaCaptureView {
    match tree.child_in_role(lambda, Field::Captures) {
        None => capture,
        Some(captures) => {
            let range = tree.range_of(captures);
            let bound = bound_to(tree, lambda, bindings);
            let count = parameter_count(tree, lambda, captures);
            LambdaCaptureView {
                symbol_id: function_over(symbols, range),
                enclosing_symbol: registry.source(range),
                binding_id: match bound {
                    None => capture.binding_id,
                    Some((binding, _)) => Some(binding),
                },
                binding_const: match bound {
                    None => capture.binding_const,
                    Some((_, const_)) => const_,
                },
                parameter_count: if count is None {
                    capture.parameter_count
                } else {
                    count
                },
                ..capture
            }
        },
    }
}

/// Add to what is written of a closure the symbols and bindings that belong to it.
pub fn annotate(
    tree: &SyntaxTree,
    lambda: usize,
    symbols: &[SymbolDef],
    bindings: &[BindingDef],
    registry: &SymbolRegistry,
    capture: &mut CppLambdaCapture,
)
    ensures
        final(capture)@ == annotated(
            *tree,
            lambda,
            symbols@,
            bindings@,
            registry@,
            old(capture)@,
        ),
{
    let captures = match tree.child_by_field(lambda, Field::Captures) {
        None => {
            return;
        },
        Some(captures) => captures,
    };
    let range = tree.range(captures);
    capture.symbol_id = find_function_over(symbols, range);
    capture.enclosing_symbol = registry.source_for_range(range);
    if let Some((binding, const_)) = local_binding(tree, lambda, bindings) {
        capture.binding_id = Some(binding);
        capture.binding_const = const_;
    }
    let count = count_parameters(tree, lambda, captures);
    if count.is_some() {
        capture.parameter_count = count;
    }
}

/// Whether a symbol is a callable with a name around another symbol.
pub open spec fn encloses(tree: SyntaxTree, symbol: SymbolDef, candidate: SymbolDef) -> bool {
    candidate.id != symbol.id && is_callable(candidate.kind) && lambda_of(
        tree,
        candidate.name_range,
    ) is None && candidate.range.covers(symbol.range)
}

/// The smallest callable with a name around a symbol; the first of those of one size.
pub open spec fn enclosing_callable(
    tree: SyntaxTree,
    symbol: SymbolDef,
    symbols: Seq<SymbolDef>,
) -> Option<SymbolDef>
    decreases symbols.len(),
{
    if symbols.len() == 0 {
        None
    } else {
        let candidate = symbols.last();
        match enclosing_callable(tree, symbol, symbols.drop_last()) {
            Some(best) if !encloses(tree, symbol, candidate) || best.range.byte_len_spec()
                <= candidate.range.byte_len_spec() => Some(best),
            _ => if encloses(tree, symbol, candidate) {
                Some(candidate)
            } else {
                None
            },
        }
    }
}

/// Whether the scope in which a closure is made is supported.
pub open spec fn is_lambda_supported(
    tree: SyntaxTree,
    symbol: SymbolDef,
    symbols: Seq<SymbolDef>,
) -> bool {
    match lambda_of(tree, symbol.name_range) {
        None => false,
        Some(lambda) => !tree.has_one_of(tree.ancestors_of(lambda), seq![Kind::Error]) && match (
        enclosing_callable(tree, symbol, symbols)) {
            None => true,
            Some(owner) => is_scope_supported(tree, owner.name_range),
        },
    }
}

fn find_enclosing_callable(
    tree: &SyntaxTree,
    symbol: &SymbolDef,
    symbols: &[SymbolDef],
) -> (r: Option<usize>)
    ensures
        match r {
            None => enclosing_callable(*tree, *symbol, symbols@) is None,
            Some(i) => i < symbols@.len() && enclosing_callable(*tree, *symbol, symbols@) == Some(
                symbols@[i as int],
            ),
        },
{
    let mut best: Option<usize> = None;
    let mut i: usize = 0;
    while i < symbols.len()
        invariant
            i <= symbols@.len(),
            match best {
                None => enclosing_callable(*tree, *symbol, symbols@.take(i as int)) is None,
                Some(b) => b < i && enclosing_callable(*tree, *symbol, symbols@.take(i as int))
                    == Some(symbols@[b as int]),
            },
        decreases symbols@.len() - i,
    {
        assert(symbols@.take(i + 1).drop_last() =~= symbols@.take(i as int));
        let candidate = &symbols[i];
        if !candidate.id.same(&symbol.id) && matches!(
            candidate.kind,
            SymbolKind::Function | SymbolKind::Method
        ) && node(tree, candidate).is_none() && candidate.range.contains_range(&symbol.range) {
            let better = match best {
                None => true,
                Some(b) => symbols[b].range.byte_len() > candidate.range.byte_len(),
            };
            if better {
                best = Some(i);
            }
        }
        i += 1;
    }
    assert(symbols@.take(i as int) =~= symbols@);
    best
}

/// Whether the scope in which a closure is made is supported.
pub fn lambda_scope_supported(
    tree: &SyntaxTree,
    symbol: &SymbolDef,
    symbols: &[SymbolDef],
) -> (r: bool)
    ensures
        r == is_lambda_supported(*tree, *symbol, symbols@),
{
    let lambda = match node(tree, symbol) {
        None => {
            return false;
        },
        Some(lambda) => lambda,
    };
    let errors = [Kind::Error];
    assert(errors@ =~= seq![Kind::Error]);
    let around = tree.ancestors(lambda);
    if tree.has_any(around.as_slice(), &errors) {
        return false;
    }
    match find_enclosing_callable(tree, symbol, symbols) {
        None => true,
        Some(i) => scope_supported(tree, &symbols[i]),
    }
}

} // verus!
