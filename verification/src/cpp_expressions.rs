//! C++ expression boundaries. These functions select no operator targets, and prove
//! nothing of evaluation or completeness.

use crate::cpp_annotation_sites::{find_role_text, role_text};
use crate::cpp_tokens::is_token;
use crate::facts::TextRange;
use crate::syntax::{Field, Kind, SyntaxTree};
use vstd::prelude::*;
use vstd::string::StringSliceAdditionalSpecFns;

verus! {

broadcast use {SyntaxTree::parent_comes_first, SyntaxTree::children_come_later};

/// Whether a node is the body of a function or closure around a range, or holds it.
pub open spec fn has_body_around(tree: SyntaxTree, n: usize, range: TextRange) -> bool {
    (tree.kind_of(n) == Kind::FunctionDefinition || tree.kind_of(n) == Kind::LambdaExpression) && (
    match tree.child_in_role(n, Field::Body) {
        None => false,
        Some(body) => tree.range_of(body).covers(range),
    })
}

/// Whether a node does not evaluate its operands. The grammar reads `noexcept` of an
/// expression as a call.
pub open spec fn leaves_unevaluated(tree: SyntaxTree, n: usize) -> bool {
    match tree.kind_of(n) {
        Kind::SizeofExpression | Kind::Decltype | Kind::Noexcept | Kind::RequiresExpression => true,
        Kind::CallExpression => role_text(tree, n, Field::Function) == Some(
            "noexcept".spec_bytes(),
        ),
        _ => false,
    }
}

/// Whether nothing around a node, up to the function or closure whose body it stands
/// in, leaves it unevaluated.
pub open spec fn evaluated_from(tree: SyntaxTree, range: TextRange, at: usize) -> bool
    decreases at,
{
    match tree.parent_of(at) {
        None => true,
        Some(p) => has_body_around(tree, p, range) || (!leaves_unevaluated(tree, p)
            && evaluated_from(tree, range, p)),
    }
}

/// Whether a node may be evaluated. Operands that are known not to be evaluated
/// contribute no invocations; the body of a function or closure inside one is
/// considered on its own.
pub fn may_be_evaluated(tree: &SyntaxTree, n: usize) -> (r: bool)
    ensures
        r == evaluated_from(*tree, tree.range_of(n), n),
{
    let range = tree.range(n);
    let mut at: usize = n;
    loop
        invariant
            range == tree.range_of(n),
            evaluated_from(*tree, range, n) == evaluated_from(*tree, range, at),
        decreases at,
    {
        let p: usize = match tree.parent(at) {
            None => {
                return true;
            },
            Some(p) => p,
        };
        match tree.kind(p) {
            Kind::FunctionDefinition | Kind::LambdaExpression => {
                if let Some(body) = tree.child_by_field(p, Field::Body) {
                    if tree.range(body).contains_range(&range) {
                        return true;
                    }
                }
            },
            Kind::SizeofExpression | Kind::Decltype | Kind::Noexcept | Kind::RequiresExpression => {
                return false;
            },
            Kind::CallExpression => {
                if let Some(text) = find_role_text(tree, p, Field::Function) {
                    if is_token(text, "noexcept") {
                        return false;
                    }
                }
            },
            _ => {},
        }
        at = p;
    }
}

/// Whether what an expression does is recorded elsewhere, or it does nothing of its
/// own.
pub open spec fn is_examined(kind: Kind) -> bool {
    match kind {
        Kind::CallExpression
        | Kind::FieldExpression
        | Kind::LambdaExpression
        | Kind::ParenthesizedExpression
        | Kind::NewExpression
        | Kind::SizeofExpression
        | Kind::RequiresExpression => true,
        _ => false,
    }
}

/// The region of a node in which operators, conversions and implicit invocations are
/// not analyzed. Of a loop over a range that is its head, with the parenthesis that
/// closes it.
pub open spec fn unexamined_region(tree: SyntaxTree, n: usize) -> Option<TextRange> {
    if !evaluated_from(tree, tree.range_of(n), n) {
        None
    } else if tree.kind_of(n) == Kind::ForRangeLoop {
        match tree.first_of(tree.children_of(n), seq![Kind::CloseParen], Seq::empty()) {
            None => None,
            Some(close) => Some(
                TextRange {
                    end_byte: tree.range_of(close).end_byte,
                    end_line: tree.range_of(close).end_line,
                    end_column: tree.range_of(close).end_column,
                    ..tree.range_of(n)
                },
            ),
        }
    } else if !tree.node(n).expression || is_examined(tree.kind_of(n)) {
        None
    } else {
        Some(tree.range_of(n))
    }
}

/// The region of a node in which operators, conversions and implicit invocations are
/// not analyzed. Built-in operations may occur; this says what was not done, never
/// that a call is missing or was selected.
pub fn unexamined_invocation_region(tree: &SyntaxTree, n: usize) -> (r: Option<TextRange>)
    ensures
        r == unexamined_region(*tree, n),
{
    if !may_be_evaluated(tree, n) {
        return None;
    }
    let kind = tree.kind(n);
    if kind == Kind::ForRangeLoop {
        let want = [Kind::CloseParen];
        let stop: [Kind; 0] = [];
        assert(want@ =~= seq![Kind::CloseParen]);
        assert(stop@ =~= Seq::empty());
        return match tree.find_first(tree.children(n), &want, &stop) {
            None => None,
            Some(close) => {
                let range = tree.range(n);
                let end = tree.range(close);
                Some(
                    TextRange {
                        start_byte: range.start_byte,
                        end_byte: end.end_byte,
                        start_line: range.start_line,
                        end_line: end.end_line,
                        start_column: range.start_column,
                        end_column: end.end_column,
                    },
                )
            },
        };
    }
    let data = tree.data(n);
    if !data.expression || matches!(
        kind,
        Kind::CallExpression | Kind::FieldExpression | Kind::LambdaExpression
        | Kind::ParenthesizedExpression | Kind::NewExpression | Kind::SizeofExpression
        | Kind::RequiresExpression
    ) {
        return None;
    }
    Some(data.range)
}

/// The operands of `sizeof`, `decltype`, `noexcept` and `requires` are not evaluated.
pub proof fn operands_are_left_unevaluated(tree: SyntaxTree, n: usize, p: usize)
    requires
        tree.parent_of(n) == Some(p),
        tree.kind_of(p) == Kind::SizeofExpression || tree.kind_of(p) == Kind::Decltype
            || tree.kind_of(p) == Kind::Noexcept || tree.kind_of(p) == Kind::RequiresExpression
            || (tree.kind_of(p) == Kind::CallExpression && tree.child_in_role(
            p,
            Field::Function,
        ) is Some && tree.text_of(tree.child_in_role(p, Field::Function)->0) == Some(
            "noexcept".spec_bytes(),
        )),
    ensures
        !evaluated_from(tree, tree.range_of(n), n),
        unexamined_region(tree, n) is None,
{
}

/// What is around a node decides with it: a node is evaluated as its parent is, unless the
/// parent leaves its operands unevaluated or the node stands in the body of a function or a
/// closure, which is evaluated.
pub proof fn a_node_is_evaluated_with_its_parent(
    tree: SyntaxTree,
    range: TextRange,
    n: usize,
    p: usize,
)
    requires
        tree.parent_of(n) == Some(p),
    ensures
        (tree.kind_of(p) == Kind::FunctionDefinition || tree.kind_of(p) == Kind::LambdaExpression)
            && tree.child_in_role(p, Field::Body) is Some && tree.range_of(
            tree.child_in_role(p, Field::Body)->0,
        ).covers(range) ==> evaluated_from(tree, range, n),
        tree.kind_of(p) != Kind::FunctionDefinition && tree.kind_of(p) != Kind::LambdaExpression
            && tree.kind_of(p) != Kind::SizeofExpression && tree.kind_of(p) != Kind::Decltype
            && tree.kind_of(p) != Kind::Noexcept && tree.kind_of(p) != Kind::RequiresExpression
            && tree.kind_of(p) != Kind::CallExpression ==> evaluated_from(tree, range, n)
            == evaluated_from(tree, range, p),
        tree.parent_of(p) is None && tree.kind_of(p) == Kind::TranslationUnit ==> evaluated_from(
            tree,
            range,
            n,
        ),
{
    reveal_with_fuel(evaluated_from, 2);
}

/// Every expression that may be evaluated is reported as not analyzed, but for calls, member
/// accesses, closures, parentheses, constructions, `sizeof` and `requires`, and nothing else
/// is but the heads of loops over ranges.
pub proof fn other_expressions_are_not_examined(tree: SyntaxTree, n: usize)
    requires
        tree.kind_of(n) != Kind::ForRangeLoop,
    ensures
        ({
            let kind = tree.kind_of(n);
            let region = unexamined_region(tree, n);
            if evaluated_from(tree, tree.range_of(n), n) && tree.node(n).expression && kind
                != Kind::CallExpression && kind != Kind::FieldExpression && kind
                != Kind::LambdaExpression && kind != Kind::ParenthesizedExpression && kind
                != Kind::NewExpression && kind != Kind::SizeofExpression && kind
                != Kind::RequiresExpression {
                region == Some(tree.range_of(n))
            } else {
                region is None
            }
        }),
{
}

} // verus!
