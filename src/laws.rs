use vstd::prelude::*;
use vstd::set_lib::lemma_int_range;
use crate::statement::{BindError, Node, NodeModel, ParamType, bind_result, bound_node, ordinals, placeholders_match};
use crate::value::{LiteralModel, ValueModel};

verus! {

/// A tree whose placeholders match `n` descriptors carries exactly `n`
/// distinct ordinals.
pub proof fn parameter_count(q: Seq<Node>, n: nat)
    requires
        placeholders_match(q, n),
    ensures
        ordinals(q).finite(),
        ordinals(q).len() == n,
{
    lemma_int_range(1, (n + 1) as int);
}

/// A descriptor count other than the number of distinct ordinals never
/// matches, so construction fails with a metadata mismatch.
pub proof fn count_mismatch_rejected(q: Seq<Node>, n: nat)
    requires
        ordinals(q).len() != n,
    ensures
        !placeholders_match(q, n),
{
    if placeholders_match(q, n) {
        parameter_count(q, n);
    }
}

/// Binding the same tree with the same values twice gives equal results.
pub proof fn bind_is_repeatable(
    q: Seq<Node>,
    types: Seq<ParamType>,
    values: Seq<ValueModel>,
    r1: Result<Vec<Node>, BindError>,
    r2: Result<Vec<Node>, BindError>,
)
    requires
        bind_result(q, types, values, r1),
        bind_result(q, types, values, r2),
    ensures
        r1 is Ok <==> r2 is Ok,
        r1 is Err ==> r1 == r2,
        r1 is Ok ==> r1->Ok_0@.len() == r2->Ok_0@.len() && forall|i: int|
            0 <= i < r1->Ok_0@.len() ==> #[trigger] r1->Ok_0@[i]@ == r2->Ok_0@[i]@,
{
    if values.len() <= types.len() {
        match (r1, r2) {
            (Ok(t1), Ok(t2)) => {
                assert forall|i: int| 0 <= i < t1@.len() implies #[trigger] t1@[i]@ == t2@[i]@ by {
                    assert(bound_node(q[i], types, values) == Some(t1@[i]@));
                }
            },
            (Ok(t1), Err(_)) => {
                let i = choose|i: int| 0 <= i < q.len() && bound_node(#[trigger] q[i], types, values) is None;
                assert(bound_node(q[i], types, values) == Some(t1@[i]@));
            },
            (Err(_), Ok(t2)) => {
                let i = choose|i: int| 0 <= i < q.len() && bound_node(#[trigger] q[i], types, values) is None;
                assert(bound_node(q[i], types, values) == Some(t2@[i]@));
            },
            (Err(e1), Err(e2)) => {
                let i1 = choose|i: int|
                    0 <= i < q.len() && bound_node(#[trigger] q[i], types, values) is None && e1
                        == BindError::TypeMismatch(q[i]->Placeholder_0) && forall|j: int|
                        0 <= j < i ==> bound_node(#[trigger] q[j], types, values) is Some;
                let i2 = choose|i: int|
                    0 <= i < q.len() && bound_node(#[trigger] q[i], types, values) is None && e2
                        == BindError::TypeMismatch(q[i]->Placeholder_0) && forall|j: int|
                        0 <= j < i ==> bound_node(#[trigger] q[j], types, values) is Some;
                if i1 < i2 {
                    assert(bound_node(q[i1], types, values) is Some);
                } else if i2 < i1 {
                    assert(bound_node(q[i2], types, values) is Some);
                }
            },
        }
    }
}

/// Two occurrences of one ordinal are bound to the same literal.
pub proof fn repeated_ordinal_same_literal(
    q: Seq<Node>,
    types: Seq<ParamType>,
    values: Seq<ValueModel>,
    r: Result<Vec<Node>, BindError>,
    i: int,
    j: int,
)
    requires
        bind_result(q, types, values, r),
        r is Ok,
        0 <= i < q.len(),
        0 <= j < q.len(),
        q[i] is Placeholder,
        q[i] == q[j],
    ensures
        r->Ok_0@[i]@ == r->Ok_0@[j]@,
        r->Ok_0@[i]@ is Lit,
{
    assert(bound_node(q[i], types, values) == Some(r->Ok_0@[i]@));
    assert(bound_node(q[j], types, values) == Some(r->Ok_0@[j]@));
}

/// An ordinal past the supplied values is bound to NULL.
pub proof fn omitted_value_is_null(
    q: Seq<Node>,
    types: Seq<ParamType>,
    values: Seq<ValueModel>,
    r: Result<Vec<Node>, BindError>,
    i: int,
)
    requires
        bind_result(q, types, values, r),
        r is Ok,
        0 <= i < q.len(),
        q[i] is Placeholder,
        q[i]->Placeholder_0 > values.len(),
    ensures
        r->Ok_0@[i]@ == NodeModel::Lit(LiteralModel::Null),
{
    assert(bound_node(q[i], types, values) == Some(r->Ok_0@[i]@));
}

} // verus!
