use vstd::prelude::*;
use vstd::set_lib::set_int_range;
pub use crate::value::ParamType;
use crate::value::{BindValue, Literal, LiteralModel, ValueModel, copy_bytes, decode, decode_spec};

verus! {

/// One node of a statement tree, in pre-order: a positional placeholder
/// (`$1` has ordinal 1), a literal, or any other syntax element.
#[derive(Clone, Debug, PartialEq, Eq)]
pub enum Node {
    Placeholder(usize),
    Lit(Literal),
    Word(String),
}

pub enum NodeModel {
    Placeholder(nat),
    Lit(LiteralModel),
    Word(Seq<char>),
}

impl View for Node {
    type V = NodeModel;

    open spec fn view(&self) -> NodeModel {
        match self {
            Node::Placeholder(o) => NodeModel::Placeholder(*o as nat),
            Node::Lit(l) => NodeModel::Lit(l@),
            Node::Word(w) => NodeModel::Word(w@),
        }
    }
}

/// A result column: its name, type and wire format code.
#[derive(Clone, Debug, PartialEq, Eq)]
pub struct ColumnDescription {
    pub name: String,
    pub column_type: ParamType,
    pub format: u16,
}

#[derive(Clone, Copy, Debug, PartialEq, Eq, Structural)]
pub enum BindError {
    /// The placeholders of the tree do not match the parameter descriptors.
    MetadataMismatch,
    /// More values were supplied than parameters declared.
    ArityError,
    /// The value for this ordinal does not decode under its declared type.
    TypeMismatch(usize),
}

/// A parsed statement with its parameter types and result columns.
#[derive(Debug)]
pub struct PreparedStatement {
    pub query: Vec<Node>,
    pub parameters: Vec<ParamType>,
    pub description: Vec<ColumnDescription>,
}

/// The set of ordinals that the placeholders of `q` carry.
pub open spec fn ordinals(q: Seq<Node>) -> Set<int> {
    Set::new(
        |o: int|
            exists|i: int|
                0 <= i < q.len() && #[trigger] q[i] is Placeholder && q[i]->Placeholder_0 == o,
    )
}

/// Every placeholder carries an ordinal in `1..=n`, and each of those
/// ordinals occurs.
pub open spec fn placeholders_match(q: Seq<Node>, n: nat) -> bool {
    ordinals(q) == set_int_range(1, (n + 1) as int)
}

pub open spec fn values_model(values: Seq<BindValue>) -> Seq<ValueModel> {
    values.map_values(|v: BindValue| v@)
}

/// The value bound to ordinal `o`: omitted trailing values are null.
pub open spec fn arg(values: Seq<ValueModel>, o: int) -> ValueModel {
    if 1 <= o <= values.len() {
        values[o - 1]
    } else {
        ValueModel::Null
    }
}

/// What a node becomes under binding, or `None` where its value does not
/// decode.
pub open spec fn bound_node(n: Node, types: Seq<ParamType>, values: Seq<ValueModel>) -> Option<
    NodeModel,
> {
    match n {
        Node::Placeholder(o) => match decode_spec(types[o - 1], arg(values, o as int)) {
            Some(l) => Some(NodeModel::Lit(l)),
            None => None,
        },
        _ => Some(n@),
    }
}

/// What binding `values` into the tree `q` with parameter types `types`
/// returns.
pub open spec fn bind_result(
    q: Seq<Node>,
    types: Seq<ParamType>,
    values: Seq<ValueModel>,
    r: Result<Vec<Node>, BindError>,
) -> bool {
    if values.len() > types.len() {
        r == Err::<Vec<Node>, BindError>(BindError::ArityError)
    } else {
        match r {
            Ok(t) => t@.len() == q.len() && forall|i: int|
                0 <= i < q.len() ==> bound_node(#[trigger] q[i], types, values) == Some(t@[i]@),
            Err(e) => exists|i: int|
                0 <= i < q.len() && bound_node(#[trigger] q[i], types, values) is None && e
                    == BindError::TypeMismatch(q[i]->Placeholder_0) && forall|j: int|
                    0 <= j < i ==> bound_node(#[trigger] q[j], types, values) is Some,
        }
    }
}

fn copy_node(n: &Node) -> (r: Node)
    ensures
        r@ == n@,
        r == *n || !(n is Word),
{
    match n {
        Node::Placeholder(o) => Node::Placeholder(*o),
        Node::Lit(l) => Node::Lit(copy_literal(l)),
        Node::Word(w) => Node::Word(w.clone()),
    }
}

fn copy_literal(l: &Literal) -> (r: Literal)
    ensures
        r@ == l@,
{
    match l {
        Literal::Null => Literal::Null,
        Literal::Int(n) => Literal::Int(*n),
        Literal::Bool(b) => Literal::Bool(*b),
        Literal::Str(s) => Literal::Str(copy_bytes(s.as_slice())),
    }
}

impl PreparedStatement {
    pub open spec fn well_formed(&self) -> bool {
        placeholders_match(self.query@, self.parameters@.len())
    }

    /// Builds the record, provided the placeholders of `query` are exactly
    /// the ordinals `1..=parameters.len()`.
    pub fn new(query: Vec<Node>, parameters: Vec<ParamType>, description: Vec<ColumnDescription>) -> (r:
        Result<PreparedStatement, BindError>)
        ensures
            match r {
                Ok(p) => p.query == query && p.parameters == parameters && p.description
                    == description && p.well_formed(),
                Err(e) => e == BindError::MetadataMismatch && !placeholders_match(
                    query@,
                    parameters@.len(),
                ),
            },
    {
        let n = parameters.len();
        let mut seen: Vec<bool> = Vec::new();
        let mut k: usize = 0;
        while k < n
            invariant
                k <= n,
                seen@.len() == k,
                forall|j: int| 0 <= j < k ==> !seen@[j],
            decreases n - k,
        {
            seen.push(false);
            k = k + 1;
        }
        let mut i: usize = 0;
        while i < query.len()
            invariant
                i <= query@.len(),
                seen@.len() == n,
                n == parameters@.len(),
                forall|j: int|
                    0 <= j < i ==> (#[trigger] query@[j] is Placeholder) ==> 1
                        <= query@[j]->Placeholder_0 <= n,
                forall|o: int|
                    0 <= o < n ==> (#[trigger] seen@[o] <==> exists|j: int|
                        0 <= j < i && query@[j] == Node::Placeholder((o + 1) as usize)),
            decreases query@.len() - i,
        {
            match &query[i] {
                Node::Placeholder(o) => {
                    if *o == 0 || *o > n {
                        proof {
                            assert(!set_int_range(1, n + 1 as int).contains(*o as int));
                            assert(query@[i as int] == Node::Placeholder((*o as int) as usize));
                            assert(ordinals(query@).contains(*o as int));
                        }
                        return Err(BindError::MetadataMismatch);
                    }
                    seen.set(*o - 1, true);
                    proof {
                        assert forall|p: int| 0 <= p < n implies (#[trigger] seen@[p] <==> exists|j: int|
                            0 <= j < i + 1 && query@[j] == Node::Placeholder((p + 1) as usize)) by {
                            if p == *o - 1 {
                                assert(query@[i as int] == Node::Placeholder((p + 1) as usize));
                            }
                        }
                    }
                },
                _ => {},
            }
            i = i + 1;
        }
        let mut m: usize = 0;
        while m < n
            invariant
                m <= n,
                seen@.len() == n,
                n == parameters@.len(),
                forall|o: int| 0 <= o < m ==> #[trigger] seen@[o],
                forall|j: int|
                    0 <= j < query@.len() ==> (#[trigger] query@[j] is Placeholder) ==> 1
                        <= query@[j]->Placeholder_0 <= n,
                forall|o: int|
                    0 <= o < n ==> (#[trigger] seen@[o] <==> exists|j: int|
                        0 <= j < query@.len() && query@[j] == Node::Placeholder((o + 1) as usize)),
            decreases n - m,
        {
            if !seen[m] {
                proof {
                    assert(set_int_range(1, n + 1 as int).contains(m + 1));
                    assert(!ordinals(query@).contains(m + 1)) by {
                        if ordinals(query@).contains(m + 1) {
                            let j = choose|j: int|
                                0 <= j < query@.len() && #[trigger] query@[j] is Placeholder
                                    && query@[j]->Placeholder_0 == m + 1;
                            assert(query@[j] == Node::Placeholder(((m as int) + 1) as usize));
                        }
                    }
                }
                return Err(BindError::MetadataMismatch);
            }
            m = m + 1;
        }
        proof {
            assert(ordinals(query@) =~= set_int_range(1, n + 1 as int)) by {
                assert forall|o: int| ordinals(query@).contains(o) implies set_int_range(
                    1,
                    n + 1,
                ).contains(o) by {
                    let j = choose|j: int|
                        0 <= j < query@.len() && #[trigger] query@[j] is Placeholder
                            && query@[j]->Placeholder_0 == o;
                    assert(query@[j] is Placeholder);
                }
                assert forall|o: int| set_int_range(1, n + 1 as int).contains(o) implies ordinals(
                    query@,
                ).contains(o) by {
                    assert(seen@[o - 1]);
                }
            }
        }
        Ok(PreparedStatement { query, parameters, description })
    }

    /// The parameter types and the result columns.
    pub fn describe(&self) -> (r: (&Vec<ParamType>, &Vec<ColumnDescription>))
        ensures
            r.0 == &self.parameters,
            r.1 == &self.description,
    {
        (&self.parameters, &self.description)
    }

    #[verifier::rlimit(60)]
    /// Binds `values` (value `i` goes to ordinal `i + 1`; omitted trailing
    /// values are null) into a fresh copy of the tree. The stored tree is
    /// left as it is.
    pub fn bind(&self, values: Vec<BindValue>) -> (r: Result<Vec<Node>, BindError>)
        requires
            self.well_formed(),
        ensures
            bind_result(self.query@, self.parameters@, values_model(values@), r),
            r is Ok <==> (values@.len() <= self.parameters@.len() && forall|i: int|
                0 <= i < self.query@.len() ==> bound_node(
                    #[trigger] self.query@[i],
                    self.parameters@,
                    values_model(values@),
                ) is Some),
            r is Ok ==> forall|i: int|
                0 <= i < r->Ok_0@.len() ==> !(#[trigger] r->Ok_0@[i]@ is Placeholder),
    {
        let ghost vm = values_model(values@);
        let ghost q = self.query@;
        let ghost types = self.parameters@;
        if values.len() > self.parameters.len() {
            return Err(BindError::ArityError);
        }
        let null = BindValue::Null;
        let mut out: Vec<Node> = Vec::new();
        let mut i: usize = 0;
        while i < self.query.len()
            invariant
                self.well_formed(),
                q == self.query@,
                types == self.parameters@,
                vm == values_model(values@),
                values@.len() <= types.len(),
                null == BindValue::Null,
                i <= q.len(),
                out@.len() == i,
                forall|j: int| 0 <= j < i ==> bound_node(#[trigger] q[j], types, vm) == Some(out@[j]@),
            decreases q.len() - i,
        {
            let node = &self.query[i];
            match node {
                Node::Placeholder(o) => {
                    proof {
                        assert(q[i as int] is Placeholder);
                        assert(ordinals(q).contains(*o as int));
                        assert(set_int_range(1, types.len() + 1 as int).contains(*o as int));
                    }
                    proof {
                        assert(vm.len() == values@.len());
                    }
                    let t = self.parameters[*o - 1];
                    let ghost a = arg(vm, *o as int);
                    let decoded = if *o <= values.len() {
                        proof {
                            assert(vm[*o - 1] == values@[*o - 1]@);
                            assert(values@[*o - 1]@ == a);
                        }
                        decode(t, &values[*o - 1])
                    } else {
                        proof {
                            assert(null@ == a);
                        }
                        decode(t, &null)
                    };
                    proof {
                        assert(q[i as int] == Node::Placeholder(*o));
                        assert(t == types[*o - 1]);
                        assert(match decoded {
                            Some(l) => decode_spec(t, a) == Some(l@),
                            None => decode_spec(t, a) is None,
                        });
                    }
                    match decoded {
                        Some(l) => {
                            out.push(Node::Lit(l));
                            proof {
                                assert(bound_node(q[i as int], types, vm) == Some(out@[i as int]@));
                            }
                        },
                        None => {
                            proof {
                                assert(bound_node(q[i as int], types, vm) is None);
                                assert(forall|j: int| 0 <= j < i ==> bound_node(#[trigger] q[j], types, vm) is Some);
                            }
                            return Err(BindError::TypeMismatch(*o));
                        },
                    }
                },
                _ => {
                    out.push(copy_node(node));
                    proof {
                        assert(bound_node(q[i as int], types, vm) == Some(out@[i as int]@));
                    }
                },
            }
            i = i + 1;
        }
        proof {
            assert forall|j: int| 0 <= j < out@.len() implies !(#[trigger] out@[j]@ is Placeholder) by {
                assert(bound_node(q[j], types, vm) == Some(out@[j]@));
            }
        }
        Ok(out)
    }
}

} // verus!
