use vstd::prelude::*;
use crate::error::{SchemaError, SchemaErrorView};
use crate::plan::{arena_wf, node_wf, spec_inputs, Arena, ErrorState, PlanNode};
use crate::schema::{schema_wf, Schema, SpecField};
use crate::transform::{lemma_apply_transform_wf, spec_apply_transform};

verus! {

/// The resolver's result: a reference-like view of a schema that already
/// lives in the plan, or one freshly built by a transforming node.  Either
/// way the columns are the same; the distinction records provenance.
#[derive(Debug)]
pub enum SchemaView {
    /// The schema of a defining node, or the one a pass-through node
    /// borrows from its input.
    Borrowed(Schema),
    /// A schema freshly assembled by a map-function transform.
    Owned(Schema),
}

impl View for SchemaView {
    type V = Seq<SpecField>;

    open spec fn view(&self) -> Seq<SpecField> {
        match self {
            SchemaView::Borrowed(s) => s@,
            SchemaView::Owned(s) => s@,
        }
    }
}

impl SchemaView {
    pub fn as_schema(&self) -> (r: &Schema)
        ensures
            r@ == self@,
    {
        match self {
            SchemaView::Borrowed(s) => s,
            SchemaView::Owned(s) => s,
        }
    }

    pub fn into_schema(self) -> (r: Schema)
        ensures
            r@ == self@,
    {
        match self {
            SchemaView::Borrowed(s) => s,
            SchemaView::Owned(s) => s,
        }
    }
}

/// The output schema of node `i`, by the rules of every operator kind:
/// pass-through nodes take their single relevant input's schema, defining
/// nodes their stored schema, a map function transforms its input's
/// schema, and a deferred-error node yields its stored failure (once).
pub open spec fn spec_resolve(nodes: Seq<PlanNode>, i: int) -> Result<
    Seq<SpecField>,
    SchemaErrorView,
>
    decreases i,
    when 0 <= i < nodes.len() && arena_wf(nodes)
    via spec_resolve_dec
{
    match nodes[i] {
        PlanNode::Scan { file_info } => Ok(file_info.schema@),
        PlanNode::Union { inputs, .. } => spec_resolve(nodes, inputs@[0] as int),
        PlanNode::Cache { input } => spec_resolve(nodes, input as int),
        PlanNode::Sort { input } => spec_resolve(nodes, input as int),
        PlanNode::DataFrameScan { schema, .. } => Ok(schema@),
        PlanNode::Selection { input, .. } => spec_resolve(nodes, input as int),
        PlanNode::Projection { schema, .. } => Ok(schema@),
        PlanNode::Aggregate { schema, .. } => Ok(schema@),
        PlanNode::Join { schema, .. } => Ok(schema@),
        PlanNode::HStack { schema, .. } => Ok(schema@),
        PlanNode::Distinct { input } => spec_resolve(nodes, input as int),
        PlanNode::Sink { input } => spec_resolve(nodes, input as int),
        PlanNode::Slice { input, .. } => spec_resolve(nodes, input as int),
        PlanNode::MapFunction { input, transform } => match spec_resolve(nodes, input as int) {
            Ok(s) => spec_apply_transform(transform, s),
            Err(e) => Err(e),
        },
        PlanNode::Error { state } => match state {
            ErrorState::Pending(m) => Err(SchemaErrorView::Deferred(m@)),
            ErrorState::Consumed => Err(SchemaErrorView::ResolvedTwice),
        },
        PlanNode::ExtContext { schema, .. } => Ok(schema@),
        PlanNode::HConcat { schema, .. } => Ok(schema@),
        PlanNode::ExternalScan { schema } => Ok(schema@),
    }
}

#[via_fn]
proof fn spec_resolve_dec(nodes: Seq<PlanNode>, i: int) {
    assert(node_wf(nodes[i], i));
    lemma_inputs_below(nodes, i);
}

/// Every direct input of the node at `i` is an earlier index.
pub proof fn lemma_inputs_below(nodes: Seq<PlanNode>, i: int)
    requires
        arena_wf(nodes),
        0 <= i < nodes.len(),
    ensures
        match nodes[i] {
            PlanNode::Union { inputs, .. } => inputs@.len() > 0 && forall|k: int|
                0 <= k < inputs@.len() ==> (#[trigger] inputs@[k]) < i,
            PlanNode::HConcat { inputs, .. } => forall|k: int|
                0 <= k < inputs@.len() ==> (#[trigger] inputs@[k]) < i,
            PlanNode::Cache { input } => input < i,
            PlanNode::Sort { input } => input < i,
            PlanNode::Selection { input, .. } => input < i,
            PlanNode::Distinct { input } => input < i,
            PlanNode::Sink { input } => input < i,
            PlanNode::Slice { input, .. } => input < i,
            PlanNode::MapFunction { input, .. } => input < i,
            PlanNode::Projection { input, .. } => input < i,
            PlanNode::Aggregate { input, .. } => input < i,
            PlanNode::HStack { input, .. } => input < i,
            PlanNode::ExtContext { input, .. } => input < i,
            PlanNode::Join { input_left, input_right, .. } => input_left < i && input_right < i,
            _ => true,
        },
{
    assert(node_wf(nodes[i], i));
    match nodes[i] {
        PlanNode::Union { inputs, .. } => {
            assert forall|k: int| 0 <= k < inputs@.len() implies (#[trigger] inputs@[k]) < i by {
                assert(spec_inputs(nodes[i])[k] == inputs@[k]);
            }
        },
        PlanNode::HConcat { inputs, .. } => {
            assert forall|k: int| 0 <= k < inputs@.len() implies (#[trigger] inputs@[k]) < i by {
                assert(spec_inputs(nodes[i])[k] == inputs@[k]);
            }
        },
        PlanNode::Join { .. } => {
            assert(spec_inputs(nodes[i])[0] < i);
            assert(spec_inputs(nodes[i])[1] < i);
        },
        _ => {
            if spec_inputs(nodes[i]).len() > 0 {
                assert(spec_inputs(nodes[i])[0] < i);
            }
        },
    }
}

/// Whichever result it yields is well formed: every operator either stores
/// a well-formed schema, passes one through, or transforms one in a
/// uniqueness-preserving way.
pub proof fn lemma_resolve_wf(nodes: Seq<PlanNode>, i: int)
    requires
        arena_wf(nodes),
        0 <= i < nodes.len(),
        spec_resolve(nodes, i) is Ok,
    ensures
        schema_wf(spec_resolve(nodes, i)->Ok_0),
    decreases i,
{
    assert(node_wf(nodes[i], i));
    match nodes[i] {
        PlanNode::Union { inputs, .. } => {
            assert(spec_inputs(nodes[i])[0] == inputs@[0]);
            lemma_resolve_wf(nodes, inputs@[0] as int);
        },
        PlanNode::Cache { input } => {
            assert(spec_inputs(nodes[i])[0] == input);
            lemma_resolve_wf(nodes, input as int);
        },
        PlanNode::Sort { input } => {
            assert(spec_inputs(nodes[i])[0] == input);
            lemma_resolve_wf(nodes, input as int);
        },
        PlanNode::Selection { input, .. } => {
            assert(spec_inputs(nodes[i])[0] == input);
            lemma_resolve_wf(nodes, input as int);
        },
        PlanNode::Distinct { input } => {
            assert(spec_inputs(nodes[i])[0] == input);
            lemma_resolve_wf(nodes, input as int);
        },
        PlanNode::Sink { input } => {
            assert(spec_inputs(nodes[i])[0] == input);
            lemma_resolve_wf(nodes, input as int);
        },
        PlanNode::Slice { input, .. } => {
            assert(spec_inputs(nodes[i])[0] == input);
            lemma_resolve_wf(nodes, input as int);
        },
        PlanNode::MapFunction { input, transform } => {
            assert(spec_inputs(nodes[i])[0] == input);
            lemma_resolve_wf(nodes, input as int);
            let s = spec_resolve(nodes, input as int)->Ok_0;
            lemma_apply_transform_wf(transform, s);
        },
        _ => {},
    }
}

/// How the resolver may change a node: not at all, or by consuming the
/// pending failure of a deferred-error node.
pub open spec fn consumed_only(n_old: PlanNode, n_new: PlanNode) -> bool {
    n_new == n_old || (n_old matches PlanNode::Error { state: ErrorState::Pending(_) } && n_new
        == (PlanNode::Error { state: ErrorState::Consumed }))
}

/// Consuming an error cell touches no node structure, so the arena stays
/// well formed.
pub proof fn lemma_consumed_preserves_wf(a: Seq<PlanNode>, b: Seq<PlanNode>)
    requires
        arena_wf(a),
        a.len() == b.len(),
        forall|i: int| 0 <= i < a.len() ==> consumed_only(#[trigger] a[i], b[i]),
    ensures
        arena_wf(b),
{
    assert forall|i: int| 0 <= i < b.len() implies node_wf(#[trigger] b[i], i) by {
        assert(consumed_only(a[i], b[i]));
        assert(node_wf(a[i], i));
        if b[i] != a[i] {
            assert(b[i] == (PlanNode::Error { state: ErrorState::Consumed }));
            assert(spec_inputs(b[i]) =~= Seq::<usize>::empty());
        }
    }
}

/// A pass-through node's schema is exactly its relevant input's schema:
/// the formal core of the resolver's idempotence.  `spec_resolve` is a
/// function of the arena alone, and `Arena::schema` leaves the arena
/// untouched whenever it succeeds, so resolving a pass-through node twice
/// with no intervening mutation yields identical schemas.
pub proof fn lemma_resolve_pass_through(nodes: Seq<PlanNode>, i: int, c: int)
    requires
        arena_wf(nodes),
        0 <= i < nodes.len(),
        match nodes[i] {
            PlanNode::Cache { input } => c == input,
            PlanNode::Sort { input } => c == input,
            PlanNode::Selection { input, .. } => c == input,
            PlanNode::Distinct { input } => c == input,
            PlanNode::Sink { input } => c == input,
            PlanNode::Slice { input, .. } => c == input,
            PlanNode::Union { inputs, .. } => c == inputs@[0],
            _ => false,
        },
    ensures
        spec_resolve(nodes, i) == spec_resolve(nodes, c),
{
    lemma_inputs_below(nodes, i);
}

impl Arena {
    /// Resolve the output schema of `node`.
    ///
    /// On success the arena is untouched and the returned view holds the
    /// node's schema, well formed.  On failure the arena is unchanged
    /// except that the deferred-error node whose failure is being
    /// surfaced, if that is the error's source, has its one-shot cell
    /// consumed; asking that node again reports the double resolution.
    pub fn schema(&mut self, node: usize) -> (r: Result<SchemaView, SchemaError>)
        requires
            old(self).wf(),
            node < old(self)@.len(),
        ensures
            final(self)@.len() == old(self)@.len(),
            forall|i: int|
                0 <= i < old(self)@.len() ==> consumed_only(
                    #[trigger] old(self)@[i],
                    final(self)@[i],
                ),
            final(self).wf(),
            match r {
                Ok(v) => spec_resolve(old(self)@, node as int) == Ok::<
                    Seq<SpecField>,
                    SchemaErrorView,
                >(v@) && final(self)@ == old(self)@ && schema_wf(v@),
                Err(e) => spec_resolve(old(self)@, node as int) == Err::<
                    Seq<SpecField>,
                    SchemaErrorView,
                >(e@) && (!(e@ is Deferred) ==> final(self)@ == old(self)@),
            },
        decreases node,
    {
        proof {
            assert(node_wf(self@[node as int], node as int));
        }
        let n_ref = self.get(node);
        match n_ref {
            PlanNode::Scan { file_info } => Ok(SchemaView::Borrowed(file_info.schema.duplicate())),
            PlanNode::DataFrameScan { schema, .. } => Ok(
                SchemaView::Borrowed(schema.duplicate()),
            ),
            PlanNode::Projection { schema, .. } => Ok(SchemaView::Borrowed(schema.duplicate())),
            PlanNode::Aggregate { schema, .. } => Ok(SchemaView::Borrowed(schema.duplicate())),
            PlanNode::Join { schema, .. } => Ok(SchemaView::Borrowed(schema.duplicate())),
            PlanNode::HStack { schema, .. } => Ok(SchemaView::Borrowed(schema.duplicate())),
            PlanNode::ExtContext { schema, .. } => Ok(SchemaView::Borrowed(schema.duplicate())),
            PlanNode::HConcat { schema, .. } => Ok(SchemaView::Borrowed(schema.duplicate())),
            PlanNode::ExternalScan { schema } => Ok(SchemaView::Borrowed(schema.duplicate())),
            PlanNode::Union { inputs, .. } => {
                let first = inputs[0];
                proof {
                    assert(spec_inputs(self@[node as int])[0] == first);
                }
                self.schema(first)
            },
            PlanNode::Cache { input } => {
                let c = *input;
                proof {
                    assert(spec_inputs(self@[node as int])[0] == c);
                }
                self.schema(c)
            },
            PlanNode::Sort { input } => {
                let c = *input;
                proof {
                    assert(spec_inputs(self@[node as int])[0] == c);
                }
                self.schema(c)
            },
            PlanNode::Selection { input, .. } => {
                let c = *input;
                proof {
                    assert(spec_inputs(self@[node as int])[0] == c);
                }
                self.schema(c)
            },
            PlanNode::Distinct { input } => {
                let c = *input;
                proof {
                    assert(spec_inputs(self@[node as int])[0] == c);
                }
                self.schema(c)
            },
            PlanNode::Sink { input } => {
                let c = *input;
                proof {
                    assert(spec_inputs(self@[node as int])[0] == c);
                }
                self.schema(c)
            },
            PlanNode::Slice { input, .. } => {
                let c = *input;
                proof {
                    assert(spec_inputs(self@[node as int])[0] == c);
                }
                self.schema(c)
            },
            PlanNode::MapFunction { input, .. } => {
                let c = *input;
                proof {
                    assert(spec_inputs(self@[node as int])[0] == c);
                }
                match self.schema(c) {
                    Err(e) => Err(e),
                    Ok(v) => {
                        let n_again = self.get(node);
                        match n_again {
                            PlanNode::MapFunction { transform, .. } => {
                                match transform.apply(v.as_schema()) {
                                    Ok(out) => Ok(SchemaView::Owned(out)),
                                    Err(e) => Err(e),
                                }
                            },
                            _ => {
                                proof {
                                    assert(false);
                                }
                                Err(SchemaError::ResolvedTwice)
                            },
                        }
                    },
                }
            },
            PlanNode::Error { state } => {
                match state {
                    ErrorState::Pending(m) => {
                        let msg = m.clone();
                        self.set_error_consumed(node);
                        proof {
                            lemma_consumed_preserves_wf(old(self)@, self@);
                        }
                        Err(SchemaError::Deferred(msg))
                    },
                    ErrorState::Consumed => Err(SchemaError::ResolvedTwice),
                }
            },
        }
    }

}

} // verus!
